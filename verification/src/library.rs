//! A library of dictionaries by id, each with its companion MDD archives.
//!
//! Dictionaries can be registered ready-made, or by a spec that names their
//! files. Reading the files of a spec is left to the caller: [`DictionaryLibrary::plan_open`]
//! says whether a dictionary must be loaded and from which spec, and
//! [`DictionaryLibrary::install`] wires what was loaded together.
use vstd::prelude::*;
use std::sync::Arc;
use crate::asset::{texts_view, AssetResolver, DictionaryAssetSource, SourceSlot};
use crate::dictionary::{share, Dictionary, DictionaryView};
use crate::error::{ErrorView, MdxError, Result};
use crate::keyed::{
    distinct_keys, keyed_map, lemma_keyed_absent, lemma_keyed_get, lemma_keyed_push,
    lemma_keyed_update,
};
use crate::text::{trim, trimmed_chars};

verus! {

/// Where the files of a dictionary are: its MDX file and its MDD archives.
#[derive(Debug, Clone, PartialEq, Eq)]
pub struct DictionarySpec {
    pub id: String,
    pub mdx_path: String,
    pub mdd_paths: Vec<String>,
}

/// What a dictionary spec holds.
pub struct SpecView {
    pub id: Seq<char>,
    pub mdx_path: Seq<char>,
    pub mdd_paths: Seq<Seq<char>>,
}

impl View for DictionarySpec {
    type V = SpecView;

    open spec fn view(&self) -> SpecView {
        SpecView { id: self.id@, mdx_path: self.mdx_path@, mdd_paths: texts_view(self.mdd_paths@) }
    }
}

fn copy_texts(v: &Vec<String>) -> (r: Vec<String>)
    ensures
        texts_view(r@) == texts_view(v@),
{
    let mut out: Vec<String> = Vec::new();
    let mut i: usize = 0;
    while i < v.len()
        invariant
            i <= v@.len(),
            out@.len() == i,
            forall|j: int| 0 <= j < i ==> (#[trigger] out@[j])@ == v@[j]@,
        decreases v@.len() - i,
    {
        out.push(v[i].clone());
        i = i + 1;
    }
    assert(texts_view(out@) =~= texts_view(v@));
    out
}

fn copy_spec(s: &DictionarySpec) -> (r: DictionarySpec)
    ensures
        r@ == s@,
{
    DictionarySpec {
        id: s.id.clone(),
        mdx_path: s.mdx_path.clone(),
        mdd_paths: copy_texts(&s.mdd_paths),
    }
}

impl DictionarySpec {
    /// The spec of the dictionary `id` in the MDX file `mdx_path`, without
    /// MDD archives.
    pub fn new(id: &str, mdx_path: &str) -> (r: Self)
        ensures
            r@ == (SpecView { id: id@, mdx_path: mdx_path@, mdd_paths: Seq::empty() }),
    {
        let r = DictionarySpec {
            id: String::from_str(id),
            mdx_path: String::from_str(mdx_path),
            mdd_paths: Vec::new(),
        };
        assert(texts_view(r.mdd_paths@) =~= Seq::<Seq<char>>::empty());
        r
    }

    /// The spec with one more MDD archive, after the others.
    pub fn with_mdd(self, mdd_path: &str) -> (r: Self)
        ensures
            r@ == (SpecView { mdd_paths: self@.mdd_paths.push(mdd_path@), ..self@ }),
    {
        let mut paths = self.mdd_paths;
        let ghost before = paths@;
        paths.push(String::from_str(mdd_path));
        assert(texts_view(paths@) =~= texts_view(before).push(mdd_path@));
        DictionarySpec { id: self.id, mdx_path: self.mdx_path, mdd_paths: paths }
    }
}

/// What a library holds: specs, loaded dictionaries and their companion
/// archives, each by dictionary id.
pub struct LibraryView {
    pub specs: Map<Seq<char>, SpecView>,
    pub dictionaries: Map<Seq<char>, DictionaryView>,
    pub companions: Map<Seq<char>, Seq<DictionaryView>>,
}

/// The specs of a list, by id.
pub open spec fn spec_pairs(v: Seq<DictionarySpec>) -> Seq<(Seq<char>, SpecView)> {
    v.map_values(|s: DictionarySpec| (s.id@, s@))
}

/// The dictionaries of a list, by id.
pub open spec fn dictionary_pairs(v: Seq<(String, Dictionary)>) -> Seq<(Seq<char>, DictionaryView)> {
    v.map_values(|p: (String, Dictionary)| (p.0@, p.1@))
}

/// What a list of shared dictionaries holds.
pub open spec fn shared_views(v: Seq<Arc<Dictionary>>) -> Seq<DictionaryView> {
    v.map_values(|a: Arc<Dictionary>| (*a)@)
}

/// The companion archives of a list, by id.
pub open spec fn companion_pairs(v: Seq<(String, Vec<Arc<Dictionary>>)>) -> Seq<
    (Seq<char>, Seq<DictionaryView>),
> {
    v.map_values(|p: (String, Vec<Arc<Dictionary>>)| (p.0@, shared_views(p.1@)))
}

/// What opening a dictionary needs.
pub enum OpenPlan {
    /// The dictionary is loaded.
    Ready,
    /// The dictionary must be loaded from the files of this spec, then installed.
    Load(DictionarySpec),
    /// No dictionary and no spec has that id.
    Missing,
}

/// Dictionaries by id, loaded or registered by spec.
pub struct DictionaryLibrary {
    specs: Vec<DictionarySpec>,
    dictionaries: Vec<(String, Dictionary)>,
    companions: Vec<(String, Vec<Arc<Dictionary>>)>,
}

impl View for DictionaryLibrary {
    type V = LibraryView;

    closed spec fn view(&self) -> LibraryView {
        LibraryView {
            specs: keyed_map(spec_pairs(self.specs@)),
            dictionaries: keyed_map(dictionary_pairs(self.dictionaries@)),
            companions: keyed_map(companion_pairs(self.companions@)),
        }
    }
}

/// The empty library.
pub open spec fn empty_library() -> LibraryView {
    LibraryView { specs: Map::empty(), dictionaries: Map::empty(), companions: Map::empty() }
}

impl Default for DictionaryLibrary {
    /// An empty library.
    fn default() -> (r: Self)
        ensures
            r@ == empty_library(),
    {
        DictionaryLibrary::new()
    }
}

fn find_spec(v: &Vec<DictionarySpec>, id: &str) -> (r: Option<usize>)
    ensures
        r matches Some(i) ==> i < v@.len() && v@[i as int].id@ == id@,
        r is None ==> forall|i: int| 0 <= i < v@.len() ==> (#[trigger] spec_pairs(v@)[i]).0 != id@,
{
    let key = String::from_str(id);
    let mut i: usize = 0;
    while i < v.len()
        invariant
            i <= v@.len(),
            key@ == id@,
            forall|k: int| 0 <= k < i ==> (#[trigger] v@[k]).id@ != id@,
        decreases v@.len() - i,
    {
        if v[i].id == key {
            return Some(i);
        }
        i = i + 1;
    }
    assert forall|k: int| 0 <= k < v@.len() implies (#[trigger] spec_pairs(v@)[k]).0 != id@ by {
        assert(spec_pairs(v@)[k].0 == v@[k].id@);
    }
    None
}

fn find_dictionary(v: &Vec<(String, Dictionary)>, id: &str) -> (r: Option<usize>)
    ensures
        r matches Some(i) ==> i < v@.len() && v@[i as int].0@ == id@,
        r is None ==> forall|i: int|
            0 <= i < v@.len() ==> (#[trigger] dictionary_pairs(v@)[i]).0 != id@,
{
    let key = String::from_str(id);
    let mut i: usize = 0;
    while i < v.len()
        invariant
            i <= v@.len(),
            key@ == id@,
            forall|k: int| 0 <= k < i ==> (#[trigger] v@[k]).0@ != id@,
        decreases v@.len() - i,
    {
        if v[i].0 == key {
            return Some(i);
        }
        i = i + 1;
    }
    assert forall|k: int| 0 <= k < v@.len() implies (#[trigger] dictionary_pairs(v@)[k]).0
        != id@ by {
        assert(dictionary_pairs(v@)[k].0 == v@[k].0@);
    }
    None
}

fn find_companions(v: &Vec<(String, Vec<Arc<Dictionary>>)>, id: &str) -> (r: Option<usize>)
    ensures
        r matches Some(i) ==> i < v@.len() && v@[i as int].0@ == id@,
        r is None ==> forall|i: int|
            0 <= i < v@.len() ==> (#[trigger] companion_pairs(v@)[i]).0 != id@,
{
    let key = String::from_str(id);
    let mut i: usize = 0;
    while i < v.len()
        invariant
            i <= v@.len(),
            key@ == id@,
            forall|k: int| 0 <= k < i ==> (#[trigger] v@[k]).0@ != id@,
        decreases v@.len() - i,
    {
        if v[i].0 == key {
            return Some(i);
        }
        i = i + 1;
    }
    assert forall|k: int| 0 <= k < v@.len() implies (#[trigger] companion_pairs(v@)[k]).0
        != id@ by {
        assert(companion_pairs(v@)[k].0 == v@[k].0@);
    }
    None
}

fn upsert_spec(v: &mut Vec<DictionarySpec>, s: DictionarySpec)
    requires
        distinct_keys(spec_pairs(old(v)@)),
    ensures
        distinct_keys(spec_pairs(final(v)@)),
        keyed_map(spec_pairs(final(v)@)) == keyed_map(spec_pairs(old(v)@)).insert(s.id@, s@),
{
    let ghost before = v@;
    let ghost x = (s.id@, s@);
    match find_spec(v, s.id.as_str()) {
        Some(i) => {
            assert(spec_pairs(before)[i as int].0 == s.id@);
            proof {
                lemma_keyed_update(spec_pairs(before), i as int, x);
            }
            v.set(i, s);
            assert(spec_pairs(v@) =~= spec_pairs(before).update(i as int, x));
        },
        None => {
            proof {
                lemma_keyed_push(spec_pairs(before), x);
            }
            v.push(s);
            assert(spec_pairs(v@) =~= spec_pairs(before).push(x));
        },
    }
}

fn upsert_dictionary(v: &mut Vec<(String, Dictionary)>, id: &str, d: Dictionary)
    requires
        distinct_keys(dictionary_pairs(old(v)@)),
    ensures
        distinct_keys(dictionary_pairs(final(v)@)),
        keyed_map(dictionary_pairs(final(v)@)) == keyed_map(dictionary_pairs(old(v)@)).insert(
            id@,
            d@,
        ),
{
    let ghost before = v@;
    let ghost x = (id@, d@);
    let key = String::from_str(id);
    match find_dictionary(v, id) {
        Some(i) => {
            assert(dictionary_pairs(before)[i as int].0 == id@);
            proof {
                lemma_keyed_update(dictionary_pairs(before), i as int, x);
            }
            v.set(i, (key, d));
            assert(dictionary_pairs(v@) =~= dictionary_pairs(before).update(i as int, x));
        },
        None => {
            proof {
                lemma_keyed_push(dictionary_pairs(before), x);
            }
            v.push((key, d));
            assert(dictionary_pairs(v@) =~= dictionary_pairs(before).push(x));
        },
    }
}

fn upsert_companions(v: &mut Vec<(String, Vec<Arc<Dictionary>>)>, id: &str, c: Vec<Arc<Dictionary>>)
    requires
        distinct_keys(companion_pairs(old(v)@)),
    ensures
        distinct_keys(companion_pairs(final(v)@)),
        keyed_map(companion_pairs(final(v)@)) == keyed_map(companion_pairs(old(v)@)).insert(
            id@,
            shared_views(c@),
        ),
{
    let ghost before = v@;
    let ghost x = (id@, shared_views(c@));
    let key = String::from_str(id);
    match find_companions(v, id) {
        Some(i) => {
            assert(companion_pairs(before)[i as int].0 == id@);
            proof {
                lemma_keyed_update(companion_pairs(before), i as int, x);
            }
            v.set(i, (key, c));
            assert(companion_pairs(v@) =~= companion_pairs(before).update(i as int, x));
        },
        None => {
            proof {
                lemma_keyed_push(companion_pairs(before), x);
            }
            v.push((key, c));
            assert(companion_pairs(v@) =~= companion_pairs(before).push(x));
        },
    }
}

impl DictionaryLibrary {
    #[verifier::type_invariant]
    spec fn ids_distinct(&self) -> bool {
        &&& distinct_keys(spec_pairs(self.specs@))
        &&& distinct_keys(dictionary_pairs(self.dictionaries@))
        &&& distinct_keys(companion_pairs(self.companions@))
    }

    /// An empty library.
    pub fn new() -> (r: Self)
        ensures
            r@ == empty_library(),
    {
        let r = DictionaryLibrary { specs: Vec::new(), dictionaries: Vec::new(), companions: Vec::new() };
        assert(spec_pairs(r.specs@) =~= Seq::<(Seq<char>, SpecView)>::empty());
        assert(dictionary_pairs(r.dictionaries@) =~= Seq::<(Seq<char>, DictionaryView)>::empty());
        assert(companion_pairs(r.companions@) =~= Seq::<(Seq<char>, Seq<DictionaryView>)>::empty());
        r
    }

    /// Registers the files of a dictionary under its id, replacing a spec of
    /// the same id; a blank id and an empty MDX path are refused.
    pub fn register(&mut self, spec: DictionarySpec) -> (r: Result<()>)
        ensures
            trim(spec.id@).len() == 0 ==> (r matches Err(e) && e@ == ErrorView::InvalidInput(
                "dictionary id is required"@,
            )),
            trim(spec.id@).len() != 0 && spec.mdx_path@.len() == 0 ==> (r matches Err(e) && e@
                == ErrorView::InvalidInput("mdx path is required"@)),
            r is Err ==> final(self)@ == old(self)@,
            r is Ok <==> trim(spec.id@).len() != 0 && spec.mdx_path@.len() != 0,
            r is Ok ==> final(self)@ == (LibraryView {
                specs: old(self)@.specs.insert(spec.id@, spec@),
                ..old(self)@
            }),
    {
        proof {
            use_type_invariant(&*self);
        }
        if trimmed_chars(spec.id.as_str()).len() == 0 {
            return Err(MdxError::InvalidInput(String::from_str("dictionary id is required")));
        }
        if spec.mdx_path.as_str().unicode_len() == 0 {
            return Err(MdxError::InvalidInput(String::from_str("mdx path is required")));
        }
        let mut specs = Vec::new();
        std::mem::swap(&mut specs, &mut self.specs);
        upsert_spec(&mut specs, spec);
        self.specs = specs;
        Ok(())
    }

    /// Registers a loaded dictionary under `id`, replacing one of the same
    /// id; a blank id is refused.
    pub fn register_dictionary(&mut self, id: &str, dictionary: Dictionary) -> (r: Result<()>)
        ensures
            r is Err <==> trim(id@).len() == 0,
            r matches Err(e) ==> e@ == ErrorView::InvalidInput("dictionary id is required"@)
                && final(self)@ == old(self)@,
            r is Ok ==> final(self)@ == (LibraryView {
                dictionaries: old(self)@.dictionaries.insert(id@, dictionary@),
                ..old(self)@
            }),
    {
        proof {
            use_type_invariant(&*self);
        }
        if trimmed_chars(id).len() == 0 {
            return Err(MdxError::InvalidInput(String::from_str("dictionary id is required")));
        }
        let mut dictionaries = Vec::new();
        std::mem::swap(&mut dictionaries, &mut self.dictionaries);
        upsert_dictionary(&mut dictionaries, id, dictionary);
        self.dictionaries = dictionaries;
        Ok(())
    }

    /// What opening `id` needs: nothing when it is loaded, loading from its
    /// spec when only that is registered.
    pub fn plan_open(&self, id: &str) -> (r: OpenPlan)
        ensures
            self@.dictionaries.contains_key(id@) ==> r is Ready,
            !self@.dictionaries.contains_key(id@) && self@.specs.contains_key(id@) ==> (r matches OpenPlan::Load(s) && s@ == self@.specs[id@]),
            !self@.dictionaries.contains_key(id@) && !self@.specs.contains_key(id@) ==> r is Missing,
    {
        proof {
            use_type_invariant(self);
        }
        match find_dictionary(&self.dictionaries, id) {
            Some(i) => {
                proof {
                    lemma_keyed_get(dictionary_pairs(self.dictionaries@), i as int);
                }
                return OpenPlan::Ready;
            },
            None => {
                proof {
                    lemma_keyed_absent(dictionary_pairs(self.dictionaries@), id@);
                }
            },
        }
        match find_spec(&self.specs, id) {
            Some(i) => {
                proof {
                    lemma_keyed_get(spec_pairs(self.specs@), i as int);
                }
                OpenPlan::Load(copy_spec(&self.specs[i]))
            },
            None => {
                proof {
                    lemma_keyed_absent(spec_pairs(self.specs@), id@);
                }
                OpenPlan::Missing
            },
        }
    }

    /// Installs a dictionary loaded for `id` with its companion archives: each
    /// archive becomes a source of `resolver` (after the ones it has, in
    /// order), the resolver is attached to the dictionary, and both are kept
    /// under `id`.
    pub fn install(
        &mut self,
        id: &str,
        dictionary: Dictionary,
        resolver: AssetResolver,
        companions: Vec<Dictionary>,
    )
        ensures
            exists|wired: AssetResolver|
                {
                    &&& wired.source_count() == resolver.source_count() + companions@.len()
                    &&& forall|i: int|
                        0 <= i < resolver.source_count() ==> #[trigger] wired.sources()[i]
                            == resolver.sources()[i]
                    &&& forall|k: int|
                        0 <= k < companions@.len() ==> (#[trigger] wired.sources()[resolver.source_count() + k]
                            matches SourceSlot::Archive(a) && a@ == companions@[k]@)
                    &&& final(self)@ == (LibraryView {
                        dictionaries: old(self)@.dictionaries.insert(
                            id@,
                            DictionaryView { asset_resolver: Some(wired), ..dictionary@ },
                        ),
                        companions: old(self)@.companions.insert(
                            id@,
                            companions@.map_values(|d: Dictionary| d@),
                        ),
                        ..old(self)@
                    })
                },
    {
        proof {
            use_type_invariant(&*self);
        }
        let ghost given = resolver.sources();
        let mut resolver = resolver;
        let mut rest = companions;
        let ghost cv = rest@.map_values(|d: Dictionary| d@);
        let mut shared: Vec<Arc<Dictionary>> = Vec::new();
        let n: usize = rest.len();
        // The archives are taken out of their vector from the back, twice,
        // which hands them over in their own order.
        let mut reversed: Vec<Dictionary> = Vec::new();
        while rest.len() > 0
            invariant
                rest@.len() + reversed@.len() == n,
                n == cv.len(),
                forall|k: int| 0 <= k < rest@.len() ==> (#[trigger] rest@[k])@ == cv[k],
                forall|k: int|
                    0 <= k < reversed@.len() ==> (#[trigger] reversed@[k])@ == cv[n - 1 - k],
            decreases rest@.len(),
        {
            let d = rest.pop().unwrap();
            reversed.push(d);
        }
        while reversed.len() > 0
            invariant
                reversed@.len() + shared@.len() == n,
                n == cv.len(),
                forall|k: int|
                    0 <= k < reversed@.len() ==> (#[trigger] reversed@[k])@ == cv[n - 1 - k],
                forall|k: int| 0 <= k < shared@.len() ==> (*#[trigger] shared@[k])@ == cv[k],
                resolver.source_count() == given.len() + shared@.len(),
                forall|i: int| 0 <= i < given.len() ==> #[trigger] resolver.sources()[i] == given[i],
                forall|k: int|
                    0 <= k < shared@.len() ==> (#[trigger] resolver.sources()[given.len() + k]
                        matches SourceSlot::Archive(a) && a@ == cv[k]),
            decreases reversed@.len(),
        {
            let d = reversed.pop().unwrap();
            let a = Arc::new(d);
            let ghost before = resolver.sources();
            let archive = DictionaryAssetSource::new(share(&a));
            let ghost added = archive;
            resolver.add_archive(archive);
            assert(resolver.sources()[given.len() + shared@.len() as int] == SourceSlot::Archive(added));
            shared.push(a);
        }
        assert(shared_views(shared@) =~= cv);
        let ghost wired = resolver;
        let mut dictionary = dictionary;
        dictionary.set_asset_resolver(resolver);
        let mut all_companions = Vec::new();
        std::mem::swap(&mut all_companions, &mut self.companions);
        upsert_companions(&mut all_companions, id, shared);
        self.companions = all_companions;
        let mut dictionaries = Vec::new();
        std::mem::swap(&mut dictionaries, &mut self.dictionaries);
        upsert_dictionary(&mut dictionaries, id, dictionary);
        self.dictionaries = dictionaries;
    }

    /// The dictionary loaded under `id`. One registered only by spec is
    /// loaded first (see [`DictionaryLibrary::plan_open`]); until then, and for
    /// an unknown id, the answer is `DictionaryNotFound`.
    pub fn open(&mut self, id: &str) -> (r: Result<&Dictionary>)
        ensures
            final(self)@ == old(self)@,
            old(self)@.dictionaries.contains_key(id@) ==> (r matches Ok(d) && d@
                == old(self)@.dictionaries[id@]),
            !old(self)@.dictionaries.contains_key(id@) ==> (r matches Err(e) && e@
                == ErrorView::DictionaryNotFound(id@)),
    {
        match self.get(id) {
            Some(d) => Ok(d),
            None => Err(MdxError::DictionaryNotFound(String::from_str(id))),
        }
    }

    /// The dictionary loaded under `id`, if any.
    pub fn get(&self, id: &str) -> (r: Option<&Dictionary>)
        ensures
            r is Some <==> self@.dictionaries.contains_key(id@),
            r matches Some(d) ==> d@ == self@.dictionaries[id@],
    {
        proof {
            use_type_invariant(self);
        }
        match find_dictionary(&self.dictionaries, id) {
            Some(i) => {
                proof {
                    lemma_keyed_get(dictionary_pairs(self.dictionaries@), i as int);
                }
                Some(&self.dictionaries[i].1)
            },
            None => {
                proof {
                    lemma_keyed_absent(dictionary_pairs(self.dictionaries@), id@);
                }
                None
            },
        }
    }

    /// The companion archives installed with `id` (none for an unknown id).
    pub fn companions(&self, id: &str) -> (r: &[Arc<Dictionary>])
        ensures
            self@.companions.contains_key(id@) ==> shared_views(r@) == self@.companions[id@],
            !self@.companions.contains_key(id@) ==> r@.len() == 0,
    {
        proof {
            use_type_invariant(self);
        }
        match find_companions(&self.companions, id) {
            Some(i) => {
                proof {
                    lemma_keyed_get(companion_pairs(self.companions@), i as int);
                }
                self.companions[i].1.as_slice()
            },
            None => {
                proof {
                    lemma_keyed_absent(companion_pairs(self.companions@), id@);
                }
                &[]
            },
        }
    }

    /// The registered specs, each id once.
    pub fn specs(&self) -> (r: &[DictionarySpec])
        ensures
            distinct_keys(spec_pairs(r@)),
            keyed_map(spec_pairs(r@)) == self@.specs,
    {
        proof {
            use_type_invariant(self);
        }
        self.specs.as_slice()
    }
}

/// A dictionary registered under an id is what opening that id answers, and
/// every other id answers as before.
pub proof fn lemma_registered_dictionary_opens(
    v: LibraryView,
    id: Seq<char>,
    d: DictionaryView,
    other: Seq<char>,
)
    ensures
        ({
            let w = LibraryView { dictionaries: v.dictionaries.insert(id, d), ..v };
            &&& w.dictionaries.contains_key(id) && w.dictionaries[id] == d
            &&& other != id ==> w.dictionaries.contains_key(other) == v.dictionaries.contains_key(
                other,
            ) && w.dictionaries[other] == v.dictionaries[other]
        }),
{
}

} // verus!
