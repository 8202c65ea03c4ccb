//! In-memory keyword indexes: exact and prefix lookup, and fuzzy search.
use vstd::prelude::*;
use crate::dictionary::{
    copy_entries, copy_entry, copy_info, first_exact, spec_lookup_key, DictionaryInfo,
    MDictKeywordEntry,
};
use crate::error::{ErrorView, MdxError, Result};
use crate::hit::{hit_before, hit_lt, HitView, SearchHit};
use crate::index::{fuzzy_score, spec_fuzzy_score};
use crate::sorting::{
    insert_pos, insert_sorted, is_sorted_by, lemma_insert_pos, lemma_stable_sort,
    lemma_stable_sort_step, stable_sort,
};
use crate::text::{
    chars_eq, chars_of, occurs_at_exec, spec_str_lowercase, starts_with, str_lowercase, string_of,
    trim, trim_string, trimmed_chars,
};

verus! {

/// A store of keyword indexes, one per dictionary name.
pub trait IndexStore {
    fn put(&mut self, info: DictionaryInfo, entries: Vec<MDictKeywordEntry>) -> Result<()>;

    fn get_exact(&self, dictionary_name: &str, keyword: &str) -> Result<MDictKeywordEntry>;

    fn prefix_search(&self, dictionary_name: &str, prefix: &str, limit: usize) -> Result<
        Vec<MDictKeywordEntry>,
    >;

    fn delete_dictionary(&mut self, dictionary_name: &str) -> Result<()>;
}

/// A store for fuzzy keyword search, one index per dictionary name.
pub trait FuzzyIndexStore {
    fn put(&mut self, info: DictionaryInfo, entries: Vec<MDictKeywordEntry>) -> Result<()>;

    fn search(&self, dictionary_name: &str, query: &str, limit: usize) -> Result<Vec<SearchHit>>;
}

/// The index of one dictionary.
pub struct StoredIndex {
    pub info: DictionaryInfo,
    pub entries: Vec<MDictKeywordEntry>,
}

/// What a stored index holds.
pub open spec fn stored_value(s: StoredIndex) -> (DictionaryInfo, Seq<MDictKeywordEntry>) {
    (s.info, s.entries@)
}

/// The indexes by dictionary name (a later index of the same name wins).
pub open spec fn stored_map(s: Seq<StoredIndex>) -> Map<
    Seq<char>,
    (DictionaryInfo, Seq<MDictKeywordEntry>),
>
    decreases s.len(),
{
    if s.len() == 0 {
        Map::empty()
    } else {
        stored_map(s.drop_last()).insert(s.last().info.name@, stored_value(s.last()))
    }
}

/// No two indexes have the same name.
pub open spec fn unique_names(s: Seq<StoredIndex>) -> bool {
    forall|i: int, j: int|
        0 <= i < s.len() && 0 <= j < s.len() && i != j ==> (#[trigger] s[i]).info.name@ != (
        #[trigger] s[j]).info.name@
}

proof fn lemma_stored_map_get(s: Seq<StoredIndex>, i: int)
    requires
        unique_names(s),
        0 <= i < s.len(),
    ensures
        stored_map(s).contains_key(s[i].info.name@),
        stored_map(s)[s[i].info.name@] == stored_value(s[i]),
    decreases s.len(),
{
    if i < s.len() - 1 {
        assert(s.drop_last()[i] == s[i]);
        assert(unique_names(s.drop_last())) by {
            assert forall|a: int, b: int|
                0 <= a < s.len() - 1 && 0 <= b < s.len() - 1 && a != b implies (#[trigger] s.drop_last()[a]).info.name@
                != (#[trigger] s.drop_last()[b]).info.name@ by {
                assert(s.drop_last()[a] == s[a] && s.drop_last()[b] == s[b]);
            }
        }
        lemma_stored_map_get(s.drop_last(), i);
        assert(s[i].info.name@ != s[s.len() - 1].info.name@);
    }
}

proof fn lemma_stored_map_absent(s: Seq<StoredIndex>, n: Seq<char>)
    requires
        forall|i: int| 0 <= i < s.len() ==> (#[trigger] s[i]).info.name@ != n,
    ensures
        !stored_map(s).contains_key(n),
    decreases s.len(),
{
    if s.len() > 0 {
        assert forall|i: int| 0 <= i < s.len() - 1 implies (#[trigger] s.drop_last()[i]).info.name@
            != n by {
            assert(s.drop_last()[i] == s[i]);
        }
        lemma_stored_map_absent(s.drop_last(), n);
        assert(s.last() == s[s.len() - 1]);
    }
}

proof fn lemma_unique_drop_last(s: Seq<StoredIndex>)
    requires
        unique_names(s),
        s.len() > 0,
    ensures
        unique_names(s.drop_last()),
{
    assert forall|a: int, b: int|
        0 <= a < s.len() - 1 && 0 <= b < s.len() - 1 && a != b implies (#[trigger] s.drop_last()[a]).info.name@
        != (#[trigger] s.drop_last()[b]).info.name@ by {
        assert(s.drop_last()[a] == s[a] && s.drop_last()[b] == s[b]);
    }
}

proof fn lemma_stored_map_update(s: Seq<StoredIndex>, i: int, x: StoredIndex)
    requires
        unique_names(s),
        0 <= i < s.len(),
        x.info.name@ == s[i].info.name@,
    ensures
        stored_map(s.update(i, x)) == stored_map(s).insert(x.info.name@, stored_value(x)),
    decreases s.len(),
{
    let t = s.update(i, x);
    if i == s.len() - 1 {
        assert(t.drop_last() =~= s.drop_last());
        assert(stored_map(s.update(i, x)) =~= stored_map(s).insert(x.info.name@, stored_value(x)));
    } else {
        lemma_unique_drop_last(s);
        assert(t.drop_last() =~= s.drop_last().update(i, x));
        lemma_stored_map_update(s.drop_last(), i, x);
        assert(s[i].info.name@ != s[s.len() - 1].info.name@);
        assert(t.last() == s.last());
        assert(stored_map(t) =~= stored_map(s).insert(x.info.name@, stored_value(x)));
    }
}

proof fn lemma_stored_map_remove(s: Seq<StoredIndex>, i: int)
    requires
        unique_names(s),
        0 <= i < s.len(),
    ensures
        stored_map(s.remove(i)) == stored_map(s).remove(s[i].info.name@),
    decreases s.len(),
{
    let n = s[i].info.name@;
    if i == s.len() - 1 {
        assert(s.remove(i) =~= s.drop_last());
        assert forall|k: int| 0 <= k < s.len() - 1 implies (#[trigger] s.drop_last()[k]).info.name@
            != n by {
            assert(s.drop_last()[k] == s[k]);
        }
        lemma_stored_map_absent(s.drop_last(), n);
        assert(stored_map(s.remove(i)) =~= stored_map(s).remove(n));
    } else {
        lemma_unique_drop_last(s);
        lemma_stored_map_remove(s.drop_last(), i);
        assert(s.remove(i).drop_last() =~= s.drop_last().remove(i));
        assert(s.remove(i).last() == s.last());
        assert(s.last().info.name@ != n);
        assert(stored_map(s.remove(i)) =~= stored_map(s).remove(n));
    }
}

/// Position of the index named `n`, if any.
fn find_named(s: &Vec<StoredIndex>, n: &str) -> (r: Option<usize>)
    ensures
        r matches Some(i) ==> i < s@.len() && s@[i as int].info.name@ == n@,
        r is None ==> forall|i: int| 0 <= i < s@.len() ==> (#[trigger] s@[i]).info.name@ != n@,
{
    let key = String::from_str(n);
    let mut i: usize = 0;
    while i < s.len()
        invariant
            i <= s@.len(),
            key@ == n@,
            forall|k: int| 0 <= k < i ==> (#[trigger] s@[k]).info.name@ != n@,
        decreases s@.len() - i,
    {
        if s[i].info.name == key {
            return Some(i);
        }
        i = i + 1;
    }
    None
}

} // verus!

verus! {

/// Stores an index under its name, replacing one of the same name.
fn upsert(dicts: &mut Vec<StoredIndex>, x: StoredIndex)
    requires
        unique_names(old(dicts)@),
    ensures
        unique_names(final(dicts)@),
        stored_map(final(dicts)@) == stored_map(old(dicts)@).insert(x.info.name@, stored_value(x)),
{
    let ghost n = x.info.name@;
    match find_named(dicts, x.info.name.as_str()) {
        Some(i) => {
            proof {
                lemma_stored_map_update(dicts@, i as int, x);
            }
            let ghost old_s = dicts@;
            dicts.set(i, x);
            assert(dicts@ == old_s.update(i as int, x));
            assert(unique_names(dicts@)) by {
                assert forall|a: int, b: int|
                    0 <= a < dicts@.len() && 0 <= b < dicts@.len() && a != b implies (
                    #[trigger] dicts@[a]).info.name@ != (#[trigger] dicts@[b]).info.name@ by {
                    if a != i && b != i {
                        assert(dicts@[a] == old_s[a] && dicts@[b] == old_s[b]);
                    } else if a == i {
                        assert(dicts@[b] == old_s[b]);
                        assert(old_s[i as int].info.name@ == n);
                    } else {
                        assert(dicts@[a] == old_s[a]);
                        assert(old_s[i as int].info.name@ == n);
                    }
                }
            }
        },
        None => {
            let ghost old_s = dicts@;
            dicts.push(x);
            assert(dicts@.drop_last() =~= old_s);
            assert(unique_names(dicts@)) by {
                assert forall|a: int, b: int|
                    0 <= a < dicts@.len() && 0 <= b < dicts@.len() && a != b implies (
                    #[trigger] dicts@[a]).info.name@ != (#[trigger] dicts@[b]).info.name@ by {
                    if a < old_s.len() && b < old_s.len() {
                        assert(dicts@[a] == old_s[a] && dicts@[b] == old_s[b]);
                    } else if a < old_s.len() {
                        assert(dicts@[a] == old_s[a]);
                    } else {
                        assert(dicts@[b] == old_s[b]);
                    }
                }
            }
        },
    }
}

/// Removes the index of the given name, if any.
fn remove_named(dicts: &mut Vec<StoredIndex>, n: &str)
    requires
        unique_names(old(dicts)@),
    ensures
        unique_names(final(dicts)@),
        stored_map(final(dicts)@) == stored_map(old(dicts)@).remove(n@),
{
    match find_named(dicts, n) {
        Some(i) => {
            proof {
                lemma_stored_map_remove(dicts@, i as int);
            }
            let ghost old_s = dicts@;
            dicts.remove(i);
            assert(unique_names(dicts@)) by {
                assert forall|a: int, b: int|
                    0 <= a < dicts@.len() && 0 <= b < dicts@.len() && a != b implies (
                    #[trigger] dicts@[a]).info.name@ != (#[trigger] dicts@[b]).info.name@ by {
                    let a2 = if a < i {
                        a
                    } else {
                        a + 1
                    };
                    let b2 = if b < i {
                        b
                    } else {
                        b + 1
                    };
                    assert(dicts@[a] == old_s[a2] && dicts@[b] == old_s[b2]);
                }
            }
        },
        None => {
            proof {
                lemma_stored_map_absent(dicts@, n@);
                assert(stored_map(dicts@).remove(n@) =~= stored_map(dicts@));
            }
        },
    }
}

/// The entries whose lowercased lookup key starts with `p` (all when `p` is empty).
pub open spec fn prefix_hits(entries: Seq<MDictKeywordEntry>, p: Seq<char>) -> Seq<MDictKeywordEntry> {
    entries.filter(
        |e: MDictKeywordEntry| p.len() == 0 || starts_with(spec_str_lowercase(spec_lookup_key(e)), p),
    )
}

/// The first `limit` items, or all of them for a limit of 0.
pub open spec fn limited<T>(s: Seq<T>, limit: usize) -> Seq<T> {
    if limit > 0 && s.len() > limit {
        s.take(limit as int)
    } else {
        s
    }
}

/// The entry found by an exact lookup in a stored index.
pub open spec fn spec_get_exact(
    m: Map<Seq<char>, (DictionaryInfo, Seq<MDictKeywordEntry>)>,
    name: Seq<char>,
    keyword: Seq<char>,
) -> Option<MDictKeywordEntry> {
    if m.contains_key(name) {
        match first_exact(m[name].1, keyword, 0) {
            Some(i) => Some(m[name].1[i]),
            None => None,
        }
    } else {
        None
    }
}

/// Keyword indexes held in memory.
pub struct MemoryIndexStore {
    dicts: Vec<StoredIndex>,
}

impl View for MemoryIndexStore {
    type V = Map<Seq<char>, (DictionaryInfo, Seq<MDictKeywordEntry>)>;

    closed spec fn view(&self) -> Self::V {
        stored_map(self.dicts@)
    }
}

impl Default for MemoryIndexStore {
    /// An empty store.
    fn default() -> (r: Self)
        ensures
            r@ == Map::<Seq<char>, (DictionaryInfo, Seq<MDictKeywordEntry>)>::empty(),
    {
        MemoryIndexStore { dicts: Vec::new() }
    }
}

proof fn lemma_first_exact_in(entries: Seq<MDictKeywordEntry>, w: Seq<char>, i: int)
    requires
        0 <= i,
    ensures
        first_exact(entries, w, i) matches Some(k) ==> i <= k < entries.len(),
    decreases entries.len() - i,
{
    if i < entries.len() && spec_lookup_key(entries[i]) != w {
        lemma_first_exact_in(entries, w, i + 1);
    }
}

fn exact_position(entries: &Vec<MDictKeywordEntry>, keyword: &str) -> (r: Option<usize>)
    ensures
        r matches Some(i) ==> first_exact(entries@, keyword@, 0) == Some(i as int) && i
            < entries@.len(),
        r is None ==> first_exact(entries@, keyword@, 0) is None,
{
    let w = chars_of(keyword);
    let mut i: usize = 0;
    while i < entries.len()
        invariant
            i <= entries@.len(),
            w@ == keyword@,
            first_exact(entries@, keyword@, i as int) == first_exact(entries@, keyword@, 0),
        decreases entries@.len() - i,
    {
        let k = chars_of(entries[i].lookup_key());
        if chars_eq(k.as_slice(), w.as_slice()) {
            return Some(i);
        }
        i = i + 1;
    }
    None
}

fn index_miss(dictionary: &str, keyword: &str) -> (r: MdxError)
    ensures
        r@ == (ErrorView::IndexMiss { dictionary: dictionary@, keyword: keyword@ }),
{
    MdxError::IndexMiss {
        dictionary: String::from_str(dictionary),
        keyword: String::from_str(keyword),
    }
}

impl MemoryIndexStore {
    #[verifier::type_invariant]
    spec fn names_unique(&self) -> bool {
        unique_names(self.dicts@)
    }

    /// An empty store.
    pub fn new() -> (r: Self)
        ensures
            r@ == Map::<Seq<char>, (DictionaryInfo, Seq<MDictKeywordEntry>)>::empty(),
    {
        MemoryIndexStore { dicts: Vec::new() }
    }

    /// The summary stored for a dictionary.
    pub fn dictionary_info(&self, name: &str) -> (r: Option<&DictionaryInfo>)
        ensures
            r is Some <==> self@.contains_key(name@),
            r matches Some(i) ==> *i == self@[name@].0,
    {
        proof {
            use_type_invariant(self);
        }
        match find_named(&self.dicts, name) {
            Some(i) => {
                proof {
                    lemma_stored_map_get(self.dicts@, i as int);
                }
                Some(&self.dicts[i].info)
            },
            None => {
                proof {
                    lemma_stored_map_absent(self.dicts@, name@);
                }
                None
            },
        }
    }
}

impl IndexStore for MemoryIndexStore {
    /// Stores the entries of a dictionary under its name, replacing what was
    /// stored under that name; a blank name is refused.
    fn put(&mut self, info: DictionaryInfo, entries: Vec<MDictKeywordEntry>) -> (r: Result<()>)
        ensures
            r is Err <==> trim(info.name@).len() == 0,
            r matches Err(e) ==> e@ == ErrorView::InvalidInput("dictionary name is required"@)
                && final(self)@ == old(self)@,
            r is Ok ==> final(self)@ == old(self)@.insert(info.name@, (info, entries@)),
    {
        proof {
            use_type_invariant(&*self);
        }
        let t = trimmed_chars(info.name.as_str());
        if t.len() == 0 {
            return Err(MdxError::InvalidInput(String::from_str("dictionary name is required")));
        }
        let mut dicts = Vec::new();
        std::mem::swap(&mut dicts, &mut self.dicts);
        upsert(&mut dicts, StoredIndex { info, entries });
        self.dicts = dicts;
        Ok(())
    }

    /// The first entry stored for `dictionary_name` whose lookup key is `keyword`.
    fn get_exact(&self, dictionary_name: &str, keyword: &str) -> (r: Result<MDictKeywordEntry>)
        ensures
            match spec_get_exact(self@, dictionary_name@, keyword@) {
                Some(e) => r matches Ok(x) && x == e,
                None => r matches Err(e) && e@ == (ErrorView::IndexMiss {
                    dictionary: dictionary_name@,
                    keyword: keyword@,
                }),
            },
    {
        proof {
            use_type_invariant(self);
        }
        match find_named(&self.dicts, dictionary_name) {
            Some(d) => {
                proof {
                    lemma_stored_map_get(self.dicts@, d as int);
                }
                match exact_position(&self.dicts[d].entries, keyword) {
                    Some(i) => Ok(copy_entry(&self.dicts[d].entries[i])),
                    None => Err(index_miss(dictionary_name, keyword)),
                }
            },
            None => {
                proof {
                    lemma_stored_map_absent(self.dicts@, dictionary_name@);
                }
                Err(index_miss(dictionary_name, keyword))
            },
        }
    }

    /// The stored entries of a dictionary whose lowercased lookup key starts
    /// with the trimmed, lowercased prefix (every entry for a blank prefix), in
    /// order, at most `limit` of them unless `limit` is 0.
    fn prefix_search(&self, dictionary_name: &str, prefix: &str, limit: usize) -> (r: Result<
        Vec<MDictKeywordEntry>,
    >)
        ensures
            !self@.contains_key(dictionary_name@) ==> (r matches Err(e) && e@ == (
            ErrorView::IndexMiss { dictionary: dictionary_name@, keyword: prefix@ })),
            self@.contains_key(dictionary_name@) ==> {
                let p = spec_str_lowercase(trim(prefix@));
                let hits = limited(prefix_hits(self@[dictionary_name@].1, p), limit);
                if hits.len() == 0 {
                    r matches Err(e) && e@ == (ErrorView::IndexMiss {
                        dictionary: dictionary_name@,
                        keyword: p,
                    })
                } else {
                    r matches Ok(v) && v@ == hits
                }
            },
    {
        proof {
            use_type_invariant(self);
        }
        let d = match find_named(&self.dicts, dictionary_name) {
            Some(d) => d,
            None => {
                proof {
                    lemma_stored_map_absent(self.dicts@, dictionary_name@);
                }
                return Err(index_miss(dictionary_name, prefix));
            },
        };
        proof {
            lemma_stored_map_get(self.dicts@, d as int);
        }
        let entries = &self.dicts[d].entries;
        let tp = trim_string(prefix);
        let lp = str_lowercase(tp.as_str());
        let p = chars_of(lp.as_str());
        let ghost pv = p@;
        let ghost f = |e: MDictKeywordEntry|
            pv.len() == 0 || starts_with(spec_str_lowercase(spec_lookup_key(e)), pv);
        let mut results: Vec<MDictKeywordEntry> = Vec::new();
        let mut i: usize = 0;
        while i < entries.len() && !(limit > 0 && results.len() >= limit)
            invariant
                i <= entries@.len(),
                pv == p@,
                f == (|e: MDictKeywordEntry|
                    pv.len() == 0 || starts_with(spec_str_lowercase(spec_lookup_key(e)), pv)),
                results@ == entries@.take(i as int).filter(f),
                limit > 0 ==> results@.len() <= limit,
            decreases entries@.len() - i,
        {
            let ghost x = entries@[i as int];
            proof {
                reveal(Seq::filter);
                assert(entries@.take(i + 1).drop_last() =~= entries@.take(i as int));
                assert(entries@.take(i + 1).last() == x);
            }
            let key = str_lowercase(entries[i].lookup_key());
            let kc = chars_of(key.as_str());
            if p.len() == 0 || occurs_at_exec(kc.as_slice(), p.as_slice(), 0) {
                results.push(copy_entry(&entries[i]));
                assert(f(x));
            } else {
                assert(!f(x));
            }
            i = i + 1;
        }
        proof {
            let all = entries@;
            assert(all =~= all.take(i as int) + all.skip(i as int));
            Seq::<MDictKeywordEntry>::filter_distributes_over_add(
                all.take(i as int),
                all.skip(i as int),
                f,
            );
            if limit > 0 && results@.len() >= limit {
                assert(all.filter(f).take(limit as int) =~= results@);
            } else {
                assert(all.take(i as int) =~= all);
            }
        }
        assert(results@ == limited(entries@.filter(f), limit));
        if results.len() == 0 {
            let ps = string_of(p.as_slice());
            return Err(MdxError::IndexMiss {
                dictionary: String::from_str(dictionary_name),
                keyword: ps,
            });
        }
        Ok(results)
    }

    /// Forgets what is stored for a dictionary.
    fn delete_dictionary(&mut self, dictionary_name: &str) -> (r: Result<()>)
        ensures
            r is Ok,
            final(self)@ == old(self)@.remove(dictionary_name@),
    {
        proof {
            use_type_invariant(&*self);
        }
        let mut dicts = Vec::new();
        std::mem::swap(&mut dicts, &mut self.dicts);
        remove_named(&mut dicts, dictionary_name);
        self.dicts = dicts;
        Ok(())
    }
}

} // verus!

verus! {

/// The hits of a fuzzy search for `q` among `entries`, in entry order.
pub open spec fn fuzzy_hits(entries: Seq<MDictKeywordEntry>, q: Seq<char>) -> Seq<HitView>
    decreases entries.len(),
{
    if entries.len() == 0 {
        Seq::empty()
    } else {
        let rest = fuzzy_hits(entries.drop_last(), q);
        match spec_fuzzy_score(q, spec_lookup_key(entries.last())) {
            Some((score, source)) => rest.push(
                HitView { entry: entries.last(), score: score, source: source },
            ),
            None => rest,
        }
    }
}

/// What a list of hits holds.
pub open spec fn hit_views(v: Seq<SearchHit>) -> Seq<HitView> {
    v.map_values(|h: SearchHit| h@)
}

/// The answer to a fuzzy search for `query` in the entries stored under a name:
/// the hits for the trimmed query, best first, at most `limit` of them unless
/// `limit` is 0; `None` when the trimmed query is blank or nothing matches.
pub open spec fn spec_fuzzy_search(entries: Seq<MDictKeywordEntry>, query: Seq<char>, limit: usize) -> Option<Seq<HitView>> {
    let q = trim(query);
    let hits = fuzzy_hits(entries, q);
    if q.len() == 0 || hits.len() == 0 {
        None
    } else {
        Some(limited(stable_sort(hits, hit_lt()), limit))
    }
}

/// Fuzzy keyword indexes held in memory.
pub struct MemoryFuzzyIndexStore {
    dicts: Vec<StoredIndex>,
}

impl View for MemoryFuzzyIndexStore {
    type V = Map<Seq<char>, (DictionaryInfo, Seq<MDictKeywordEntry>)>;

    closed spec fn view(&self) -> Self::V {
        stored_map(self.dicts@)
    }
}

impl Default for MemoryFuzzyIndexStore {
    /// An empty store.
    fn default() -> (r: Self)
        ensures
            r@ == Map::<Seq<char>, (DictionaryInfo, Seq<MDictKeywordEntry>)>::empty(),
    {
        let r = MemoryFuzzyIndexStore { dicts: Vec::new() };
        assert(r@ =~= Map::<Seq<char>, (DictionaryInfo, Seq<MDictKeywordEntry>)>::empty());
        r
    }
}

/// Where `h` goes among hits sorted best first: after every hit that it does
/// not beat.
fn hit_insert_pos(sorted: &Vec<SearchHit>, h: &SearchHit) -> (r: usize)
    ensures
        r as int == insert_pos(hit_views(sorted@), h@, hit_lt(), 0),
{
    let ghost sv = hit_views(sorted@);
    let mut k: usize = 0;
    while k < sorted.len() && !hit_before(h, &sorted[k])
        invariant
            k <= sorted@.len(),
            sv == hit_views(sorted@),
            insert_pos(sv, h@, hit_lt(), k as int) == insert_pos(sv, h@, hit_lt(), 0),
        decreases sorted@.len() - k,
    {
        assert(sv[k as int] == sorted@[k as int]@);
        k = k + 1;
    }
    proof {
        if k < sorted@.len() {
            assert(sv[k as int] == sorted@[k as int]@);
        }
    }
    k
}

fn copy_hit(h: &SearchHit) -> (r: SearchHit)
    ensures
        r@ == h@,
{
    SearchHit { entry: copy_entry(&h.entry), score: h.score, source: h.source.clone() }
}

/// The hits sorted best first, keeping the order of hits that tie.
fn sort_hits(hits: &Vec<SearchHit>) -> (r: Vec<SearchHit>)
    ensures
        hit_views(r@) == stable_sort(hit_views(hits@), hit_lt()),
{
    let ghost hv = hit_views(hits@);
    let mut sorted: Vec<SearchHit> = Vec::new();
    let mut j: usize = 0;
    proof {
        assert(hv.take(0) =~= Seq::<HitView>::empty());
        assert(hit_views(sorted@) =~= Seq::<HitView>::empty());
    }
    while j < hits.len()
        invariant
            j <= hits@.len(),
            hv == hit_views(hits@),
            hit_views(sorted@) == stable_sort(hv.take(j as int), hit_lt()),
        decreases hits@.len() - j,
    {
        proof {
            lemma_stable_sort_step(hv, j as int, hit_lt());
        }
        let ghost before = hit_views(sorted@);
        let h = copy_hit(&hits[j]);
        assert(h@ == hv[j as int]);
        let p = hit_insert_pos(&sorted, &h);
        proof {
            lemma_insert_pos(before, h@, hit_lt(), 0);
        }
        sorted.insert(p, h);
        assert(hit_views(sorted@) =~= insert_sorted(before, hv[j as int], hit_lt()));
        j = j + 1;
    }
    assert(hv.take(hits@.len() as int) =~= hv);
    sorted
}

fn collect_hits(entries: &Vec<MDictKeywordEntry>, q: &str) -> (r: Vec<SearchHit>)
    ensures
        hit_views(r@) == fuzzy_hits(entries@, q@),
{
    let mut hits: Vec<SearchHit> = Vec::new();
    let mut i: usize = 0;
    proof {
        assert(entries@.take(0) =~= Seq::<MDictKeywordEntry>::empty());
        assert(hit_views(hits@) =~= Seq::<HitView>::empty());
    }
    while i < entries.len()
        invariant
            i <= entries@.len(),
            hit_views(hits@) == fuzzy_hits(entries@.take(i as int), q@),
        decreases entries@.len() - i,
    {
        let ghost before = hit_views(hits@);
        assert(entries@.take(i + 1).drop_last() =~= entries@.take(i as int));
        assert(entries@.take(i + 1).last() == entries@[i as int]);
        match fuzzy_score(q, entries[i].lookup_key()) {
            Some((score, source)) => {
                hits.push(SearchHit { entry: copy_entry(&entries[i]), score, source });
                assert(hit_views(hits@) =~= before.push(
                    HitView { entry: entries@[i as int], score: score, source: source@ },
                ));
            },
            None => {
                assert(hit_views(hits@) =~= before);
            },
        }
        i = i + 1;
    }
    assert(entries@.take(entries@.len() as int) =~= entries@);
    hits
}

impl MemoryFuzzyIndexStore {
    #[verifier::type_invariant]
    spec fn names_unique(&self) -> bool {
        unique_names(self.dicts@)
    }

    /// An empty store.
    pub fn new() -> (r: Self)
        ensures
            r@ == Map::<Seq<char>, (DictionaryInfo, Seq<MDictKeywordEntry>)>::empty(),
    {
        let r = MemoryFuzzyIndexStore { dicts: Vec::new() };
        assert(r@ =~= Map::<Seq<char>, (DictionaryInfo, Seq<MDictKeywordEntry>)>::empty());
        r
    }
}

impl FuzzyIndexStore for MemoryFuzzyIndexStore {
    /// Stores the entries of a dictionary under its name, replacing what was
    /// stored under that name; a blank name is refused.
    fn put(&mut self, info: DictionaryInfo, entries: Vec<MDictKeywordEntry>) -> (r: Result<()>)
        ensures
            r is Err <==> trim(info.name@).len() == 0,
            r matches Err(e) ==> e@ == ErrorView::InvalidInput("dictionary name is required"@)
                && final(self)@ == old(self)@,
            r is Ok ==> final(self)@ == old(self)@.insert(info.name@, (info, entries@)),
    {
        proof {
            use_type_invariant(&*self);
        }
        let t = trimmed_chars(info.name.as_str());
        if t.len() == 0 {
            return Err(MdxError::InvalidInput(String::from_str("dictionary name is required")));
        }
        let ghost old_map = stored_map(self.dicts@);
        let ghost name = info.name@;
        let ghost ev = (info, entries@);
        let mut dicts = Vec::new();
        std::mem::swap(&mut dicts, &mut self.dicts);
        upsert(&mut dicts, StoredIndex { info, entries });
        self.dicts = dicts;
        assert(self@ =~= old(self)@.insert(name, ev));
        Ok(())
    }

    /// The entries stored for a dictionary that match `query` (see
    /// [`spec_fuzzy_search`]), best first.
    fn search(&self, dictionary_name: &str, query: &str, limit: usize) -> (r: Result<Vec<SearchHit>>)
        ensures
            !self@.contains_key(dictionary_name@) ==> (r matches Err(e) && e@ == (
            ErrorView::IndexMiss { dictionary: dictionary_name@, keyword: query@ })),
            self@.contains_key(dictionary_name@) ==> match spec_fuzzy_search(
                self@[dictionary_name@].1,
                query@,
                limit,
            ) {
                Some(hits) => r matches Ok(v) && hit_views(v@) == hits,
                None => r matches Err(e) && e@ == (ErrorView::IndexMiss {
                    dictionary: dictionary_name@,
                    keyword: trim(query@),
                }),
            },
    {
        proof {
            use_type_invariant(self);
        }
        let d = match find_named(&self.dicts, dictionary_name) {
            Some(d) => d,
            None => {
                proof {
                    lemma_stored_map_absent(self.dicts@, dictionary_name@);
                }
                return Err(index_miss(dictionary_name, query));
            },
        };
        proof {
            lemma_stored_map_get(self.dicts@, d as int);
        }
        let entries = &self.dicts[d].entries;
        let qc = trimmed_chars(query);
        let q = string_of(qc.as_slice());
        if qc.len() == 0 {
            return Err(index_miss(dictionary_name, q.as_str()));
        }
        let hits = collect_hits(entries, q.as_str());
        if hits.len() == 0 {
            return Err(index_miss(dictionary_name, q.as_str()));
        }
        let mut sorted = sort_hits(&hits);
        proof {
            crate::hit::lemma_hit_order_strict();
            lemma_stable_sort(hit_views(hits@), hit_lt());
        }
        if limit > 0 && sorted.len() > limit {
            sorted.truncate(limit);
            assert(hit_views(sorted@) =~= limited(stable_sort(hit_views(hits@), hit_lt()), limit));
        }
        Ok(sorted)
    }
}

/// A fuzzy search answers its hits best first (higher scores first, and
/// among equal scores lookup keys in text order), at most `limit` of them
/// unless `limit` is 0.
pub proof fn lemma_fuzzy_search_sorted(entries: Seq<MDictKeywordEntry>, query: Seq<char>, limit: usize)
    ensures
        spec_fuzzy_search(entries, query, limit) matches Some(hits) ==> is_sorted_by(
            hits,
            hit_lt(),
        ) && (limit > 0 ==> hits.len() <= limit),
{
    let q = trim(query);
    let hits = fuzzy_hits(entries, q);
    crate::hit::lemma_hit_order_strict();
    lemma_stable_sort(hits, hit_lt());
    let s = stable_sort(hits, hit_lt());
    let l = limited(s, limit);
    assert forall|i: int, j: int| 0 <= i < j < l.len() implies !(hit_lt())(#[trigger] l[j], #[trigger] l[i]) by {
        assert(l[i] == s[i] && l[j] == s[j]);
    }
}

} // verus!

verus! {

proof fn lemma_first_exact_is_first(entries: Seq<MDictKeywordEntry>, w: Seq<char>, i: int)
    requires
        0 <= i,
    ensures
        first_exact(entries, w, i) matches Some(k) ==> i <= k < entries.len() && spec_lookup_key(
            entries[k],
        ) == w && forall|j: int| i <= j < k ==> spec_lookup_key(#[trigger] entries[j]) != w,
        first_exact(entries, w, i) is None ==> forall|j: int|
            i <= j < entries.len() ==> spec_lookup_key(#[trigger] entries[j]) != w,
    decreases entries.len() - i,
{
    if i < entries.len() && spec_lookup_key(entries[i]) != w {
        lemma_first_exact_is_first(entries, w, i + 1);
    }
}

/// After entries are stored under a name, an exact lookup there finds the
/// first of them whose lookup key is the keyword, and misses when none is.
pub proof fn lemma_put_then_get_exact(
    m: Map<Seq<char>, (DictionaryInfo, Seq<MDictKeywordEntry>)>,
    info: DictionaryInfo,
    entries: Seq<MDictKeywordEntry>,
    keyword: Seq<char>,
)
    ensures
        ({
            let found = spec_get_exact(m.insert(info.name@, (info, entries)), info.name@, keyword);
            &&& found matches Some(e) ==> exists|k: int|
                0 <= k < entries.len() && entries[k] == e && spec_lookup_key(e) == keyword
                    && forall|j: int| 0 <= j < k ==> spec_lookup_key(#[trigger] entries[j]) != keyword
            &&& found is None ==> forall|j: int|
                0 <= j < entries.len() ==> spec_lookup_key(#[trigger] entries[j]) != keyword
        }),
{
    lemma_first_exact_is_first(entries, keyword, 0);
}

/// After a dictionary's entries are deleted, no lookup finds anything there.
pub proof fn lemma_delete_then_get_exact(
    m: Map<Seq<char>, (DictionaryInfo, Seq<MDictKeywordEntry>)>,
    name: Seq<char>,
    keyword: Seq<char>,
)
    ensures
        spec_get_exact(m.remove(name), name, keyword) is None,
{
}

/// Every entry a prefix search answers starts with the prefix (lowercased),
/// they come in stored order, and there are at most `limit` of them unless
/// `limit` is 0.
pub proof fn lemma_prefix_hits_match(entries: Seq<MDictKeywordEntry>, p: Seq<char>, limit: usize)
    ensures
        ({
            let hits = limited(prefix_hits(entries, p), limit);
            &&& limit > 0 ==> hits.len() <= limit
            &&& forall|i: int|
                0 <= i < hits.len() ==> p.len() == 0 || starts_with(
                    spec_str_lowercase(spec_lookup_key(#[trigger] hits[i])),
                    p,
                )
        }),
{
    let f = |e: MDictKeywordEntry|
        p.len() == 0 || starts_with(spec_str_lowercase(spec_lookup_key(e)), p);
    let all = prefix_hits(entries, p);
    let hits = limited(all, limit);
    assert forall|i: int| 0 <= i < hits.len() implies p.len() == 0 || starts_with(
        spec_str_lowercase(spec_lookup_key(#[trigger] hits[i])),
        p,
    ) by {
        assert(hits[i] == all[i]);
        entries.lemma_filter_pred(f, i);
    }
}

} // verus!
