//! Asset references: normalization, lookup candidates, extraction from
//! records and resolution through asset sources.
use vstd::prelude::*;
use std::sync::Arc;
use crate::dictionary::{
    first_comparable, spec_lookup_key, spec_resolve, Dictionary, DictionaryView, MDictKeywordEntry,
};
use crate::error::{ErrorView, MdxError, Result};
use crate::text::{
    chars_eq, chars_of, eq_ignore_ascii_case, find_char_from, find_char_in, find_from,
    find_from_exec, lemma_find_char_from, lemma_find_from, lemma_rfind_char,
    range_eq_ignore_ascii_case, rfind_char, rfind_char_exec, spec_str_lowercase, starts_with,
    str_lowercase, string_of, sub_chars, trim, trim_bounds, trim_string, trimmed_chars,
    occurs_at_exec,
};

verus! {

/// Every `/` replaced by `\`.
pub open spec fn slashes_to_backslashes(s: Seq<char>) -> Seq<char> {
    s.map_values(|c: char| if c == '/' {
        '\\'
    } else {
        c
    })
}

/// The key of a resource in an MDD archive: the trimmed name with `\` as
/// separator and a leading `\`.
pub open spec fn mdd_key(name: Seq<char>) -> Seq<char> {
    let n = slashes_to_backslashes(trim(name));
    if n.len() == 0 {
        seq!['\\']
    } else if n[0] == '\\' {
        n
    } else {
        seq!['\\'] + n
    }
}

/// Every `/` of `v` replaced by `\`.
pub(crate) fn to_backslashes(v: &[char]) -> (r: Vec<char>)
    ensures
        r@ == slashes_to_backslashes(v@),
{
    let mut out: Vec<char> = Vec::new();
    let mut i: usize = 0;
    while i < v.len()
        invariant
            i <= v@.len(),
            out@ == slashes_to_backslashes(v@.take(i as int)),
        decreases v@.len() - i,
    {
        let c = v[i];
        out.push(if c == '/' {
            '\\'
        } else {
            c
        });
        assert(out@ =~= slashes_to_backslashes(v@.take(i + 1)));
        i = i + 1;
    }
    assert(v@.take(v@.len() as int) =~= v@);
    out
}

/// The MDD key of a characters sequence.
pub(crate) fn mdd_key_chars(v: &[char]) -> (r: Vec<char>)
    ensures
        r@ == mdd_key(v@),
{
    let (a, b) = trim_bounds(v, 0, v.len());
    assert(v@.subrange(0, v@.len() as int) =~= v@);
    let t = crate::text::sub_chars(v, a, b);
    let n = to_backslashes(t.as_slice());
    if n.len() == 0 {
        let mut r: Vec<char> = Vec::new();
        r.push('\\');
        assert(r@ =~= seq!['\\']);
        r
    } else if n[0] == '\\' {
        n
    } else {
        let mut r: Vec<char> = Vec::new();
        r.push('\\');
        let mut m = n;
        r.append(&mut m);
        assert(r@ =~= seq!['\\'] + mdd_key(v@).skip(1));
        assert(r@ =~= mdd_key(v@));
        r
    }
}

/// The key of a resource in an MDD archive: the trimmed name with `/`
/// replaced by `\` and a leading `\` (a blank name gives `\`).
pub fn normalize_mdd_key(name: &str) -> (r: String)
    ensures
        r@ == mdd_key(name@),
{
    let v = chars_of(name);
    let k = mdd_key_chars(v.as_slice());
    string_of(k.as_slice())
}

} // verus!

verus! {

/// The resource schemes that asset references may carry.
pub open spec fn resource_schemes() -> Seq<Seq<char>> {
    seq!["file://"@, "sound://"@, "snd://"@, "img://"@, "css://"@, "js://"@]
}

fn scheme_at(i: usize) -> (r: &'static str)
    requires
        i < 6,
    ensures
        r@ == resource_schemes()[i as int],
{
    match i {
        0 => "file://",
        1 => "sound://",
        2 => "snd://",
        3 => "img://",
        4 => "css://",
        _ => "js://",
    }
}

/// Whether `s` starts with `p`, ignoring ASCII case.
pub open spec fn has_prefix_ci(s: Seq<char>, p: Seq<char>) -> bool {
    p.len() <= s.len() && eq_ignore_ascii_case(s.subrange(0, p.len() as int), p)
}

/// `s` without the first of `schemes[i..]` that it starts with (ignoring
/// ASCII case), or `s` itself.
pub open spec fn strip_scheme_from(s: Seq<char>, schemes: Seq<Seq<char>>, i: int) -> Seq<char>
    decreases schemes.len() - i,
{
    if i < 0 || i >= schemes.len() {
        s
    } else if has_prefix_ci(s, schemes[i]) {
        s.skip(schemes[i].len() as int)
    } else {
        strip_scheme_from(s, schemes, i + 1)
    }
}

/// A reference without its resource scheme.
pub open spec fn spec_trim_resource_scheme(s: Seq<char>) -> Seq<char> {
    strip_scheme_from(s, resource_schemes(), 0)
}

/// The reference without a leading resource scheme (`file://`, `sound://`,
/// `snd://`, `img://`, `css://` or `js://`, in any ASCII case).
pub fn trim_resource_scheme(value: &str) -> (r: &str)
    ensures
        r@ == spec_trim_resource_scheme(value@),
{
    let v = chars_of(value);
    let mut i: usize = 0;
    while i < 6
        invariant
            i <= 6,
            v@ == value@,
            strip_scheme_from(value@, resource_schemes(), i as int) == spec_trim_resource_scheme(
                value@,
            ),
        decreases 6 - i,
    {
        let p = chars_of(scheme_at(i));
        if p.len() <= v.len() && range_eq_ignore_ascii_case(v.as_slice(), 0, p.len(), p.as_slice()) {
            return value.substring_char(p.len(), v.len());
        }
        i = i + 1;
    }
    value
}

/// Whether `c` separates the parts of a resource path.
pub open spec fn is_path_sep(c: char) -> bool {
    c == '/' || c == '\\'
}

/// First position at or after `i` that is not a path separator.
pub open spec fn seps_end(s: Seq<char>, i: int) -> int
    decreases s.len() - i,
{
    if 0 <= i < s.len() && is_path_sep(s[i]) {
        seps_end(s, i + 1)
    } else {
        i
    }
}

proof fn lemma_seps_end(s: Seq<char>, i: int)
    requires
        0 <= i <= s.len(),
    ensures
        i <= seps_end(s, i) <= s.len(),
    decreases s.len() - i,
{
    if i < s.len() && is_path_sep(s[i]) {
        lemma_seps_end(s, i + 1);
    }
}

/// `s` without its leading path separators.
pub open spec fn trim_leading_seps(s: Seq<char>) -> Seq<char> {
    s.skip(seps_end(s, 0))
}

/// Position of the first character of `v` that is not a path separator.
fn seps_end_exec(v: &[char]) -> (r: usize)
    ensures
        r == seps_end(v@, 0),
        r <= v@.len(),
{
    let mut i: usize = 0;
    while i < v.len() && (v[i] == '/' || v[i] == '\\')
        invariant
            i <= v@.len(),
            seps_end(v@, i as int) == seps_end(v@, 0),
        decreases v@.len() - i,
    {
        i = i + 1;
    }
    i
}

fn trim_leading_resource_separators(value: &str) -> (r: &str)
    ensures
        r@ == trim_leading_seps(value@),
{
    let v = chars_of(value);
    let k = seps_end_exec(v.as_slice());
    value.substring_char(k, v.len())
}

/// The path text of an asset reference: scheme, surrounding white space and
/// leading separators removed, `/` replaced by `\`.
pub open spec fn asset_ref_text(reference: Seq<char>) -> Seq<char> {
    slashes_to_backslashes(trim_leading_seps(trim(spec_trim_resource_scheme(reference))))
}

/// End of the `\`-separated part of `s` that starts at `i`.
pub open spec fn part_end(s: Seq<char>, i: int) -> int {
    match find_char_from(s, '\\', i) {
        Some(k) => k,
        None => s.len() as int,
    }
}

/// Whether one of the `\`-separated parts of `s[i..]` is empty or `..`.
pub open spec fn bad_part_from(s: Seq<char>, i: int) -> bool
    decreases s.len() - i,
{
    if i < 0 || i > s.len() {
        false
    } else {
        let e = part_end(s, i);
        let part = s.subrange(i, e);
        if part.len() == 0 || part == seq!['.', '.'] {
            true
        } else if e >= s.len() {
            false
        } else {
            proof {
                lemma_find_char_from(s, '\\', i);
            }
            bad_part_from(s, e + 1)
        }
    }
}

fn has_bad_part(v: &[char]) -> (r: bool)
    ensures
        r == bad_part_from(v@, 0),
{
    let n = v.len();
    assert(v@.subrange(0, n as int) =~= v@);
    let mut i: usize = 0;
    loop
        invariant
            i <= n == v@.len(),
            bad_part_from(v@, i as int) == bad_part_from(v@, 0),
        decreases n - i,
    {
        proof {
            lemma_find_char_from(v@, '\\', i as int);
        }
        assert(v@.subrange(0, n as int) =~= v@);
        let e = match find_char_in(v, '\\', i, n) {
            Some(k) => k,
            None => n,
        };
        assert(e == part_end(v@, i as int));
        if e == i {
            return true;
        }
        if e - i == 2 && v[i] == '.' && v[i + 1] == '.' {
            assert(v@.subrange(i as int, e as int) =~= seq!['.', '.']);
            return true;
        }
        assert(v@.subrange(i as int, e as int) != seq!['.', '.']) by {
            let part = v@.subrange(i as int, e as int);
            let dots = seq!['.', '.'];
            if part == dots {
                assert(part.len() == 2);
                assert(part[0] == dots[0]);
                assert(part[1] == dots[1]);
                assert(part[0] == v@[i as int]);
                assert(part[1] == v@[i + 1]);
            }
        }
        if e >= n {
            return false;
        }
        i = e + 1;
    }
}

/// What normalizing an asset reference gives: its path text with `\` as
/// separator, refused when blank, or when a part is empty or `..`.
pub open spec fn spec_normalize_asset_ref(reference: Seq<char>) -> core::result::Result<
    Seq<char>,
    ErrorView,
> {
    let c = asset_ref_text(reference);
    if c.len() == 0 {
        Err(ErrorView::InvalidInput("asset reference is empty"@))
    } else if bad_part_from(c, 0) {
        Err(ErrorView::UnsafeAssetPath(reference))
    } else {
        Ok(c)
    }
}

/// The path text of an asset reference, with `\` as separator; a blank
/// reference, and one that climbs out of its root or holds empty parts, are
/// refused.
pub fn normalize_asset_ref(reference: &str) -> (r: Result<String>)
    ensures
        match spec_normalize_asset_ref(reference@) {
            Ok(c) => r matches Ok(s) && s@ == c,
            Err(e) => r matches Err(x) && x@ == e,
        },
{
    let scheme_less = trim_resource_scheme(reference);
    let (a, b) = {
        let v = chars_of(scheme_less);
        let (a, b) = trim_bounds(v.as_slice(), 0, v.len());
        assert(v@.subrange(0, v@.len() as int) =~= v@);
        (a, b)
    };
    let t = scheme_less.substring_char(a, b);
    let lead = trim_leading_resource_separators(t);
    let lv = chars_of(lead);
    let cleaned = to_backslashes(lv.as_slice());
    if cleaned.len() == 0 {
        return Err(MdxError::InvalidInput(String::from_str("asset reference is empty")));
    }
    if has_bad_part(cleaned.as_slice()) {
        return Err(MdxError::UnsafeAssetPath(String::from_str(reference)));
    }
    Ok(string_of(cleaned.as_slice()))
}

} // verus!

verus! {

/// Every `\` replaced by `/`.
pub open spec fn backslashes_to_slashes(s: Seq<char>) -> Seq<char> {
    s.map_values(|c: char| if c == '\\' {
        '/'
    } else {
        c
    })
}

fn to_slashes(v: &[char]) -> (r: Vec<char>)
    ensures
        r@ == backslashes_to_slashes(v@),
{
    let mut out: Vec<char> = Vec::new();
    let mut i: usize = 0;
    while i < v.len()
        invariant
            i <= v@.len(),
            out@ == backslashes_to_slashes(v@.take(i as int)),
        decreases v@.len() - i,
    {
        let c = v[i];
        out.push(if c == '\\' {
            '/'
        } else {
            c
        });
        assert(out@ =~= backslashes_to_slashes(v@.take(i + 1)));
        i = i + 1;
    }
    assert(v@.take(v@.len() as int) =~= v@);
    out
}

/// The key under which an asset resolver remembers a reference it followed:
/// the path text with `/` as separator, lowercased.
pub open spec fn resolver_key(reference: Seq<char>) -> Seq<char> {
    spec_str_lowercase(
        backslashes_to_slashes(trim_leading_seps(trim(spec_trim_resource_scheme(reference)))),
    )
}

fn normalize_asset_resolver_ref(reference: &str) -> (r: String)
    ensures
        r@ == resolver_key(reference@),
{
    let scheme_less = trim_resource_scheme(reference);
    let t = trimmed_chars(scheme_less);
    let k = seps_end_exec(t.as_slice());
    let w = sub_chars(t.as_slice(), k, t.len());
    let slashed = to_slashes(w.as_slice());
    let text = string_of(slashed.as_slice());
    str_lowercase(text.as_str())
}

/// The values of a list of character vectors.
pub open spec fn char_lists(v: Seq<Vec<char>>) -> Seq<Seq<char>> {
    v.map_values(|x: Vec<char>| x@)
}

/// The values of a list of texts.
pub open spec fn texts_view(v: Seq<String>) -> Seq<Seq<char>> {
    v.map_values(|x: String| x@)
}

/// The references to try for a trimmed, non-blank reference: itself, the
/// part after `://`, the `snd://` form of a `sound://` reference and the part
/// after `file://`.
pub open spec fn base_candidates(r: Seq<char>) -> Seq<Seq<char>> {
    let after_scheme = match find_from(r, "://"@, 0) {
        Some(idx) => if idx + "://"@.len() < r.len() {
            seq![r.skip(idx + "://"@.len())]
        } else {
            Seq::empty()
        },
        None => Seq::empty(),
    };
    let snd = if has_prefix_ci(r, "sound://"@) {
        seq!["snd://"@ + r.skip("sound://"@.len() as int)]
    } else {
        Seq::empty()
    };
    let file = if has_prefix_ci(r, "file://"@) {
        seq![r.skip("file://"@.len() as int)]
    } else {
        Seq::empty()
    };
    seq![r] + after_scheme + snd + file
}

/// The forms tried for one candidate: the trimmed text, without leading
/// separators, as an MDD key, and without its extension (plain and as an MDD
/// key).
pub open spec fn expand_candidate(c: Seq<char>) -> Seq<Seq<char>> {
    let t = trim(c);
    if t.len() == 0 {
        Seq::empty()
    } else {
        let w = trim_leading_seps(t);
        let stripped = if w != t {
            seq![w]
        } else {
            Seq::empty()
        };
        let no_ext = match rfind_char(w, '.', w.len() as int) {
            Some(dot) => if dot > 0 {
                seq![w.take(dot), mdd_key(w.take(dot))]
            } else {
                Seq::empty()
            },
            None => Seq::empty(),
        };
        seq![t] + stripped + seq![mdd_key(t)] + no_ext
    }
}

/// The forms of every candidate, in order.
pub open spec fn expand_all(cands: Seq<Seq<char>>) -> Seq<Seq<char>>
    decreases cands.len(),
{
    if cands.len() == 0 {
        Seq::empty()
    } else {
        expand_all(cands.drop_last()) + expand_candidate(cands.last())
    }
}

/// The non-blank texts of `s`, each once, at its first place.
pub open spec fn dedup_nonblank(s: Seq<Seq<char>>) -> Seq<Seq<char>>
    decreases s.len(),
{
    if s.len() == 0 {
        Seq::empty()
    } else {
        let d = dedup_nonblank(s.drop_last());
        let x = s.last();
        if trim(x).len() == 0 || d.contains(x) {
            d
        } else {
            d.push(x)
        }
    }
}

/// The keys under which an asset source looks a reference up, in order.
pub open spec fn spec_asset_lookup_candidates(reference: Seq<char>) -> Seq<Seq<char>> {
    let r = trim(reference);
    if r.len() == 0 {
        Seq::empty()
    } else {
        dedup_nonblank(expand_all(base_candidates(r)))
    }
}

fn push_copy(out: &mut Vec<Vec<char>>, v: &[char])
    ensures
        char_lists(final(out)@) == char_lists(old(out)@).push(v@),
{
    let c = sub_chars(v, 0, v.len());
    assert(v@.subrange(0, v@.len() as int) =~= v@);
    out.push(c);
    assert(char_lists(out@) =~= char_lists(old(out)@).push(v@));
}

fn push_expansion(out: &mut Vec<Vec<char>>, c: &[char])
    ensures
        char_lists(final(out)@) == char_lists(old(out)@) + expand_candidate(c@),
{
    let ghost start = char_lists(out@);
    let (a, b) = trim_bounds(c, 0, c.len());
    assert(c@.subrange(0, c@.len() as int) =~= c@);
    let t = sub_chars(c, a, b);
    if t.len() == 0 {
        assert(start + expand_candidate(c@) =~= start);
        return;
    }
    push_copy(out, t.as_slice());
    let k = seps_end_exec(t.as_slice());
    let w = sub_chars(t.as_slice(), k, t.len());
    assert(w@ == trim_leading_seps(t@));
    if k != 0 {
        assert(w@.len() != t@.len());
        push_copy(out, w.as_slice());
    } else {
        assert(w@ =~= t@);
    }
    let ghost mid = char_lists(out@);
    let key = mdd_key_chars(t.as_slice());
    push_copy(out, key.as_slice());
    let ghost mid2 = char_lists(out@);
    assert(w@.subrange(0, w@.len() as int) =~= w@);
    match rfind_char_exec(w.as_slice(), '.', 0, w.len()) {
        Some(dot) => {
            if dot > 0 {
                let base = sub_chars(w.as_slice(), 0, dot);
                assert(base@ =~= w@.take(dot as int));
                push_copy(out, base.as_slice());
                let bkey = mdd_key_chars(base.as_slice());
                push_copy(out, bkey.as_slice());
            }
        },
        None => {},
    }
    assert(char_lists(out@) =~= start + expand_candidate(c@));
}

fn base_candidates_exec(r: &[char]) -> (out: Vec<Vec<char>>)
    ensures
        char_lists(out@) == base_candidates(r@),
{
    let mut out: Vec<Vec<char>> = Vec::new();
    push_copy(&mut out, r);
    let n = r.len();
    let sep = chars_of("://");
    match find_from_exec(r, sep.as_slice(), 0) {
        Some(idx) => {
            proof {
                lemma_find_from(r@, "://"@, 0);
            }
            if sep.len() < n - idx {
                let rest = sub_chars(r, idx + sep.len(), n);
                assert(rest@ =~= r@.skip(idx + "://"@.len()));
                push_copy(&mut out, rest.as_slice());
            }
        },
        None => {},
    }
    let sound = chars_of("sound://");
    if sound.len() <= n && range_eq_ignore_ascii_case(r, 0, sound.len(), sound.as_slice()) {
        let mut snd = chars_of("snd://");
        let mut rest = sub_chars(r, sound.len(), n);
        snd.append(&mut rest);
        assert(snd@ =~= "snd://"@ + r@.skip("sound://"@.len() as int));
        push_copy(&mut out, snd.as_slice());
    }
    let file = chars_of("file://");
    if file.len() <= n && range_eq_ignore_ascii_case(r, 0, file.len(), file.as_slice()) {
        let rest = sub_chars(r, file.len(), n);
        assert(rest@ =~= r@.skip("file://"@.len() as int));
        push_copy(&mut out, rest.as_slice());
    }
    assert(char_lists(out@) =~= base_candidates(r@));
    out
}

fn contains_chars(list: &Vec<Vec<char>>, x: &[char]) -> (r: bool)
    ensures
        r == char_lists(list@).contains(x@),
{
    let mut k: usize = 0;
    while k < list.len()
        invariant
            k <= list@.len(),
            forall|j: int| 0 <= j < k ==> list@[j]@ != x@,
        decreases list@.len() - k,
    {
        if chars_eq(list[k].as_slice(), x) {
            assert(char_lists(list@)[k as int] == x@);
            return true;
        }
        k = k + 1;
    }
    assert forall|j: int| 0 <= j < char_lists(list@).len() implies char_lists(list@)[j] != x@ by {
        assert(char_lists(list@)[j] == list@[j]@);
    }
    false
}

fn dedup_nonblank_exec(s: &Vec<Vec<char>>) -> (r: Vec<Vec<char>>)
    ensures
        char_lists(r@) == dedup_nonblank(char_lists(s@)),
{
    let ghost sv = char_lists(s@);
    let mut kept: Vec<Vec<char>> = Vec::new();
    let mut i: usize = 0;
    assert(sv.take(0) =~= Seq::<Seq<char>>::empty());
    assert(char_lists(kept@) =~= Seq::<Seq<char>>::empty());
    while i < s.len()
        invariant
            i <= s@.len(),
            sv == char_lists(s@),
            char_lists(kept@) == dedup_nonblank(sv.take(i as int)),
        decreases s@.len() - i,
    {
        assert(sv.take(i + 1).drop_last() =~= sv.take(i as int));
        assert(sv.take(i + 1).last() == s@[i as int]@);
        let x = s[i].as_slice();
        let (a, b) = trim_bounds(x, 0, x.len());
        assert(x@.subrange(0, x@.len() as int) =~= x@);
        if a < b && !contains_chars(&kept, x) {
            push_copy(&mut kept, x);
        }
        i = i + 1;
    }
    assert(sv.take(s@.len() as int) =~= sv);
    kept
}

fn strings_of(v: &Vec<Vec<char>>) -> (r: Vec<String>)
    ensures
        texts_view(r@) == char_lists(v@),
{
    let mut out: Vec<String> = Vec::new();
    let mut i: usize = 0;
    while i < v.len()
        invariant
            i <= v@.len(),
            out@.len() == i,
            forall|j: int| 0 <= j < i ==> (#[trigger] out@[j])@ == v@[j]@,
        decreases v@.len() - i,
    {
        let t = string_of(v[i].as_slice());
        out.push(t);
        i = i + 1;
    }
    assert forall|j: int| 0 <= j < v@.len() implies #[trigger] texts_view(out@)[j] == char_lists(
        v@,
    )[j] by {
        assert(out@[j]@ == v@[j]@);
    }
    assert(texts_view(out@) =~= char_lists(v@));
    out
}

/// The keys under which an asset source looks a reference up, in order and
/// each once: the trimmed reference, the part after `://`, the `snd://` form
/// of a `sound://` reference and the part after `file://`, each also without
/// leading separators, as an MDD key and without its extension.
pub fn asset_lookup_candidates(reference: &str) -> (r: Vec<String>)
    ensures
        texts_view(r@) == spec_asset_lookup_candidates(reference@),
{
    let rv = trimmed_chars(reference);
    if rv.len() == 0 {
        let r: Vec<String> = Vec::new();
        assert(texts_view(r@) =~= Seq::<Seq<char>>::empty());
        return r;
    }
    let cands = base_candidates_exec(rv.as_slice());
    let ghost cv = char_lists(cands@);
    let mut expanded: Vec<Vec<char>> = Vec::new();
    let mut i: usize = 0;
    assert(cv.take(0) =~= Seq::<Seq<char>>::empty());
    assert(char_lists(expanded@) =~= Seq::<Seq<char>>::empty());
    while i < cands.len()
        invariant
            i <= cands@.len(),
            cv == char_lists(cands@),
            char_lists(expanded@) == expand_all(cv.take(i as int)),
        decreases cands@.len() - i,
    {
        assert(cv.take(i + 1).drop_last() =~= cv.take(i as int));
        assert(cv.take(i + 1).last() == cands@[i as int]@);
        push_expansion(&mut expanded, cands[i].as_slice());
        i = i + 1;
    }
    assert(cv.take(cands@.len() as int) =~= cv);
    let kept = dedup_nonblank_exec(&expanded);
    strings_of(&kept)
}

} // verus!

verus! {

/// The schemes that mark a reference as a resource.
pub open spec fn resource_ref_schemes() -> Seq<Seq<char>> {
    seq!["snd://"@, "sound://"@, "file://"@, "img://"@, "css://"@, "js://"@]
}

/// The prefixes of references that are not resources (links, data, anchors).
pub open spec fn non_resource_prefixes() -> Seq<Seq<char>> {
    seq![
        "http://"@,
        "https://"@,
        "data:"@,
        "mailto:"@,
        "help:"@,
        "entry:"@,
        "mdxentry:"@,
        "dict:"@,
        "d:"@,
        "x:"@,
        "#"@,
    ]
}

/// The file extensions of resources.
pub open spec fn resource_extensions() -> Seq<Seq<char>> {
    seq![
        ".css"@,
        ".js"@,
        ".jpg"@,
        ".jpeg"@,
        ".png"@,
        ".gif"@,
        ".svg"@,
        ".webp"@,
        ".spx"@,
        ".snd"@,
        ".mp3"@,
        ".wav"@,
        ".ogg"@,
        ".mp4"@,
    ]
}

fn resource_ref_scheme_at(i: usize) -> (r: &'static str)
    requires
        i < 6,
    ensures
        r@ == resource_ref_schemes()[i as int],
{
    match i {
        0 => "snd://",
        1 => "sound://",
        2 => "file://",
        3 => "img://",
        4 => "css://",
        _ => "js://",
    }
}

fn non_resource_prefix_at(i: usize) -> (r: &'static str)
    requires
        i < 11,
    ensures
        r@ == non_resource_prefixes()[i as int],
{
    match i {
        0 => "http://",
        1 => "https://",
        2 => "data:",
        3 => "mailto:",
        4 => "help:",
        5 => "entry:",
        6 => "mdxentry:",
        7 => "dict:",
        8 => "d:",
        9 => "x:",
        _ => "#",
    }
}

fn resource_extension_at(i: usize) -> (r: &'static str)
    requires
        i < 14,
    ensures
        r@ == resource_extensions()[i as int],
{
    match i {
        0 => ".css",
        1 => ".js",
        2 => ".jpg",
        3 => ".jpeg",
        4 => ".png",
        5 => ".gif",
        6 => ".svg",
        7 => ".webp",
        8 => ".spx",
        9 => ".snd",
        10 => ".mp3",
        11 => ".wav",
        12 => ".ogg",
        _ => ".mp4",
    }
}

/// Whether `s` starts with one of `ps`.
pub open spec fn starts_with_any(s: Seq<char>, ps: Seq<Seq<char>>) -> bool {
    exists|i: int| 0 <= i < ps.len() && starts_with(s, #[trigger] ps[i])
}

/// The text after the last `.` of `s`, or all of `s`.
pub open spec fn last_dot_segment(s: Seq<char>) -> Seq<char> {
    match rfind_char(s, '.', s.len() as int) {
        Some(k) => s.skip(k + 1),
        None => s,
    }
}

/// Whether a reference names a resource: a resource scheme, or no link or
/// data prefix and a resource file extension (compared lowercased).
pub open spec fn spec_is_resource_ref(reference: Seq<char>) -> bool {
    let r = trim(reference);
    let lower = spec_str_lowercase(r);
    r.len() > 0 && (starts_with_any(lower, resource_ref_schemes()) || (!starts_with_any(
        lower,
        non_resource_prefixes(),
    ) && resource_extensions().contains(seq!['.'] + last_dot_segment(lower))))
}

fn starts_with_listed(v: &[char], which: u8) -> (r: bool)
    requires
        which < 2,
    ensures
        which == 0 ==> r == starts_with_any(v@, resource_ref_schemes()),
        which == 1 ==> r == starts_with_any(v@, non_resource_prefixes()),
{
    let ghost ps = if which == 0 {
        resource_ref_schemes()
    } else {
        non_resource_prefixes()
    };
    let n: usize = if which == 0 {
        6
    } else {
        11
    };
    let mut i: usize = 0;
    while i < n
        invariant
            i <= n == ps.len(),
            ps == (if which == 0 {
                resource_ref_schemes()
            } else {
                non_resource_prefixes()
            }),
            forall|j: int| 0 <= j < i ==> !starts_with(v@, #[trigger] ps[j]),
        decreases n - i,
    {
        let p = if which == 0 {
            chars_of(resource_ref_scheme_at(i))
        } else {
            chars_of(non_resource_prefix_at(i))
        };
        if occurs_at_exec(v, p.as_slice(), 0) {
            assert(starts_with(v@, ps[i as int]));
            return true;
        }
        i = i + 1;
    }
    false
}

fn is_resource_extension(ext: &[char]) -> (r: bool)
    ensures
        r == resource_extensions().contains(ext@),
{
    let mut i: usize = 0;
    while i < 14
        invariant
            i <= 14,
            forall|j: int| 0 <= j < i ==> resource_extensions()[j] != ext@,
        decreases 14 - i,
    {
        let e = chars_of(resource_extension_at(i));
        if chars_eq(e.as_slice(), ext) {
            assert(resource_extensions()[i as int] == ext@);
            return true;
        }
        i = i + 1;
    }
    false
}

/// Whether a reference in a record names a resource: after trimming it
/// starts, lowercased, with a resource scheme, or else starts with no link,
/// data or anchor prefix and ends in a resource file extension.
pub fn is_resource_ref(reference: &str) -> (r: bool)
    ensures
        r == spec_is_resource_ref(reference@),
{
    let t = trim_string(reference);
    if t.as_str().unicode_len() == 0 {
        return false;
    }
    let lower_s = str_lowercase(t.as_str());
    let lower = chars_of(lower_s.as_str());
    if starts_with_listed(lower.as_slice(), 0) {
        return true;
    }
    if starts_with_listed(lower.as_slice(), 1) {
        return false;
    }
    let n = lower.len();
    let mut ext: Vec<char> = Vec::new();
    ext.push('.');
    assert(lower@.subrange(0, n as int) =~= lower@);
    let mut seg = match rfind_char_exec(lower.as_slice(), '.', 0, n) {
        Some(k) => sub_chars(lower.as_slice(), k + 1, n),
        None => sub_chars(lower.as_slice(), 0, n),
    };
    assert(seg@ =~= last_dot_segment(lower@));
    ext.append(&mut seg);
    assert(ext@ =~= seq!['.'] + last_dot_segment(lower@));
    is_resource_extension(ext.as_slice())
}

} // verus!

verus! {

/// Whether `c` is a quote that may open an attribute value.
pub open spec fn is_quote(c: char) -> bool {
    c == '"' || c == '\''
}

/// The quoted values of the attribute `attr` (such as `src=`) found in `t`
/// from position `from` on, in order; an unquoted value is skipped and an
/// unclosed quote ends the scan.
pub open spec fn attr_values(t: Seq<char>, attr: Seq<char>, from: int) -> Seq<Seq<char>>
    decreases t.len() + 1 - from,
{
    if from < 0 || attr.len() == 0 {
        Seq::empty()
    } else {
        match find_from(t, attr, from) {
            None => Seq::empty(),
            Some(pos) => {
                proof {
                    lemma_find_from(t, attr, from);
                }
                let a = pos + attr.len();
                if a >= t.len() {
                    Seq::empty()
                } else if !is_quote(t[a]) {
                    attr_values(t, attr, a + 1)
                } else {
                    match find_char_from(t, t[a], a + 1) {
                        None => Seq::empty(),
                        Some(e) => {
                            proof {
                                lemma_find_char_from(t, t[a], a + 1);
                            }
                            seq![t.subrange(a + 1, e)] + attr_values(t, attr, e + 1)
                        },
                    }
                }
            },
        }
    }
}

/// First position at or after `i` where `p` occurs in `t`, ignoring ASCII case.
pub open spec fn find_ci_from(t: Seq<char>, p: Seq<char>, i: int) -> Option<int>
    decreases t.len() + 1 - i,
{
    if i < 0 || i + p.len() > t.len() {
        None
    } else if eq_ignore_ascii_case(t.subrange(i, i + p.len()), p) {
        Some(i)
    } else {
        find_ci_from(t, p, i + 1)
    }
}

pub proof fn lemma_find_ci_from(t: Seq<char>, p: Seq<char>, i: int)
    requires
        0 <= i,
    ensures
        find_ci_from(t, p, i) matches Some(k) ==> i <= k && k + p.len() <= t.len(),
    decreases t.len() + 1 - i,
{
    if i + p.len() <= t.len() && !eq_ignore_ascii_case(t.subrange(i, i + p.len()), p) {
        lemma_find_ci_from(t, p, i + 1);
    }
}

/// Characters that end a resource token in running text.
pub open spec fn is_token_stop(c: char) -> bool {
    crate::text::spec_is_whitespace(c) || c == '"' || c == '\'' || c == '<' || c == '>' || c == ')'
        || c == '('
}

/// End of the token that starts at `i`.
pub open spec fn token_end(t: Seq<char>, i: int) -> int
    decreases t.len() - i,
{
    if 0 <= i < t.len() && !is_token_stop(t[i]) {
        token_end(t, i + 1)
    } else {
        i
    }
}

proof fn lemma_token_end(t: Seq<char>, i: int)
    requires
        0 <= i <= t.len(),
    ensures
        i <= token_end(t, i) <= t.len(),
    decreases t.len() - i,
{
    if i < t.len() && !is_token_stop(t[i]) {
        lemma_token_end(t, i + 1);
    }
}

/// The tokens of `t` that start with `scheme` (in any ASCII case), from
/// position `from` on: each runs to the next white space, quote, angle
/// bracket or parenthesis.
pub open spec fn scheme_tokens(t: Seq<char>, scheme: Seq<char>, from: int) -> Seq<Seq<char>>
    decreases t.len() + 1 - from,
{
    if from < 0 || scheme.len() == 0 {
        Seq::empty()
    } else {
        match find_ci_from(t, scheme, from) {
            None => Seq::empty(),
            Some(p) => {
                proof {
                    lemma_find_ci_from(t, scheme, from);
                }
                seq![t.subrange(p, token_end(t, p))] + scheme_tokens(t, scheme, p + scheme.len())
            },
        }
    }
}

/// Adds the trimmed value `x` to the references `d` when it names a resource
/// that is not there yet.
pub open spec fn keep_step(d: Seq<Seq<char>>, x: Seq<char>) -> Seq<Seq<char>> {
    let v = trim(x);
    if spec_is_resource_ref(v) && !d.contains(v) {
        d.push(v)
    } else {
        d
    }
}

/// The references `d` after keeping the values of `s` in order.
pub open spec fn keep_fold(d: Seq<Seq<char>>, s: Seq<Seq<char>>) -> Seq<Seq<char>>
    decreases s.len(),
{
    if s.len() == 0 {
        d
    } else {
        keep_fold(keep_step(d, s[0]), s.skip(1))
    }
}

/// The references after the scheme tokens of `schemes[i..]`.
pub open spec fn keep_scheme_tokens(t: Seq<char>, d: Seq<Seq<char>>, i: int) -> Seq<Seq<char>>
    decreases resource_ref_schemes().len() - i,
{
    if i < 0 || i >= resource_ref_schemes().len() {
        d
    } else {
        keep_scheme_tokens(t, keep_fold(d, scheme_tokens(t, resource_ref_schemes()[i], 0)), i + 1)
    }
}

/// The resource references of a text: the quoted `src=` values, then the
/// quoted `href=` values, then the tokens that start with a resource scheme,
/// each trimmed, kept when it names a resource, and kept once.
pub open spec fn text_resource_refs(t: Seq<char>) -> Seq<Seq<char>> {
    let attrs = keep_fold(
        keep_fold(Seq::empty(), attr_values(t, "src="@, 0)),
        attr_values(t, "href="@, 0),
    );
    keep_scheme_tokens(t, attrs, 0)
}

/// The resource references of a record's bytes; none unless they are UTF-8.
pub open spec fn spec_extract_resource_refs(content: Seq<u8>) -> Seq<Seq<char>> {
    if vstd::utf8::valid_utf8(content) {
        text_resource_refs(vstd::utf8::decode_utf8(content))
    } else {
        Seq::empty()
    }
}

proof fn lemma_keep_fold_cons(d: Seq<Seq<char>>, x: Seq<char>, rest: Seq<Seq<char>>)
    ensures
        keep_fold(d, seq![x] + rest) == keep_fold(keep_step(d, x), rest),
{
    let s = seq![x] + rest;
    assert(s[0] == x);
    assert(s.skip(1) =~= rest);
}

fn keep_ref(refs: &mut Vec<Vec<char>>, value: &[char])
    ensures
        char_lists(final(refs)@) == keep_step(char_lists(old(refs)@), value@),
{
    let (a, b) = trim_bounds(value, 0, value.len());
    assert(value@.subrange(0, value@.len() as int) =~= value@);
    let v = sub_chars(value, a, b);
    let s = string_of(v.as_slice());
    if is_resource_ref(s.as_str()) && !contains_chars(refs, v.as_slice()) {
        push_copy(refs, v.as_slice());
    }
}

fn keep_attr_values(t: &[char], attr: &[char], refs: &mut Vec<Vec<char>>)
    requires
        attr@.len() > 0,
    ensures
        char_lists(final(refs)@) == keep_fold(char_lists(old(refs)@), attr_values(t@, attr@, 0)),
{
    let n = t.len();
    assert(t@.subrange(0, n as int) =~= t@);
    let mut from: usize = 0;
    loop
        invariant
            from <= n == t@.len(),
            attr@.len() > 0,
            t@.subrange(0, n as int) == t@,
            keep_fold(char_lists(refs@), attr_values(t@, attr@, from as int)) == keep_fold(
                char_lists(old(refs)@),
                attr_values(t@, attr@, 0),
            ),
        decreases n - from,
    {
        proof {
            lemma_find_from(t@, attr@, from as int);
        }
        match find_from_exec(t, attr, from) {
            None => {
                return ;
            },
            Some(pos) => {
                let a = pos + attr.len();
                if a >= n {
                    return ;
                }
                let q = t[a];
                if q != '"' && q != '\'' {
                    from = a + 1;
                } else {
                    proof {
                        lemma_find_char_from(t@, q, a + 1);
                    }
                    match find_char_in(t, q, a + 1, n) {
                        None => {
                            return ;
                        },
                        Some(e) => {
                            let v = sub_chars(t, a + 1, e);
                            proof {
                                lemma_keep_fold_cons(
                                    char_lists(refs@),
                                    v@,
                                    attr_values(t@, attr@, e + 1),
                                );
                            }
                            keep_ref(refs, v.as_slice());
                            from = e + 1;
                        },
                    }
                }
            },
        }
    }
}

fn find_ci_exec(t: &[char], p: &[char], from: usize) -> (r: Option<usize>)
    ensures
        r matches Some(k) ==> find_ci_from(t@, p@, from as int) == Some(k as int),
        r is None ==> find_ci_from(t@, p@, from as int) is None,
{
    let n = t.len();
    let mut i = from;
    loop
        invariant
            from <= i,
            n == t@.len(),
            find_ci_from(t@, p@, i as int) == find_ci_from(t@, p@, from as int),
        decreases n + 1 - i,
    {
        if i > n || p.len() > n - i {
            return None;
        }
        if range_eq_ignore_ascii_case(t, i, i + p.len(), p) {
            return Some(i);
        }
        i = i + 1;
    }
}

fn token_end_exec(t: &[char], i: usize) -> (r: usize)
    requires
        i <= t@.len(),
    ensures
        r == token_end(t@, i as int),
        i <= r <= t@.len(),
{
    let mut k = i;
    while k < t.len() && !(crate::text::is_whitespace(t[k]) || t[k] == '"' || t[k] == '\''
        || t[k] == '<' || t[k] == '>' || t[k] == ')' || t[k] == '(')
        invariant
            i <= k <= t@.len(),
            token_end(t@, k as int) == token_end(t@, i as int),
        decreases t@.len() - k,
    {
        k = k + 1;
    }
    k
}

fn keep_scheme_tokens_of(t: &[char], scheme: &[char], refs: &mut Vec<Vec<char>>)
    requires
        scheme@.len() > 0,
    ensures
        char_lists(final(refs)@) == keep_fold(char_lists(old(refs)@), scheme_tokens(t@, scheme@, 0)),
{
    let n = t.len();
    let mut from: usize = 0;
    loop
        invariant
            n == t@.len(),
            scheme@.len() > 0,
            keep_fold(char_lists(refs@), scheme_tokens(t@, scheme@, from as int)) == keep_fold(
                char_lists(old(refs)@),
                scheme_tokens(t@, scheme@, 0),
            ),
        decreases n + 1 - from,
    {
        proof {
            lemma_find_ci_from(t@, scheme@, from as int);
        }
        match find_ci_exec(t, scheme, from) {
            None => {
                return ;
            },
            Some(p) => {
                let e = token_end_exec(t, p);
                let v = sub_chars(t, p, e);
                proof {
                    lemma_keep_fold_cons(
                        char_lists(refs@),
                        v@,
                        scheme_tokens(t@, scheme@, p + scheme@.len()),
                    );
                }
                keep_ref(refs, v.as_slice());
                from = p + scheme.len();
            },
        }
    }
}

/// The resource references in a record (see [`spec_extract_resource_refs`]):
/// quoted `src=` and `href=` values and tokens that start with a resource
/// scheme, trimmed, in order, each once; links, anchors and data URLs are
/// left out, and so is every reference of bytes that are not UTF-8.
pub fn extract_resource_refs(content: &[u8]) -> (r: Vec<String>)
    ensures
        texts_view(r@) == spec_extract_resource_refs(content@),
{
    let text = match crate::binary::str_from_utf8(content) {
        Ok(s) => s,
        Err(_) => {
            let r: Vec<String> = Vec::new();
            assert(texts_view(r@) =~= Seq::<Seq<char>>::empty());
            return r;
        },
    };
    let t = chars_of(text);
    let mut refs: Vec<Vec<char>> = Vec::new();
    assert(char_lists(refs@) =~= Seq::<Seq<char>>::empty());
    let src = chars_of("src=");
    let href = chars_of("href=");
    proof {
        reveal_strlit("src=");
        reveal_strlit("href=");
    }
    keep_attr_values(t.as_slice(), src.as_slice(), &mut refs);
    keep_attr_values(t.as_slice(), href.as_slice(), &mut refs);
    let mut i: usize = 0;
    while i < 6
        invariant
            i <= 6,
            keep_scheme_tokens(t@, char_lists(refs@), i as int) == text_resource_refs(t@),
        decreases 6 - i,
    {
        let scheme = chars_of(resource_ref_scheme_at(i));
        proof {
            reveal_strlit("snd://");
            reveal_strlit("sound://");
            reveal_strlit("file://");
            reveal_strlit("img://");
            reveal_strlit("css://");
            reveal_strlit("js://");
        }
        keep_scheme_tokens_of(t.as_slice(), scheme.as_slice(), &mut refs);
        i = i + 1;
    }
    strings_of(&refs)
}

} // verus!

verus! {

/// `@@@LINK=` in little-endian UTF-16: the start of a resource that redirects
/// to another.
pub open spec fn redirect_marker() -> Seq<u8> {
    seq![64u8, 0u8, 64u8, 0u8, 64u8, 0u8, 76u8, 0u8, 73u8, 0u8, 78u8, 0u8, 75u8, 0u8, 61u8, 0u8]
}

fn redirect_marker_byte(i: usize) -> (r: u8)
    requires
        i < 16,
    ensures
        r == redirect_marker()[i as int],
{
    if i % 2 == 1 {
        0
    } else if i < 6 {
        64
    } else if i == 6 {
        76
    } else if i == 8 {
        73
    } else if i == 10 {
        78
    } else if i == 12 {
        75
    } else {
        61
    }
}

/// Position of the first zero code unit at or after `i`, or the end.
pub open spec fn first_zero_unit(u: Seq<u16>, i: int) -> int
    decreases u.len() - i,
{
    if 0 <= i < u.len() && u[i] != 0 {
        first_zero_unit(u, i + 1)
    } else {
        i
    }
}

/// The target of a resource that redirects to another: the trimmed UTF-16
/// text after the marker, up to the first zero code unit; `None` when there
/// is no marker, the text is not UTF-16 or it is blank.
pub open spec fn spec_resource_redirect(data: Seq<u8>) -> Option<Seq<char>> {
    if data.len() < 16 || data.subrange(0, 16) != redirect_marker() {
        None
    } else {
        let u = crate::binary::le_units(data.skip(16));
        match crate::binary::utf16_decode(u.take(first_zero_unit(u, 0))) {
            None => None,
            Some(t) => if trim(t).len() == 0 {
                None
            } else {
                Some(trim(t))
            },
        }
    }
}

/// The target of a resource that redirects to another (`@@@LINK=` in
/// little-endian UTF-16, then the target up to a zero code unit), trimmed;
/// `None` for other data or a blank target.
pub fn parse_mdict_resource_redirect(data: &[u8]) -> (r: Option<String>)
    ensures
        r matches Some(s) ==> spec_resource_redirect(data@) == Some(s@),
        r is None ==> spec_resource_redirect(data@) is None,
{
    let dlen = data.len();
    if dlen < 16 {
        return None;
    }
    let mut i: usize = 0;
    while i < 16
        invariant
            i <= 16 <= dlen == data@.len(),
            forall|j: int| 0 <= j < i ==> data@[j] == redirect_marker()[j],
        decreases 16 - i,
    {
        if data[i] != redirect_marker_byte(i) {
            assert(data@.subrange(0, 16)[i as int] != redirect_marker()[i as int]);
            return None;
        }
        i = i + 1;
    }
    assert(data@.subrange(0, 16) =~= redirect_marker());
    let payload = vstd::slice::slice_subrange(data, 16, dlen);
    assert(payload@ =~= data@.skip(16));
    let ghost u = crate::binary::le_units(payload@);
    let m = payload.len() / 2;
    let mut n: usize = 0;
    while n < m && crate::binary::utf16_units_value(payload, n) != 0
        invariant
            n <= m,
            m == payload@.len() / 2,
            u == crate::binary::le_units(payload@),
            u.len() == m,
            first_zero_unit(u, n as int) == first_zero_unit(u, 0),
        decreases m - n,
    {
        n = n + 1;
    }
    match crate::binary::decode_utf16_units(payload, n) {
        None => None,
        Some(v) => {
            let (a, b) = trim_bounds(v.as_slice(), 0, v.len());
            assert(v@.subrange(0, v@.len() as int) =~= v@);
            if a == b {
                None
            } else {
                Some(crate::text::string_of_range(v.as_slice(), a, b))
            }
        },
    }
}

} // verus!

verus! {

/// A place that asset references can be read from.
pub trait AssetSource: Send + Sync {
    /// Whether `answer` is one that reading `reference` may give. A source
    /// that says nothing may give any answer.
    open spec fn may_answer(
        &self,
        reference: Seq<char>,
        answer: core::result::Result<Seq<u8>, ErrorView>,
    ) -> bool {
        true
    }

    /// The bytes of the asset that `reference` names.
    fn read_asset(&self, reference: &str) -> (r: Result<Vec<u8>>)
        ensures
            self.may_answer(reference@, bytes_result_view(r)),
    ;
}

/// What a result of bytes holds.
pub open spec fn bytes_result_view(r: Result<Vec<u8>>) -> core::result::Result<Seq<u8>, ErrorView> {
    match r {
        Ok(b) => Ok(b@),
        Err(e) => Err(e@),
    }
}

/// The assets of a list of (key, bytes) pairs by key (a later pair wins).
pub open spec fn assets_map(s: Seq<(String, Vec<u8>)>) -> Map<Seq<char>, Seq<u8>>
    decreases s.len(),
{
    if s.len() == 0 {
        Map::empty()
    } else {
        assets_map(s.drop_last()).insert(s.last().0@, s.last().1@)
    }
}

/// No two pairs have the same key.
pub open spec fn unique_keys(s: Seq<(String, Vec<u8>)>) -> bool {
    forall|i: int, j: int|
        0 <= i < s.len() && 0 <= j < s.len() && i != j ==> (#[trigger] s[i]).0@ != (
        #[trigger] s[j]).0@
}

proof fn lemma_unique_keys_drop_last(s: Seq<(String, Vec<u8>)>)
    requires
        unique_keys(s),
        s.len() > 0,
    ensures
        unique_keys(s.drop_last()),
{
    assert forall|a: int, b: int|
        0 <= a < s.len() - 1 && 0 <= b < s.len() - 1 && a != b implies (#[trigger] s.drop_last()[a]).0@
        != (#[trigger] s.drop_last()[b]).0@ by {
        assert(s.drop_last()[a] == s[a] && s.drop_last()[b] == s[b]);
    }
}

proof fn lemma_assets_map_get(s: Seq<(String, Vec<u8>)>, i: int)
    requires
        unique_keys(s),
        0 <= i < s.len(),
    ensures
        assets_map(s).contains_key(s[i].0@),
        assets_map(s)[s[i].0@] == s[i].1@,
    decreases s.len(),
{
    if i < s.len() - 1 {
        lemma_unique_keys_drop_last(s);
        assert(s.drop_last()[i] == s[i]);
        lemma_assets_map_get(s.drop_last(), i);
        assert(s[i].0@ != s[s.len() - 1].0@);
    }
}

proof fn lemma_assets_map_absent(s: Seq<(String, Vec<u8>)>, k: Seq<char>)
    requires
        forall|i: int| 0 <= i < s.len() ==> (#[trigger] s[i]).0@ != k,
    ensures
        !assets_map(s).contains_key(k),
    decreases s.len(),
{
    if s.len() > 0 {
        assert forall|i: int| 0 <= i < s.len() - 1 implies (#[trigger] s.drop_last()[i]).0@ != k by {
            assert(s.drop_last()[i] == s[i]);
        }
        lemma_assets_map_absent(s.drop_last(), k);
        assert(s.last() == s[s.len() - 1]);
    }
}

proof fn lemma_assets_map_update(s: Seq<(String, Vec<u8>)>, i: int, x: (String, Vec<u8>))
    requires
        unique_keys(s),
        0 <= i < s.len(),
        x.0@ == s[i].0@,
    ensures
        assets_map(s.update(i, x)) == assets_map(s).insert(x.0@, x.1@),
    decreases s.len(),
{
    let t = s.update(i, x);
    if i == s.len() - 1 {
        assert(t.drop_last() =~= s.drop_last());
        assert(assets_map(t) =~= assets_map(s).insert(x.0@, x.1@));
    } else {
        lemma_unique_keys_drop_last(s);
        assert(t.drop_last() =~= s.drop_last().update(i, x));
        lemma_assets_map_update(s.drop_last(), i, x);
        assert(s[i].0@ != s[s.len() - 1].0@);
        assert(t.last() == s.last());
        assert(assets_map(t) =~= assets_map(s).insert(x.0@, x.1@));
    }
}

fn find_asset(s: &Vec<(String, Vec<u8>)>, key: &String) -> (r: Option<usize>)
    ensures
        r matches Some(i) ==> i < s@.len() && s@[i as int].0@ == key@,
        r is None ==> forall|i: int| 0 <= i < s@.len() ==> (#[trigger] s@[i]).0@ != key@,
{
    let mut i: usize = 0;
    while i < s.len()
        invariant
            i <= s@.len(),
            forall|k: int| 0 <= k < i ==> (#[trigger] s@[k]).0@ != key@,
        decreases s@.len() - i,
    {
        if s[i].0 == *key {
            return Some(i);
        }
        i = i + 1;
    }
    None
}

pub(crate) fn copy_bytes(v: &Vec<u8>) -> (r: Vec<u8>)
    ensures
        r@ == v@,
{
    let mut out: Vec<u8> = Vec::new();
    let mut i: usize = 0;
    while i < v.len()
        invariant
            i <= v@.len(),
            out@ == v@.take(i as int),
        decreases v@.len() - i,
    {
        out.push(v[i]);
        assert(out@ =~= v@.take(i + 1));
        i = i + 1;
    }
    assert(v@.take(v@.len() as int) =~= v@);
    out
}

/// What reading a reference from assets held by key gives: the bytes of the
/// first lookup candidate (from `i` on) whose normalized key is held; a
/// candidate met before it that does not normalize ends the read with its
/// normalization error.
pub open spec fn spec_read_memory(
    m: Map<Seq<char>, Seq<u8>>,
    cands: Seq<Seq<char>>,
    i: int,
    reference: Seq<char>,
) -> core::result::Result<Seq<u8>, ErrorView>
    decreases cands.len() - i,
{
    if i < 0 || i >= cands.len() {
        Err(ErrorView::AssetNotFound(reference))
    } else {
        match spec_normalize_asset_ref(cands[i]) {
            Err(e) => Err(e),
            Ok(k) => if m.contains_key(k) {
                Ok(m[k])
            } else {
                spec_read_memory(m, cands, i + 1, reference)
            },
        }
    }
}

/// Assets held in memory by normalized reference.
pub struct MemoryAssetSource {
    assets: Vec<(String, Vec<u8>)>,
}

impl View for MemoryAssetSource {
    type V = Map<Seq<char>, Seq<u8>>;

    closed spec fn view(&self) -> Map<Seq<char>, Seq<u8>> {
        assets_map(self.assets@)
    }
}

impl Default for MemoryAssetSource {
    /// No assets.
    fn default() -> (r: Self)
        ensures
            r@ == Map::<Seq<char>, Seq<u8>>::empty(),
    {
        MemoryAssetSource { assets: Vec::new() }
    }
}

impl Clone for MemoryAssetSource {
    /// The same assets.
    fn clone(&self) -> (r: Self)
        ensures
            r@ == self@,
    {
        proof {
            use_type_invariant(self);
        }
        let mut out: Vec<(String, Vec<u8>)> = Vec::new();
        let mut i: usize = 0;
        while i < self.assets.len()
            invariant
                i <= self.assets@.len(),
                out@.len() == i,
                forall|j: int|
                    0 <= j < i ==> (#[trigger] out@[j]).0@ == self.assets@[j].0@ && out@[j].1@
                        == self.assets@[j].1@,
            decreases self.assets@.len() - i,
        {
            let k = self.assets[i].0.clone();
            let v = copy_bytes(&self.assets[i].1);
            out.push((k, v));
            i = i + 1;
        }
        proof {
            lemma_assets_map_same(out@, self.assets@);
        }
        MemoryAssetSource { assets: out }
    }
}

proof fn lemma_assets_map_same(a: Seq<(String, Vec<u8>)>, b: Seq<(String, Vec<u8>)>)
    requires
        a.len() == b.len(),
        forall|j: int| 0 <= j < a.len() ==> (#[trigger] a[j]).0@ == b[j].0@ && a[j].1@ == b[j].1@,
    ensures
        assets_map(a) == assets_map(b),
        unique_keys(b) ==> unique_keys(a),
    decreases a.len(),
{
    if a.len() > 0 {
        assert forall|j: int| 0 <= j < a.len() - 1 implies (#[trigger] a.drop_last()[j]).0@
            == b.drop_last()[j].0@ && a.drop_last()[j].1@ == b.drop_last()[j].1@ by {
            assert(a.drop_last()[j] == a[j] && b.drop_last()[j] == b[j]);
        }
        lemma_assets_map_same(a.drop_last(), b.drop_last());
        assert(a.last() == a[a.len() - 1] && b.last() == b[b.len() - 1]);
    }
    if unique_keys(b) {
        assert forall|i: int, j: int|
            0 <= i < a.len() && 0 <= j < a.len() && i != j implies (#[trigger] a[i]).0@ != (
            #[trigger] a[j]).0@ by {
            assert(b[i].0@ != b[j].0@);
        }
    }
}

impl MemoryAssetSource {
    #[verifier::type_invariant]
    spec fn keys_unique(&self) -> bool {
        unique_keys(self.assets@)
    }

    /// No assets.
    pub fn new() -> (r: Self)
        ensures
            r@ == Map::<Seq<char>, Seq<u8>>::empty(),
    {
        MemoryAssetSource { assets: Vec::new() }
    }

    /// The source with `data` held under the normalized `reference`
    /// (replacing what was held there); a reference that does not normalize
    /// is refused with the error of [`normalize_asset_ref`].
    pub fn try_insert(self, reference: &str, data: Vec<u8>) -> (r: Result<Self>)
        ensures
            match spec_normalize_asset_ref(reference@) {
                Ok(k) => r matches Ok(s) && s@ == self@.insert(k, data@),
                Err(e) => r matches Err(x) && x@ == e,
            },
    {
        proof {
            use_type_invariant(&self);
        }
        let key = match normalize_asset_ref(reference) {
            Ok(k) => k,
            Err(e) => {
                return Err(e);
            },
        };
        let mut assets = self.assets;
        let ghost old_s = assets@;
        let ghost kv = key@;
        let ghost dv = data@;
        match find_asset(&assets, &key) {
            Some(i) => {
                proof {
                    lemma_assets_map_update(old_s, i as int, (key, data));
                }
                assets.set(i, (key, data));
                assert(unique_keys(assets@)) by {
                    assert forall|a: int, b: int|
                        0 <= a < assets@.len() && 0 <= b < assets@.len() && a != b implies (
                        #[trigger] assets@[a]).0@ != (#[trigger] assets@[b]).0@ by {
                        if a != i && b != i {
                            assert(assets@[a] == old_s[a] && assets@[b] == old_s[b]);
                        } else if a == i {
                            assert(assets@[b] == old_s[b]);
                        } else {
                            assert(assets@[a] == old_s[a]);
                        }
                    }
                }
            },
            None => {
                assets.push((key, data));
                assert(assets@.drop_last() =~= old_s);
                assert(unique_keys(assets@)) by {
                    assert forall|a: int, b: int|
                        0 <= a < assets@.len() && 0 <= b < assets@.len() && a != b implies (
                        #[trigger] assets@[a]).0@ != (#[trigger] assets@[b]).0@ by {
                        if a < old_s.len() && b < old_s.len() {
                            assert(assets@[a] == old_s[a] && assets@[b] == old_s[b]);
                        } else if a < old_s.len() {
                            assert(assets@[a] == old_s[a]);
                        } else {
                            assert(assets@[b] == old_s[b]);
                        }
                    }
                }
            },
        }
        let r = MemoryAssetSource { assets };
        assert(r@ == assets_map(old_s).insert(kv, dv));
        Ok(r)
    }

    /// The source with `data` held under the normalized `reference`, which
    /// must normalize.
    pub fn insert(self, reference: &str, data: Vec<u8>) -> (r: Self)
        requires
            spec_normalize_asset_ref(reference@) is Ok,
        ensures
            r@ == self@.insert(spec_normalize_asset_ref(reference@)->Ok_0, data@),
    {
        match self.try_insert(reference, data) {
            Ok(s) => s,
            Err(_) => {
                proof {
                    assert(false);
                }
                MemoryAssetSource { assets: Vec::new() }
            },
        }
    }

    fn lookup(&self, key: &String) -> (r: Option<Vec<u8>>)
        ensures
            r is Some <==> self@.contains_key(key@),
            r matches Some(v) ==> v@ == self@[key@],
    {
        proof {
            use_type_invariant(self);
        }
        match find_asset(&self.assets, key) {
            Some(i) => {
                proof {
                    lemma_assets_map_get(self.assets@, i as int);
                }
                Some(copy_bytes(&self.assets[i].1))
            },
            None => {
                proof {
                    lemma_assets_map_absent(self.assets@, key@);
                }
                None
            },
        }
    }
}

impl AssetSource for MemoryAssetSource {
    /// The one answer of [`spec_read_memory`].
    open spec fn may_answer(
        &self,
        reference: Seq<char>,
        answer: core::result::Result<Seq<u8>, ErrorView>,
    ) -> bool {
        answer == spec_read_memory(self@, spec_asset_lookup_candidates(reference), 0, reference)
    }

    /// The bytes held under the first lookup candidate of `reference` (see
    /// [`asset_lookup_candidates`]) that normalizes to a held key; a
    /// candidate before it that does not normalize gives its error.
    fn read_asset(&self, reference: &str) -> (r: Result<Vec<u8>>)
        ensures
            match spec_read_memory(self@, spec_asset_lookup_candidates(reference@), 0, reference@) {
                Ok(b) => r matches Ok(v) && v@ == b,
                Err(e) => r matches Err(x) && x@ == e,
            },
    {
        let cands = asset_lookup_candidates(reference);
        let ghost cv = texts_view(cands@);
        let mut i: usize = 0;
        while i < cands.len()
            invariant
                i <= cands@.len(),
                cv == texts_view(cands@),
                cv == spec_asset_lookup_candidates(reference@),
                spec_read_memory(self@, cv, i as int, reference@) == spec_read_memory(
                    self@,
                    cv,
                    0,
                    reference@,
                ),
            decreases cands@.len() - i,
        {
            assert(cv[i as int] == cands@[i as int]@);
            match normalize_asset_ref(cands[i].as_str()) {
                Err(e) => {
                    return Err(e);
                },
                Ok(k) => match self.lookup(&k) {
                    Some(bytes) => {
                        return Ok(bytes);
                    },
                    None => {},
                },
            }
            i = i + 1;
        }
        Err(MdxError::AssetNotFound(String::from_str(reference)))
    }
}

} // verus!

verus! {

/// What reading from one source gave, and what the resolver does next.
pub enum ResolveStep {
    /// The asset's bytes: the answer.
    Done(Vec<u8>),
    /// A redirect: resolve this reference instead.
    Follow(String),
    /// The source does not have the asset: ask the next one.
    TryNext,
    /// The source failed: the answer is this error.
    Stop(MdxError),
}

/// What the resolver does with a source's answer: bytes that redirect are
/// followed, other bytes are the answer, a missing asset or keyword moves on
/// to the next source and any other error is the answer.
pub fn resolve_step(answer: Result<Vec<u8>>) -> (r: ResolveStep)
    ensures
        match answer {
            Ok(b) => match spec_resource_redirect(b@) {
                Some(t) => r matches ResolveStep::Follow(x) && x@ == t,
                None => r matches ResolveStep::Done(x) && x@ == b@,
            },
            Err(e) => if e@ is AssetNotFound || e@ is IndexMiss {
                r is TryNext
            } else {
                r matches ResolveStep::Stop(x) && x@ == e@
            },
        },
{
    match answer {
        Ok(bytes) => match parse_mdict_resource_redirect(bytes.as_slice()) {
            Some(target) => ResolveStep::Follow(target),
            None => ResolveStep::Done(bytes),
        },
        Err(MdxError::AssetNotFound(_)) => ResolveStep::TryNext,
        Err(MdxError::IndexMiss { .. }) => ResolveStep::TryNext,
        Err(e) => ResolveStep::Stop(e),
    }
}

/// How many redirects one read follows at most: as many as a `usize` counts.
/// A read stops on a cycle long before; a chain that never repeats a
/// reference keeps one key per redirect in memory, which runs out before the
/// bound is met. The bound is there so that a read provably ends.
pub const MAX_ASSET_REDIRECTS: usize = usize::MAX;

/// Whether `r` is what asking `sources[i..]` for `reference` may give, after
/// the references in `seen` were followed `depth` redirects deep: each source
/// in turn; an answer of bytes is the result, unless the bytes redirect, when
/// the target is read in its place; `AssetNotFound` and `IndexMiss` ask the
/// next source, another error is the result; after the last source, the
/// result is `AssetNotFound`.
pub open spec fn resolves_from(
    sources: Seq<SourceSlot>,
    reference: Seq<char>,
    i: int,
    seen: Seq<Seq<char>>,
    depth: int,
    r: core::result::Result<Seq<u8>, ErrorView>,
) -> bool
    decreases MAX_ASSET_REDIRECTS - depth, sources.len() - i,
{
    if depth < 0 || depth >= MAX_ASSET_REDIRECTS || i < 0 || i >= sources.len() {
        r == Err::<Seq<u8>, ErrorView>(ErrorView::AssetNotFound(reference))
    } else {
        exists|a: core::result::Result<Seq<u8>, ErrorView>|
            #[trigger] slot_may_answer(sources[i], reference, a) && match a {
                Ok(b) => match spec_resource_redirect(b) {
                    None => r == Ok::<Seq<u8>, ErrorView>(b),
                    Some(t) => resolves(sources, t, seen, depth + 1, r),
                },
                Err(e) => if e is AssetNotFound || e is IndexMiss {
                    resolves_from(sources, reference, i + 1, seen, depth, r)
                } else {
                    r == Err::<Seq<u8>, ErrorView>(e)
                },
            }
    }
}

/// Whether `r` is what reading `reference` through `sources` may give: a
/// reference whose key was followed already, or one more than
/// [`MAX_ASSET_REDIRECTS`] redirects deep, is `AssetNotFound`; otherwise the
/// sources are asked in order (see [`resolves_from`]).
pub open spec fn resolves(
    sources: Seq<SourceSlot>,
    reference: Seq<char>,
    seen: Seq<Seq<char>>,
    depth: int,
    r: core::result::Result<Seq<u8>, ErrorView>,
) -> bool
    decreases MAX_ASSET_REDIRECTS - depth, sources.len() + 1,
{
    let key = resolver_key(reference);
    if depth < 0 || depth >= MAX_ASSET_REDIRECTS || seen.contains(key) {
        r == Err::<Seq<u8>, ErrorView>(ErrorView::AssetNotFound(reference))
    } else {
        resolves_from(sources, reference, 0, seen.push(key), depth, r)
    }
}

/// A source of a resolver: one given by its user, or an archive whose
/// entries hold assets.
pub enum SourceSlot {
    /// A source given to the resolver.
    Given(Box<dyn AssetSource>),
    /// The entries of an archive (an MDD dictionary).
    Archive(DictionaryAssetSource),
}

/// What a source of a resolver may answer (see [`AssetSource::may_answer`]).
pub open spec fn slot_may_answer(
    slot: SourceSlot,
    reference: Seq<char>,
    answer: core::result::Result<Seq<u8>, ErrorView>,
) -> bool {
    match slot {
        SourceSlot::Given(b) => b.may_answer(reference, answer),
        SourceSlot::Archive(d) => d.may_answer(reference, answer),
    }
}

fn read_slot(slot: &SourceSlot, reference: &str) -> (r: Result<Vec<u8>>)
    ensures
        slot_may_answer(*slot, reference@, bytes_result_view(r)),
{
    match slot {
        SourceSlot::Given(b) => b.read_asset(reference),
        SourceSlot::Archive(d) => d.read_asset(reference),
    }
}

/// Reads asset references through a list of sources, in order, following
/// redirects between resources.
pub struct AssetResolver {
    sources: Vec<SourceSlot>,
}

impl Default for AssetResolver {
    /// A resolver without sources.
    fn default() -> (r: Self)
        ensures
            r.source_count() == 0,
    {
        AssetResolver { sources: Vec::new() }
    }
}

fn contains_text(list: &Vec<String>, x: &String) -> (r: bool)
    ensures
        r == texts_view(list@).contains(x@),
{
    let mut k: usize = 0;
    while k < list.len()
        invariant
            k <= list@.len(),
            forall|j: int| 0 <= j < k ==> list@[j]@ != x@,
        decreases list@.len() - k,
    {
        if list[k] == *x {
            assert(texts_view(list@)[k as int] == x@);
            return true;
        }
        k = k + 1;
    }
    assert forall|j: int| 0 <= j < texts_view(list@).len() implies texts_view(list@)[j] != x@ by {
        assert(texts_view(list@)[j] == list@[j]@);
    }
    false
}

/// `v` with `x` after its elements.
fn appended<T>(v: Vec<T>, x: T) -> (r: Vec<T>)
    ensures
        r@ == v@.push(x),
        r@.len() == v@.len() + 1,
        forall|i: int| 0 <= i < v@.len() ==> #[trigger] r@[i] == v@[i],
{
    let mut v = v;
    v.push(x);
    v
}

impl AssetResolver {
    /// How many sources the resolver asks.
    pub open spec fn source_count(&self) -> nat {
        self.sources().len()
    }

    /// A resolver without sources.
    pub fn new() -> (r: Self)
        ensures
            r.source_count() == 0,
    {
        AssetResolver { sources: Vec::new() }
    }

    /// The sources, in the order they are asked.
    pub closed spec fn sources(&self) -> Seq<SourceSlot> {
        self.sources@
    }

    /// The resolver with one more source, asked after the others.
    pub fn with_source(self, source: Box<dyn AssetSource>) -> (r: Self)
        ensures
            r.sources() == self.sources().push(SourceSlot::Given(source)),
            r.source_count() == self.source_count() + 1,
            forall|i: int|
                0 <= i < self.source_count() ==> #[trigger] r.sources()[i] == self.sources()[i],
    {
        let sources = appended(self.sources, SourceSlot::Given(source));
        AssetResolver { sources }
    }

    /// Adds a source, asked after the others.
    pub fn add_source(&mut self, source: Box<dyn AssetSource>)
        ensures
            final(self).sources() == old(self).sources().push(SourceSlot::Given(source)),
            final(self).source_count() == old(self).source_count() + 1,
            forall|i: int|
                0 <= i < old(self).source_count() ==> #[trigger] final(self).sources()[i] == old(
                    self,
                ).sources()[i],
    {
        let slot = SourceSlot::Given(source);
        let mut sources: Vec<SourceSlot> = Vec::new();
        std::mem::swap(&mut sources, &mut self.sources);
        self.sources = appended(sources, slot);
    }

    /// Adds the entries of an archive as a source, asked after the others.
    pub(crate) fn add_archive(&mut self, archive: DictionaryAssetSource)
        ensures
            final(self).sources() == old(self).sources().push(SourceSlot::Archive(archive)),
            final(self).source_count() == old(self).source_count() + 1,
            forall|i: int|
                0 <= i < old(self).source_count() ==> #[trigger] final(self).sources()[i] == old(
                    self,
                ).sources()[i],
    {
        let slot = SourceSlot::Archive(archive);
        let mut sources: Vec<SourceSlot> = Vec::new();
        std::mem::swap(&mut sources, &mut self.sources);
        self.sources = appended(sources, slot);
    }

    /// The bytes of the asset that `reference` names: the sources are asked
    /// in order until one has it, and a resource that redirects is resolved
    /// in its place (see [`resolves`]). A reference that none has, or one
    /// already followed, is answered with `AssetNotFound`.
    pub fn read(&self, reference: &str) -> (r: Result<Vec<u8>>)
        ensures
            resolves(self.sources(), reference@, Seq::empty(), 0, bytes_result_view(r)),
            self.source_count() == 0 ==> (r matches Err(e) && e@ == ErrorView::AssetNotFound(
                reference@,
            )),
            r matches Ok(b) ==> spec_resource_redirect(b@) is None,
    {
        let mut seen: Vec<String> = Vec::new();
        assert(texts_view(seen@) =~= Seq::<Seq<char>>::empty());
        self.read_inner(reference, &mut seen, 0)
    }

    fn read_inner(&self, reference: &str, seen: &mut Vec<String>, depth: usize) -> (r: Result<
        Vec<u8>,
    >)
        requires
            depth <= MAX_ASSET_REDIRECTS,
        ensures
            resolves(
                self.sources(),
                reference@,
                texts_view(old(seen)@),
                depth as int,
                bytes_result_view(r),
            ),
            (self.source_count() == 0 || texts_view(old(seen)@).contains(resolver_key(reference@))
                || depth == MAX_ASSET_REDIRECTS) ==> (r matches Err(e) && e@
                == ErrorView::AssetNotFound(reference@)),
            r matches Ok(b) ==> spec_resource_redirect(b@) is None,
        decreases MAX_ASSET_REDIRECTS - depth,
    {
        let ghost srcs = self.sources@;
        let key = normalize_asset_resolver_ref(reference);
        if contains_text(seen, &key) || depth >= MAX_ASSET_REDIRECTS {
            return Err(MdxError::AssetNotFound(String::from_str(reference)));
        }
        let ghost before = texts_view(seen@);
        let ghost kv = key@;
        seen.push(key);
        assert(texts_view(seen@) =~= before.push(kv));
        let ghost s2 = texts_view(seen@);
        let mut i: usize = 0;
        while i < self.sources.len()
            invariant
                i <= self.sources@.len(),
                srcs == self.sources@,
                depth < MAX_ASSET_REDIRECTS,
                !texts_view(old(seen)@).contains(resolver_key(reference@)),
                texts_view(seen@) == s2,
                s2 == texts_view(old(seen)@).push(resolver_key(reference@)),
                forall|x: core::result::Result<Seq<u8>, ErrorView>|
                    #[trigger] resolves_from(srcs, reference@, i as int, s2, depth as int, x)
                        ==> resolves_from(srcs, reference@, 0, s2, depth as int, x),
            decreases self.sources@.len() - i,
        {
            let answer = read_slot(&self.sources[i], reference);
            let ghost a = bytes_result_view(answer);
            assert(slot_may_answer(srcs[i as int], reference@, a));
            match resolve_step(answer) {
                ResolveStep::Done(bytes) => {
                    assert(resolves_from(
                        srcs,
                        reference@,
                        i as int,
                        s2,
                        depth as int,
                        bytes_result_view(Ok(bytes)),
                    ));
                    let r = Ok(bytes);
                    return r;
                },
                ResolveStep::Follow(target) => {
                    let r = self.read_inner(target.as_str(), seen, depth + 1);
                    assert(resolves_from(
                        srcs,
                        reference@,
                        i as int,
                        s2,
                        depth as int,
                        bytes_result_view(r),
                    ));
                    return r;
                },
                ResolveStep::TryNext => {
                    assert forall|x: core::result::Result<Seq<u8>, ErrorView>|
                        #[trigger] resolves_from(
                            srcs,
                            reference@,
                            i + 1,
                            s2,
                            depth as int,
                            x,
                        ) implies resolves_from(srcs, reference@, 0, s2, depth as int, x) by {
                        assert(resolves_from(srcs, reference@, i as int, s2, depth as int, x));
                    }
                },
                ResolveStep::Stop(e) => {
                    assert(resolves_from(
                        srcs,
                        reference@,
                        i as int,
                        s2,
                        depth as int,
                        bytes_result_view(Err(e)),
                    ));
                    return Err(e);
                },
            }
            i = i + 1;
        }
        let r = Err(MdxError::AssetNotFound(String::from_str(reference)));
        assert(resolves_from(srcs, reference@, i as int, s2, depth as int, bytes_result_view(r)));
        r
    }
}

} // verus!

verus! {

/// Assets held in files under a root directory. Reading the files is left
/// to the caller: the library says which keys to try, in order.
#[derive(Debug, Clone)]
pub struct FileAssetSource {
    root: String,
}

/// The normalized keys of the candidates that normalize, in order.
pub open spec fn safe_keys(cands: Seq<Seq<char>>) -> Seq<Seq<char>>
    decreases cands.len(),
{
    if cands.len() == 0 {
        Seq::empty()
    } else {
        safe_keys(cands.drop_last()) + match spec_normalize_asset_ref(cands.last()) {
            Ok(k) => seq![k],
            Err(_) => Seq::empty(),
        }
    }
}

impl View for FileAssetSource {
    type V = Seq<char>;

    /// The root directory.
    closed spec fn view(&self) -> Seq<char> {
        self.root@
    }
}

impl FileAssetSource {
    /// A source of the files under `root`.
    pub fn new(root: String) -> (r: Self)
        ensures
            r@ == root@,
    {
        FileAssetSource { root }
    }

    /// The directory that holds the assets.
    pub fn root(&self) -> (r: &String)
        ensures
            r@ == self@,
    {
        &self.root
    }

    /// The relative file keys to try for a reference, in order: the lookup
    /// candidates that normalize, normalized (one that climbs out of the
    /// root, or is blank, is passed over). A reader tries each key under the
    /// root until a file exists, and answers `AssetNotFound` when none does.
    pub fn lookup_keys(&self, reference: &str) -> (r: Vec<String>)
        ensures
            texts_view(r@) == safe_keys(spec_asset_lookup_candidates(reference@)),
    {
        let cands = asset_lookup_candidates(reference);
        let ghost cv = texts_view(cands@);
        let mut out: Vec<String> = Vec::new();
        let mut i: usize = 0;
        assert(cv.take(0) =~= Seq::<Seq<char>>::empty());
        assert(texts_view(out@) =~= Seq::<Seq<char>>::empty());
        while i < cands.len()
            invariant
                i <= cands@.len(),
                cv == texts_view(cands@),
                cv == spec_asset_lookup_candidates(reference@),
                texts_view(out@) == safe_keys(cv.take(i as int)),
            decreases cands@.len() - i,
        {
            assert(cv[i as int] == cands@[i as int]@);
            assert(cv.take(i + 1).drop_last() =~= cv.take(i as int));
            assert(cv.take(i + 1).last() == cv[i as int]);
            let ghost before = texts_view(out@);
            match normalize_asset_ref(cands[i].as_str()) {
                Ok(k) => {
                    let ghost kv = k@;
                    out.push(k);
                    assert(texts_view(out@) =~= before + seq![kv]);
                },
                Err(_) => {
                    assert(before + Seq::<Seq<char>>::empty() =~= before);
                },
            }
            i = i + 1;
        }
        assert(cv.take(cands@.len() as int) =~= cv);
        out
    }
}

/// Position of the first entry at or after `i` whose lookup key equals `w`
/// ignoring ASCII case.
pub open spec fn first_ci_entry(entries: Seq<MDictKeywordEntry>, w: Seq<char>, i: int) -> Option<int>
    decreases entries.len() - i,
{
    if i < 0 || i >= entries.len() {
        None
    } else if eq_ignore_ascii_case(spec_lookup_key(entries[i]), w) {
        Some(i)
    } else {
        first_ci_entry(entries, w, i + 1)
    }
}

/// The entry that a dictionary answers for the candidates from `i` on: for
/// the first candidate that finds one, the first entry whose lookup key
/// matches it ignoring ASCII case, else the first with the same comparable
/// key.
pub open spec fn dictionary_asset_entry(d: DictionaryView, cands: Seq<Seq<char>>, i: int) -> Option<
    MDictKeywordEntry,
>
    decreases cands.len() - i,
{
    if i < 0 || i >= cands.len() {
        None
    } else {
        match first_ci_entry(d.entries, cands[i], 0) {
            Some(j) => Some(d.entries[j]),
            None => match first_comparable(d.entries, cands[i], 0) {
                Some(j) => Some(d.entries[j]),
                None => dictionary_asset_entry(d, cands, i + 1),
            },
        }
    }
}

/// Assets held as the entries of a dictionary (an MDD archive).
#[derive(Clone)]
pub struct DictionaryAssetSource {
    dictionary: Arc<Dictionary>,
}

impl View for DictionaryAssetSource {
    type V = DictionaryView;

    closed spec fn view(&self) -> DictionaryView {
        (*self.dictionary)@
    }
}

fn find_ci_entry(entries: &[MDictKeywordEntry], w: &str) -> (r: Option<usize>)
    ensures
        r matches Some(j) ==> first_ci_entry(entries@, w@, 0) == Some(j as int) && j
            < entries@.len(),
        r is None ==> first_ci_entry(entries@, w@, 0) is None,
{
    let mut j: usize = 0;
    while j < entries.len()
        invariant
            j <= entries@.len(),
            first_ci_entry(entries@, w@, j as int) == first_ci_entry(entries@, w@, 0),
        decreases entries@.len() - j,
    {
        if crate::text::str_eq_ignore_ascii_case(entries[j].lookup_key(), w) {
            return Some(j);
        }
        j = j + 1;
    }
    None
}

impl DictionaryAssetSource {
    /// A source of the entries of `dictionary`.
    pub fn new(dictionary: Arc<Dictionary>) -> (r: Self)
        ensures
            r@ == (*dictionary)@,
    {
        DictionaryAssetSource { dictionary }
    }
}

impl AssetSource for DictionaryAssetSource {
    /// The record of the entry of [`dictionary_asset_entry`]; `AssetNotFound`
    /// without one, and an `InvalidFormat` error for a record out of range.
    open spec fn may_answer(
        &self,
        reference: Seq<char>,
        answer: core::result::Result<Seq<u8>, ErrorView>,
    ) -> bool {
        match dictionary_asset_entry(self@, spec_asset_lookup_candidates(reference), 0) {
            None => answer == Err::<Seq<u8>, ErrorView>(ErrorView::AssetNotFound(reference)),
            Some(entry) => match spec_resolve(self@, entry) {
                Some(b) => answer == Ok::<Seq<u8>, ErrorView>(b),
                None => answer matches Err(e) && e is InvalidFormat,
            },
        }
    }

    /// The record of the entry that the dictionary holds for the first
    /// lookup candidate of `reference` that it has (see
    /// [`dictionary_asset_entry`]).
    fn read_asset(&self, reference: &str) -> (r: Result<Vec<u8>>)
        ensures
            match dictionary_asset_entry(self@, spec_asset_lookup_candidates(reference@), 0) {
                None => r matches Err(e) && e@ == ErrorView::AssetNotFound(reference@),
                Some(entry) => match spec_resolve(self@, entry) {
                    Some(b) => r matches Ok(v) && v@ == b,
                    None => r matches Err(e) && e@ is InvalidFormat,
                },
            },
    {
        let d: &Dictionary = &self.dictionary;
        let cands = asset_lookup_candidates(reference);
        let ghost cv = texts_view(cands@);
        let entries = d.get_keyword_entries();
        let mut i: usize = 0;
        while i < cands.len()
            invariant
                i <= cands@.len(),
                cv == texts_view(cands@),
                cv == spec_asset_lookup_candidates(reference@),
                entries@ == d@.entries,
                d@ == self@,
                dictionary_asset_entry(self@, cv, i as int) == dictionary_asset_entry(
                    self@,
                    cv,
                    0,
                ),
            decreases cands@.len() - i,
        {
            assert(cv[i as int] == cands@[i as int]@);
            match find_ci_entry(entries, cands[i].as_str()) {
                Some(j) => {
                    return d.resolve(&entries[j]);
                },
                None => {},
            }
            match d.find_comparable_entry(cands[i].as_str()) {
                Some(e) => {
                    return d.resolve(e);
                },
                None => {},
            }
            i = i + 1;
        }
        Err(MdxError::AssetNotFound(String::from_str(reference)))
    }
}

} // verus!

verus! {

/// A normalized asset path stays under its root: none of its `\`-separated
/// parts is empty or `..`, and it holds no `/`.
pub proof fn lemma_normalized_ref_is_safe(reference: Seq<char>)
    ensures
        spec_normalize_asset_ref(reference) matches Ok(c) ==> !bad_part_from(c, 0) && forall|i: int|
            0 <= i < c.len() ==> #[trigger] c[i] != '/',
{
}

proof fn lemma_expand_all_first(s: Seq<Seq<char>>)
    requires
        s.len() > 0,
        expand_candidate(s[0]).len() > 0,
    ensures
        expand_all(s).len() > 0,
        expand_all(s)[0] == expand_candidate(s[0])[0],
    decreases s.len(),
{
    if s.len() > 1 {
        assert(s.drop_last()[0] == s[0]);
        lemma_expand_all_first(s.drop_last());
    } else {
        assert(s.drop_last() =~= Seq::<Seq<char>>::empty());
        assert(expand_all(s.drop_last()) =~= Seq::<Seq<char>>::empty());
        assert(s.last() == s[0]);
        assert(expand_all(s) =~= expand_candidate(s[0]));
    }
}

proof fn lemma_dedup_first(s: Seq<Seq<char>>)
    requires
        s.len() > 0,
        trim(s[0]).len() > 0,
    ensures
        dedup_nonblank(s).len() > 0,
        dedup_nonblank(s)[0] == s[0],
    decreases s.len(),
{
    let d = dedup_nonblank(s.drop_last());
    if s.len() > 1 {
        assert(s.drop_last()[0] == s[0]);
        lemma_dedup_first(s.drop_last());
        assert(d.push(s.last())[0] == d[0]);
    } else {
        assert(s.drop_last() =~= Seq::<Seq<char>>::empty());
        assert(d =~= Seq::<Seq<char>>::empty());
        assert(s.last() == s[0]);
        assert(!d.contains(s[0]));
        assert(d.push(s.last())[0] == s[0]);
    }
}

proof fn lemma_empty_ref_refused(reference: Seq<char>)
    requires
        reference.len() == 0,
    ensures
        spec_normalize_asset_ref(reference) is Err,
{
    reveal_strlit("file://");
    reveal_strlit("sound://");
    reveal_strlit("snd://");
    reveal_strlit("img://");
    reveal_strlit("css://");
    reveal_strlit("js://");
    reveal_with_fuel(strip_scheme_from, 7);
    assert(spec_trim_resource_scheme(reference) =~= reference);
    assert(trim(reference) =~= reference);
    assert(asset_ref_text(reference) =~= Seq::<char>::empty());
}

/// What is put into memory under a reference is what reading that reference
/// gives back.
pub proof fn lemma_memory_read_after_insert(
    m: Map<Seq<char>, Seq<u8>>,
    reference: Seq<char>,
    data: Seq<u8>,
)
    requires
        spec_normalize_asset_ref(reference) is Ok,
    ensures
        spec_read_memory(
            m.insert(spec_normalize_asset_ref(reference)->Ok_0, data),
            spec_asset_lookup_candidates(reference),
            0,
            reference,
        ) == Ok::<Seq<u8>, ErrorView>(data),
{
    lemma_normalize_trimmed(reference);
    let t = trim(reference);
    let base = base_candidates(t);
    assert(base[0] == t);
    assert(expand_candidate(t)[0] == t);
    lemma_expand_all_first(base);
    lemma_dedup_first(expand_all(base));
}

/// No reference appears twice and each names a resource.
pub open spec fn refs_well_formed(d: Seq<Seq<char>>) -> bool {
    &&& forall|i: int| 0 <= i < d.len() ==> spec_is_resource_ref(#[trigger] d[i])
    &&& forall|i: int, j: int| 0 <= i < d.len() && 0 <= j < d.len() && i != j ==> #[trigger] d[i] != #[trigger] d[j]
}

proof fn lemma_keep_fold_well_formed(d: Seq<Seq<char>>, s: Seq<Seq<char>>)
    requires
        refs_well_formed(d),
    ensures
        refs_well_formed(keep_fold(d, s)),
    decreases s.len(),
{
    if s.len() > 0 {
        let d2 = keep_step(d, s[0]);
        let v = trim(s[0]);
        if spec_is_resource_ref(v) && !d.contains(v) {
            assert forall|i: int, j: int| 0 <= i < d2.len() && 0 <= j < d2.len() && i != j implies #[trigger] d2[i] != #[trigger] d2[j] by {
                if i < d.len() && j < d.len() {
                } else if i < d.len() {
                    assert(d2[i] == d[i]);
                    assert(d.contains(d[i]));
                } else {
                    assert(d2[j] == d[j]);
                    assert(d.contains(d[j]));
                }
            }
        }
        lemma_keep_fold_well_formed(d2, s.skip(1));
    }
}

proof fn lemma_keep_scheme_tokens_well_formed(t: Seq<char>, d: Seq<Seq<char>>, i: int)
    requires
        refs_well_formed(d),
    ensures
        refs_well_formed(keep_scheme_tokens(t, d, i)),
    decreases resource_ref_schemes().len() - i,
{
    if 0 <= i < resource_ref_schemes().len() {
        let d2 = keep_fold(d, scheme_tokens(t, resource_ref_schemes()[i], 0));
        lemma_keep_fold_well_formed(d, scheme_tokens(t, resource_ref_schemes()[i], 0));
        lemma_keep_scheme_tokens_well_formed(t, d2, i + 1);
    }
}

/// The references extracted from a record each name a resource, and none
/// appears twice.
pub proof fn lemma_extracted_refs_well_formed(content: Seq<u8>)
    ensures
        refs_well_formed(spec_extract_resource_refs(content)),
{
    if vstd::utf8::valid_utf8(content) {
        let t = vstd::utf8::decode_utf8(content);
        let e = Seq::<Seq<char>>::empty();
        lemma_keep_fold_well_formed(e, attr_values(t, "src="@, 0));
        let d1 = keep_fold(e, attr_values(t, "src="@, 0));
        lemma_keep_fold_well_formed(d1, attr_values(t, "href="@, 0));
        let d2 = keep_fold(d1, attr_values(t, "href="@, 0));
        lemma_keep_scheme_tokens_well_formed(t, d2, 0);
    }
}

} // verus!

verus! {

proof fn lemma_trim_nonblank_ends(s: Seq<char>)
    ensures
        trim(s).len() > 0 ==> !crate::text::spec_is_whitespace(trim(s)[0])
            && !crate::text::spec_is_whitespace(trim(s)[trim(s).len() - 1]),
{
    let a = crate::text::ws_end(s, 0, s.len() as int);
    crate::text::lemma_ws_end_bounds(s, 0, s.len() as int);
    crate::text::lemma_ws_start_bounds(s, a, s.len() as int);
    let b = crate::text::ws_start(s, a, s.len() as int);
    if b > a {
        assert(trim(s)[0] == s[a]);
        assert(trim(s)[trim(s).len() - 1] == s[b - 1]);
    }
}

proof fn lemma_trim_keeps(s: Seq<char>)
    requires
        s.len() > 0,
        !crate::text::spec_is_whitespace(s[0]),
        !crate::text::spec_is_whitespace(s[s.len() - 1]),
    ensures
        trim(s) == s,
{
    assert(crate::text::ws_end(s, 0, s.len() as int) == 0);
    assert(crate::text::ws_start(s, 0, s.len() as int) == s.len());
    assert(s.subrange(0, s.len() as int) =~= s);
}

/// An MDD key is its own key: normalizing it again changes nothing. It
/// starts with `\` and holds no `/`.
pub proof fn lemma_mdd_key_idempotent(name: Seq<char>)
    ensures
        mdd_key(name).len() > 0,
        mdd_key(name)[0] == '\\',
        forall|i: int| 0 <= i < mdd_key(name).len() ==> #[trigger] mdd_key(name)[i] != '/',
        mdd_key(mdd_key(name)) == mdd_key(name),
{
    let t = trim(name);
    let n = slashes_to_backslashes(t);
    let k = mdd_key(name);
    lemma_trim_nonblank_ends(name);
    if n.len() == 0 {
        assert(k =~= seq!['\\']);
    } else if n[0] == '\\' {
        assert(k == n);
    } else {
        assert(k =~= seq!['\\'] + n);
        assert(k[k.len() - 1] == n[n.len() - 1]);
    }
    assert forall|i: int| 0 <= i < k.len() implies #[trigger] k[i] != '/' by {
        if n.len() > 0 && n[0] != '\\' && i > 0 {
            assert(k[i] == n[i - 1]);
        }
    }
    assert(!crate::text::spec_is_whitespace(k[k.len() - 1]));
    lemma_trim_keeps(k);
    assert(slashes_to_backslashes(k) =~= k);
}

proof fn lemma_ws_end_all(s: Seq<char>, i: int, n: int)
    requires
        0 <= i <= n <= s.len(),
        forall|k: int| i <= k < n ==> crate::text::spec_is_whitespace(#[trigger] s[k]),
    ensures
        crate::text::ws_end(s, i, n) == n,
    decreases n - i,
{
    if i < n {
        lemma_ws_end_all(s, i + 1, n);
    }
}

proof fn lemma_ws_end_ext(s: Seq<char>, i: int, b: int, n: int)
    requires
        0 <= i <= b <= n <= s.len(),
        forall|k: int| b <= k < n ==> crate::text::spec_is_whitespace(#[trigger] s[k]),
    ensures
        crate::text::ws_end(s, i, b) < b ==> crate::text::ws_end(s, i, n) == crate::text::ws_end(s, i, b),
        crate::text::ws_end(s, i, b) == b ==> crate::text::ws_end(s, i, n) == n,
    decreases b - i,
{
    if i < b {
        if crate::text::spec_is_whitespace(s[i]) {
            lemma_ws_end_ext(s, i + 1, b, n);
        }
    } else {
        lemma_ws_end_all(s, b, n);
    }
}

proof fn lemma_ws_start_ext(s: Seq<char>, a: int, b: int, j: int)
    requires
        0 <= a <= b <= j <= s.len(),
        forall|k: int| b <= k < j ==> crate::text::spec_is_whitespace(#[trigger] s[k]),
    ensures
        crate::text::ws_start(s, a, j) == crate::text::ws_start(s, a, b),
    decreases j - b,
{
    if j > b {
        lemma_ws_start_ext(s, a, b, j - 1);
    }
}

/// White space after position `b` does not change what trimming keeps.
proof fn lemma_trim_ws_tail(s: Seq<char>, lo: int, b: int)
    requires
        0 <= lo <= b <= s.len(),
        forall|k: int| b <= k < s.len() ==> crate::text::spec_is_whitespace(#[trigger] s[k]),
    ensures
        trim(s.subrange(lo, b)) == trim(s.subrange(lo, s.len() as int)),
{
    let n = s.len() as int;
    crate::text::lemma_trim_subrange(s, lo, b);
    crate::text::lemma_trim_subrange(s, lo, n);
    lemma_ws_end_ext(s, lo, b, n);
    crate::text::lemma_ws_end_bounds(s, lo, b);
    let a1 = crate::text::ws_end(s, lo, b);
    if a1 < b {
        lemma_ws_start_ext(s, a1, b, n);
    } else {
        assert(crate::text::ws_start(s, b, b) == b);
        assert(crate::text::ws_start(s, n, n) == n);
        assert(s.subrange(b, b) =~= s.subrange(n, n));
    }
}

/// The number of characters that stripping a scheme removes.
spec fn scheme_cut(s: Seq<char>, i: int) -> int
    decreases resource_schemes().len() - i,
{
    if i < 0 || i >= resource_schemes().len() {
        0
    } else if has_prefix_ci(s, resource_schemes()[i]) {
        resource_schemes()[i].len() as int
    } else {
        scheme_cut(s, i + 1)
    }
}

proof fn lemma_scheme_cut(s: Seq<char>, i: int)
    requires
        0 <= i,
    ensures
        strip_scheme_from(s, resource_schemes(), i) == s.skip(scheme_cut(s, i)),
        0 <= scheme_cut(s, i) <= s.len(),
        scheme_cut(s, i) > 0 ==> exists|j: int| i <= j < 6 && #[trigger] has_prefix_ci(s, resource_schemes()[j]),
        scheme_cut(s, i) == 0 ==> forall|j: int| i <= j < 6 ==> !#[trigger] has_prefix_ci(s, resource_schemes()[j]),
    decreases resource_schemes().len() - i,
{
    if i < resource_schemes().len() {
        if !has_prefix_ci(s, resource_schemes()[i]) {
            lemma_scheme_cut(s, i + 1);
        } else {
            lemma_scheme_shape(s, i);
        }
    } else {
        assert(s.skip(0) =~= s);
    }
}

proof fn lemma_scheme_cut_agree(t: Seq<char>, r: Seq<char>, i: int)
    requires
        0 <= i,
        forall|j: int| i <= j < 6 ==> has_prefix_ci(t, resource_schemes()[j]) == has_prefix_ci(r, resource_schemes()[j]),
    ensures
        scheme_cut(t, i) == scheme_cut(r, i),
    decreases resource_schemes().len() - i,
{
    if i < resource_schemes().len() {
        assert(has_prefix_ci(t, resource_schemes()[i]) == has_prefix_ci(r, resource_schemes()[i]));
        lemma_scheme_cut_agree(t, r, i + 1);
    }
}

/// A text that starts with a resource scheme starts with a letter, has no
/// separator before the scheme's `//`, and has `//` there.
proof fn lemma_scheme_shape(s: Seq<char>, i: int)
    requires
        0 <= i < 6,
        has_prefix_ci(s, resource_schemes()[i]),
    ensures
        5 <= resource_schemes()[i].len() <= 8,
        resource_schemes()[i].len() <= s.len(),
        !crate::text::spec_is_whitespace(s[0]),
        !is_path_sep(s[0]),
        s[resource_schemes()[i].len() - 1] == '/',
        s[resource_schemes()[i].len() - 2] == '/',
        forall|k: int| 0 <= k < resource_schemes()[i].len() - 2 ==> !is_path_sep(#[trigger] s[k]),
{
    reveal_strlit("file://");
    reveal_strlit("sound://");
    reveal_strlit("snd://");
    reveal_strlit("img://");
    reveal_strlit("css://");
    reveal_strlit("js://");
    let p = resource_schemes()[i];
    let lp = p.len() as int;
    let h = s.subrange(0, lp);
    assert(forall|k: int| 0 <= k < lp ==> crate::text::ascii_lower(#[trigger] h[k]) == crate::text::ascii_lower(p[k]));
    assert(h[0] == s[0]);
    assert(crate::text::ascii_lower(h[0]) == crate::text::ascii_lower(p[0]));
    assert(h[lp - 1] == s[lp - 1]);
    assert(crate::text::ascii_lower(h[lp - 1]) == crate::text::ascii_lower(p[lp - 1]));
    assert(h[lp - 2] == s[lp - 2]);
    assert(crate::text::ascii_lower(h[lp - 2]) == crate::text::ascii_lower(p[lp - 2]));
    assert forall|k: int| 0 <= k < lp - 2 implies !is_path_sep(#[trigger] s[k]) by {
        assert(h[k] == s[k]);
        assert(crate::text::ascii_lower(h[k]) == crate::text::ascii_lower(p[k]));
    }
}

/// A reference that starts with a resource scheme after white space does not
/// normalize: its scheme's `//` leaves an empty part.
proof fn lemma_scheme_after_space_refused(t: Seq<char>, i: int)
    requires
        0 <= i < 6,
        has_prefix_ci(t, resource_schemes()[i]),
    ensures
        bad_part_from(slashes_to_backslashes(trim_leading_seps(t)), 0),
{
    lemma_scheme_shape(t, i);
    let lp = resource_schemes()[i].len() as int;
    assert(seps_end(t, 0) == 0);
    assert(t.skip(0) =~= t);
    let c = slashes_to_backslashes(t);
    assert(c[lp - 2] == '\\');
    assert(c[lp - 1] == '\\');
    assert forall|k: int| 0 <= k < lp - 2 implies #[trigger] c[k] != '\\' by {
        assert(!is_path_sep(t[k]));
    }
    lemma_find_char_from(c, '\\', 0);
    assert(find_char_from(c, '\\', 0) == Some(lp - 2));
    assert(part_end(c, 0) == lp - 2);
    assert(c.subrange(0, lp - 2).len() == lp - 2);
    assert(c.subrange(0, lp - 2) != seq!['.', '.']);
    assert(find_char_from(c, '\\', lp - 1) == Some(lp - 1));
    assert(part_end(c, lp - 1) == lp - 1);
    assert(c.subrange(lp - 1, lp - 1).len() == 0);
    assert(bad_part_from(c, lp - 1));
}

/// Trimming a reference first does not change what it normalizes to.
proof fn lemma_normalize_trimmed(r: Seq<char>)
    requires
        spec_normalize_asset_ref(r) is Ok,
    ensures
        trim(r).len() > 0,
        trim(trim(r)) == trim(r),
        spec_normalize_asset_ref(trim(r)) == spec_normalize_asset_ref(r),
{
    let n = r.len() as int;
    if n == 0 {
        lemma_empty_ref_refused(r);
    }
    let a = crate::text::ws_end(r, 0, n);
    crate::text::lemma_ws_end_bounds(r, 0, n);
    crate::text::lemma_ws_start_bounds(r, a, n);
    let b = crate::text::ws_start(r, a, n);
    let t = trim(r);
    assert(t == r.subrange(a, b));
    lemma_scheme_cut(r, 0);
    lemma_scheme_cut(t, 0);
    if a == 0 {
        assert(!crate::text::spec_is_whitespace(r[0]));
        assert(b > 0);
        assert forall|j: int| 0 <= j < 6 implies has_prefix_ci(t, resource_schemes()[j]) == has_prefix_ci(
            r,
            resource_schemes()[j],
        ) by {
            let p = resource_schemes()[j];
            let lp = p.len() as int;
            if has_prefix_ci(r, p) {
                lemma_scheme_shape(r, j);
                assert(!crate::text::spec_is_whitespace(r[lp - 1]));
                assert(lp <= b);
                assert(t.subrange(0, lp) =~= r.subrange(0, lp));
            }
            if has_prefix_ci(t, p) {
                assert(t.subrange(0, lp) =~= r.subrange(0, lp));
            }
        }
        lemma_scheme_cut_agree(t, r, 0);
        let q = scheme_cut(r, 0);
        if q > 0 {
            let j = choose|j: int| 0 <= j < 6 && #[trigger] has_prefix_ci(r, resource_schemes()[j]);
            lemma_scheme_shape(r, j);
        }
        assert(q <= b) by {
            if q > 0 {
                let j = choose|j: int| 0 <= j < 6 && #[trigger] has_prefix_ci(t, resource_schemes()[j]);
                lemma_scheme_shape(t, j);
            }
        }
        assert(t.skip(q) =~= r.subrange(q, b));
        assert(r.skip(q) =~= r.subrange(q, n));
        lemma_trim_ws_tail(r, q, b);
        lemma_trim_nonblank_ends(r);
        lemma_trim_keeps(t);
    } else {
        assert(crate::text::spec_is_whitespace(r[0]));
        if scheme_cut(r, 0) > 0 {
            let j = choose|j: int| 0 <= j < 6 && #[trigger] has_prefix_ci(r, resource_schemes()[j]);
            lemma_scheme_shape(r, j);
        }
        assert(r.skip(0) =~= r);
        if scheme_cut(t, 0) > 0 {
            let j = choose|j: int| 0 <= j < 6 && #[trigger] has_prefix_ci(t, resource_schemes()[j]);
            lemma_scheme_after_space_refused(t, j);
            assert(false);
        }
        assert(t.skip(0) =~= t);
        if t.len() == 0 {
            assert(trim_leading_seps(t) =~= t);
            assert(asset_ref_text(r).len() == 0);
        }
        lemma_trim_nonblank_ends(r);
        lemma_trim_keeps(t);
    }
}

} // verus!

verus! {

/// The UTF-16 code units of one character.
pub open spec fn utf16_units_of(c: char) -> Seq<u16> {
    let v = c as u32;
    if v < 0x10000 {
        seq![v as u16]
    } else {
        let w = v - 0x10000;
        seq![(0xD800 + w / 0x400) as u16, (0xDC00 + w % 0x400) as u16]
    }
}

/// The UTF-16 encoding of a text.
pub open spec fn utf16_encode(t: Seq<char>) -> Seq<u16>
    decreases t.len(),
{
    if t.len() == 0 {
        Seq::empty()
    } else {
        utf16_units_of(t[0]) + utf16_encode(t.skip(1))
    }
}

/// Code units written as little-endian bytes.
pub open spec fn le_bytes(u: Seq<u16>) -> Seq<u8> {
    Seq::new(
        2 * u.len(),
        |i: int| if i % 2 == 0 {
            (u[i / 2] % 256) as u8
        } else {
            (u[i / 2] / 256) as u8
        },
    )
}

proof fn lemma_units_of_char(c: char)
    ensures
        (c as u32) < 0x10000 ==> {
            let u = utf16_units_of(c);
            &&& u.len() == 1
            &&& !crate::binary::is_high_surrogate(u[0])
            &&& !crate::binary::is_low_surrogate(u[0])
            &&& (u[0] as u32) as char == c
        },
        (c as u32) >= 0x10000 ==> {
            let u = utf16_units_of(c);
            &&& u.len() == 2
            &&& crate::binary::is_high_surrogate(u[0])
            &&& crate::binary::is_low_surrogate(u[1])
            &&& crate::binary::surrogate_pair_value(u[0], u[1]) as char == c
        },
        c != '\0' ==> forall|i: int| 0 <= i < utf16_units_of(c).len() ==> #[trigger] utf16_units_of(c)[i] != 0,
{
    let u = utf16_units_of(c);
    let v = c as u32;
    if v < 0x10000 {
        assert((v as u16) as u32 == v);
        assert(((v as u16) as u32) as char == c);
    } else {
        let w = v - 0x10000;
        assert(0 <= w / 0x400 <= 0x3FF);
        assert(w / 0x400 * 0x400 + w % 0x400 == w);
        assert(crate::binary::surrogate_pair_value(u[0], u[1]) == v);
        assert((v as u32) as char == c);
    }
}

proof fn lemma_decode_shift(p: Seq<u16>, y: Seq<u16>, i: int)
    requires
        0 <= i,
    ensures
        crate::binary::utf16_decode_from(p + y, p.len() + i) == crate::binary::utf16_decode_from(y, i),
    decreases y.len() - i,
{
    let x = p + y;
    if i < y.len() {
        assert(x[p.len() + i] == y[i]);
        if i + 1 < y.len() {
            assert(x[p.len() + i + 1] == y[i + 1]);
        }
        lemma_decode_shift(p, y, i + 1);
        if i + 2 <= y.len() {
            lemma_decode_shift(p, y, i + 2);
        }
    }
}

proof fn lemma_decode_encode(t: Seq<char>)
    ensures
        crate::binary::utf16_decode(utf16_encode(t)) == Some(t),
        (forall|i: int| 0 <= i < t.len() ==> #[trigger] t[i] != '\0') ==> forall|k: int|
            0 <= k < utf16_encode(t).len() ==> #[trigger] utf16_encode(t)[k] != 0,
    decreases t.len(),
{
    if t.len() > 0 {
        let c = t[0];
        let a = utf16_units_of(c);
        let rest = utf16_encode(t.skip(1));
        let e = utf16_encode(t);
        assert(e == a + rest);
        lemma_units_of_char(c);
        lemma_decode_encode(t.skip(1));
        lemma_decode_shift(a, rest, 0);
        assert(e[0] == a[0]);
        if a.len() == 2 {
            assert(e[1] == a[1]);
        }
        assert(seq![c] + t.skip(1) =~= t);
        if forall|i: int| 0 <= i < t.len() ==> #[trigger] t[i] != '\0' {
            assert(c != '\0');
            assert forall|i: int| 0 <= i < t.skip(1).len() implies #[trigger] t.skip(1)[i] != '\0' by {
                assert(t.skip(1)[i] == t[i + 1]);
            }
            assert forall|k: int| 0 <= k < e.len() implies #[trigger] e[k] != 0 by {
                if k < a.len() {
                    assert(e[k] == a[k]);
                } else {
                    assert(e[k] == rest[k - a.len()]);
                }
            }
        }
    } else {
        assert(utf16_encode(t) =~= Seq::<u16>::empty());
        assert(t =~= Seq::<char>::empty());
    }
}

proof fn lemma_first_zero_unit_at(u: Seq<u16>, i: int, n: int)
    requires
        0 <= i <= n <= u.len(),
        forall|k: int| i <= k < n ==> #[trigger] u[k] != 0,
        n == u.len() || u[n] == 0,
    ensures
        first_zero_unit(u, i) == n,
    decreases n - i,
{
    if i < n {
        lemma_first_zero_unit_at(u, i + 1, n);
    }
}

/// The redirect marker is `@@@LINK=` written as little-endian UTF-16.
pub proof fn lemma_redirect_marker_is_link_text()
    ensures
        redirect_marker() == le_bytes(utf16_encode("@@@LINK="@)),
{
    reveal_strlit("@@@LINK=");
    let t = "@@@LINK="@;
    reveal_with_fuel(utf16_encode, 9);
    assert(t.skip(1) =~= seq!['@', '@', 'L', 'I', 'N', 'K', '=']);
    assert(t.skip(1).skip(1) =~= seq!['@', 'L', 'I', 'N', 'K', '=']);
    assert(t.skip(1).skip(1).skip(1) =~= seq!['L', 'I', 'N', 'K', '=']);
    assert(t.skip(1).skip(1).skip(1).skip(1) =~= seq!['I', 'N', 'K', '=']);
    assert(t.skip(1).skip(1).skip(1).skip(1).skip(1) =~= seq!['N', 'K', '=']);
    assert(t.skip(1).skip(1).skip(1).skip(1).skip(1).skip(1) =~= seq!['K', '=']);
    assert(t.skip(1).skip(1).skip(1).skip(1).skip(1).skip(1).skip(1) =~= seq!['=']);
    assert(t.skip(1).skip(1).skip(1).skip(1).skip(1).skip(1).skip(1).skip(1) =~= Seq::<char>::empty());
    let e = utf16_encode(t);
    assert(e =~= seq![64u16, 64u16, 64u16, 76u16, 73u16, 78u16, 75u16, 61u16]);
    assert(redirect_marker() =~= le_bytes(e));
}

/// Data that does not start with the redirect marker redirects nowhere.
pub proof fn lemma_redirect_needs_marker(data: Seq<u8>)
    requires
        !(data.len() >= 16 && data.subrange(0, 16) == redirect_marker()),
    ensures
        spec_resource_redirect(data) is None,
{
}

/// A resource that holds `@@@LINK=` and then a target in little-endian
/// UTF-16, ended by the end of the data, one odd byte or a zero code unit,
/// redirects to that target (written without surrounding white space and
/// without zero characters).
pub proof fn lemma_redirect_round_trip(target: Seq<char>, tail: Seq<u8>)
    requires
        target.len() > 0,
        trim(target) == target,
        forall|i: int| 0 <= i < target.len() ==> #[trigger] target[i] != '\0',
        tail.len() <= 1 || (tail[0] == 0 && tail[1] == 0),
    ensures
        spec_resource_redirect(redirect_marker() + le_bytes(utf16_encode(target)) + tail) == Some(
            target,
        ),
{
    let e = utf16_encode(target);
    let b = le_bytes(e);
    let data = redirect_marker() + b + tail;
    lemma_decode_encode(target);
    assert(data.subrange(0, 16) =~= redirect_marker());
    assert(data.skip(16) =~= b + tail);
    let u = crate::binary::le_units(b + tail);
    let n = e.len() as int;
    assert(u.len() >= n);
    assert forall|k: int| 0 <= k < n implies #[trigger] u[k] == e[k] by {
        assert((b + tail)[2 * k] == b[2 * k]);
        assert((b + tail)[2 * k + 1] == b[2 * k + 1]);
        assert((2 * k) / 2 == k);
        assert((2 * k + 1) / 2 == k);
        assert((2 * k) % 2 == 0);
        assert((2 * k + 1) % 2 == 1);
        assert(e[k] % 256 + (e[k] / 256) * 256 == e[k]);
    }
    if u.len() > n {
        assert(tail.len() >= 2);
        assert((b + tail)[2 * n] == tail[0]);
        assert((b + tail)[2 * n + 1] == tail[1]);
        assert(u[n] == 0);
    }
    lemma_first_zero_unit_at(u, 0, n);
    assert(u.take(n) =~= e);
}

}

verus! {

/// Whether every answer that `sources[i]` may give to `reference` is `a`.
pub open spec fn answers_only(
    sources: Seq<SourceSlot>,
    i: int,
    reference: Seq<char>,
    a: core::result::Result<Seq<u8>, ErrorView>,
) -> bool {
    forall|x: core::result::Result<Seq<u8>, ErrorView>| #[trigger]
        slot_may_answer(sources[i], reference, x) ==> x == a
}

/// Whether every answer that `sources[i]` may give to `reference` says that
/// it lacks the asset (`AssetNotFound` or `IndexMiss`).
pub open spec fn lacks(sources: Seq<SourceSlot>, i: int, reference: Seq<char>) -> bool {
    forall|x: core::result::Result<Seq<u8>, ErrorView>| #[trigger]
        slot_may_answer(sources[i], reference, x) ==> (x matches Err(e) && (e is AssetNotFound
            || e is IndexMiss))
}

/// The first source that has an asset gives it: when source `i` may only
/// answer bytes that do not redirect, those bytes are the result.
pub proof fn lemma_resolver_first_answer_wins(
    sources: Seq<SourceSlot>,
    reference: Seq<char>,
    i: int,
    seen: Seq<Seq<char>>,
    depth: int,
    b: Seq<u8>,
    r: core::result::Result<Seq<u8>, ErrorView>,
)
    requires
        0 <= i < sources.len(),
        0 <= depth < MAX_ASSET_REDIRECTS,
        answers_only(sources, i, reference, Ok(b)),
        spec_resource_redirect(b) is None,
        resolves_from(sources, reference, i, seen, depth, r),
    ensures
        r == Ok::<Seq<u8>, ErrorView>(b),
{
    let a = choose|a: core::result::Result<Seq<u8>, ErrorView>|
        #[trigger] slot_may_answer(sources[i], reference, a) && match a {
            Ok(x) => match spec_resource_redirect(x) {
                None => r == Ok::<Seq<u8>, ErrorView>(x),
                Some(t) => resolves(sources, t, seen, depth + 1, r),
            },
            Err(e) => if e is AssetNotFound || e is IndexMiss {
                resolves_from(sources, reference, i + 1, seen, depth, r)
            } else {
                r == Err::<Seq<u8>, ErrorView>(e)
            },
        };
    assert(slot_may_answer(sources[i], reference, a));
    assert(a == Ok::<Seq<u8>, ErrorView>(b));
}

/// A source that lacks the asset passes the question on to the next one.
pub proof fn lemma_resolver_passes_over_lacking_source(
    sources: Seq<SourceSlot>,
    reference: Seq<char>,
    i: int,
    seen: Seq<Seq<char>>,
    depth: int,
    r: core::result::Result<Seq<u8>, ErrorView>,
)
    requires
        0 <= i < sources.len(),
        0 <= depth < MAX_ASSET_REDIRECTS,
        lacks(sources, i, reference),
        resolves_from(sources, reference, i, seen, depth, r),
    ensures
        resolves_from(sources, reference, i + 1, seen, depth, r),
{
    let a = choose|a: core::result::Result<Seq<u8>, ErrorView>|
        #[trigger] slot_may_answer(sources[i], reference, a) && match a {
            Ok(x) => match spec_resource_redirect(x) {
                None => r == Ok::<Seq<u8>, ErrorView>(x),
                Some(t) => resolves(sources, t, seen, depth + 1, r),
            },
            Err(e) => if e is AssetNotFound || e is IndexMiss {
                resolves_from(sources, reference, i + 1, seen, depth, r)
            } else {
                r == Err::<Seq<u8>, ErrorView>(e)
            },
        };
    assert(slot_may_answer(sources[i], reference, a));
}

/// When every source lacks the asset, reading it gives `AssetNotFound` for
/// the reference.
pub proof fn lemma_resolver_not_found_when_all_lack(
    sources: Seq<SourceSlot>,
    reference: Seq<char>,
    r: core::result::Result<Seq<u8>, ErrorView>,
)
    requires
        forall|i: int| 0 <= i < sources.len() ==> #[trigger] lacks(sources, i, reference),
        resolves(sources, reference, Seq::empty(), 0, r),
    ensures
        r == Err::<Seq<u8>, ErrorView>(ErrorView::AssetNotFound(reference)),
{
    let seen = Seq::<Seq<char>>::empty().push(resolver_key(reference));
    lemma_resolver_all_lack_from(sources, reference, 0, seen, r);
}

proof fn lemma_resolver_all_lack_from(
    sources: Seq<SourceSlot>,
    reference: Seq<char>,
    i: int,
    seen: Seq<Seq<char>>,
    r: core::result::Result<Seq<u8>, ErrorView>,
)
    requires
        0 <= i,
        forall|k: int| 0 <= k < sources.len() ==> #[trigger] lacks(sources, k, reference),
        resolves_from(sources, reference, i, seen, 0, r),
    ensures
        r == Err::<Seq<u8>, ErrorView>(ErrorView::AssetNotFound(reference)),
    decreases sources.len() - i,
{
    if i < sources.len() {
        lemma_resolver_passes_over_lacking_source(sources, reference, i, seen, 0, r);
        lemma_resolver_all_lack_from(sources, reference, i + 1, seen, r);
    }
}

/// A redirect is followed: when the first source answers `reference` only
/// with bytes that redirect to `target`, and answers `target` only with bytes
/// `b` that do not redirect, reading `reference` gives `b`.
pub proof fn lemma_resolver_follows_redirect(
    sources: Seq<SourceSlot>,
    reference: Seq<char>,
    bytes: Seq<u8>,
    target: Seq<char>,
    b: Seq<u8>,
    r: core::result::Result<Seq<u8>, ErrorView>,
)
    requires
        sources.len() > 0,
        answers_only(sources, 0, reference, Ok(bytes)),
        spec_resource_redirect(bytes) == Some(target),
        answers_only(sources, 0, target, Ok(b)),
        spec_resource_redirect(b) is None,
        resolver_key(target) != resolver_key(reference),
        resolves(sources, reference, Seq::empty(), 0, r),
    ensures
        r == Ok::<Seq<u8>, ErrorView>(b),
{
    let seen = Seq::<Seq<char>>::empty().push(resolver_key(reference));
    assert(!Seq::<Seq<char>>::empty().contains(resolver_key(reference)));
    assert(resolves_from(sources, reference, 0, seen, 0, r));
    let a = choose|a: core::result::Result<Seq<u8>, ErrorView>|
        #[trigger] slot_may_answer(sources[0], reference, a) && match a {
            Ok(x) => match spec_resource_redirect(x) {
                None => r == Ok::<Seq<u8>, ErrorView>(x),
                Some(t) => resolves(sources, t, seen, 1, r),
            },
            Err(e) => if e is AssetNotFound || e is IndexMiss {
                resolves_from(sources, reference, 1, seen, 0, r)
            } else {
                r == Err::<Seq<u8>, ErrorView>(e)
            },
        };
    assert(slot_may_answer(sources[0], reference, a));
    assert(a == Ok::<Seq<u8>, ErrorView>(bytes));
    assert(resolves(sources, target, seen, 1, r));
    assert(!seen.contains(resolver_key(target))) by {
        if seen.contains(resolver_key(target)) {
            let k = choose|k: int| 0 <= k < seen.len() && seen[k] == resolver_key(target);
            assert(seen[k] == resolver_key(reference));
        }
    }
    lemma_resolver_first_answer_wins(sources, target, 0, seen.push(resolver_key(target)), 1, b, r);
}

}

verus! {

proof fn lemma_resolver_passes_over_prefix(
    sources: Seq<SourceSlot>,
    reference: Seq<char>,
    j: int,
    i: int,
    seen: Seq<Seq<char>>,
    r: core::result::Result<Seq<u8>, ErrorView>,
)
    requires
        0 <= j <= i <= sources.len(),
        forall|k: int| 0 <= k < i ==> #[trigger] lacks(sources, k, reference),
        resolves_from(sources, reference, j, seen, 0, r),
    ensures
        resolves_from(sources, reference, i, seen, 0, r),
    decreases i - j,
{
    if j < i {
        lemma_resolver_passes_over_lacking_source(sources, reference, j, seen, 0, r);
        lemma_resolver_passes_over_prefix(sources, reference, j + 1, i, seen, r);
    }
}

/// An archive asked after sources that all lack the asset gives the record of
/// its entry for the reference, when that record does not redirect.
pub proof fn lemma_resolver_reads_archive_after_misses(
    sources: Seq<SourceSlot>,
    reference: Seq<char>,
    i: int,
    b: Seq<u8>,
    r: core::result::Result<Seq<u8>, ErrorView>,
)
    requires
        0 <= i < sources.len(),
        forall|k: int| 0 <= k < i ==> #[trigger] lacks(sources, k, reference),
        sources[i] matches SourceSlot::Archive(d) && (dictionary_asset_entry(
            d@,
            spec_asset_lookup_candidates(reference),
            0,
        ) matches Some(e) && spec_resolve(d@, e) == Some(b)),
        spec_resource_redirect(b) is None,
        resolves(sources, reference, Seq::empty(), 0, r),
    ensures
        r == Ok::<Seq<u8>, ErrorView>(b),
{
    let seen = Seq::<Seq<char>>::empty().push(resolver_key(reference));
    assert(!Seq::<Seq<char>>::empty().contains(resolver_key(reference)));
    lemma_resolver_passes_over_prefix(sources, reference, 0, i, seen, r);
    lemma_resolver_first_answer_wins(sources, reference, i, seen, 0, b, r);
}

}

verus! {

proof fn lemma_keep_fold_keeps(d: Seq<Seq<char>>, s: Seq<Seq<char>>)
    ensures
        forall|x: Seq<char>| d.contains(x) ==> #[trigger] keep_fold(d, s).contains(x),
        forall|j: int|
            0 <= j < s.len() && spec_is_resource_ref(trim(#[trigger] s[j])) ==> keep_fold(
                d,
                s,
            ).contains(trim(s[j])),
    decreases s.len(),
{
    if s.len() > 0 {
        let d2 = keep_step(d, s[0]);
        lemma_keep_fold_keeps(d2, s.skip(1));
        assert(keep_fold(d, s) == keep_fold(d2, s.skip(1)));
        assert forall|x: Seq<char>| d.contains(x) implies #[trigger] keep_fold(d, s).contains(x) by {
            assert(d2.contains(x)) by {
                let k = choose|k: int| 0 <= k < d.len() && d[k] == x;
                assert(d2[k] == x);
            }
            assert(keep_fold(d2, s.skip(1)).contains(x));
        }
        assert forall|j: int|
            0 <= j < s.len() && spec_is_resource_ref(trim(#[trigger] s[j])) implies keep_fold(
                d,
                s,
            ).contains(trim(s[j])) by {
            if j == 0 {
                assert(d2.contains(trim(s[0]))) by {
                    if !d.contains(trim(s[0])) {
                        assert(d2[d.len() as int] == trim(s[0]));
                    }
                }
                assert(keep_fold(d2, s.skip(1)).contains(trim(s[0])));
            } else {
                assert(s.skip(1)[j - 1] == s[j]);
                assert(spec_is_resource_ref(trim(s.skip(1)[j - 1])));
            }
        }
    }
}

proof fn lemma_keep_scheme_tokens_keeps(t: Seq<char>, d: Seq<Seq<char>>, i: int, si: int, x: Seq<char>)
    requires
        0 <= i <= si < resource_ref_schemes().len(),
        scheme_tokens(t, resource_ref_schemes()[si], 0).contains(x),
        spec_is_resource_ref(trim(x)),
    ensures
        keep_scheme_tokens(t, d, i).contains(trim(x)),
    decreases resource_ref_schemes().len() - i,
{
    let toks = scheme_tokens(t, resource_ref_schemes()[i], 0);
    let d2 = keep_fold(d, toks);
    lemma_keep_fold_keeps(d, toks);
    if i == si {
        let j = choose|j: int| 0 <= j < toks.len() && toks[j] == x;
        assert(d2.contains(trim(toks[j])));
        lemma_keep_scheme_tokens_stay(t, d2, i + 1, trim(x));
    } else {
        lemma_keep_scheme_tokens_keeps(t, d2, i + 1, si, x);
    }
}

proof fn lemma_keep_scheme_tokens_stay(t: Seq<char>, d: Seq<Seq<char>>, i: int, v: Seq<char>)
    requires
        0 <= i,
        d.contains(v),
    ensures
        keep_scheme_tokens(t, d, i).contains(v),
    decreases resource_ref_schemes().len() - i,
{
    if i < resource_ref_schemes().len() {
        let d2 = keep_fold(d, scheme_tokens(t, resource_ref_schemes()[i], 0));
        lemma_keep_fold_keeps(d, scheme_tokens(t, resource_ref_schemes()[i], 0));
        lemma_keep_scheme_tokens_stay(t, d2, i + 1, v);
    }
}

/// Whether `s` occurs at `p` in `t`, ignoring ASCII case.
pub open spec fn occurs_ci_at(t: Seq<char>, s: Seq<char>, p: int) -> bool {
    0 <= p && p + s.len() <= t.len() && eq_ignore_ascii_case(t.subrange(p, p + s.len()), s)
}

proof fn lemma_find_ci_first(t: Seq<char>, s: Seq<char>, i: int, p: int)
    requires
        0 <= i <= p,
        occurs_ci_at(t, s, p),
    ensures
        find_ci_from(t, s, i) matches Some(q) && i <= q <= p && occurs_ci_at(t, s, q),
    decreases p - i,
{
    if !eq_ignore_ascii_case(t.subrange(i, i + s.len()), s) {
        lemma_find_ci_from(t, s, i + 1);
        lemma_find_ci_first(t, s, i + 1, p);
    }
}

/// No resource scheme starts again inside itself: its first character, in
/// any ASCII case, appears nowhere else in it.
proof fn lemma_scheme_first_char_once(si: int)
    requires
        0 <= si < resource_ref_schemes().len(),
    ensures
        resource_ref_schemes()[si].len() > 0,
        forall|k: int|
            0 < k < resource_ref_schemes()[si].len() ==> crate::text::ascii_lower(
                #[trigger] resource_ref_schemes()[si][k],
            ) != crate::text::ascii_lower(resource_ref_schemes()[si][0]),
{
    reveal_strlit("snd://");
    reveal_strlit("sound://");
    reveal_strlit("file://");
    reveal_strlit("img://");
    reveal_strlit("css://");
    reveal_strlit("js://");
    let s = resource_ref_schemes()[si];
    assert forall|k: int| 0 < k < s.len() implies crate::text::ascii_lower(#[trigger] s[k])
        != crate::text::ascii_lower(s[0]) by {
        if si == 0 {
            assert(s == seq!['s', 'n', 'd', ':', '/', '/']);
        } else if si == 1 {
            assert(s == seq!['s', 'o', 'u', 'n', 'd', ':', '/', '/']);
        } else if si == 2 {
            assert(s == seq!['f', 'i', 'l', 'e', ':', '/', '/']);
        } else if si == 3 {
            assert(s == seq!['i', 'm', 'g', ':', '/', '/']);
        } else if si == 4 {
            assert(s == seq!['c', 's', 's', ':', '/', '/']);
        } else {
            assert(s == seq!['j', 's', ':', '/', '/']);
        }
    }
}

proof fn lemma_scheme_tokens_reach(t: Seq<char>, si: int, from: int, p: int)
    requires
        0 <= si < resource_ref_schemes().len(),
        0 <= from <= p,
        occurs_ci_at(t, resource_ref_schemes()[si], p),
    ensures
        scheme_tokens(t, resource_ref_schemes()[si], from).contains(t.subrange(p, token_end(t, p))),
    decreases t.len() + 1 - from,
{
    let s = resource_ref_schemes()[si];
    lemma_scheme_first_char_once(si);
    lemma_find_ci_first(t, s, from, p);
    let q = find_ci_from(t, s, from)->Some_0;
    let toks = scheme_tokens(t, s, from);
    let rest = scheme_tokens(t, s, q + s.len());
    assert(toks == seq![t.subrange(q, token_end(t, q))] + rest);
    if q == p {
        assert(toks[0] == t.subrange(p, token_end(t, p)));
    } else {
        assert(p >= q + s.len()) by {
            if p < q + s.len() {
                let k = p - q;
                assert(t.subrange(p, p + s.len())[0] == t[p]);
                assert(crate::text::ascii_lower(t[p]) == crate::text::ascii_lower(s[0]));
                assert(t.subrange(q, q + s.len())[k] == t[p]);
                assert(crate::text::ascii_lower(t[p]) == crate::text::ascii_lower(s[k]));
            }
        }
        lemma_scheme_tokens_reach(t, si, q + s.len(), p);
        let j = choose|j: int| 0 <= j < rest.len() && rest[j] == t.subrange(p, token_end(t, p));
        assert(toks[j + 1] == rest[j]);
    }
}

proof fn lemma_token_end_at(t: Seq<char>, i: int, e: int)
    requires
        0 <= i <= e <= t.len(),
        forall|k: int| i <= k < e ==> !is_token_stop(#[trigger] t[k]),
        e == t.len() || is_token_stop(t[e]),
    ensures
        token_end(t, i) == e,
    decreases e - i,
{
    if i < e {
        lemma_token_end_at(t, i + 1, e);
    }
}

/// Every token of a UTF-8 record that starts with a resource scheme
/// (`snd://`, `sound://`, `file://`, `img://`, `css://`, `js://`, in any
/// ASCII case) and runs to the next white space, quote, angle bracket or
/// parenthesis is among the extracted references, trimmed, when it names a
/// resource.
pub proof fn lemma_extracted_refs_hold_scheme_tokens(content: Seq<u8>, si: int, p: int, e: int)
    requires
        vstd::utf8::valid_utf8(content),
        0 <= si < resource_ref_schemes().len(),
        occurs_ci_at(vstd::utf8::decode_utf8(content), resource_ref_schemes()[si], p),
        p <= e <= vstd::utf8::decode_utf8(content).len(),
        forall|k: int| p <= k < e ==> !is_token_stop(#[trigger] vstd::utf8::decode_utf8(content)[k]),
        e == vstd::utf8::decode_utf8(content).len() || is_token_stop(
            vstd::utf8::decode_utf8(content)[e],
        ),
        spec_is_resource_ref(trim(vstd::utf8::decode_utf8(content).subrange(p, e))),
    ensures
        spec_extract_resource_refs(content).contains(
            trim(vstd::utf8::decode_utf8(content).subrange(p, e)),
        ),
{
    let t = vstd::utf8::decode_utf8(content);
    lemma_token_end_at(t, p, e);
    lemma_scheme_tokens_reach(t, si, 0, p);
    let attrs = keep_fold(
        keep_fold(Seq::empty(), attr_values(t, "src="@, 0)),
        attr_values(t, "href="@, 0),
    );
    lemma_keep_scheme_tokens_keeps(t, attrs, 0, si, t.subrange(p, e));
}

} // verus!
