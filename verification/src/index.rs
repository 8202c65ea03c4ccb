//! Comparable keys, fuzzy scoring and search hits.
use vstd::prelude::*;
pub use crate::hit::{hit_lt, HitView, SearchHit};
use crate::text::{
    char_lowercase, chars_eq, chars_of, find_char_from, find_char_in, find_from, find_from_exec,
    lemma_find_char_from, occurs_at_exec, spec_char_lowercase, spec_str_lowercase, starts_with,
    str_lowercase, string_of, trim, trim_string,
};

verus! {

/// White space in the ASCII sense of `char::is_ascii_whitespace`.
pub open spec fn is_ascii_ws(c: char) -> bool {
    c == ' ' || c == '\t' || c == '\n' || c == '\x0C' || c == '\r'
}

/// Punctuation that comparable keys leave out.
pub open spec fn is_comparable_punct(c: char) -> bool {
    c == ':' || c == '.' || c == ',' || c == '-' || c == '_' || c == '\'' || c == '"' || c == '('
        || c == ')' || c == '#' || c == '<' || c == '>' || c == '!'
}

/// The comparable form of a key: ASCII white space and some punctuation
/// removed, every other character lowercased.
pub open spec fn comparable_key(s: Seq<char>) -> Seq<char>
    decreases s.len(),
{
    if s.len() == 0 {
        Seq::empty()
    } else {
        comparable_key(s.drop_last()) + (if is_ascii_ws(s.last()) || is_comparable_punct(
            s.last(),
        ) {
            Seq::empty()
        } else {
            spec_char_lowercase(s.last())
        })
    }
}

/// The comparable form of a key, as characters.
pub(crate) fn comparable_chars(v: &[char]) -> (r: Vec<char>)
    ensures
        r@ == comparable_key(v@),
{
    let mut out: Vec<char> = Vec::new();
    let mut i: usize = 0;
    while i < v.len()
        invariant
            i <= v@.len(),
            out@ == comparable_key(v@.take(i as int)),
        decreases v@.len() - i,
    {
        let c = v[i];
        assert(v@.take(i + 1).drop_last() =~= v@.take(i as int));
        if !(c == ' ' || c == '\t' || c == '\n' || c == '\x0C' || c == '\r' || c == ':' || c
            == '.' || c == ',' || c == '-' || c == '_' || c == '\'' || c == '"' || c == '('
            || c == ')' || c == '#' || c == '<' || c == '>' || c == '!') {
            let mut lower = char_lowercase(c);
            out.append(&mut lower);
        } else {
            assert(out@ + Seq::<char>::empty() =~= out@);
        }
        i = i + 1;
    }
    assert(v@.take(v@.len() as int) =~= v@);
    out
}

/// The comparable form of a key, used to match words loosely: ASCII white
/// space and the characters `: . , - _ ' " ( ) # < > !` are removed and every
/// other character is lowercased.
pub fn normalize_comparable_key(input: &str) -> (r: String)
    ensures
        r@ == comparable_key(input@),
{
    let v = chars_of(input);
    let out = comparable_chars(v.as_slice());
    string_of(out.as_slice())
}

} // verus!

verus! {

/// Whether the characters of `q` from `qi` on occur in `k` from `pos` on, in
/// order, each matched to the first occurrence after the previous match.
pub open spec fn greedy_subsequence(q: Seq<char>, k: Seq<char>, qi: int, pos: int) -> bool
    decreases q.len() - qi,
{
    if qi < 0 || qi >= q.len() {
        true
    } else {
        match find_char_from(k, q[qi], pos) {
            None => false,
            Some(f) => greedy_subsequence(q, k, qi + 1, f + 1),
        }
    }
}

/// The score and kind of match of a query against a key, compared trimmed and
/// lowercased: 100 for equal texts, 80 for a prefix, 60 for a substring, 30
/// for a subsequence; `None` for no match or an empty text.
pub open spec fn spec_fuzzy_score(query: Seq<char>, key: Seq<char>) -> Option<(u32, Seq<char>)> {
    let q = spec_str_lowercase(trim(query));
    let k = spec_str_lowercase(trim(key));
    if q.len() == 0 || k.len() == 0 {
        None
    } else if k == q {
        Some((100, "exact"@))
    } else if starts_with(k, q) {
        Some((80, "prefix"@))
    } else if find_from(k, q, 0) is Some {
        Some((60, "substring"@))
    } else if greedy_subsequence(q, k, 0, 0) {
        Some((30, "subsequence"@))
    } else {
        None
    }
}

fn greedy_subsequence_exec(q: &[char], k: &[char]) -> (r: bool)
    ensures
        r == greedy_subsequence(q@, k@, 0, 0),
{
    let mut pos: usize = 0;
    let mut qi: usize = 0;
    while qi < q.len()
        invariant
            qi <= q@.len(),
            pos <= k@.len(),
            greedy_subsequence(q@, k@, qi as int, pos as int) == greedy_subsequence(q@, k@, 0, 0),
        decreases q@.len() - qi,
    {
        assert(k@.subrange(0, k@.len() as int) =~= k@);
        match find_char_in(k, q[qi], pos, k.len()) {
            None => {
                return false;
            },
            Some(f) => {
                proof {
                    lemma_find_char_from(k@, q@[qi as int], pos as int);
                }
                pos = f + 1;
            },
        }
        qi = qi + 1;
    }
    true
}

/// Scores how well `key` matches `query` (see [`spec_fuzzy_score`]).
pub fn fuzzy_score(query: &str, key: &str) -> (r: Option<(u32, String)>)
    ensures
        r is Some <==> spec_fuzzy_score(query@, key@) is Some,
        r matches Some((s, src)) ==> spec_fuzzy_score(query@, key@) == Some((s, src@)),
{
    let tq = trim_string(query);
    let tk = trim_string(key);
    let ql = str_lowercase(tq.as_str());
    let kl = str_lowercase(tk.as_str());
    let q = chars_of(ql.as_str());
    let k = chars_of(kl.as_str());
    if q.len() == 0 || k.len() == 0 {
        return None;
    }
    if chars_eq(k.as_slice(), q.as_slice()) {
        return Some((100, String::from_str("exact")));
    }
    if occurs_at_exec(k.as_slice(), q.as_slice(), 0) {
        return Some((80, String::from_str("prefix")));
    }
    if find_from_exec(k.as_slice(), q.as_slice(), 0).is_some() {
        return Some((60, String::from_str("substring")));
    }
    if greedy_subsequence_exec(q.as_slice(), k.as_slice()) {
        return Some((30, String::from_str("subsequence")));
    }
    None
}

} // verus!

verus! {

/// Whether `idx` picks the characters of `q` out of `k` in order: one strictly
/// increasing position of `k` per character of `q`, holding that character.
pub open spec fn picks_in_order(q: Seq<char>, k: Seq<char>, idx: Seq<int>) -> bool {
    &&& idx.len() == q.len()
    &&& forall|j: int| 0 <= j < idx.len() ==> 0 <= #[trigger] idx[j] < k.len() && k[idx[j]] == q[j]
    &&& forall|j: int, l: int| 0 <= j < l < idx.len() ==> #[trigger] idx[j] < #[trigger] idx[l]
}

/// Whether the characters of `q` occur in `k` in the same order.
pub open spec fn is_subsequence(q: Seq<char>, k: Seq<char>) -> bool {
    exists|idx: Seq<int>| picks_in_order(q, k, idx)
}

/// The positions that the greedy match picks for `q[qi..]` from `pos` on.
spec fn greedy_positions(q: Seq<char>, k: Seq<char>, qi: int, pos: int) -> Seq<int>
    decreases q.len() - qi,
{
    if qi < 0 || qi >= q.len() {
        Seq::empty()
    } else {
        match find_char_from(k, q[qi], pos) {
            None => Seq::empty(),
            Some(f) => seq![f] + greedy_positions(q, k, qi + 1, f + 1),
        }
    }
}

proof fn lemma_greedy_positions(q: Seq<char>, k: Seq<char>, qi: int, pos: int)
    requires
        0 <= qi <= q.len(),
        0 <= pos,
        greedy_subsequence(q, k, qi, pos),
    ensures
        ({
            let idx = greedy_positions(q, k, qi, pos);
            &&& idx.len() == q.len() - qi
            &&& forall|j: int|
                0 <= j < idx.len() ==> pos <= #[trigger] idx[j] < k.len() && k[idx[j]] == q[qi + j]
            &&& forall|j: int, l: int| 0 <= j < l < idx.len() ==> #[trigger] idx[j] < #[trigger] idx[l]
        }),
    decreases q.len() - qi,
{
    if qi < q.len() {
        lemma_find_char_from(k, q[qi], pos);
        let f = find_char_from(k, q[qi], pos)->Some_0;
        lemma_greedy_positions(q, k, qi + 1, f + 1);
        let rest = greedy_positions(q, k, qi + 1, f + 1);
        let idx = greedy_positions(q, k, qi, pos);
        assert(idx == seq![f] + rest);
        assert forall|j: int| 0 <= j < idx.len() implies pos <= #[trigger] idx[j] < k.len() && k[idx[j]]
            == q[qi + j] by {
            if j > 0 {
                assert(idx[j] == rest[j - 1]);
            }
        }
        assert forall|j: int, l: int| 0 <= j < l < idx.len() implies #[trigger] idx[j]
            < #[trigger] idx[l] by {
            assert(idx[l] == rest[l - 1]);
            if j > 0 {
                assert(idx[j] == rest[j - 1]);
            }
        }
    }
}

/// A key that scores as a subsequence holds the characters of the query in
/// order: the trimmed, lowercased query is a subsequence of the trimmed,
/// lowercased key.
pub proof fn lemma_subsequence_score_is_sound(query: Seq<char>, key: Seq<char>)
    requires
        spec_fuzzy_score(query, key) matches Some((score, _)) && score == 30,
    ensures
        is_subsequence(spec_str_lowercase(trim(query)), spec_str_lowercase(trim(key))),
{
    let q = spec_str_lowercase(trim(query));
    let k = spec_str_lowercase(trim(key));
    lemma_greedy_positions(q, k, 0, 0);
    let idx = greedy_positions(q, k, 0, 0);
    assert(picks_in_order(q, k, idx));
}

} // verus!

verus! {

proof fn lemma_occurrence_is_subsequence(q: Seq<char>, k: Seq<char>, i: int)
    requires
        crate::text::occurs_at(k, q, i),
    ensures
        is_subsequence(q, k),
{
    let idx = Seq::new(q.len(), |j: int| i + j);
    assert forall|j: int| 0 <= j < idx.len() implies 0 <= #[trigger] idx[j] < k.len() && k[idx[j]]
        == q[j] by {
        assert(k.subrange(i, i + q.len())[j] == k[i + j]);
    }
    assert(picks_in_order(q, k, idx));
}

proof fn lemma_greedy_complete(q: Seq<char>, k: Seq<char>, qi: int, pos: int, idx: Seq<int>)
    requires
        0 <= qi <= q.len(),
        0 <= pos,
        idx.len() == q.len() - qi,
        forall|j: int| 0 <= j < idx.len() ==> pos <= #[trigger] idx[j] < k.len() && k[idx[j]] == q[qi + j],
        forall|j: int, l: int| 0 <= j < l < idx.len() ==> #[trigger] idx[j] < #[trigger] idx[l],
    ensures
        greedy_subsequence(q, k, qi, pos),
    decreases q.len() - qi,
{
    if qi < q.len() {
        lemma_find_char_from(k, q[qi], pos);
        assert(k[idx[0]] == q[qi]);
        let f = find_char_from(k, q[qi], pos)->Some_0;
        assert(f <= idx[0]);
        let rest = idx.skip(1);
        assert forall|j: int| 0 <= j < rest.len() implies f + 1 <= #[trigger] rest[j] < k.len()
            && k[rest[j]] == q[qi + 1 + j] by {
            assert(rest[j] == idx[j + 1]);
            assert(idx[0] < idx[j + 1]);
        }
        assert forall|j: int, l: int| 0 <= j < l < rest.len() implies #[trigger] rest[j]
            < #[trigger] rest[l] by {
            assert(rest[j] == idx[j + 1]);
            assert(rest[l] == idx[l + 1]);
        }
        lemma_greedy_complete(q, k, qi + 1, f + 1, rest);
    }
}

/// A key matches a query at all exactly when the trimmed, lowercased query
/// is a non-empty subsequence of the trimmed, lowercased (non-empty) key; and
/// a key that scores as a subsequence does hold the query's characters in
/// order.
pub proof fn lemma_fuzzy_score_matches_subsequence(query: Seq<char>, key: Seq<char>)
    ensures
        spec_fuzzy_score(query, key) is Some <==> ({
            let q = spec_str_lowercase(trim(query));
            let k = spec_str_lowercase(trim(key));
            q.len() > 0 && k.len() > 0 && is_subsequence(q, k)
        }),
{
    let q = spec_str_lowercase(trim(query));
    let k = spec_str_lowercase(trim(key));
    if q.len() > 0 && k.len() > 0 {
        if k == q {
            assert(crate::text::occurs_at(k, q, 0)) by {
                assert(k.subrange(0, q.len() as int) =~= q);
            }
            lemma_occurrence_is_subsequence(q, k, 0);
        } else if starts_with(k, q) {
            lemma_occurrence_is_subsequence(q, k, 0);
        } else if find_from(k, q, 0) is Some {
            crate::text::lemma_find_from(k, q, 0);
            lemma_occurrence_is_subsequence(q, k, find_from(k, q, 0)->Some_0);
        } else if greedy_subsequence(q, k, 0, 0) {
            lemma_greedy_positions(q, k, 0, 0);
            assert(picks_in_order(q, k, greedy_positions(q, k, 0, 0)));
        } else {
            if is_subsequence(q, k) {
                let idx = choose|idx: Seq<int>| picks_in_order(q, k, idx);
                lemma_greedy_complete(q, k, 0, 0, idx);
            }
        }
    }
}

} // verus!
