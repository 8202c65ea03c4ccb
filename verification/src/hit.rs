//! The order of search hits: higher scores first, then lookup keys in text order.
use vstd::prelude::*;
use crate::dictionary::{spec_lookup_key, MDictKeywordEntry};
use crate::text::chars_of;

verus! {

/// A keyword found by a fuzzy search, with its score and the kind of match.
#[derive(Debug, Clone, PartialEq, Eq)]
pub struct SearchHit {
    pub entry: MDictKeywordEntry,
    pub score: u32,
    pub source: String,
}

/// What a hit is: its entry, its score and the text of its kind of match.
pub struct HitView {
    pub entry: MDictKeywordEntry,
    pub score: u32,
    pub source: Seq<char>,
}

impl View for SearchHit {
    type V = HitView;

    open spec fn view(&self) -> HitView {
        HitView { entry: self.entry, score: self.score, source: self.source@ }
    }
}

/// The text order of `a` and `b` from position `i` on: negative, zero or
/// positive, comparing characters by scalar value, a prefix first.
pub open spec fn text_order(a: Seq<char>, b: Seq<char>, i: int) -> int
    decreases a.len() + b.len() - 2 * i,
{
    if i < 0 || (i >= a.len() && i >= b.len()) {
        0
    } else if i >= a.len() {
        -1
    } else if i >= b.len() {
        1
    } else if a[i] < b[i] {
        -1
    } else if a[i] > b[i] {
        1
    } else {
        text_order(a, b, i + 1)
    }
}

/// Whether `a` comes before `b` in text order.
pub open spec fn text_lt(a: Seq<char>, b: Seq<char>) -> bool {
    text_order(a, b, 0) < 0
}

/// Whether hit `a` goes before hit `b`: a higher score, or the same score and
/// a lookup key first in text order.
pub open spec fn hit_lt() -> spec_fn(HitView, HitView) -> bool {
    |a: HitView, b: HitView|
        a.score > b.score || (a.score == b.score && text_lt(
            spec_lookup_key(a.entry),
            spec_lookup_key(b.entry),
        ))
}

pub proof fn lemma_text_order_antisym(a: Seq<char>, b: Seq<char>, i: int)
    ensures
        text_order(a, b, i) == -text_order(b, a, i),
    decreases a.len() + b.len() - 2 * i,
{
    if !(i < 0 || (i >= a.len() && i >= b.len())) && i < a.len() && i < b.len() && a[i] == b[i] {
        lemma_text_order_antisym(a, b, i + 1);
    }
}

pub proof fn lemma_text_order_trans(a: Seq<char>, b: Seq<char>, c: Seq<char>, i: int)
    requires
        0 <= i,
        text_order(a, b, i) < 0,
        text_order(b, c, i) < 0,
    ensures
        text_order(a, c, i) < 0,
    decreases a.len() + b.len() - 2 * i,
{
    if i < a.len() && i < b.len() && i < c.len() && a[i] == b[i] && b[i] == c[i] {
        lemma_text_order_trans(a, b, c, i + 1);
    }
}

/// Whether `a[i..]` comes before `b[i..]` in text order.
fn text_less(a: &[char], b: &[char]) -> (r: bool)
    ensures
        r == text_lt(a@, b@),
{
    let mut i: usize = 0;
    loop
        invariant
            text_order(a@, b@, i as int) == text_order(a@, b@, 0),
        decreases a@.len() + b@.len() - 2 * i,
    {
        if i >= a.len() && i >= b.len() {
            return false;
        }
        if i >= a.len() {
            return true;
        }
        if i >= b.len() {
            return false;
        }
        if a[i] < b[i] {
            return true;
        }
        if a[i] > b[i] {
            return false;
        }
        i = i + 1;
    }
}

/// Whether hit `a` goes before hit `b`.
pub(crate) fn hit_before(a: &SearchHit, b: &SearchHit) -> (r: bool)
    ensures
        r == (hit_lt())(a@, b@),
{
    if a.score != b.score {
        return a.score > b.score;
    }
    let ka = chars_of(a.entry.lookup_key());
    let kb = chars_of(b.entry.lookup_key());
    text_less(ka.as_slice(), kb.as_slice())
}

impl SearchHit {
    /// The order of hits: `Less` when `self` goes first, `Greater` when
    /// `other` does, `Equal` for the same score and lookup key.
    pub fn cmp(&self, other: &SearchHit) -> (r: std::cmp::Ordering)
        ensures
            (r == std::cmp::Ordering::Less) == (hit_lt())(self@, other@),
            (r == std::cmp::Ordering::Greater) == (hit_lt())(other@, self@),
    {
        proof {
            lemma_text_order_antisym(
                spec_lookup_key(self.entry),
                spec_lookup_key(other.entry),
                0,
            );
        }
        if hit_before(self, other) {
            std::cmp::Ordering::Less
        } else if hit_before(other, self) {
            std::cmp::Ordering::Greater
        } else {
            std::cmp::Ordering::Equal
        }
    }

    /// The order of hits, which is total.
    pub fn partial_cmp(&self, other: &SearchHit) -> (r: Option<std::cmp::Ordering>)
        ensures
            r matches Some(o) && (o == std::cmp::Ordering::Less) == (hit_lt())(self@, other@) && (o
                == std::cmp::Ordering::Greater) == (hit_lt())(other@, self@),
    {
        Some(self.cmp(other))
    }
}

/// Hits are ordered strictly: never before themselves, and transitively.
pub proof fn lemma_hit_order_strict()
    ensures
        crate::sorting::is_transitive(hit_lt()),
{
    assert forall|a: HitView| !#[trigger] (hit_lt())(a, a) by {
        lemma_text_order_antisym(spec_lookup_key(a.entry), spec_lookup_key(a.entry), 0);
    }
    assert forall|a: HitView, b: HitView, c: HitView|
        #[trigger] (hit_lt())(a, b) && #[trigger] (hit_lt())(b, c) implies (hit_lt())(a, c) by {
        if a.score == b.score && b.score == c.score {
            lemma_text_order_trans(
                spec_lookup_key(a.entry),
                spec_lookup_key(b.entry),
                spec_lookup_key(c.entry),
                0,
            );
        }
    }
}

} // verus!
