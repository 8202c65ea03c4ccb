//! Stable insertion sorting, as a specification with its laws.
use vstd::prelude::*;

verus! {

/// First position at or after `i` whose element `x` must precede, or the end.
pub open spec fn insert_pos<T>(s: Seq<T>, x: T, lt: spec_fn(T, T) -> bool, i: int) -> int
    decreases s.len() - i,
{
    if i < 0 || i >= s.len() {
        s.len() as int
    } else if lt(x, s[i]) {
        i
    } else {
        insert_pos(s, x, lt, i + 1)
    }
}

/// `x` inserted into `s` after every element that it does not precede.
pub open spec fn insert_sorted<T>(s: Seq<T>, x: T, lt: spec_fn(T, T) -> bool) -> Seq<T> {
    let p = insert_pos(s, x, lt, 0);
    s.take(p).push(x) + s.skip(p)
}

/// The stable sort of `s` by the strict order `lt`: elements in order, equal
/// elements in their original order.
pub open spec fn stable_sort<T>(s: Seq<T>, lt: spec_fn(T, T) -> bool) -> Seq<T>
    decreases s.len(),
{
    if s.len() == 0 {
        s
    } else {
        insert_sorted(stable_sort(s.drop_last(), lt), s.last(), lt)
    }
}

/// No element is strictly before an element to its left.
pub open spec fn is_sorted_by<T>(s: Seq<T>, lt: spec_fn(T, T) -> bool) -> bool {
    forall|i: int, j: int| 0 <= i < j < s.len() ==> !lt(#[trigger] s[j], #[trigger] s[i])
}

/// `lt` is a strict order: irreflexive and transitive.
pub open spec fn is_transitive<T>(lt: spec_fn(T, T) -> bool) -> bool {
    &&& forall|a: T| !#[trigger] lt(a, a)
    &&& forall|a: T, b: T, c: T| #[trigger] lt(a, b) && #[trigger] lt(b, c) ==> lt(a, c)
}

pub proof fn lemma_insert_pos<T>(s: Seq<T>, x: T, lt: spec_fn(T, T) -> bool, i: int)
    requires
        0 <= i <= s.len(),
    ensures
        i <= insert_pos(s, x, lt, i) <= s.len(),
        forall|k: int| i <= k < insert_pos(s, x, lt, i) ==> !lt(x, #[trigger] s[k]),
        insert_pos(s, x, lt, i) < s.len() ==> lt(x, s[insert_pos(s, x, lt, i)]),
    decreases s.len() - i,
{
    if i < s.len() && !lt(x, s[i]) {
        lemma_insert_pos(s, x, lt, i + 1);
    }
}

proof fn lemma_insert_sorted_sorted<T>(s: Seq<T>, x: T, lt: spec_fn(T, T) -> bool)
    requires
        is_sorted_by(s, lt),
        is_transitive(lt),
    ensures
        is_sorted_by(insert_sorted(s, x, lt), lt),
        insert_sorted(s, x, lt).to_multiset() == s.to_multiset().insert(x),
        insert_sorted(s, x, lt).len() == s.len() + 1,
{
    let p = insert_pos(s, x, lt, 0);
    lemma_insert_pos(s, x, lt, 0);
    let r = insert_sorted(s, x, lt);
    assert(r.len() == s.len() + 1);
    assert forall|k: int| 0 <= k < r.len() implies #[trigger] r[k] == (if k < p {
        s[k]
    } else if k == p {
        x
    } else {
        s[k - 1]
    }) by {}
    assert forall|i: int, j: int| 0 <= i < j < r.len() implies !lt(#[trigger] r[j], #[trigger] r[i]) by {
        if j < p {
            assert(r[i] == s[i] && r[j] == s[j]);
        } else if j == p {
            assert(r[i] == s[i] && r[j] == x);
        } else if i < p {
            assert(r[i] == s[i] && r[j] == s[j - 1]);
        } else if i == p {
            assert(r[i] == x && r[j] == s[j - 1]);
            if lt(s[j - 1], x) {
                assert(lt(x, s[p]));
                assert(lt(s[j - 1], s[p]));
                if j - 1 > p {
                    assert(!lt(s[j - 1], s[p]));
                }
            }
        } else {
            assert(r[i] == s[i - 1] && r[j] == s[j - 1]);
        }
    }
    vstd::seq_lib::lemma_multiset_commutative(s.take(p).push(x), s.skip(p));
    vstd::seq_lib::lemma_multiset_commutative(s.take(p), s.skip(p));
    assert(s.take(p) + s.skip(p) =~= s);
    s.take(p).to_multiset_ensures();
}

/// The stable sort is sorted and holds the same elements.
pub proof fn lemma_stable_sort<T>(s: Seq<T>, lt: spec_fn(T, T) -> bool)
    requires
        is_transitive(lt),
    ensures
        is_sorted_by(stable_sort(s, lt), lt),
        stable_sort(s, lt).to_multiset() == s.to_multiset(),
        stable_sort(s, lt).len() == s.len(),
    decreases s.len(),
{
    if s.len() > 0 {
        lemma_stable_sort(s.drop_last(), lt);
        lemma_insert_sorted_sorted(stable_sort(s.drop_last(), lt), s.last(), lt);
        assert(s.drop_last().push(s.last()) =~= s);
        s.drop_last().to_multiset_ensures();
    }
}

/// One step of a stable sort: the sort of a longer prefix inserts its last element.
pub proof fn lemma_stable_sort_step<T>(s: Seq<T>, i: int, lt: spec_fn(T, T) -> bool)
    requires
        0 <= i < s.len(),
    ensures
        stable_sort(s.take(i + 1), lt) == insert_sorted(stable_sort(s.take(i), lt), s[i], lt),
{
    assert(s.take(i + 1).drop_last() =~= s.take(i));
}

} // verus!
