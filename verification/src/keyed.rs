//! Lists of (key, value) pairs read as maps, with the facts that updates need.
use vstd::prelude::*;

verus! {

/// The map that a list of pairs denotes (a later pair of the same key wins).
pub open spec fn keyed_map<V>(s: Seq<(Seq<char>, V)>) -> Map<Seq<char>, V>
    decreases s.len(),
{
    if s.len() == 0 {
        Map::empty()
    } else {
        keyed_map(s.drop_last()).insert(s.last().0, s.last().1)
    }
}

/// No two pairs have the same key.
pub open spec fn distinct_keys<V>(s: Seq<(Seq<char>, V)>) -> bool {
    forall|i: int, j: int|
        0 <= i < s.len() && 0 <= j < s.len() && i != j ==> (#[trigger] s[i]).0 != (#[trigger] s[j]).0
}

pub proof fn lemma_distinct_drop_last<V>(s: Seq<(Seq<char>, V)>)
    requires
        distinct_keys(s),
        s.len() > 0,
    ensures
        distinct_keys(s.drop_last()),
{
    assert forall|a: int, b: int|
        0 <= a < s.len() - 1 && 0 <= b < s.len() - 1 && a != b implies (#[trigger] s.drop_last()[a]).0
        != (#[trigger] s.drop_last()[b]).0 by {
        assert(s.drop_last()[a] == s[a] && s.drop_last()[b] == s[b]);
    }
}

/// The value of a pair is what the map holds under its key.
pub proof fn lemma_keyed_get<V>(s: Seq<(Seq<char>, V)>, i: int)
    requires
        distinct_keys(s),
        0 <= i < s.len(),
    ensures
        keyed_map(s).contains_key(s[i].0),
        keyed_map(s)[s[i].0] == s[i].1,
    decreases s.len(),
{
    if i < s.len() - 1 {
        lemma_distinct_drop_last(s);
        assert(s.drop_last()[i] == s[i]);
        lemma_keyed_get(s.drop_last(), i);
        assert(s[i].0 != s[s.len() - 1].0);
    }
}

/// A key that no pair has is not in the map.
pub proof fn lemma_keyed_absent<V>(s: Seq<(Seq<char>, V)>, k: Seq<char>)
    requires
        forall|i: int| 0 <= i < s.len() ==> (#[trigger] s[i]).0 != k,
    ensures
        !keyed_map(s).contains_key(k),
    decreases s.len(),
{
    if s.len() > 0 {
        assert forall|i: int| 0 <= i < s.len() - 1 implies (#[trigger] s.drop_last()[i]).0 != k by {
            assert(s.drop_last()[i] == s[i]);
        }
        lemma_keyed_absent(s.drop_last(), k);
        assert(s.last() == s[s.len() - 1]);
    }
}

/// Replacing the pair of a key replaces the map's value under it.
pub proof fn lemma_keyed_update<V>(s: Seq<(Seq<char>, V)>, i: int, x: (Seq<char>, V))
    requires
        distinct_keys(s),
        0 <= i < s.len(),
        x.0 == s[i].0,
    ensures
        keyed_map(s.update(i, x)) == keyed_map(s).insert(x.0, x.1),
        distinct_keys(s.update(i, x)),
    decreases s.len(),
{
    let t = s.update(i, x);
    if i == s.len() - 1 {
        assert(t.drop_last() =~= s.drop_last());
        assert(keyed_map(t) =~= keyed_map(s).insert(x.0, x.1));
    } else {
        lemma_distinct_drop_last(s);
        assert(t.drop_last() =~= s.drop_last().update(i, x));
        lemma_keyed_update(s.drop_last(), i, x);
        assert(s[i].0 != s[s.len() - 1].0);
        assert(t.last() == s.last());
        assert(keyed_map(t) =~= keyed_map(s).insert(x.0, x.1));
    }
    assert forall|a: int, b: int|
        0 <= a < t.len() && 0 <= b < t.len() && a != b implies (#[trigger] t[a]).0 != (
        #[trigger] t[b]).0 by {
        if a != i && b != i {
            assert(t[a] == s[a] && t[b] == s[b]);
        } else if a == i {
            assert(t[b] == s[b]);
        } else {
            assert(t[a] == s[a]);
        }
    }
}

/// Appending a pair of a new key adds it to the map.
pub proof fn lemma_keyed_push<V>(s: Seq<(Seq<char>, V)>, x: (Seq<char>, V))
    requires
        distinct_keys(s),
        forall|i: int| 0 <= i < s.len() ==> (#[trigger] s[i]).0 != x.0,
    ensures
        keyed_map(s.push(x)) == keyed_map(s).insert(x.0, x.1),
        distinct_keys(s.push(x)),
{
    let t = s.push(x);
    assert(t.drop_last() =~= s);
    assert forall|a: int, b: int|
        0 <= a < t.len() && 0 <= b < t.len() && a != b implies (#[trigger] t[a]).0 != (
        #[trigger] t[b]).0 by {
        if a < s.len() && b < s.len() {
            assert(t[a] == s[a] && t[b] == s[b]);
        } else if a < s.len() {
            assert(t[a] == s[a]);
        } else {
            assert(t[b] == s[b]);
        }
    }
}

} // verus!
