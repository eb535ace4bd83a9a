//! Association lists with unique keys, viewed as finite maps.
//!
//! The executable collections of this crate (the adjacency list of a vertex,
//! the priority frontier, the result map of a traversal) all store their
//! entries in a `Vec` of key/value pairs with pairwise distinct keys. This
//! module defines the mathematical map such a list denotes and the lemmas
//! that relate list operations to map operations.

use vstd::prelude::*;

verus! {

/// The finite map denoted by an association list.
pub open spec fn map_of<V>(s: Seq<(usize, V)>) -> Map<int, V>
    decreases s.len(),
{
    if s.len() == 0 {
        Map::empty()
    } else {
        map_of(s.drop_last()).insert(s.last().0 as int, s.last().1)
    }
}

/// No key occurs twice in the association list.
pub open spec fn unique_keys<V>(s: Seq<(usize, V)>) -> bool {
    forall|i: int, j: int| 0 <= i < j < s.len() ==> (#[trigger] s[i]).0 != (#[trigger] s[j]).0
}

/// A key is in the map exactly when some entry of the list carries it.
pub proof fn lemma_map_of_contains<V>(s: Seq<(usize, V)>, k: int)
    ensures
        map_of(s).dom().contains(k) <==> (exists|i: int|
            0 <= i < s.len() && (#[trigger] s[i]).0 as int == k),
    decreases s.len(),
{
    if s.len() > 0 {
        let t = s.drop_last();
        lemma_map_of_contains(t, k);
        if s.last().0 as int == k {
            assert(s[s.len() - 1].0 as int == k);
        } else {
            if map_of(s).dom().contains(k) {
                let i = choose|i: int| 0 <= i < t.len() && (#[trigger] t[i]).0 as int == k;
                assert(s[i].0 as int == k);
            }
            if exists|i: int| 0 <= i < s.len() && (#[trigger] s[i]).0 as int == k {
                let i = choose|i: int| 0 <= i < s.len() && (#[trigger] s[i]).0 as int == k;
                assert(t[i].0 as int == k);
            }
        }
    }
}

/// Each entry of a duplicate-free list is reflected verbatim in the map.
pub proof fn lemma_map_of_index<V>(s: Seq<(usize, V)>, i: int)
    requires
        unique_keys(s),
        0 <= i < s.len(),
    ensures
        map_of(s).dom().contains(s[i].0 as int),
        map_of(s)[s[i].0 as int] == s[i].1,
    decreases s.len(),
{
    let t = s.drop_last();
    if i < s.len() - 1 {
        assert(unique_keys(t));
        lemma_map_of_index(t, i);
        assert(s[i].0 != s[s.len() - 1].0);
    }
}

/// A duplicate-free list and its map have the same number of entries.
pub proof fn lemma_map_of_len<V>(s: Seq<(usize, V)>)
    requires
        unique_keys(s),
    ensures
        map_of(s).dom().finite(),
        map_of(s).dom().len() == s.len(),
    decreases s.len(),
{
    if s.len() > 0 {
        let t = s.drop_last();
        assert(unique_keys(t));
        lemma_map_of_len(t);
        lemma_map_of_contains(t, s.last().0 as int);
        assert(forall|i: int|
            0 <= i < t.len() ==> (#[trigger] t[i]).0 == s[i].0 && s[i].0 != s[s.len() - 1].0);
    }
}

/// Appending a pair inserts it into the map.
pub proof fn lemma_map_of_push<V>(s: Seq<(usize, V)>, p: (usize, V))
    ensures
        map_of(s.push(p)) == map_of(s).insert(p.0 as int, p.1),
{
    assert(s.push(p).drop_last() =~= s);
    assert(s.push(p).last() == p);
}

/// Appending a pair whose key is fresh keeps the keys unique.
pub proof fn lemma_unique_push<V>(s: Seq<(usize, V)>, p: (usize, V))
    requires
        unique_keys(s),
        !map_of(s).dom().contains(p.0 as int),
    ensures
        unique_keys(s.push(p)),
{
    lemma_map_of_contains(s, p.0 as int);
    let r = s.push(p);
    assert forall|i: int, j: int| 0 <= i < j < r.len() implies (#[trigger] r[i]).0 != (
    #[trigger] r[j]).0 by {
        if j < s.len() {
            assert(s[i].0 != s[j].0);
        } else {
            assert(r[j] == p);
            assert(r[i] == s[i]);
        }
    }
}

/// Removing the entry at one position removes its key from the map.
pub proof fn lemma_map_of_remove<V>(s: Seq<(usize, V)>, i: int)
    requires
        unique_keys(s),
        0 <= i < s.len(),
    ensures
        unique_keys(s.remove(i)),
        map_of(s.remove(i)) == map_of(s).remove(s[i].0 as int),
    decreases s.len(),
{
    let k = s[i].0 as int;
    let t = s.drop_last();
    assert(unique_keys(t));
    let r = s.remove(i);
    assert(unique_keys(r)) by {
        assert forall|a: int, b: int| 0 <= a < b < r.len() implies (#[trigger] r[a]).0 != (
        #[trigger] r[b]).0 by {
            let a0 = if a < i { a } else { a + 1 };
            let b0 = if b < i { b } else { b + 1 };
            assert(r[a] == s[a0]);
            assert(r[b] == s[b0]);
        }
    }
    if i == s.len() - 1 {
        assert(r =~= t);
        lemma_map_of_contains(t, k);
        assert(forall|j: int|
            0 <= j < t.len() ==> (#[trigger] t[j]).0 == s[j].0 && s[j].0 != s[s.len() - 1].0);
        assert(!map_of(t).dom().contains(k));
        assert(map_of(t) =~= map_of(t).insert(k, s.last().1).remove(k));
    } else {
        lemma_map_of_remove(t, i);
        assert(r.drop_last() =~= t.remove(i));
        assert(r.last() == s.last());
        assert(map_of(r) == map_of(t.remove(i)).insert(s.last().0 as int, s.last().1));
        assert(s[i].0 != s[s.len() - 1].0);
        assert(map_of(t).remove(k).insert(s.last().0 as int, s.last().1) =~= map_of(t).insert(
            s.last().0 as int,
            s.last().1,
        ).remove(k));
    }
}

/// Replacing the value at one position updates that key in the map.
pub proof fn lemma_map_of_update<V>(s: Seq<(usize, V)>, i: int, v: V)
    requires
        unique_keys(s),
        0 <= i < s.len(),
    ensures
        unique_keys(s.update(i, (s[i].0, v))),
        map_of(s.update(i, (s[i].0, v))) == map_of(s).insert(s[i].0 as int, v),
    decreases s.len(),
{
    let k = s[i].0 as int;
    let t = s.drop_last();
    assert(unique_keys(t));
    let r = s.update(i, (s[i].0, v));
    assert(unique_keys(r)) by {
        assert forall|a: int, b: int| 0 <= a < b < r.len() implies (#[trigger] r[a]).0 != (
        #[trigger] r[b]).0 by {
            assert(r[a].0 == s[a].0);
            assert(r[b].0 == s[b].0);
        }
    }
    if i == s.len() - 1 {
        assert(r.drop_last() =~= t);
        assert(r.last() == (s[i].0, v));
        assert(map_of(t).insert(k, v) =~= map_of(t).insert(k, s.last().1).insert(k, v));
    } else {
        lemma_map_of_update(t, i, v);
        assert(r.drop_last() =~= t.update(i, (t[i].0, v)));
        assert(r.last() == s.last());
        assert(s[i].0 != s[s.len() - 1].0);
        assert(map_of(t).insert(k, v).insert(s.last().0 as int, s.last().1) =~= map_of(t).insert(
            s.last().0 as int,
            s.last().1,
        ).insert(k, v));
    }
}

} // verus!
