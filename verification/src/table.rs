//! The mathematical model of a paired lookup table.
//!
//! A `BiMap` stores its pairs once, as a sequence.  This module reads such a
//! sequence as a finite `Map` from first components to second components, and
//! proves the handful of facts that the container's contracts rest on: how
//! membership, indexing and cardinality of that map follow from the sequence,
//! and how pushing or removing a pair moves the map.  The backward direction
//! is the same theory applied to the flipped sequence, so the two directions
//! cannot drift apart.

use vstd::prelude::*;

verus! {

/// The finite map denoted by a sequence of pairs: each pair binds its first
/// component to its second, later pairs winning (callers keep first
/// components unique, so nothing is ever overwritten).
pub open spec fn map_of<A, B>(s: Seq<(A, B)>) -> Map<A, B>
    decreases s.len(),
{
    if s.len() == 0 {
        Map::empty()
    } else {
        map_of(s.drop_last()).insert(s.last().0, s.last().1)
    }
}

/// No two pairs of `s` share a first component.
pub open spec fn unique_firsts<A, B>(s: Seq<(A, B)>) -> bool {
    forall|i: int, j: int| 0 <= i < j < s.len() ==> s[i].0 != s[j].0
}

/// No two pairs of `s` share a second component.
pub open spec fn unique_seconds<A, B>(s: Seq<(A, B)>) -> bool {
    forall|i: int, j: int| 0 <= i < j < s.len() ==> s[i].1 != s[j].1
}

/// The same pairs with the two components swapped.
pub open spec fn flip<A, B>(s: Seq<(A, B)>) -> Seq<(B, A)> {
    s.map_values(|p: (A, B)| (p.1, p.0))
}

/// A key is in the map exactly when some pair of the sequence carries it.
pub proof fn lemma_map_of_contains<A, B>(s: Seq<(A, B)>, a: A)
    ensures
        map_of(s).contains_key(a) <==> exists|i: int| 0 <= i < s.len() && s[i].0 == a,
    decreases s.len(),
{
    if s.len() > 0 {
        lemma_map_of_contains(s.drop_last(), a);
        if map_of(s).contains_key(a) {
            if a == s.last().0 {
                assert(s[s.len() - 1].0 == a);
            } else {
                let i = choose|i: int| 0 <= i < s.drop_last().len() && s.drop_last()[i].0 == a;
                assert(s[i].0 == a);
            }
        }
        if exists|i: int| 0 <= i < s.len() && s[i].0 == a {
            let i = choose|i: int| 0 <= i < s.len() && s[i].0 == a;
            if i < s.len() - 1 {
                assert(s.drop_last()[i].0 == a);
            }
        }
    }
}

/// With unique first components, the pair at any index is what the map
/// returns for its key.
pub proof fn lemma_map_of_index<A, B>(s: Seq<(A, B)>, i: int)
    requires
        unique_firsts(s),
        0 <= i < s.len(),
    ensures
        map_of(s).contains_key(s[i].0),
        map_of(s)[s[i].0] == s[i].1,
    decreases s.len(),
{
    if i < s.len() - 1 {
        assert(unique_firsts(s.drop_last())) by {
            assert forall|p: int, q: int|
                0 <= p < q < s.drop_last().len() implies s.drop_last()[p].0
                != s.drop_last()[q].0 by {
                assert(s[p].0 != s[q].0);
            }
        }
        lemma_map_of_index(s.drop_last(), i);
        assert(s.drop_last()[i] == s[i]);
        assert(s[i].0 != s.last().0);
    }
}

/// With unique first components, the map has exactly one entry per pair.
pub proof fn lemma_map_of_len<A, B>(s: Seq<(A, B)>)
    requires
        unique_firsts(s),
    ensures
        map_of(s).dom().finite(),
        map_of(s).dom().len() == s.len(),
    decreases s.len(),
{
    if s.len() > 0 {
        assert(unique_firsts(s.drop_last())) by {
            assert forall|p: int, q: int|
                0 <= p < q < s.drop_last().len() implies s.drop_last()[p].0
                != s.drop_last()[q].0 by {
                assert(s[p].0 != s[q].0);
            }
        }
        lemma_map_of_len(s.drop_last());
        lemma_map_of_contains(s.drop_last(), s.last().0);
        assert(!map_of(s.drop_last()).contains_key(s.last().0)) by {
            if exists|i: int| 0 <= i < s.drop_last().len() && s.drop_last()[i].0 == s.last().0 {
                let i = choose|i: int|
                    0 <= i < s.drop_last().len() && s.drop_last()[i].0 == s.last().0;
                assert(s[i].0 == s[s.len() - 1].0);
                assert(false);
            }
        }
        vstd::set::axiom_set_insert_len(map_of(s.drop_last()).dom(), s.last().0);
    }
}

/// Pushing a pair inserts its binding.
pub proof fn lemma_map_of_push<A, B>(s: Seq<(A, B)>, a: A, b: B)
    ensures
        map_of(s.push((a, b))) == map_of(s).insert(a, b),
{
    assert(s.push((a, b)).drop_last() =~= s);
    assert(s.push((a, b)).last() == (a, b));
}

/// Removing the pair at an index removes its binding, provided first
/// components are unique.
pub proof fn lemma_map_of_remove_at<A, B>(s: Seq<(A, B)>, i: int)
    requires
        unique_firsts(s),
        0 <= i < s.len(),
    ensures
        map_of(s.remove(i)) == map_of(s).remove(s[i].0),
{
    let t = s.remove(i);
    s.remove_ensures(i);
    lemma_remove_at_keeps_unique(s, i);
    assert forall|a: A| #[trigger] map_of(t).contains_key(a) implies map_of(s).remove(
        s[i].0,
    ).contains_key(a) && map_of(t)[a] == map_of(s).remove(s[i].0)[a] by {
        lemma_map_of_contains(t, a);
        let j = choose|j: int| 0 <= j < t.len() && t[j].0 == a;
        lemma_map_of_index(t, j);
        let j2: int = if j < i {
            j
        } else {
            j + 1
        };
        assert(s[j2] == t[j]);
        lemma_map_of_index(s, j2);
        lemma_map_of_contains(s, a);
        assert(a != s[i].0);
    }
    assert forall|a: A| #[trigger] map_of(s).remove(s[i].0).contains_key(a) implies map_of(
        t,
    ).contains_key(a) by {
        lemma_map_of_contains(s, a);
        let j2 = choose|j2: int| 0 <= j2 < s.len() && s[j2].0 == a;
        assert(j2 != i);
        let j: int = if j2 < i {
            j2
        } else {
            j2 - 1
        };
        assert(t[j] == s[j2]);
        lemma_map_of_contains(t, a);
    }
    assert(map_of(t) =~= map_of(s).remove(s[i].0));
}

/// Removing a pair keeps both uniqueness properties.
pub proof fn lemma_remove_at_keeps_unique<A, B>(s: Seq<(A, B)>, i: int)
    requires
        0 <= i < s.len(),
    ensures
        unique_firsts(s) ==> unique_firsts(s.remove(i)),
        unique_seconds(s) ==> unique_seconds(s.remove(i)),
{
    let t = s.remove(i);
    s.remove_ensures(i);
    if unique_firsts(s) {
        assert forall|p: int, q: int| 0 <= p < q < t.len() implies t[p].0 != t[q].0 by {
            let p2: int = if p < i {
                p
            } else {
                p + 1
            };
            let q2: int = if q < i {
                q
            } else {
                q + 1
            };
            assert(t[p] == s[p2] && t[q] == s[q2]);
            assert(s[p2].0 != s[q2].0);
        }
    }
    if unique_seconds(s) {
        assert forall|p: int, q: int| 0 <= p < q < t.len() implies t[p].1 != t[q].1 by {
            let p2: int = if p < i {
                p
            } else {
                p + 1
            };
            let q2: int = if q < i {
                q
            } else {
                q + 1
            };
            assert(t[p] == s[p2] && t[q] == s[q2]);
            assert(s[p2].1 != s[q2].1);
        }
    }
}

/// Flipping commutes with pushing a pair.
pub proof fn lemma_flip_push<A, B>(s: Seq<(A, B)>, a: A, b: B)
    ensures
        flip(s.push((a, b))) == flip(s).push((b, a)),
{
    assert(flip(s.push((a, b))) =~= flip(s).push((b, a)));
}

/// Flipping commutes with removing the pair at an index.
pub proof fn lemma_flip_remove_at<A, B>(s: Seq<(A, B)>, i: int)
    requires
        0 <= i < s.len(),
    ensures
        flip(s.remove(i)) == flip(s).remove(i),
{
    s.remove_ensures(i);
    flip(s).remove_ensures(i);
    assert(flip(s.remove(i)) =~= flip(s).remove(i));
}

} // verus!
