//! The container's general laws.
//!
//! Each proof function here states, once and for all inputs, a property that
//! the operations' contracts promise together: what a second identical
//! insertion does, why a conflicting insertion must be refused, that draining
//! every key empties the map, what an empty map answers, and what equality of
//! two maps means.

use crate::bimap::BiMap;
use crate::bimap::collides;
use vstd::prelude::*;
use vstd::std_specs::cmp::PartialEqSpec;

verus! {

/// Idempotence: once `(k, v)` is in place, inserting the very same pair
/// again is free of collision and leaves both views exactly as they are, so
/// two equal insertions look like one.
pub proof fn lemma_insert_idempotent<K, V>(forward: Map<K, V>, backward: Map<V, K>, k: K, v: V)
    requires
        !collides(forward, backward, k, v),
    ensures
        !collides(forward.insert(k, v), backward.insert(v, k), k, v),
        forward.insert(k, v).insert(k, v) == forward.insert(k, v),
        backward.insert(v, k).insert(v, k) == backward.insert(v, k),
{
    assert(forward.insert(k, v).insert(k, v) =~= forward.insert(k, v));
    assert(backward.insert(v, k).insert(v, k) =~= backward.insert(v, k));
}

/// Collision rejection: once `(k, v)` is in place, binding `k` to any other
/// value is a collision, which the insertion contract answers with an error
/// and untouched views.
pub proof fn lemma_other_value_collides<K, V>(
    forward: Map<K, V>,
    backward: Map<V, K>,
    k: K,
    v: V,
    v2: V,
)
    requires
        v2 != v,
    ensures
        collides(forward.insert(k, v), backward.insert(v, k), k, v2),
{
}

/// The forward view after removing, one by one in the given order, every key
/// that the sequence lists.
pub open spec fn remove_keys_in_turn<K, V>(forward: Map<K, V>, ks: Seq<K>) -> Map<K, V>
    decreases ks.len(),
{
    if ks.len() == 0 {
        forward
    } else {
        remove_keys_in_turn(forward.remove(ks[0]), ks.drop_first())
    }
}

/// Round trip: removing every key a map holds, in any order and with
/// repetitions allowed, leaves the forward view empty; the backward view
/// then is empty as well, by [`BiMap::lemma_empty_both_ways`].
pub proof fn lemma_remove_all_keys_empties<K, V>(forward: Map<K, V>, ks: Seq<K>)
    requires
        forall|k: K| #[trigger] forward.contains_key(k) ==> ks.contains(k),
    ensures
        remove_keys_in_turn(forward, ks) == Map::<K, V>::empty(),
    decreases ks.len(),
{
    if ks.len() == 0 {
        assert(forward =~= Map::<K, V>::empty());
    } else {
        let rest = forward.remove(ks[0]);
        assert forall|k: K| #[trigger] rest.contains_key(k) implies ks.drop_first().contains(
            k,
        ) by {
            assert(forward.contains_key(k));
            let i = choose|i: int| 0 <= i < ks.len() && ks[i] == k;
            assert(k != ks[0]);
            assert(ks.drop_first()[i - 1] == k);
        }
        lemma_remove_all_keys_empties(rest, ks.drop_first());
    }
}

/// Empty-map behaviour: the empty views hold no key and no value, so on a
/// fresh map every lookup and every removal answers absent, per the lookup
/// and removal contracts.
pub proof fn lemma_empty_absent<K, V>(k: K, v: V)
    ensures
        !Map::<K, V>::empty().contains_key(k),
        !Map::<V, K>::empty().contains_key(v),
{
}

/// Equality: `==` on two maps asks exactly whether their forward views
/// agree, so two maps that ended up with the same pairs are equal whatever
/// order built them, and a clone is equal to its original.
pub proof fn lemma_eq_is_view_eq<K: Copy + Eq, V: Copy + Eq>(m1: &BiMap<K, V>, m2: &BiMap<K, V>)
    ensures
        m1.eq_spec(m2) <==> m1@ == m2@,
{
}

} // verus!
