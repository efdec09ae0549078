//! The bidirectional map and its operations.
//!
//! A [`BiMap`] owns one sequence of `(key, value)` pairs in which both the
//! keys and the values are pairwise distinct, so the pairs denote a pair of
//! mutually inverse finite maps: the forward view [`BiMap::view`] from keys
//! to values and the backward view [`BiMap::rev`] from values to keys.  Every
//! operation's contract says how it moves both views.
//!
//! The operations compare keys and values with `==`, so their contracts hold
//! under [`vstd::laws_eq::obeys_concrete_eq`]: the promise that the type's
//! `==` agrees with mathematical equality, which the verifier supplies for
//! the primitive types.

use crate::table::{
    flip, lemma_flip_push, lemma_flip_remove_at, lemma_map_of_contains, lemma_map_of_index,
    lemma_map_of_len, lemma_map_of_push, lemma_map_of_remove_at, lemma_remove_at_keeps_unique,
    map_of, unique_firsts, unique_seconds,
};
use vstd::laws_eq::obeys_concrete_eq;
use vstd::prelude::*;

verus! {

/// The error returned when an insertion or update would force one key or one
/// value to keep two different counterparts at once.
#[derive(Clone, Copy, Debug, PartialEq, Eq, Structural)]
pub struct CollisionError;

/// A bidirectional one-to-one map between a `Key` domain and a `Value`
/// domain, with lookup in either direction.
#[derive(Debug)]
pub struct BiMap<K: Copy + Eq, V: Copy + Eq> {
    pairs: Vec<(K, V)>,
}

/// Whether binding `k` to `v` would clash with the pairs already present:
/// `k` bound to another value, or `v` bound to another key.
pub open spec fn collides<K, V>(forward: Map<K, V>, backward: Map<V, K>, k: K, v: V) -> bool {
    ||| forward.contains_key(k) && forward[k] != v
    ||| backward.contains_key(v) && backward[v] != k
}

impl<K: Copy + Eq, V: Copy + Eq> View for BiMap<K, V> {
    type V = Map<K, V>;

    /// The forward view: the finite map from keys to values.
    closed spec fn view(&self) -> Map<K, V> {
        map_of(self.pairs@)
    }
}

impl<K: Copy + Eq, V: Copy + Eq> BiMap<K, V> {
    /// The backward view: the finite map from values back to keys.
    pub closed spec fn rev(&self) -> Map<V, K> {
        map_of(flip(self.pairs@))
    }

    /// Both stored tables agree: no key and no value occurs twice.
    #[verifier::type_invariant]
    pub closed spec fn wf(&self) -> bool {
        unique_firsts(self.pairs@) && unique_seconds(self.pairs@)
    }

    /// An empty map.
    pub fn new() -> (m: BiMap<K, V>)
        ensures
            m@ == Map::<K, V>::empty(),
            m.rev() == Map::<V, K>::empty(),
    {
        let m = BiMap { pairs: Vec::new() };
        proof {
            assert(flip(m.pairs@) =~= Seq::<(V, K)>::empty());
        }
        m
    }

    /// The number of pairs stored, which both views share.
    pub fn len(&self) -> (n: usize)
        ensures
            n == self@.dom().len(),
            n == self.rev().dom().len(),
    {
        proof {
            use_type_invariant(&*self);
            lemma_map_of_len(self.pairs@);
            lemma_flip_unique(self.pairs@);
            lemma_map_of_len(flip(self.pairs@));
        }
        self.pairs.len()
    }

    /// The value associated with `l`, if any.
    pub fn get_key(&self, l: &K) -> (r: Option<&V>)
        requires
            obeys_concrete_eq::<K>(),
        ensures
            match r {
                Some(v) => self@.contains_key(*l) && *v == self@[*l],
                None => !self@.contains_key(*l),
            },
    {
        proof {
            use_type_invariant(&*self);
            lemma_map_of_contains(self.pairs@, *l);
        }
        match find_key_index(&self.pairs, l) {
            Some(i) => {
                proof {
                    lemma_map_of_index(self.pairs@, i as int);
                }
                Some(&self.pairs[i].1)
            },
            None => None,
        }
    }

    /// The key associated with `r`, if any.
    pub fn get_value(&self, r: &V) -> (res: Option<&K>)
        requires
            obeys_concrete_eq::<V>(),
        ensures
            match res {
                Some(k) => self.rev().contains_key(*r) && *k == self.rev()[*r],
                None => !self.rev().contains_key(*r),
            },
    {
        proof {
            use_type_invariant(&*self);
            lemma_map_of_contains(flip(self.pairs@), *r);
            lemma_flip_unique(self.pairs@);
        }
        match find_value_index(&self.pairs, r) {
            Some(i) => {
                proof {
                    assert(flip(self.pairs@)[i as int] == (self.pairs@[i as int].1,
                    self.pairs@[i as int].0));
                    lemma_map_of_index(flip(self.pairs@), i as int);
                }
                Some(&self.pairs[i].0)
            },
            None => {
                proof {
                    if exists|i: int|
                        0 <= i < flip(self.pairs@).len() && flip(self.pairs@)[i].0 == *r {
                        let i = choose|i: int|
                            0 <= i < flip(self.pairs@).len() && flip(self.pairs@)[i].0 == *r;
                        assert(self.pairs@[i].1 == *r);
                    }
                }
                None
            },
        }
    }

    /// Associates `l` with `r`.  Re-inserting a pair that is already present
    /// succeeds and changes nothing; binding `l` or `r` to a different
    /// counterpart than it already has is refused and changes nothing.
    pub fn insert_key(&mut self, l: K, r: V) -> (res: Result<(), CollisionError>)
        requires
            obeys_concrete_eq::<K>(),
            obeys_concrete_eq::<V>(),
        ensures
            match res {
                Ok(_) => !collides(old(self)@, old(self).rev(), l, r) && final(self)@ == old(self)@.insert(l, r) && final(self).rev() == old(self).rev().insert(r, l),
                Err(_) => collides(old(self)@, old(self).rev(), l, r) && final(self)@ == old(self)@ && final(self).rev() == old(self).rev(),
            },
    {
        proof {
            use_type_invariant(&*self);
            lemma_flip_unique(self.pairs@);
            lemma_map_of_contains(self.pairs@, l);
            lemma_map_of_contains(flip(self.pairs@), r);
        }
        let ki = find_key_index(&self.pairs, &l);
        let vi = find_value_index(&self.pairs, &r);
        match (ki, vi) {
            (Some(i), Some(j)) => {
                if i == j {
                    proof {
                        lemma_map_of_index(self.pairs@, i as int);
                        lemma_map_of_index(flip(self.pairs@), i as int);
                        assert(old(self)@.insert(l, r) =~= old(self)@);
                        assert(old(self).rev().insert(r, l) =~= old(self).rev());
                    }
                    Ok(())
                } else {
                    proof {
                        lemma_map_of_index(self.pairs@, i as int);
                        assert(self.pairs@[i as int].1 != r);
                    }
                    Err(CollisionError)
                }
            },
            (Some(i), None) => {
                proof {
                    lemma_map_of_index(self.pairs@, i as int);
                    assert(self.pairs@[i as int].1 != r);
                }
                Err(CollisionError)
            },
            (None, Some(j)) => {
                proof {
                    lemma_map_of_index(flip(self.pairs@), j as int);
                    assert(flip(self.pairs@)[j as int].1 == self.pairs@[j as int].0);
                    assert(self.pairs@[j as int].0 != l);
                }
                Err(CollisionError)
            },
            (None, None) => {
                proof {
                    if exists|i: int|
                        0 <= i < flip(self.pairs@).len() && flip(self.pairs@)[i].0 == r {
                        let i = choose|i: int|
                            0 <= i < flip(self.pairs@).len() && flip(self.pairs@)[i].0 == r;
                        assert(self.pairs@[i].1 == r);
                    }
                }
                let ghost s0 = self.pairs@;
                let mut ps: Vec<(K, V)> = Vec::new();
                std::mem::swap(&mut ps, &mut self.pairs);
                ps.push((l, r));
                proof {
                    assert(unique_firsts(ps@)) by {
                        assert(forall|p: int|
                            0 <= p < s0.len() ==> ps@[p] == s0[p] && s0[p].0 != l);
                    }
                    assert(unique_seconds(ps@)) by {
                        assert(forall|p: int|
                            0 <= p < s0.len() ==> ps@[p] == s0[p] && s0[p].1 != r);
                    }
                    lemma_map_of_push(s0, l, r);
                    lemma_flip_push(s0, l, r);
                    lemma_map_of_push(flip(s0), r, l);
                }
                self.pairs = ps;
                Ok(())
            },
        }
    }

    /// Associates `r` with `l`: the same association, and the same collision
    /// rule, as [`BiMap::insert_key`], offered for the other direction.
    pub fn insert_value(&mut self, r: V, l: K) -> (res: Result<(), CollisionError>)
        requires
            obeys_concrete_eq::<K>(),
            obeys_concrete_eq::<V>(),
        ensures
            match res {
                Ok(_) => !collides(old(self)@, old(self).rev(), l, r) && final(self)@ == old(self)@.insert(l, r) && final(self).rev() == old(self).rev().insert(r, l),
                Err(_) => collides(old(self)@, old(self).rev(), l, r) && final(self)@ == old(self)@ && final(self).rev() == old(self).rev(),
            },
    {
        self.insert_key(l, r)
    }

    /// Gives `l` the value `r`, returning the value it had before, if any;
    /// when `l` is absent the pair is simply added.  When `r` already belongs
    /// to a different key the call is refused and nothing changes.
    pub fn update_key(&mut self, l: &K, r: V) -> (res: Result<Option<V>, CollisionError>)
        requires
            obeys_concrete_eq::<K>(),
            obeys_concrete_eq::<V>(),
        ensures
            match res {
                Ok(prev) => !(old(self).rev().contains_key(r) && old(self).rev()[r] != *l) && prev
                    == (if old(self)@.contains_key(*l) {
                    Some(old(self)@[*l])
                } else {
                    None
                }) && final(self)@ == old(self)@.insert(*l, r) && final(self).rev() == (if old(self)@.contains_key(*l) {
                    old(self).rev().remove(old(self)@[*l])
                } else {
                    old(self).rev()
                }).insert(r, *l),
                Err(_) => old(self).rev().contains_key(r) && old(self).rev()[r] != *l && final(self)@ == old(self)@ && final(self).rev() == old(self).rev(),
            },
    {
        proof {
            use_type_invariant(&*self);
            lemma_flip_unique(self.pairs@);
            lemma_map_of_contains(self.pairs@, *l);
            lemma_map_of_contains(flip(self.pairs@), r);
            reveal(vstd::laws_eq::obeys_concrete_eq);
        }
        match find_value_index(&self.pairs, &r) {
            Some(j) => {
                proof {
                    assert(flip(self.pairs@)[j as int] == (self.pairs@[j as int].1,
                    self.pairs@[j as int].0));
                    lemma_map_of_index(flip(self.pairs@), j as int);
                }
                let pj = self.pairs[j];
                if pj.0 == *l {
                    proof {
                        lemma_map_of_index(self.pairs@, j as int);
                        assert(old(self)@.insert(*l, r) =~= old(self)@);
                        assert(old(self).rev().remove(r).insert(r, *l) =~= old(self).rev());
                    }
                    Ok(Some(pj.1))
                } else {
                    Err(CollisionError)
                }
            },
            None => {
                proof {
                    if exists|i: int|
                        0 <= i < flip(self.pairs@).len() && flip(self.pairs@)[i].0 == r {
                        let i = choose|i: int|
                            0 <= i < flip(self.pairs@).len() && flip(self.pairs@)[i].0 == r;
                        assert(self.pairs@[i].1 == r);
                    }
                }
                match find_key_index(&self.pairs, l) {
                    Some(i) => {
                        let ghost s0 = self.pairs@;
                        let mut ps: Vec<(K, V)> = Vec::new();
                        std::mem::swap(&mut ps, &mut self.pairs);
                        let p = ps.remove(i);
                        proof {
                            lemma_map_of_index(s0, i as int);
                            lemma_map_of_remove_at(s0, i as int);
                            lemma_remove_at_keeps_unique(s0, i as int);
                            lemma_flip_remove_at(s0, i as int);
                            lemma_map_of_remove_at(flip(s0), i as int);
                            assert(flip(s0)[i as int] == (s0[i as int].1, s0[i as int].0));
                        }
                        let ghost s1 = ps@;
                        ps.push((*l, r));
                        proof {
                            s0.remove_ensures(i as int);
                            assert(unique_firsts(ps@)) by {
                                assert forall|p2: int| 0 <= p2 < s1.len() implies ps@[p2] == s1[p2]
                                    && s1[p2].0 != *l by {
                                    let q: int = if p2 < i as int {
                                        p2
                                    } else {
                                        p2 + 1
                                    };
                                    assert(s1[p2] == s0[q]);
                                    assert(s0[q].0 != s0[i as int].0);
                                }
                            }
                            assert(unique_seconds(ps@)) by {
                                assert forall|p2: int| 0 <= p2 < s1.len() implies ps@[p2] == s1[p2]
                                    && s1[p2].1 != r by {
                                    let q: int = if p2 < i as int {
                                        p2
                                    } else {
                                        p2 + 1
                                    };
                                    assert(s1[p2] == s0[q]);
                                    assert(s0[q].1 != r);
                                }
                            }
                            lemma_map_of_push(s1, *l, r);
                            lemma_flip_push(s1, *l, r);
                            lemma_map_of_push(flip(s1), r, *l);
                            assert(map_of(s0).remove(s0[i as int].0).insert(*l, r) =~= map_of(
                                s0,
                            ).insert(*l, r));
                        }
                        self.pairs = ps;
                        Ok(Some(p.1))
                    },
                    None => {
                        let ghost s0 = self.pairs@;
                        let mut ps: Vec<(K, V)> = Vec::new();
                        std::mem::swap(&mut ps, &mut self.pairs);
                        ps.push((*l, r));
                        proof {
                            assert(unique_firsts(ps@)) by {
                                assert(forall|p2: int|
                                    0 <= p2 < s0.len() ==> ps@[p2] == s0[p2] && s0[p2].0 != *l);
                            }
                            assert(unique_seconds(ps@)) by {
                                assert(forall|p2: int|
                                    0 <= p2 < s0.len() ==> ps@[p2] == s0[p2] && s0[p2].1 != r);
                            }
                            lemma_map_of_push(s0, *l, r);
                            lemma_flip_push(s0, *l, r);
                            lemma_map_of_push(flip(s0), r, *l);
                        }
                        self.pairs = ps;
                        Ok(None)
                    },
                }
            },
        }
    }

    /// Gives `r` the key `l`, returning the key it had before, if any; when
    /// `r` is absent the pair is simply added.  When `l` already belongs to a
    /// different value the call is refused and nothing changes.
    pub fn update_value(&mut self, r: &V, l: K) -> (res: Result<Option<K>, CollisionError>)
        requires
            obeys_concrete_eq::<K>(),
            obeys_concrete_eq::<V>(),
        ensures
            match res {
                Ok(prev) => !(old(self)@.contains_key(l) && old(self)@[l] != *r) && prev == (if old(self).rev().contains_key(*r) {
                    Some(old(self).rev()[*r])
                } else {
                    None
                }) && final(self).rev() == old(self).rev().insert(*r, l) && final(self)@ == (if old(self).rev().contains_key(*r) {
                    old(self)@.remove(old(self).rev()[*r])
                } else {
                    old(self)@
                }).insert(l, *r),
                Err(_) => old(self)@.contains_key(l) && old(self)@[l] != *r && final(self)@ == old(self)@ && final(self).rev() == old(self).rev(),
            },
    {
        proof {
            use_type_invariant(&*self);
            lemma_flip_unique(self.pairs@);
            lemma_map_of_contains(self.pairs@, l);
            lemma_map_of_contains(flip(self.pairs@), *r);
            reveal(vstd::laws_eq::obeys_concrete_eq);
        }
        match find_key_index(&self.pairs, &l) {
            Some(j) => {
                proof {
                    lemma_map_of_index(self.pairs@, j as int);
                }
                let pj = self.pairs[j];
                if pj.1 == *r {
                    proof {
                        assert(flip(self.pairs@)[j as int] == (self.pairs@[j as int].1,
                        self.pairs@[j as int].0));
                        lemma_map_of_index(flip(self.pairs@), j as int);
                        assert(old(self).rev().insert(*r, l) =~= old(self).rev());
                        assert(old(self)@.remove(l).insert(l, *r) =~= old(self)@);
                    }
                    Ok(Some(pj.0))
                } else {
                    Err(CollisionError)
                }
            },
            None => {
                match find_value_index(&self.pairs, r) {
                    Some(i) => {
                        let ghost s0 = self.pairs@;
                        let mut ps: Vec<(K, V)> = Vec::new();
                        std::mem::swap(&mut ps, &mut self.pairs);
                        let p = ps.remove(i);
                        proof {
                            lemma_map_of_index(s0, i as int);
                            lemma_map_of_index(flip(s0), i as int);
                            lemma_map_of_remove_at(s0, i as int);
                            lemma_remove_at_keeps_unique(s0, i as int);
                            lemma_flip_remove_at(s0, i as int);
                            lemma_map_of_remove_at(flip(s0), i as int);
                            assert(flip(s0)[i as int] == (s0[i as int].1, s0[i as int].0));
                        }
                        let ghost s1 = ps@;
                        ps.push((l, *r));
                        proof {
                            s0.remove_ensures(i as int);
                            assert(unique_firsts(ps@)) by {
                                assert forall|p2: int| 0 <= p2 < s1.len() implies ps@[p2] == s1[p2]
                                    && s1[p2].0 != l by {
                                    let q: int = if p2 < i as int {
                                        p2
                                    } else {
                                        p2 + 1
                                    };
                                    assert(s1[p2] == s0[q]);
                                    assert(s0[q].0 != l);
                                }
                            }
                            assert(unique_seconds(ps@)) by {
                                assert forall|p2: int| 0 <= p2 < s1.len() implies ps@[p2] == s1[p2]
                                    && s1[p2].1 != *r by {
                                    let q: int = if p2 < i as int {
                                        p2
                                    } else {
                                        p2 + 1
                                    };
                                    assert(s1[p2] == s0[q]);
                                    assert(s0[q].1 != s0[i as int].1);
                                }
                            }
                            lemma_map_of_push(s1, l, *r);
                            lemma_flip_push(s1, l, *r);
                            lemma_map_of_push(flip(s1), *r, l);
                            assert(map_of(flip(s0)).remove(flip(s0)[i as int].0).insert(*r, l)
                                =~= map_of(flip(s0)).insert(*r, l));
                        }
                        self.pairs = ps;
                        Ok(Some(p.0))
                    },
                    None => {
                        proof {
                            if exists|i: int|
                                0 <= i < flip(self.pairs@).len() && flip(self.pairs@)[i].0 == *r {
                                let i = choose|i: int|
                                    0 <= i < flip(self.pairs@).len() && flip(self.pairs@)[i].0
                                        == *r;
                                assert(self.pairs@[i].1 == *r);
                            }
                        }
                        let ghost s0 = self.pairs@;
                        let mut ps: Vec<(K, V)> = Vec::new();
                        std::mem::swap(&mut ps, &mut self.pairs);
                        ps.push((l, *r));
                        proof {
                            assert(unique_firsts(ps@)) by {
                                assert(forall|p2: int|
                                    0 <= p2 < s0.len() ==> ps@[p2] == s0[p2] && s0[p2].0 != l);
                            }
                            assert(unique_seconds(ps@)) by {
                                assert(forall|p2: int|
                                    0 <= p2 < s0.len() ==> ps@[p2] == s0[p2] && s0[p2].1 != *r);
                            }
                            lemma_map_of_push(s0, l, *r);
                            lemma_flip_push(s0, l, *r);
                            lemma_map_of_push(flip(s0), *r, l);
                        }
                        self.pairs = ps;
                        Ok(None)
                    },
                }
            },
        }
    }

    /// Deletes the pair whose key is `l`, returning its value, or returns
    /// `None` and changes nothing when `l` is absent.
    pub fn remove(&mut self, l: &K) -> (res: Option<V>)
        requires
            obeys_concrete_eq::<K>(),
        ensures
            match res {
                Some(v) => old(self)@.contains_key(*l) && v == old(self)@[*l] && final(self)@
                    == old(self)@.remove(*l) && final(self).rev() == old(self).rev().remove(v),
                None => !old(self)@.contains_key(*l) && final(self)@ == old(self)@ && final(self).rev() == old(self).rev(),
            },
    {
        proof {
            use_type_invariant(&*self);
            lemma_flip_unique(self.pairs@);
            lemma_map_of_contains(self.pairs@, *l);
        }
        match find_key_index(&self.pairs, l) {
            None => None,
            Some(i) => {
                let ghost s0 = self.pairs@;
                let mut ps: Vec<(K, V)> = Vec::new();
                std::mem::swap(&mut ps, &mut self.pairs);
                let p = ps.remove(i);
                proof {
                    lemma_map_of_index(s0, i as int);
                    lemma_map_of_index(flip(s0), i as int);
                    lemma_map_of_remove_at(s0, i as int);
                    lemma_remove_at_keeps_unique(s0, i as int);
                    lemma_flip_remove_at(s0, i as int);
                    lemma_map_of_remove_at(flip(s0), i as int);
                    assert(flip(s0)[i as int].0 == s0[i as int].1);
                }
                self.pairs = ps;
                Some(p.1)
            },
        }
    }

    /// Deletes the pair whose value is `r`, returning its key, or returns
    /// `None` and changes nothing when `r` is absent.
    pub fn remove_value(&mut self, r: &V) -> (res: Option<K>)
        requires
            obeys_concrete_eq::<V>(),
        ensures
            match res {
                Some(k) => old(self).rev().contains_key(*r) && k == old(self).rev()[*r] && final(self).rev() == old(self).rev().remove(*r) && final(self)@ == old(self)@.remove(k),
                None => !old(self).rev().contains_key(*r) && final(self)@ == old(self)@ && final(self).rev() == old(self).rev(),
            },
    {
        proof {
            use_type_invariant(&*self);
            lemma_flip_unique(self.pairs@);
            lemma_map_of_contains(flip(self.pairs@), *r);
        }
        match find_value_index(&self.pairs, r) {
            None => {
                proof {
                    if exists|i: int|
                        0 <= i < flip(self.pairs@).len() && flip(self.pairs@)[i].0 == *r {
                        let i = choose|i: int|
                            0 <= i < flip(self.pairs@).len() && flip(self.pairs@)[i].0 == *r;
                        assert(self.pairs@[i].1 == *r);
                    }
                }
                None
            },
            Some(i) => {
                let ghost s0 = self.pairs@;
                let mut ps: Vec<(K, V)> = Vec::new();
                std::mem::swap(&mut ps, &mut self.pairs);
                let p = ps.remove(i);
                proof {
                    assert(flip(s0)[i as int] == (s0[i as int].1, s0[i as int].0));
                    lemma_map_of_index(s0, i as int);
                    lemma_map_of_index(flip(s0), i as int);
                    lemma_map_of_remove_at(s0, i as int);
                    lemma_remove_at_keeps_unique(s0, i as int);
                    lemma_flip_remove_at(s0, i as int);
                    lemma_map_of_remove_at(flip(s0), i as int);
                }
                self.pairs = ps;
                Some(p.0)
            },
        }
    }
}

impl<K: Copy + Eq, V: Copy + Eq> BiMap<K, V> {
    /// The two views are mutually inverse and of the same cardinality: every
    /// pair read forward is the same pair read backward, so the number of
    /// entries of either view counts exactly the consistent pairs.
    pub proof fn lemma_inverse_views(&self)
        requires
            self.wf(),
        ensures
            forall|k: K| #[trigger] self@.contains_key(k) ==> self.rev().contains_key(self@[k])
                && self.rev()[self@[k]] == k,
            forall|v: V| #[trigger] self.rev().contains_key(v) ==> self@.contains_key(
                self.rev()[v],
            ) && self@[self.rev()[v]] == v,
            self@.dom().len() == self.rev().dom().len(),
            self@.dom().finite(),
            self.rev().dom().finite(),
    {
        lemma_flip_unique(self.pairs@);
        lemma_map_of_len(self.pairs@);
        lemma_map_of_len(flip(self.pairs@));
        assert forall|k: K| #[trigger] self@.contains_key(k) implies self.rev().contains_key(
            self@[k],
        ) && self.rev()[self@[k]] == k by {
            lemma_map_of_contains(self.pairs@, k);
            let i = choose|i: int| 0 <= i < self.pairs@.len() && self.pairs@[i].0 == k;
            lemma_map_of_index(self.pairs@, i);
            assert(flip(self.pairs@)[i] == (self.pairs@[i].1, self.pairs@[i].0));
            lemma_map_of_index(flip(self.pairs@), i);
        }
        assert forall|v: V| #[trigger] self.rev().contains_key(v) implies self@.contains_key(
            self.rev()[v],
        ) && self@[self.rev()[v]] == v by {
            lemma_map_of_contains(flip(self.pairs@), v);
            let i = choose|i: int|
                0 <= i < flip(self.pairs@).len() && flip(self.pairs@)[i].0 == v;
            lemma_map_of_index(flip(self.pairs@), i);
            assert(flip(self.pairs@)[i] == (self.pairs@[i].1, self.pairs@[i].0));
            lemma_map_of_index(self.pairs@, i);
        }
    }

    /// A map whose forward view is empty holds no pair at all, so its
    /// backward view is empty too and every lookup in it answers absent.
    pub proof fn lemma_empty_both_ways(&self)
        requires
            self.wf(),
            self@ == Map::<K, V>::empty(),
        ensures
            self.rev() == Map::<V, K>::empty(),
    {
        lemma_map_of_len(self.pairs@);
        assert(self.pairs@.len() == 0);
        assert(flip(self.pairs@) =~= Seq::<(V, K)>::empty());
    }
}

impl<K: Copy + Eq, V: Copy + Eq> PartialEq for BiMap<K, V> {
    /// Two maps are equal when they hold the same pairs, in whatever order
    /// they were built.
    fn eq(&self, other: &Self) -> (r: bool) {
        proof {
            use_type_invariant(&*self);
            use_type_invariant(&*other);
        }
        let fwd = contains_all(&self.pairs, &other.pairs);
        let bwd = contains_all(&other.pairs, &self.pairs);
        let r = fwd && bwd;
        proof {
            if obeys_concrete_eq::<K>() && obeys_concrete_eq::<V>() {
                if r {
                    assert forall|k: K| #[trigger] self@.contains_key(k) implies
                        other@.contains_key(k) && other@[k] == self@[k] by {
                        lemma_map_of_contains(self.pairs@, k);
                        let i = choose|i: int|
                            0 <= i < self.pairs@.len() && self.pairs@[i].0 == k;
                        lemma_map_of_index(self.pairs@, i);
                        let j = choose|j: int|
                            0 <= j < other.pairs@.len() && other.pairs@[j] == self.pairs@[i];
                        lemma_map_of_index(other.pairs@, j);
                        lemma_map_of_contains(other.pairs@, k);
                    }
                    assert forall|k: K| #[trigger] other@.contains_key(k) implies
                        self@.contains_key(k) by {
                        lemma_map_of_contains(other.pairs@, k);
                        let i = choose|i: int|
                            0 <= i < other.pairs@.len() && other.pairs@[i].0 == k;
                        let j = choose|j: int|
                            0 <= j < self.pairs@.len() && self.pairs@[j] == other.pairs@[i];
                        lemma_map_of_contains(self.pairs@, k);
                    }
                    assert(self@ =~= other@);
                } else if self@ == other@ {
                    if !fwd {
                        let i = choose|i: int|
                            #![trigger self.pairs@[i]]
                            0 <= i < self.pairs@.len() && !(exists|j: int|
                                0 <= j < other.pairs@.len() && #[trigger] other.pairs@[j]
                                    == self.pairs@[i]);
                        lemma_map_of_index(self.pairs@, i);
                        let k = self.pairs@[i].0;
                        lemma_map_of_contains(other.pairs@, k);
                        let j = choose|j: int|
                            0 <= j < other.pairs@.len() && other.pairs@[j].0 == k;
                        lemma_map_of_index(other.pairs@, j);
                        assert(other.pairs@[j] == self.pairs@[i]);
                        assert(false);
                    } else {
                        let i = choose|i: int|
                            #![trigger other.pairs@[i]]
                            0 <= i < other.pairs@.len() && !(exists|j: int|
                                0 <= j < self.pairs@.len() && #[trigger] self.pairs@[j]
                                    == other.pairs@[i]);
                        lemma_map_of_index(other.pairs@, i);
                        let k = other.pairs@[i].0;
                        lemma_map_of_contains(self.pairs@, k);
                        let j = choose|j: int|
                            0 <= j < self.pairs@.len() && self.pairs@[j].0 == k;
                        lemma_map_of_index(self.pairs@, j);
                        assert(self.pairs@[j] == other.pairs@[i]);
                        assert(false);
                    }
                }
            }
        }
        r
    }
}

impl<K: Copy + Eq, V: Copy + Eq> vstd::std_specs::cmp::PartialEqSpecImpl for BiMap<K, V> {
    open spec fn obeys_eq_spec() -> bool {
        obeys_concrete_eq::<K>() && obeys_concrete_eq::<V>()
    }

    open spec fn eq_spec(&self, other: &Self) -> bool {
        self@ == other@
    }
}

impl<K: Copy + Eq, V: Copy + Eq> Eq for BiMap<K, V> {

}

impl<K: Copy + Eq, V: Copy + Eq> Clone for BiMap<K, V> {
    /// An independent copy that holds the same pairs.
    fn clone(&self) -> (res: Self)
        ensures
            res@ == self@,
            res.rev() == self.rev(),
    {
        proof {
            use_type_invariant(&*self);
        }
        let mut ps: Vec<(K, V)> = Vec::new();
        let mut i: usize = 0;
        while i < self.pairs.len()
            invariant
                i <= self.pairs@.len(),
                ps@ == self.pairs@.subrange(0, i as int),
            decreases self.pairs@.len() - i,
        {
            let p = self.pairs[i];
            ps.push(p);
            proof {
                assert(ps@ =~= self.pairs@.subrange(0, i as int + 1));
            }
            i += 1;
        }
        proof {
            assert(ps@ =~= self.pairs@);
        }
        BiMap { pairs: ps }
    }
}

/// Whether every pair of `a` also stands somewhere in `b`, when `==` on both
/// component types is dependable.
/// Whether each of the first `n` pairs of `a` stands somewhere in `b`.
spec fn all_present<K, V>(a: Seq<(K, V)>, b: Seq<(K, V)>, n: int) -> bool {
    forall|i: int|
        #![trigger a[i]]
        0 <= i < n ==> exists|j: int| 0 <= j < b.len() && #[trigger] b[j] == a[i]
}

fn contains_all<K: Copy + Eq, V: Copy + Eq>(a: &Vec<(K, V)>, b: &Vec<(K, V)>) -> (r: bool)
    ensures
        (obeys_concrete_eq::<K>() && obeys_concrete_eq::<V>()) ==> r == all_present(
            a@,
            b@,
            a@.len() as int,
        ),
{
    let ghost ok = obeys_concrete_eq::<K>() && obeys_concrete_eq::<V>();
    let mut i: usize = 0;
    while i < a.len()
        invariant
            i <= a@.len(),
            ok == (obeys_concrete_eq::<K>() && obeys_concrete_eq::<V>()),
            ok ==> all_present(a@, b@, i as int),
        decreases a@.len() - i,
    {
        let p = a[i];
        let mut found = false;
        let mut j: usize = 0;
        while j < b.len()
            invariant
                j <= b@.len(),
                ok == (obeys_concrete_eq::<K>() && obeys_concrete_eq::<V>()),
                p == a@[i as int],
                i < a@.len(),
                ok ==> found == (exists|q: int| 0 <= q < j && #[trigger] b@[q] == a@[i as int]),
            decreases b@.len() - j,
        {
            proof {
                reveal(vstd::laws_eq::obeys_concrete_eq);
            }
            let q = b[j];
            if q.0 == p.0 && q.1 == p.1 {
                found = true;
                proof {
                    if ok {
                        assert(b@[j as int] == a@[i as int]);
                    }
                }
            }
            j += 1;
        }
        if !found {
            proof {
                if ok {
                    assert(!all_present(a@, b@, a@.len() as int)) by {
                        assert(forall|q: int|
                            0 <= q < b@.len() ==> #[trigger] b@[q] != a@[i as int]);
                    }
                }
            }
            return false;
        }
        i += 1;
    }
    true
}

/// Uniqueness of one side of the pairs is uniqueness of the other side of
/// the flipped pairs.
proof fn lemma_flip_unique<A, B>(s: Seq<(A, B)>)
    ensures
        unique_seconds(s) ==> unique_firsts(flip(s)),
        unique_firsts(s) ==> unique_seconds(flip(s)),
{
    if unique_seconds(s) {
        assert forall|i: int, j: int| 0 <= i < j < flip(s).len() implies flip(s)[i].0 != flip(
            s,
        )[j].0 by {
            assert(s[i].1 != s[j].1);
        }
    }
    if unique_firsts(s) {
        assert forall|i: int, j: int| 0 <= i < j < flip(s).len() implies flip(s)[i].1 != flip(
            s,
        )[j].1 by {
            assert(s[i].0 != s[j].0);
        }
    }
}

/// The index of the pair whose first component equals `k`, if any.
fn find_key_index<K: Copy + Eq, V: Copy + Eq>(pairs: &Vec<(K, V)>, k: &K) -> (r: Option<usize>)
    requires
        obeys_concrete_eq::<K>(),
    ensures
        match r {
            Some(i) => i < pairs@.len() && pairs@[i as int].0 == *k,
            None => forall|j: int| 0 <= j < pairs@.len() ==> pairs@[j].0 != *k,
        },
{
    proof {
        reveal(vstd::laws_eq::obeys_concrete_eq);
    }
    let mut i: usize = 0;
    while i < pairs.len()
        invariant
            obeys_concrete_eq::<K>(),
            i <= pairs@.len(),
            forall|j: int| 0 <= j < i ==> pairs@[j].0 != *k,
        decreases pairs@.len() - i,
    {
        proof {
            reveal(vstd::laws_eq::obeys_concrete_eq);
        }
        let p = pairs[i];
        if p.0 == *k {
            return Some(i);
        }
        i += 1;
    }
    None
}

/// The index of the pair whose second component equals `v`, if any.
fn find_value_index<K: Copy + Eq, V: Copy + Eq>(pairs: &Vec<(K, V)>, v: &V) -> (r: Option<usize>)
    requires
        obeys_concrete_eq::<V>(),
    ensures
        match r {
            Some(i) => i < pairs@.len() && pairs@[i as int].1 == *v,
            None => forall|j: int| 0 <= j < pairs@.len() ==> pairs@[j].1 != *v,
        },
{
    proof {
        reveal(vstd::laws_eq::obeys_concrete_eq);
    }
    let mut i: usize = 0;
    while i < pairs.len()
        invariant
            obeys_concrete_eq::<V>(),
            i <= pairs@.len(),
            forall|j: int| 0 <= j < i ==> pairs@[j].1 != *v,
        decreases pairs@.len() - i,
    {
        proof {
            reveal(vstd::laws_eq::obeys_concrete_eq);
        }
        let p = pairs[i];
        if p.1 == *v {
            return Some(i);
        }
        i += 1;
    }
    None
}

} // verus!
