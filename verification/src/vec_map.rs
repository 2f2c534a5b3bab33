//! A small association map keyed by `u64`, stored as a vector of entries
//! with unique keys.  Iteration is by insertion order, which keeps everything
//! built on it deterministic.

use vstd::prelude::*;
use vstd::pervasive::VecAdditionalExecFns;

verus! {

broadcast use vstd::std_specs::vec::group_vec_axioms;

pub struct VecMap<V> {
    entries: Vec<(u64, V)>,
}

impl<V> VecMap<V> {
    pub closed spec fn entries_seq(self) -> Seq<(u64, V)> {
        self.entries@
    }

    /// Unique keys.
    pub closed spec fn wf(self) -> bool {
        forall|i: int, j: int|
            0 <= i < j < self.entries@.len() ==> self.entries@[i].0 != self.entries@[j].0
    }

    pub closed spec fn spec_contains(self, k: u64) -> bool {
        exists|i: int| 0 <= i < self.entries@.len() && self.entries@[i].0 == k
    }

    pub closed spec fn key_index(self, k: u64) -> int {
        choose|i: int| 0 <= i < self.entries@.len() && self.entries@[i].0 == k
    }

    pub open spec fn spec_get(self, k: u64) -> Option<V> {
        if self.spec_contains(k) {
            Some(self.entries_seq()[self.key_index(k)].1)
        } else {
            None
        }
    }

    pub open spec fn spec_len(self) -> int {
        self.entries_seq().len() as int
    }

    /// With unique keys, any entry holding `k` is the entry `spec_get` reads.
    pub proof fn lemma_key_at(self, i: int)
        requires
            self.wf(),
            0 <= i < self.entries_seq().len(),
        ensures
            self.spec_contains(self.entries_seq()[i].0),
            self.key_index(self.entries_seq()[i].0) == i,
            self.spec_get(self.entries_seq()[i].0) == Some(self.entries_seq()[i].1),
    {
        let k = self.entries@[i].0;
        assert(self.spec_contains(k));
        let j = self.key_index(k);
        assert(0 <= j < self.entries@.len() && self.entries@[j].0 == k);
        if i != j {
            assert(false);
        }
    }

    pub fn new() -> (r: VecMap<V>)
        ensures
            r.wf(),
            r.spec_len() == 0,
            forall|k: u64| r.spec_get(k) == None::<V>,
            forall|k: u64| !r.spec_contains(k),
    {
        VecMap { entries: Vec::new() }
    }

    pub fn len(&self) -> (r: usize)
        ensures
            r == self.spec_len(),
    {
        self.entries.len()
    }

    /// Index of the entry holding `k`, by linear scan.
    fn find(&self, k: u64) -> (r: Option<usize>)
        requires
            self.wf(),
        ensures
            match r {
                Some(i) => self.spec_contains(k) && i == self.key_index(k) && i
                    < self.spec_len(),
                None => !self.spec_contains(k),
            },
    {
        let n = self.entries.len();
        let mut i: usize = 0;
        while i < n
            invariant
                self.wf(),
                n == self.entries@.len(),
                0 <= i <= n,
                forall|j: int| 0 <= j < i ==> self.entries@[j].0 != k,
            decreases n - i,
        {
            if self.entries[i].0 == k {
                proof {
                    self.lemma_key_at(i as int);
                }
                return Some(i);
            }
            i += 1;
        }
        None
    }

    pub fn contains_key(&self, k: u64) -> (r: bool)
        requires
            self.wf(),
        ensures
            r == self.spec_contains(k),
    {
        self.find(k).is_some()
    }

    pub fn get(&self, k: u64) -> (r: Option<&V>)
        requires
            self.wf(),
        ensures
            match r {
                Some(v) => self.spec_get(k) == Some(*v),
                None => self.spec_get(k) == None::<V>,
            },
    {
        match self.find(k) {
            Some(i) => Some(&self.entries[i].1),
            None => None,
        }
    }

    /// Removes and returns the value for `k`; pair with `insert` to update
    /// an entry in place.
    pub fn take(&mut self, k: u64) -> (r: Option<V>)
        requires
            old(self).wf(),
        ensures
            final(self).wf(),
            final(self).spec_get(k) == None::<V>,
            !final(self).spec_contains(k),
            forall|k2: u64|
                k2 != k ==> #[trigger] final(self).spec_get(k2) == old(self).spec_get(k2),
            forall|k2: u64|
                k2 != k ==> #[trigger] final(self).spec_contains(k2) == old(self).spec_contains(
                    k2,
                ),
            match r {
                Some(v) => old(self).spec_get(k) == Some(v) && final(self).spec_len() == old(
                    self,
                ).spec_len() - 1,
                None => old(self).spec_get(k) == None::<V> && *final(self) == *old(self),
            },
    {
        match self.find(k) {
            Some(i) => {
                let (_, v) = self.entries.remove(i);
                proof {
                    let es = self.entries@;
                    let old_es = old(self).entries@;
                    assert(es == old_es.remove(i as int));
                    assert forall|a: int, b: int|
                        0 <= a < b < es.len() implies es[a].0 != es[b].0 by {
                        let a0 = if a < i { a } else { a + 1 };
                        let b0 = if b < i { b } else { b + 1 };
                        assert(es[a] == old_es[a0] && es[b] == old_es[b0]);
                    }
                    assert(!(*self).spec_contains(k)) by {
                        if (*self).spec_contains(k) {
                            let j = (*self).key_index(k);
                            let j0 = if j < i { j } else { j + 1 };
                            assert(es[j] == old_es[j0]);
                            old(self).lemma_key_at(j0);
                        }
                    }
                    assert forall|k2: u64| k2 != k implies #[trigger] (*self).spec_get(k2)
                        == old(self).spec_get(k2) by {
                        if old(self).spec_contains(k2) {
                            let j0 = old(self).key_index(k2);
                            old(self).lemma_key_at(j0);
                            let j = if j0 < i { j0 } else { j0 - 1 };
                            assert(j0 != i);
                            assert(es[j] == old_es[j0]);
                            (*self).lemma_key_at(j);
                        } else {
                            if (*self).spec_contains(k2) {
                                let j = (*self).key_index(k2);
                                let j0 = if j < i { j } else { j + 1 };
                                assert(es[j] == old_es[j0]);
                                old(self).lemma_key_at(j0);
                            }
                        }
                    }
                    assert forall|k2: u64| k2 != k implies #[trigger] (*self).spec_contains(k2)
                        == old(self).spec_contains(k2) by {
                        assert((*self).spec_get(k2) == old(self).spec_get(k2));
                    }
                }
                Some(v)
            },
            None => None,
        }
    }

    pub fn insert(&mut self, k: u64, v: V)
        requires
            old(self).wf(),
        ensures
            final(self).wf(),
            final(self).spec_get(k) == Some(v),
            final(self).spec_contains(k),
            forall|k2: u64|
                k2 != k ==> #[trigger] final(self).spec_get(k2) == old(self).spec_get(k2),
            forall|k2: u64|
                k2 != k ==> #[trigger] final(self).spec_contains(k2) == old(self).spec_contains(
                    k2,
                ),
            old(self).spec_contains(k) ==> final(self).spec_len() == old(self).spec_len(),
            !old(self).spec_contains(k) ==> final(self).spec_len() == old(self).spec_len() + 1
                && final(self).entries_seq() == old(self).entries_seq().push((k, v)),
    {
        match self.find(k) {
            Some(i) => {
                self.entries.set(i, (k, v));
                proof {
                    let es = self.entries@;
                    let old_es = old(self).entries@;
                    lemma_update_value(old_es, es, i as int);
                    (*self).lemma_key_at(i as int);
                    assert forall|k2: u64| k2 != k implies #[trigger] (*self).spec_get(k2)
                        == old(self).spec_get(k2) by {
                        if old(self).spec_contains(k2) {
                            let j0 = old(self).key_index(k2);
                            old(self).lemma_key_at(j0);
                            assert(j0 != i);
                            assert(es[j0] == old_es[j0]);
                            (*self).lemma_key_at(j0);
                        } else {
                            if (*self).spec_contains(k2) {
                                let j = (*self).key_index(k2);
                                assert(es[j].0 == k2);
                                assert(j != i);
                                old(self).lemma_key_at(j);
                            }
                        }
                    }
                    assert forall|k2: u64| k2 != k implies #[trigger] (*self).spec_contains(k2)
                        == old(self).spec_contains(k2) by {
                        assert((*self).spec_get(k2) == old(self).spec_get(k2));
                    }
                }
            },
            None => {
                self.entries.push((k, v));
                proof {
                    let es = self.entries@;
                    let n = es.len() - 1;
                    assert(forall|j: int| 0 <= j < n ==> es[j] == old(self).entries@[j]);
                    (*self).lemma_key_at(n);
                    assert forall|k2: u64| k2 != k implies #[trigger] (*self).spec_get(k2)
                        == old(self).spec_get(k2) by {
                        if old(self).spec_contains(k2) {
                            old(self).lemma_key_at(old(self).key_index(k2));
                            (*self).lemma_key_at(old(self).key_index(k2));
                        } else {
                            if (*self).spec_contains(k2) {
                                let j = (*self).key_index(k2);
                                assert(0 <= j < es.len() && es[j].0 == k2);
                                assert(j != n);
                                assert(old(self).entries@[j].0 == k2);
                            }
                        }
                    }
                    assert forall|k2: u64| k2 != k implies #[trigger] (*self).spec_contains(k2)
                        == old(self).spec_contains(k2) by {
                        assert((*self).spec_get(k2) == old(self).spec_get(k2));
                    }
                }
            },
        }
    }

    /// Removes the entry for `k`, preserving the order of the others.
    pub fn remove(&mut self, k: u64)
        requires
            old(self).wf(),
        ensures
            final(self).wf(),
            final(self).spec_get(k) == None::<V>,
            !final(self).spec_contains(k),
            forall|k2: u64|
                k2 != k ==> #[trigger] final(self).spec_get(k2) == old(self).spec_get(k2),
            forall|k2: u64|
                k2 != k ==> #[trigger] final(self).spec_contains(k2) == old(self).spec_contains(
                    k2,
                ),
            old(self).spec_contains(k) ==> final(self).spec_len() == old(self).spec_len() - 1,
            !old(self).spec_contains(k) ==> *final(self) == *old(self),
    {
        match self.find(k) {
            Some(i) => {
                self.entries.remove(i);
                proof {
                    let es = self.entries@;
                    let old_es = old(self).entries@;
                    assert(es == old_es.remove(i as int));
                    assert forall|a: int, b: int|
                        0 <= a < b < es.len() implies es[a].0 != es[b].0 by {
                        let a0 = if a < i {
                            a
                        } else {
                            a + 1
                        };
                        let b0 = if b < i {
                            b
                        } else {
                            b + 1
                        };
                        assert(es[a] == old_es[a0] && es[b] == old_es[b0]);
                    }
                    assert(!(*self).spec_contains(k)) by {
                        if (*self).spec_contains(k) {
                            let j = (*self).key_index(k);
                            let j0 = if j < i {
                                j
                            } else {
                                j + 1
                            };
                            assert(es[j] == old_es[j0]);
                            old(self).lemma_key_at(j0);
                        }
                    }
                    assert forall|k2: u64| k2 != k implies #[trigger] (*self).spec_get(k2)
                        == old(self).spec_get(k2) by {
                        if old(self).spec_contains(k2) {
                            let j0 = old(self).key_index(k2);
                            old(self).lemma_key_at(j0);
                            let j = if j0 < i {
                                j0
                            } else {
                                j0 - 1
                            };
                            assert(j0 != i);
                            assert(es[j] == old_es[j0]);
                            (*self).lemma_key_at(j);
                        } else {
                            if (*self).spec_contains(k2) {
                                let j = (*self).key_index(k2);
                                let j0 = if j < i {
                                    j
                                } else {
                                    j + 1
                                };
                                assert(es[j] == old_es[j0]);
                                old(self).lemma_key_at(j0);
                            }
                        }
                    }
                    assert forall|k2: u64| k2 != k implies #[trigger] (*self).spec_contains(k2)
                        == old(self).spec_contains(k2) by {
                        assert((*self).spec_get(k2) == old(self).spec_get(k2));
                    }
                }
            },
            None => {},
        }
    }

    /// Entry key by position, for deterministic iteration.
    pub fn key_at(&self, i: usize) -> (r: u64)
        requires
            i < self.spec_len(),
        ensures
            r == self.entries_seq()[i as int].0,
    {
        self.entries[i].0
    }

    /// Entry value by position, for deterministic iteration.
    pub fn val_at(&self, i: usize) -> (r: &V)
        requires
            i < self.spec_len(),
        ensures
            *r == self.entries_seq()[i as int].1,
    {
        &self.entries[i].1
    }
}


/// After updating the value (not the key) of one entry, lookups of other keys
/// are unchanged.
proof fn lemma_update_value<V>(old_es: Seq<(u64, V)>, es: Seq<(u64, V)>, i: int)
    requires
        0 <= i < old_es.len(),
        es.len() == old_es.len(),
        es[i].0 == old_es[i].0,
        forall|j: int| 0 <= j < es.len() && j != i ==> es[j] == old_es[j],
        forall|a: int, b: int| 0 <= a < b < old_es.len() ==> old_es[a].0 != old_es[b].0,
    ensures
        forall|a: int, b: int| 0 <= a < b < es.len() ==> es[a].0 != es[b].0,
{
    assert forall|a: int, b: int| 0 <= a < b < es.len() implies es[a].0 != es[b].0 by {
        assert(es[a].0 == old_es[a].0 && es[b].0 == old_es[b].0);
    }
}

} // verus!
