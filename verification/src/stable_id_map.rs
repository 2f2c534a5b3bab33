//! Slot table mapping dense transient ids to objects, with an optional
//! persistent 64-bit stable id per object and bidirectional lookup.
//!
//! Transient ids are slot indices and may be reused after removal; stable ids
//! are allocated monotonically and never reused.  Iteration is by ascending
//! slot index, which keeps save output and hook ordering deterministic.

use vstd::prelude::*;
use vstd::pervasive::VecAdditionalExecFns;
use crate::types::{StableId, NO_STABLE_ID};

verus! {

broadcast use vstd::std_specs::vec::group_vec_axioms;

pub struct StableIdMap<T> {
    slots: Vec<Option<T>>,
    slot_stable: Vec<StableId>,
    stable_slots: Vec<Option<u32>>,
    next_stable: StableId,
    limit: u32,
}

impl<T> StableIdMap<T> {
    pub closed spec fn spec_len(self) -> int {
        self.slots@.len() as int
    }

    pub closed spec fn live(self, i: int) -> bool {
        0 <= i < self.slots@.len() && self.slots@[i] is Some
    }

    pub closed spec fn obj(self, i: int) -> T {
        self.slots@[i]->Some_0
    }

    /// Stable id recorded for slot `i`; `NO_STABLE_ID` when none is assigned.
    pub closed spec fn stable_of(self, i: int) -> StableId {
        self.slot_stable@[i]
    }

    /// Reverse lookup: the live slot holding stable id `s`, if any.
    pub closed spec fn spec_transient_of(self, s: StableId) -> Option<u32> {
        if 1 <= s < self.next_stable {
            self.stable_slots@[s - 1]
        } else {
            None
        }
    }

    pub closed spec fn spec_next_stable(self) -> StableId {
        self.next_stable
    }

    pub closed spec fn spec_limit(self) -> u32 {
        self.limit
    }

    pub closed spec fn wf(self) -> bool {
        &&& self.slots@.len() == self.slot_stable@.len()
        &&& self.slots@.len() <= self.limit
        &&& 1 <= self.next_stable
        &&& self.stable_slots@.len() == self.next_stable - 1
        &&& forall|i: int|
            0 <= i < self.slots@.len() && self.slots@[i] is None ==> self.slot_stable@[i]
                == NO_STABLE_ID
        &&& forall|i: int|
            0 <= i < self.slots@.len() && self.slot_stable@[i] != NO_STABLE_ID ==> {
                &&& self.slots@[i] is Some
                &&& 1 <= self.slot_stable@[i] < self.next_stable
                &&& self.stable_slots@[self.slot_stable@[i] - 1] == Some(i as u32)
            }
        &&& forall|s: int|
            0 <= s < self.stable_slots@.len() && self.stable_slots@[s] is Some ==> {
                &&& 0 <= self.stable_slots@[s]->Some_0 < self.slots@.len()
                &&& self.slot_stable@[self.stable_slots@[s]->Some_0 as int] == s + 1
            }
    }

    pub fn new(limit: u32) -> (r: StableIdMap<T>)
        ensures
            r.wf(),
            r.spec_len() == 0,
            r.spec_next_stable() == 1,
            r.spec_limit() == limit,
            forall|i: int| !r.live(i),
            forall|s: StableId| #[trigger] r.spec_transient_of(s) == None::<u32>,
    {
        StableIdMap {
            slots: Vec::new(),
            slot_stable: Vec::new(),
            stable_slots: Vec::new(),
            next_stable: 1,
            limit,
        }
    }

    /// Stores `obj` in the lowest free slot, with no stable id assigned.
    /// Fails exactly when the id space (`limit` slots) is exhausted.
    pub fn insert(&mut self, obj: T) -> (r: Result<u32, ()>)
        requires
            old(self).wf(),
        ensures
            final(self).wf(),
            final(self).spec_limit() == old(self).spec_limit(),
            final(self).spec_next_stable() == old(self).spec_next_stable(),
            match r {
                Ok(i) => {
                    &&& final(self).live(i as int)
                    &&& final(self).obj(i as int) == obj
                    &&& final(self).stable_of(i as int) == NO_STABLE_ID
                    &&& !old(self).live(i as int)
                    &&& i < final(self).spec_len()
                    &&& i < final(self).spec_limit()
                    &&& final(self).spec_len() <= final(self).spec_limit()
                    &&& forall|j: int| 0 <= j < i ==> old(self).live(j)
                    &&& old(self).spec_len() <= final(self).spec_len() <= old(self).spec_len()
                        + 1
                    &&& forall|j: int|
                        j != i ==> {
                            &&& old(self).live(j) == final(self).live(j)
                            &&& (old(self).live(j) ==> final(self).obj(j) == old(self).obj(j)
                                && final(self).stable_of(j) == old(self).stable_of(j))
                        }
                    &&& forall|s: StableId| #[trigger]
                        final(self).spec_transient_of(s) == old(self).spec_transient_of(s)
                },
                Err(()) => {
                    &&& *final(self) == *old(self)
                    &&& old(self).spec_len() == old(self).spec_limit()
                    &&& forall|j: int| 0 <= j < old(self).spec_len() ==> old(self).live(j)
                },
            },
    {
        let n = self.slots.len();
        let mut i: usize = 0;
        while i < n
            invariant
                *self == *old(self),
                self.wf(),
                n == self.slots@.len(),
                n == self.slot_stable@.len(),
                n <= self.limit,
                0 <= i <= n,
                forall|j: int| 0 <= j < i ==> self.slots@[j] is Some,
            decreases n - i,
        {
            if self.slots[i].is_none() {
                self.slots.set(i, Some(obj));
                self.slot_stable.set(i, NO_STABLE_ID);
                return Ok(i as u32);
            }
            i += 1;
        }
        if n < self.limit as usize {
            self.slots.push(Some(obj));
            self.slot_stable.push(NO_STABLE_ID);
            Ok(n as u32)
        } else {
            Err(())
        }
    }

    /// Consumes the slot; a stable id it held keeps resolving to "absent".
    pub fn remove(&mut self, tid: u32) -> (r: Option<T>)
        requires
            old(self).wf(),
        ensures
            final(self).wf(),
            final(self).spec_limit() == old(self).spec_limit(),
            final(self).spec_next_stable() == old(self).spec_next_stable(),
            final(self).spec_len() == old(self).spec_len(),
            match r {
                Some(obj) => {
                    &&& old(self).live(tid as int)
                    &&& obj == old(self).obj(tid as int)
                    &&& !final(self).live(tid as int)
                    &&& final(self).stable_of(tid as int) == NO_STABLE_ID
                    &&& forall|j: int|
                        j != tid ==> {
                            &&& old(self).live(j) == final(self).live(j)
                            &&& (old(self).live(j) ==> final(self).obj(j) == old(self).obj(j)
                                && final(self).stable_of(j) == old(self).stable_of(j))
                        }
                    &&& (old(self).stable_of(tid as int) != NO_STABLE_ID ==> final(self).spec_transient_of(old(self).stable_of(tid as int)) == None::<u32>)
                    &&& forall|s: StableId|
                        s != old(self).stable_of(tid as int) ==> #[trigger] final(self).spec_transient_of(s) == old(self).spec_transient_of(s)
                },
                None => {
                    &&& *final(self) == *old(self)
                    &&& !old(self).live(tid as int)
                },
            },
    {
        if (tid as usize) < self.slots.len() {
            if self.slots[tid as usize].is_some() {
                let mut taken: Option<T> = None;
                self.slots.set_and_swap(tid as usize, &mut taken);
                let s = self.slot_stable[tid as usize];
                if s != NO_STABLE_ID {
                    let ns = self.stable_slots.len();
                    proof {
                        assert(old(self).stable_slots@[s - 1] == Some(tid));
                        assert(s - 1 < ns);
                    }
                    self.stable_slots.set((s - 1) as usize, None);
                    self.slot_stable.set(tid as usize, NO_STABLE_ID);
                }
                return taken;
            }
        }
        None
    }

    pub fn get(&self, tid: u32) -> (r: Option<&T>)
        ensures
            match r {
                Some(obj) => self.live(tid as int) && *obj == self.obj(tid as int),
                None => !self.live(tid as int),
            },
    {
        if (tid as usize) < self.slots.len() {
            self.slots[tid as usize].as_ref()
        } else {
            None
        }
    }

    pub fn get_mut(&mut self, tid: u32) -> (r: Option<&mut T>)
        requires
            old(self).wf(),
        ensures
            final(self).wf(),
            final(self).spec_limit() == old(self).spec_limit(),
            final(self).spec_next_stable() == old(self).spec_next_stable(),
            final(self).spec_len() == old(self).spec_len(),
            match r {
                Some(obj) => {
                    &&& old(self).live(tid as int)
                    &&& *obj == old(self).obj(tid as int)
                    &&& final(self).live(tid as int)
                    &&& final(self).obj(tid as int) == *final(obj)
                    &&& final(self).stable_of(tid as int) == old(self).stable_of(tid as int)
                    &&& forall|j: int|
                        j != tid ==> {
                            &&& old(self).live(j) == final(self).live(j)
                            &&& (old(self).live(j) ==> final(self).obj(j) == old(self).obj(j)
                                && final(self).stable_of(j) == old(self).stable_of(j))
                        }
                    &&& forall|s: StableId| #[trigger]
                        final(self).spec_transient_of(s) == old(self).spec_transient_of(s)
                },
                None => {
                    &&& *final(self) == *old(self)
                    &&& !old(self).live(tid as int)
                },
            },
    {
        if (tid as usize) < self.slots.len() && self.slots[tid as usize].is_some() {
            match &mut self.slots[tid as usize] {
                Some(obj) => Some(obj),
                None => {
                    proof {
                        assert(false);
                    }
                    None
                },
            }
        } else {
            None
        }
    }

    /// Allocates the next stable id for the slot, or returns the one already
    /// assigned; idempotent.
    pub fn assign_stable(&mut self, tid: u32) -> (r: StableId)
        requires
            old(self).wf(),
            old(self).live(tid as int),
            old(self).spec_next_stable() < u64::MAX,
        ensures
            final(self).wf(),
            final(self).spec_limit() == old(self).spec_limit(),
            final(self).spec_len() == old(self).spec_len(),
            r != NO_STABLE_ID,
            final(self).live(tid as int),
            final(self).obj(tid as int) == old(self).obj(tid as int),
            final(self).stable_of(tid as int) == r,
            final(self).spec_transient_of(r) == Some(tid),
            (old(self).stable_of(tid as int) != NO_STABLE_ID ==> r == old(self).stable_of(
                tid as int,
            ) && *final(self) == *old(self)),
            (old(self).stable_of(tid as int) == NO_STABLE_ID ==> r == old(self).spec_next_stable() && final(self).spec_next_stable() == old(self).spec_next_stable()
                + 1),
            forall|j: int|
                j != tid ==> {
                    &&& old(self).live(j) == final(self).live(j)
                    &&& (old(self).live(j) ==> final(self).obj(j) == old(self).obj(j) && final(self).stable_of(j) == old(self).stable_of(j))
                },
            forall|s: StableId|
                s != r ==> #[trigger] final(self).spec_transient_of(s) == old(self).spec_transient_of(s),
    {
        let s = self.slot_stable[tid as usize];
        if s != NO_STABLE_ID {
            s
        } else {
            let s = self.next_stable;
            self.slot_stable.set(tid as usize, s);
            self.stable_slots.push(Some(tid));
            self.next_stable = self.next_stable + 1;
            s
        }
    }

    /// Reverse lookup from a stable id to the live slot currently holding it.
    pub fn transient_of(&self, stable: StableId) -> (r: Option<u32>)
        requires
            self.wf(),
        ensures
            r == self.spec_transient_of(stable),
    {
        if 1 <= stable && stable < self.next_stable {
            let ns = self.stable_slots.len();
            proof {
                assert(stable - 1 < ns);
            }
            self.stable_slots[(stable - 1) as usize]
        } else {
            None
        }
    }

    /// The null stable id never resolves.
    pub proof fn lemma_transient_of_zero(self)
        ensures
            self.spec_transient_of(NO_STABLE_ID) == None::<u32>,
    {
    }

    /// The forward link of the bidirectional lookup: a live slot with an
    /// assigned stable id is what that stable id resolves to.  Together
    /// with the ops' frame conditions (live slots keep their stable ids)
    /// this gives the "while live" half of the stable-id round trip.
    pub proof fn lemma_stable_lookup(self, t: int)
        requires
            self.wf(),
            self.live(t),
            self.stable_of(t) != NO_STABLE_ID,
        ensures
            self.spec_transient_of(self.stable_of(t)) == Some(t as u32),
            0 <= t <= u32::MAX,
    {
        assert(0 <= t < self.slots@.len());
        assert(self.slots@.len() <= self.limit);
    }

    /// The slot count never exceeds the id-space limit.
    pub proof fn lemma_len_le_limit(self)
        requires
            self.wf(),
        ensures
            self.spec_len() <= self.spec_limit(),
    {
    }

    /// A live slot index lies below `spec_len`.
    pub proof fn lemma_live_bounds(self, i: int)
        ensures
            self.live(i) ==> 0 <= i < self.spec_len(),
    {
    }

    /// Number of slots (live or free); transient ids are below this bound.
    pub fn len(&self) -> (r: usize)
        ensures
            r == self.spec_len(),
    {
        self.slots.len()
    }
}

} // verus!
