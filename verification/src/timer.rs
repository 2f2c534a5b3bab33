//! Monotonic-time min-priority queue of deferred wake events.  Entries with
//! equal deadlines keep push order; earlier deadlines come out first.

use vstd::prelude::*;
use crate::types::Time;

verus! {

broadcast use vstd::std_specs::vec::group_vec_axioms;

pub struct WakeQueue<R> {
    entries: Vec<(Time, R)>,
}

/// `q1` is `q0` with `(time, reason)` inserted after every entry whose
/// deadline is at most `time` and before any later one.
pub open spec fn wake_pushed<R>(q0: Seq<(Time, R)>, q1: Seq<(Time, R)>, time: Time, reason: R) -> bool {
    exists|idx: int|
        #![trigger q0.insert(idx, (time, reason))]
        {
            &&& 0 <= idx <= q0.len()
            &&& q1 == q0.insert(idx, (time, reason))
            &&& (forall|j: int| 0 <= j < idx ==> q0[j].0 <= time)
            &&& (idx < q0.len() ==> q0[idx].0 > time)
        }
}

impl<R> WakeQueue<R> {
    pub closed spec fn view_seq(self) -> Seq<(Time, R)> {
        self.entries@
    }

    /// Sorted by time, non-strictly: stable for equal deadlines.
    pub open spec fn wf(self) -> bool {
        forall|i: int, j: int|
            0 <= i < j < self.view_seq().len() ==> self.view_seq()[i].0 <= self.view_seq()[j].0
    }

    pub fn new() -> (r: WakeQueue<R>)
        ensures
            r.wf(),
            r.view_seq().len() == 0,
    {
        WakeQueue { entries: Vec::new() }
    }

    pub fn len(&self) -> (r: usize)
        ensures
            r == self.view_seq().len(),
    {
        self.entries.len()
    }

    /// Schedules `reason` at `time`, after every entry with an equal or
    /// earlier deadline (so equal deadlines fire in push order).
    pub fn push(&mut self, time: Time, reason: R)
        requires
            old(self).wf(),
        ensures
            final(self).wf(),
            wake_pushed(old(self).view_seq(), final(self).view_seq(), time, reason),
    {
        let i = self.find_pos(time);
        self.entries.insert(i, (time, reason));
        proof {
            let es = self.entries@;
            let old_es = old(self).entries@;
            assert(es == old_es.insert(i as int, (time, reason)));
            old_es.insert_ensures(i as int, (time, reason));
            assert(forall|j: int| 0 <= j < i ==> es[j] == old_es[j]);
            assert(forall|j: int| i < j < es.len() ==> es[j] == old_es[j - 1]);
            assert forall|a: int, b: int| 0 <= a < b < es.len() implies es[a].0 <= es[b].0 by {
                if a < i && b > i {
                    assert(es[a] == old_es[a] && es[b] == old_es[b - 1]);
                } else if a == i && b > i {
                    assert(es[b] == old_es[b - 1]);
                    assert(i as int <= b - 1 && b - 1 < old_es.len());
                    assert(old_es[i as int].0 > time);
                    if (i as int) < b - 1 {
                        assert(old_es[i as int].0 <= old_es[b - 1].0);
                    }
                } else if a < i && b == i {
                    assert(es[a] == old_es[a]);
                    assert(old_es[a].0 <= time);
                } else if a > i {
                    assert(es[a] == old_es[a - 1] && es[b] == old_es[b - 1]);
                } else if b < i {
                    assert(es[a] == old_es[a] && es[b] == old_es[b]);
                }
            }
            assert(0 <= i as int <= old_es.len());
        }
    }

    /// Index of the first entry with a deadline after `time`.
    fn find_pos(&self, time: Time) -> (i: usize)
        ensures
            0 <= i <= self.view_seq().len(),
            forall|j: int| 0 <= j < i ==> self.view_seq()[j].0 <= time,
            (i as int) < self.view_seq().len() ==> self.view_seq()[i as int].0 > time,
    {
        let n = self.entries.len();
        let mut i: usize = 0;
        while i < n
            invariant
                n == self.entries@.len(),
                0 <= i <= n,
                forall|j: int| 0 <= j < i ==> self.entries@[j].0 <= time,
            decreases n - i,
        {
            if self.entries[i].0 > time {
                return i;
            }
            i += 1;
        }
        n
    }

    /// Removes and returns the front entry if its deadline has passed.
    pub fn pop(&mut self, now: Time) -> (r: Option<(Time, R)>)
        requires
            old(self).wf(),
        ensures
            final(self).wf(),
            match r {
                Some(entry) => {
                    &&& old(self).view_seq().len() > 0
                    &&& entry == old(self).view_seq()[0]
                    &&& entry.0 <= now
                    &&& final(self).view_seq() == old(self).view_seq().drop_first()
                },
                None => {
                    &&& *final(self) == *old(self)
                    &&& (old(self).view_seq().len() == 0 || old(self).view_seq()[0].0 > now)
                },
            },
    {
        if self.entries.len() > 0 {
            let t = self.entries[0].0;
            if t <= now {
                let entry = self.entries.remove(0);
                proof {
                    assert(self.entries@ =~= old(self).entries@.drop_first());
                    assert forall|a: int, b: int|
                        0 <= a < b < self.entries@.len() implies self.entries@[a].0
                        <= self.entries@[b].0 by {
                        assert(self.entries@[a] == old(self).entries@[a + 1]);
                        assert(self.entries@[b] == old(self).entries@[b + 1]);
                    }
                }
                return Some(entry);
            }
        }
        None
    }

    /// Deadline of the next wake, if any.
    pub fn next_deadline(&self) -> (r: Option<Time>)
        ensures
            match r {
                Some(t) => self.view_seq().len() > 0 && t == self.view_seq()[0].0,
                None => self.view_seq().len() == 0,
            },
    {
        if self.entries.len() > 0 {
            Some(self.entries[0].0)
        } else {
            None
        }
    }
}

} // verus!
