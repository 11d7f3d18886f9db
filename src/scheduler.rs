use vstd::prelude::*;
use std::collections::VecDeque;
use crate::event::Event;
use crate::time::SimTime;

verus! {

/// An event waiting in the queue, with the sequence number it was given when scheduled.
pub struct Scheduled {
    pub seq: u64,
    pub event: Event,
}

/// Dispatch order: earlier time first; among equal times, the one scheduled first.
pub open spec fn precedes(a_time: u64, a_seq: u64, b_time: u64, b_seq: u64) -> bool {
    a_time < b_time || (a_time == b_time && a_seq < b_seq)
}

/// The pending events, strictly ordered by `(time, seq)`.
pub open spec fn queue_ordered(s: Seq<Scheduled>) -> bool {
    forall|i: int, j: int|
        0 <= i < j < s.len() ==> precedes(
            #[trigger] s[i].event.time.bits,
            s[i].seq,
            #[trigger] s[j].event.time.bits,
            s[j].seq,
        )
}

/// How many events of `s` have a time not later than `t`.
pub open spec fn count_not_after(s: Seq<Scheduled>, t: u64) -> int
    decreases s.len(),
{
    if s.len() == 0 {
        0
    } else {
        count_not_after(s.drop_last(), t) + if s.last().event.time.bits <= t { 1int } else { 0int }
    }
}

/// `s` with `x` placed behind every event whose time is not later than its own and ahead of
/// every later one.
pub open spec fn enqueue(s: Seq<Scheduled>, x: Scheduled) -> Seq<Scheduled> {
    s.insert(count_not_after(s, x.event.time.bits), x)
}

pub proof fn lemma_count_bounds(s: Seq<Scheduled>, t: u64)
    ensures
        0 <= count_not_after(s, t) <= s.len(),
    decreases s.len(),
{
    if s.len() > 0 {
        lemma_count_bounds(s.drop_last(), t);
    }
}

/// Where the times up to `lo` are not later than `t` and the rest are later, `lo` counts them.
pub proof fn lemma_count_split(s: Seq<Scheduled>, t: u64, lo: int)
    requires
        0 <= lo <= s.len(),
        forall|k: int| 0 <= k < lo ==> (#[trigger] s[k]).event.time.bits <= t,
        forall|k: int| lo <= k < s.len() ==> (#[trigger] s[k]).event.time.bits > t,
    ensures
        count_not_after(s, t) == lo,
    decreases s.len(),
{
    if s.len() > 0 {
        let init = s.drop_last();
        if lo == s.len() {
            assert forall|k: int| 0 <= k < lo - 1 implies (#[trigger] init[k]).event.time.bits <= t by {
                assert(init[k] == s[k]);
            }
            lemma_count_split(init, t, lo - 1);
        } else {
            assert forall|k: int| 0 <= k < lo implies (#[trigger] init[k]).event.time.bits <= t by {
                assert(init[k] == s[k]);
            }
            assert forall|k: int| lo <= k < init.len() implies (#[trigger] init[k]).event.time.bits > t by {
                assert(init[k] == s[k]);
            }
            lemma_count_split(init, t, lo);
        }
    }
}

/// A priority queue of events keyed by `(time, insertion sequence)`, so that events with
/// equal times leave in the order they were scheduled.
pub struct EventQueue {
    entries: VecDeque<Scheduled>,
    next_seq: u64,
}

impl EventQueue {
    /// The pending events, in the order they will leave the queue.
    pub closed spec fn pending(&self) -> Seq<Scheduled> {
        self.entries@
    }

    /// The sequence number the next scheduled event will receive.
    pub closed spec fn next_seq(&self) -> u64 {
        self.next_seq
    }

    pub open spec fn wf(&self) -> bool {
        &&& queue_ordered(self.pending())
        &&& forall|i: int| 0 <= i < self.pending().len() ==> (#[trigger] self.pending()[i]).seq < self.next_seq()
        &&& forall|i: int| 0 <= i < self.pending().len() ==> (#[trigger] self.pending()[i]).event.time.valid()
    }

    /// How many more events this queue can still hand out: the sequence numbers left,
    /// plus the events still pending. Every extraction lowers it and no insertion raises it.
    pub open spec fn room(&self) -> int {
        (u64::MAX - self.next_seq()) + self.pending().len()
    }

    pub fn new() -> (r: EventQueue)
        ensures
            r.wf(),
            r.pending() == Seq::<Scheduled>::empty(),
            r.next_seq() == 0,
    {
        EventQueue { entries: VecDeque::new(), next_seq: 0 }
    }

    pub fn len(&self) -> (r: usize)
        ensures
            r == self.pending().len(),
    {
        proof { broadcast use vstd::std_specs::vecdeque::group_vec_dequeue_axioms; }
        self.entries.len()
    }

    pub fn is_exhausted(&self) -> (r: bool)
        ensures
            r == (self.next_seq() == u64::MAX),
    {
        self.next_seq == u64::MAX
    }

    /// Time of the earliest pending event, if any.
    pub fn peek_time(&self) -> (r: Option<SimTime>)
        requires
            self.wf(),
        ensures
            self.pending().len() == 0 ==> r is None,
            self.pending().len() > 0 ==> r == Some(self.pending()[0].event.time),
    {
        proof { broadcast use vstd::std_specs::vecdeque::group_vec_dequeue_axioms; }
        if self.entries.len() == 0 {
            None
        } else {
            Some(self.entries[0].event.time)
        }
    }

    /// Inserts `event` behind every pending event whose time is not later than its own,
    /// and ahead of every later one: a binary search over the ordered queue.
    pub fn push(&mut self, event: Event)
        requires
            old(self).wf(),
            event.time.valid(),
            old(self).next_seq() < u64::MAX,
        ensures
            final(self).wf(),
            final(self).next_seq() == old(self).next_seq() + 1,
            final(self).pending() == enqueue(old(self).pending(), Scheduled { seq: old(self).next_seq(), event }),
            0 <= count_not_after(old(self).pending(), event.time.bits) <= old(self).pending().len(),
    {
        proof { broadcast use vstd::std_specs::vecdeque::group_vec_dequeue_axioms; }
        let t = event.time.bits;
        let mut lo: usize = 0;
        let mut hi: usize = self.entries.len();
        while lo < hi
            invariant
                0 <= lo <= hi <= self.entries@.len(),
                queue_ordered(self.entries@),
                forall|k: int| 0 <= k < lo ==> (#[trigger] self.entries@[k]).event.time.bits <= t,
                forall|k: int| hi <= k < self.entries@.len() ==> (#[trigger] self.entries@[k]).event.time.bits > t,
            decreases hi - lo,
        {
            let mid = lo + (hi - lo) / 2;
            if self.entries[mid].event.time.bits <= t {
                assert forall|k: int| 0 <= k < mid + 1 implies (#[trigger] self.entries@[k]).event.time.bits <= t by {
                    if k < mid {
                        assert(precedes(self.entries@[k].event.time.bits, self.entries@[k].seq,
                            self.entries@[mid as int].event.time.bits, self.entries@[mid as int].seq));
                    }
                }
                lo = mid + 1;
            } else {
                assert forall|k: int| mid <= k < self.entries@.len() implies (#[trigger] self.entries@[k]).event.time.bits > t by {
                    if k > mid {
                        assert(precedes(self.entries@[mid as int].event.time.bits, self.entries@[mid as int].seq,
                            self.entries@[k].event.time.bits, self.entries@[k].seq));
                    }
                }
                hi = mid;
            }
        }
        let ghost old_entries = self.entries@;
        let item = Scheduled { seq: self.next_seq, event };
        self.entries.insert(lo, item);
        self.next_seq = self.next_seq + 1;
        proof {
            let s = self.entries@;
            assert(s == old_entries.insert(lo as int, item));
            assert forall|i: int, j: int| 0 <= i < j < s.len() implies precedes(
                #[trigger] s[i].event.time.bits, s[i].seq, #[trigger] s[j].event.time.bits, s[j].seq) by {
                if j < lo {
                    assert(s[i] == old_entries[i] && s[j] == old_entries[j]);
                } else if j == lo {
                    assert(s[i] == old_entries[i]);
                } else if i == lo {
                    assert(s[j] == old_entries[j - 1]);
                } else if i < lo {
                    assert(s[i] == old_entries[i] && s[j] == old_entries[j - 1]);
                } else {
                    assert(s[i] == old_entries[i - 1] && s[j] == old_entries[j - 1]);
                }
            }
            assert forall|i: int| 0 <= i < s.len() implies (#[trigger] s[i]).seq < self.next_seq && s[i].event.time.valid() by {
                if i < lo {
                    assert(s[i] == old_entries[i]);
                } else if i > lo {
                    assert(s[i] == old_entries[i - 1]);
                }
            }
            lemma_count_split(old_entries, t, lo as int);
        }
    }

    /// Removes and returns the earliest pending event.
    pub fn pop_front(&mut self) -> (r: Option<Scheduled>)
        requires
            old(self).wf(),
        ensures
            final(self).wf(),
            final(self).next_seq() == old(self).next_seq(),
            old(self).pending().len() == 0 ==> r is None && final(self).pending() == old(self).pending(),
            old(self).pending().len() > 0 ==> r == Some(old(self).pending()[0])
                && final(self).pending() == old(self).pending().subrange(1, old(self).pending().len() as int),
    {
        proof { broadcast use vstd::std_specs::vecdeque::group_vec_dequeue_axioms; }
        let r = self.entries.pop_front();
        proof {
            let s = self.entries@;
            let o = old(self).entries@;
            if o.len() > 0 {
                assert forall|i: int, j: int| 0 <= i < j < s.len() implies precedes(
                    #[trigger] s[i].event.time.bits, s[i].seq, #[trigger] s[j].event.time.bits, s[j].seq) by {
                    assert(s[i] == o[i + 1] && s[j] == o[j + 1]);
                }
                assert forall|i: int| 0 <= i < s.len() implies (#[trigger] s[i]).seq < self.next_seq && s[i].event.time.valid() by {
                    assert(s[i] == o[i + 1]);
                }
            }
        }
        r
    }
}

} // verus!
