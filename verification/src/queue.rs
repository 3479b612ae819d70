//! Aggregator queue: a bounded FIFO of encoded 7-byte frames, shared (in the
//! running system) by every connection as producer and drained by the single
//! upstream writer. The contracts pin exact FIFO behaviour: a push appends,
//! a pop removes the front, nothing is lost, duplicated or reordered.

use vstd::prelude::*;

verus! {

/// A bounded first-in first-out queue of wire frames.
pub struct FrameQueue {
    items: Vec<[u8; 7]>,
    capacity: usize,
}

impl FrameQueue {
    /// The frames currently queued, front first.
    pub closed spec fn view(&self) -> Seq<[u8; 7]> {
        self.items@
    }

    /// The fixed capacity the queue was created with.
    pub closed spec fn cap(&self) -> int {
        self.capacity as int
    }

    /// Create an empty queue holding at most `capacity` in-flight frames.
    pub fn new(capacity: usize) -> (q: FrameQueue)
        ensures
            q@ == Seq::<[u8; 7]>::empty(),
            q.cap() == capacity,
    {
        FrameQueue { items: Vec::new(), capacity }
    }

    /// Number of frames currently queued.
    pub fn len(&self) -> (n: usize)
        ensures
            n == self@.len(),
    {
        self.items.len()
    }

    /// Append a frame at the back if there is room. Succeeds exactly when
    /// the queue holds fewer frames than its capacity; on failure the queue
    /// is unchanged.
    pub fn try_push(&mut self, frame: [u8; 7]) -> (ok: bool)
        ensures
            final(self).cap() == old(self).cap(),
            ok <==> old(self)@.len() < old(self).cap(),
            ok ==> final(self)@ == old(self)@.push(frame),
            !ok ==> final(self)@ == old(self)@,
    {
        if self.items.len() < self.capacity {
            self.items.push(frame);
            true
        } else {
            false
        }
    }

    /// Remove and return the front frame, or `None` on an empty queue.
    pub fn pop(&mut self) -> (r: Option<[u8; 7]>)
        ensures
            final(self).cap() == old(self).cap(),
            old(self)@.len() == 0 ==> r is None && final(self)@ == old(self)@,
            old(self)@.len() > 0 ==> r == Option::Some(old(self)@[0]) && final(self)@ == old(
                self,
            )@.drop_first(),
    {
        if self.items.len() == 0 {
            Option::None
        } else {
            let front = self.items.remove(0);
            proof {
                assert(self.items@ =~= old(self)@.drop_first());
            }
            Option::Some(front)
        }
    }

    /// Remove and return every queued frame, front first: exactly the frames
    /// that were queued, in arrival order.
    pub fn drain(&mut self) -> (out: Vec<[u8; 7]>)
        ensures
            final(self).cap() == old(self).cap(),
            final(self)@ == Seq::<[u8; 7]>::empty(),
            out@ == old(self)@,
    {
        let mut out: Vec<[u8; 7]> = Vec::new();
        loop
            invariant
                self.cap() == old(self).cap(),
                out@ + self@ == old(self)@,
            ensures
                self@.len() == 0,
                out@ + self@ == old(self)@,
            decreases self@.len(),
        {
            let popped = self.pop();
            match popped {
                Option::Some(f) => {
                    out.push(f);
                    proof {
                        assert(out@ + self@ =~= old(self)@);
                    }
                },
                Option::None => {
                    break ;
                },
            }
        }
        proof {
            assert(out@ =~= old(self)@);
            assert(self@ =~= Seq::<[u8; 7]>::empty());
        }
        out
    }
}

/// The queue contents after a run of enqueue attempts starting from `q`:
/// each frame in `events` (an arbitrary interleaving of all producers'
/// frames, in arrival order) is appended if the queue is below `cap`, and
/// lost otherwise. A full queue in the running system blocks the producer
/// instead; the conservation law below is only ever stated in the lossless
/// regime (capacity covering the whole run), where the two models agree.
pub open spec fn enqueue_run(cap: int, q: Seq<[u8; 7]>, events: Seq<[u8; 7]>) -> Seq<[u8; 7]>
    decreases events.len(),
{
    if events.len() == 0 {
        q
    } else if q.len() < cap {
        enqueue_run(cap, q.push(events[0]), events.drop_first())
    } else {
        enqueue_run(cap, q, events.drop_first())
    }
}

/// Conservation law for the aggregator: when the queue's capacity covers the
/// whole run (`cap >= q.len() + events.len()`), no frame is lost or
/// duplicated and arrival order is kept — the queue ends up holding exactly
/// the prior contents followed by every event frame in order. In particular,
/// N connections each delivering M frames into a queue of capacity at least
/// N*M leave exactly N*M frames for the upstream writer.
pub proof fn lemma_enqueue_run_conservation(cap: int, q: Seq<[u8; 7]>, events: Seq<[u8; 7]>)
    requires
        q.len() + events.len() <= cap,
    ensures
        enqueue_run(cap, q, events) == q + events,
        enqueue_run(cap, q, events).len() == q.len() + events.len(),
    decreases events.len(),
{
    if events.len() == 0 {
        assert(q + events =~= q);
    } else {
        lemma_enqueue_run_conservation(cap, q.push(events[0]), events.drop_first());
        assert(q.push(events[0]) + events.drop_first() =~= q + events);
    }
}

} // verus!
