use vstd::prelude::*;

use crate::addr::PeerAddr;
use crate::assoc::{
    al_find, al_unique, lemma_al_find_none, lemma_al_find_some, lemma_al_push, lemma_al_remove,
    lemma_al_update,
};
use crate::frames::{Frame, FrameView};
use crate::net::{channel_try_send, FrameSender, SendOutcome};

verus! {

/// Why a drain pass stopped.
#[derive(Clone, Copy, PartialEq, Eq, Structural, Debug)]
pub enum DrainOutcome {
    /// The queue was emptied into the sink.
    Drained,
    /// The sink reported backpressure; the remainder stays queued, in order.
    SinkFull,
    /// The sink's consumer is gone; the remainder stays queued for the
    /// caller to dispose of.
    SinkClosed,
}

/// Per-peer FIFO of frames pending a usable connection: frames wait here
/// while a connection is establishing or backpressured, and leave in the
/// order they arrived.
pub struct QueueManager {
    inner: Vec<(PeerAddr, Vec<Frame>)>,
}

impl QueueManager {
    /// The queues as an association sequence from peer to frame sequence.
    pub closed spec fn queues(self) -> Seq<(PeerAddr, Seq<FrameView>)> {
        Seq::new(self.inner@.len(), |i: int| (self.inner@[i].0, self.inner@[i].1.deep_view()))
    }

    /// Each peer has at most one queue.
    pub open spec fn wf(self) -> bool {
        al_unique(self.queues())
    }

    /// The frames pending for `p`, oldest first.
    pub open spec fn pending(self, p: PeerAddr) -> Seq<FrameView> {
        match al_find(self.queues(), p) {
            Some(q) => q,
            None => Seq::empty(),
        }
    }

    pub fn new() -> (r: QueueManager)
        ensures
            r.wf(),
            forall|p: PeerAddr| r.pending(p) == Seq::<FrameView>::empty(),
    {
        let r = QueueManager { inner: Vec::new() };
        proof {
            assert forall|p: PeerAddr| r.pending(p) == Seq::<FrameView>::empty() by {
                lemma_al_find_none(r.queues(), p);
            }
        }
        r
    }

    /// Position of the queue for `dst`, if one exists.
    fn find_peer(&self, dst: &PeerAddr) -> (r: Option<usize>)
        requires
            self.wf(),
        ensures
            match r {
                Some(i) => i < self.queues().len() && self.queues()[i as int].0 == *dst && al_find(
                    self.queues(),
                    *dst,
                ) == Some(self.queues()[i as int].1),
                None => al_find(self.queues(), *dst) == None::<Seq<FrameView>>,
            },
    {
        let mut i: usize = 0;
        while i < self.inner.len()
            invariant
                self.wf(),
                i <= self.queues().len(),
                forall|j: int| 0 <= j < i ==> (#[trigger] self.queues()[j]).0 != *dst,
            decreases self.inner.len() - i,
        {
            if self.inner[i].0 == *dst {
                proof {
                    lemma_al_find_some(self.queues(), *dst, i as int);
                }
                return Some(i);
            }
            i = i + 1;
        }
        proof {
            lemma_al_find_none(self.queues(), *dst);
        }
        None
    }

    /// Appends the given frame onto the peer's queue.
    pub fn enqueue_frame(&mut self, frame: Frame, dst: PeerAddr)
        requires
            old(self).wf(),
        ensures
            final(self).wf(),
            final(self).pending(dst) == old(self).pending(dst).push(frame@),
            forall|p: PeerAddr| p != dst ==> final(self).pending(p) == old(self).pending(p),
    {
        let ghost pre = self.queues();
        let ghost fv = frame@;
        match self.find_peer(&dst) {
            Some(i) => {
                let mut entry = self.inner.remove(i);
                entry.1.push(frame);
                self.inner.insert(i, entry);
                proof {
                    assert(self.queues() =~~= pre.update(i as int, (dst, pre[i as int].1.push(fv))));
                    lemma_al_update(pre, i as int, pre[i as int].1.push(fv));
                }
            },
            None => {
                let mut q: Vec<Frame> = Vec::new();
                q.push(frame);
                self.inner.push((dst, q));
                proof {
                    assert(q.deep_view() =~~= Seq::empty().push(fv));
                    assert(self.queues() =~~= pre.push((dst, Seq::empty().push(fv))));
                    lemma_al_push(pre, dst, Seq::empty().push(fv));
                    assert(old(self).pending(dst) == Seq::<FrameView>::empty());
                }
            },
        }
    }

    /// Extracts the oldest pending frame for the peer, if one exists.
    pub fn dequeue_frame(&mut self, dst: &PeerAddr) -> (r: Option<Frame>)
        requires
            old(self).wf(),
        ensures
            final(self).wf(),
            old(self).pending(*dst).len() <= usize::MAX,
            match r {
                Some(f) => old(self).pending(*dst).len() > 0 && f@ == old(self).pending(*dst)[0]
                    && final(self).pending(*dst) == old(self).pending(*dst).drop_first(),
                None => old(self).pending(*dst).len() == 0 && final(self).pending(*dst) == old(
                    self,
                ).pending(*dst),
            },
            forall|p: PeerAddr| p != *dst ==> final(self).pending(p) == old(self).pending(p),
    {
        let ghost pre = self.queues();
        match self.find_peer(dst) {
            Some(i) => {
                if self.inner[i].1.len() == 0 {
                    return None;
                }
                let mut entry = self.inner.remove(i);
                let f = entry.1.remove(0);
                self.inner.insert(i, entry);
                proof {
                    assert(self.queues() =~~= pre.update(
                        i as int,
                        (*dst, pre[i as int].1.drop_first()),
                    ));
                    lemma_al_update(pre, i as int, pre[i as int].1.drop_first());
                }
                Some(f)
            },
            None => None,
        }
    }

    /// Puts a frame back at the head of the peer's queue, undoing a pop
    /// whose send attempt was refused.
    fn requeue_front(&mut self, frame: Frame, dst: PeerAddr)
        requires
            old(self).wf(),
        ensures
            final(self).wf(),
            final(self).pending(dst) == seq![frame@] + old(self).pending(dst),
            forall|p: PeerAddr| p != dst ==> final(self).pending(p) == old(self).pending(p),
    {
        let ghost pre = self.queues();
        let ghost fv = frame@;
        match self.find_peer(&dst) {
            Some(i) => {
                let mut entry = self.inner.remove(i);
                entry.1.insert(0, frame);
                self.inner.insert(i, entry);
                proof {
                    assert(self.queues() =~~= pre.update(
                        i as int,
                        (dst, seq![fv] + pre[i as int].1),
                    ));
                    lemma_al_update(pre, i as int, seq![fv] + pre[i as int].1);
                }
            },
            None => {
                let mut q: Vec<Frame> = Vec::new();
                q.push(frame);
                self.inner.push((dst, q));
                proof {
                    assert(q.deep_view() =~~= seq![fv] + Seq::empty());
                    assert(self.queues() =~~= pre.push((dst, seq![fv] + Seq::empty())));
                    lemma_al_push(pre, dst, seq![fv] + Seq::<FrameView>::empty());
                }
            },
        }
    }

    /// How many frames are pending for the peer.
    pub fn queue_depth(&self, dst: &PeerAddr) -> (r: usize)
        requires
            self.wf(),
        ensures
            r == self.pending(*dst).len(),
    {
        match self.find_peer(dst) {
            Some(i) => self.inner[i].1.len(),
            None => 0,
        }
    }

    /// Takes a peer's whole queue, oldest first, leaving it empty.
    pub fn take_pending(&mut self, dst: &PeerAddr) -> (r: Vec<Frame>)
        requires
            old(self).wf(),
        ensures
            final(self).wf(),
            r.deep_view() == old(self).pending(*dst),
            final(self).pending(*dst) == Seq::<FrameView>::empty(),
            forall|p: PeerAddr| p != *dst ==> final(self).pending(p) == old(self).pending(p),
    {
        let ghost pre = self.queues();
        match self.find_peer(dst) {
            Some(i) => {
                let entry = self.inner.remove(i);
                proof {
                    assert(self.queues() =~~= pre.remove(i as int));
                    lemma_al_remove(pre, i as int);
                }
                entry.1
            },
            None => {
                let r: Vec<Frame> = Vec::new();
                proof {
                    assert(r.deep_view() =~= Seq::<FrameView>::empty());
                }
                r
            },
        }
    }

    /// Discards a peer's queue, returning how many frames were dropped.
    pub fn drop_peer(&mut self, dst: &PeerAddr) -> (r: usize)
        requires
            old(self).wf(),
        ensures
            final(self).wf(),
            r == old(self).pending(*dst).len(),
            final(self).pending(*dst) == Seq::<FrameView>::empty(),
            forall|p: PeerAddr| p != *dst ==> final(self).pending(p) == old(self).pending(p),
    {
        let dropped = self.take_pending(dst);
        dropped.len()
    }

    /// Pops frames for `dst` in FIFO order into the sink until the queue is
    /// empty or the sink refuses one; a refused frame goes back to the head
    /// of the queue, so order is preserved. Returns how many frames the
    /// sink accepted, why the pass stopped, and — as a ghost witness — the
    /// frames the sink accepted: exactly the head `r.0` of the old queue,
    /// in queue order.
    pub fn drain_into(&mut self, dst: PeerAddr, sink: &mut FrameSender) -> (r: (
        usize,
        DrainOutcome,
        Ghost<Seq<FrameView>>,
    ))
        requires
            old(self).wf(),
        ensures
            final(self).wf(),
            r.0 <= old(self).pending(dst).len(),
            r.2@ == old(self).pending(dst).take(r.0 as int),
            final(self).pending(dst) == old(self).pending(dst).skip(r.0 as int),
            forall|p: PeerAddr| p != dst ==> final(self).pending(p) == old(self).pending(p),
            r.1 == DrainOutcome::Drained ==> r.0 == old(self).pending(dst).len(),
    {
        let ghost orig = self.pending(dst);
        // The depth, a usize, bounds the queue length, so the counter below
        // cannot overflow.
        let _depth = self.queue_depth(&dst);
        let mut count: usize = 0;
        let ghost mut handed: Seq<FrameView> = Seq::empty();
        proof {
            assert(handed =~= orig.take(0));
        }
        loop
            invariant
                self.wf(),
                orig.len() <= usize::MAX,
                count <= orig.len(),
                handed == orig.take(count as int),
                self.pending(dst) == orig.skip(count as int),
                forall|p: PeerAddr| p != dst ==> self.pending(p) == old(self).pending(p),
                orig == old(self).pending(dst),
            decreases orig.len() - count,
        {
            let next = self.dequeue_frame(&dst);
            match next {
                None => {
                    return (count, DrainOutcome::Drained, Ghost(handed));
                },
                Some(frame) => {
                    let ghost fv = frame@;
                    match channel_try_send(sink, frame) {
                        SendOutcome::Sent => {
                            proof {
                                assert(orig.skip(count as int).drop_first() =~= orig.skip(
                                    count as int + 1,
                                ));
                                handed = handed.push(fv);
                                assert(handed =~= orig.take(count as int + 1));
                            }
                            count = count + 1;
                        },
                        SendOutcome::Full(f) => {
                            self.requeue_front(f, dst);
                            proof {
                                assert(seq![fv] + orig.skip(count as int).drop_first() =~= orig.skip(
                                    count as int,
                                ));
                            }
                            return (count, DrainOutcome::SinkFull, Ghost(handed));
                        },
                        SendOutcome::Disconnected(f) => {
                            self.requeue_front(f, dst);
                            proof {
                                assert(seq![fv] + orig.skip(count as int).drop_first() =~= orig.skip(
                                    count as int,
                                ));
                            }
                            return (count, DrainOutcome::SinkClosed, Ghost(handed));
                        },
                    }
                },
            }
        }
    }
}

} // verus!
