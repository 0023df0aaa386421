use vstd::prelude::*;
use vstd::multiset::Multiset;

use crate::addr::PeerAddr;
use crate::dispatch::{
    cap_enqueue, step_opened, step_route, ConnKind, EventView, PeerModel, SendResult,
};
use crate::frames::FrameView;

verus! {

/// The frames a peer is owed, in order: what was handed to its send
/// channels followed by what still waits in its queue.
pub open spec fn delivery_order(m: PeerModel) -> Seq<FrameView> {
    m.sent + m.queue
}

/// Everything the dispatcher ever tracked for a peer, as a bag: handed to
/// a channel, still queued, or recorded dropped.
pub open spec fn tracked_frames(m: PeerModel) -> Multiset<FrameView> {
    m.sent.to_multiset().add(m.queue.to_multiset()).add(m.dead.to_multiset())
}

/// Law: per-peer FIFO. While the bridge is up and the peer's queue is
/// under its cap, one routing step appends the frame at the tail of the
/// peer's delivery order, whatever the channel answered: frames reach the
/// channel in the order their `route` calls completed.
pub proof fn lemma_route_fifo(
    m: PeerModel,
    f: FrameView,
    res: SendResult,
    cap: nat,
    p: PeerAddr,
)
    requires
        m.queue.len() < cap,
    ensures
        delivery_order(step_route(m, f, res, true, cap, p).0) == delivery_order(m).push(f),
{
    let m2 = step_route(m, f, res, true, cap, p).0;
    match m.conn {
        ConnKind::Connected => {
            if m.queue.len() == 0 {
                match res {
                    SendResult::Accepted => {
                        assert(m2.sent + m2.queue =~= (m.sent + m.queue).push(f));
                    },
                    _ => {
                        assert(m2.sent + m2.queue =~= (m.sent + m.queue).push(f));
                    },
                }
            } else {
                assert(m2.sent + m2.queue =~= (m.sent + m.queue).push(f));
            }
        },
        _ => {
            assert(m2.sent + m2.queue =~= (m.sent + m.queue).push(f));
        },
    }
}

/// Law: per-peer FIFO, drain half. Bringing a connection up (or a later
/// drain pass) moves frames from the queue head to the channel tail and
/// changes the delivery order not at all.
pub proof fn lemma_drain_keeps_order(m: PeerModel, k: int, closed: bool)
    requires
        0 <= k <= m.queue.len(),
    ensures
        delivery_order(step_opened(m, k, closed)) == delivery_order(m),
{
    let m2 = step_opened(m, k, closed);
    assert(m2.sent + m2.queue =~= m.sent + m.queue);
}

/// Law: no loss without an event. A routed frame ends up in exactly one
/// place — handed to a send channel, pending in the queue, or recorded
/// dropped (a deadletter or the overflow victim) — and no frame already
/// tracked disappears: the bag of tracked frames grows by exactly the
/// routed frame.
pub proof fn lemma_route_conserves(
    m: PeerModel,
    f: FrameView,
    res: SendResult,
    bridge_up: bool,
    cap: nat,
    p: PeerAddr,
)
    ensures
        tracked_frames(step_route(m, f, res, bridge_up, cap, p).0) == tracked_frames(m).insert(f),
{
    let m2 = step_route(m, f, res, bridge_up, cap, p).0;
    broadcast use vstd::seq_lib::group_to_multiset_ensures;

    lemma_track_enqueue(m.sent, m.queue, m.dead, f, cap);
    match m.conn {
        ConnKind::New | ConnKind::Closed => {
            if bridge_up {
                assert(tracked_frames(m2) =~= tracked_frames(m).insert(f));
            } else {
                assert(tracked_frames(m2) =~= tracked_frames(m).insert(f));
            }
        },
        ConnKind::Connected => {
            if m.queue.len() == 0 && res == SendResult::Accepted {
                assert(tracked_frames(m2) =~= tracked_frames(m).insert(f));
            } else {
                assert(tracked_frames(m2) =~= tracked_frames(m).insert(f));
            }
        },
        _ => {
            assert(tracked_frames(m2) =~= tracked_frames(m).insert(f));
        },
    }
}

/// A capped enqueue conserves the tracked bag: the new queue plus the
/// overflow victim, if one left, hold exactly the old frames and the new
/// one.
pub proof fn lemma_track_enqueue(
    sent: Seq<FrameView>,
    q: Seq<FrameView>,
    dead: Seq<FrameView>,
    f: FrameView,
    cap: nat,
)
    ensures
        ({
            let (q2, dropped) = cap_enqueue(q, f, cap);
            sent.to_multiset().add(q2.to_multiset()).add(
                crate::dispatch::push_opt(dead, dropped).to_multiset(),
            ) == sent.to_multiset().add(q.to_multiset()).add(dead.to_multiset()).insert(f)
        }),
{
    broadcast use vstd::seq_lib::group_to_multiset_ensures;

    lemma_cap_enqueue_conserves(q, f, cap);
    let (q2, dropped) = cap_enqueue(q, f, cap);
    match dropped {
        None => {
            assert(sent.to_multiset().add(q2.to_multiset()).add(dead.to_multiset()) =~= sent
                .to_multiset().add(q.to_multiset()).add(dead.to_multiset()).insert(f));
        },
        Some(d) => {
            assert(crate::dispatch::push_opt(dead, dropped) == dead.push(d));
            assert(dead.push(d).to_multiset() =~= dead.to_multiset().insert(d));
            assert(q2.to_multiset().insert(d) == q.to_multiset().insert(f));
            assert forall|x: FrameView|
                sent.to_multiset().add(q2.to_multiset()).add(dead.to_multiset().insert(d)).count(
                    x,
                ) == sent.to_multiset().add(q.to_multiset()).add(dead.to_multiset()).insert(
                    f,
                ).count(x) by {
                assert(q2.to_multiset().insert(d).count(x) == q.to_multiset().insert(f).count(x));
            }
            assert(sent.to_multiset().add(q2.to_multiset()).add(dead.to_multiset().insert(d)) =~=
                sent.to_multiset().add(q.to_multiset()).add(dead.to_multiset()).insert(f));
        },
    }
}

/// A capped enqueue loses nothing: the queue after it, together with the
/// overflow victim if one left, holds exactly the old frames plus the new
/// one.
pub proof fn lemma_cap_enqueue_conserves(q: Seq<FrameView>, f: FrameView, cap: nat)
    ensures
        ({
            let (q2, dropped) = cap_enqueue(q, f, cap);
            match dropped {
                None => q2.to_multiset() == q.to_multiset().insert(f),
                Some(d) => q2.to_multiset().insert(d) == q.to_multiset().insert(f),
            }
        }),
{
    broadcast use vstd::seq_lib::group_to_multiset_ensures;

    let (q2, dropped) = cap_enqueue(q, f, cap);
    if q.len() < cap {
        assert(q2.to_multiset() =~= q.to_multiset().insert(f));
    } else {
        let pushed = q.push(f);
        assert(q2 =~= pushed.remove(0));
        pushed.to_multiset_ensures();
        assert(q2.to_multiset() =~= pushed.to_multiset().remove(pushed[0]));
        assert(pushed.to_multiset().count(pushed[0]) > 0);
        assert(q2.to_multiset().insert(pushed[0]) =~= pushed.to_multiset());
        assert(q2.to_multiset().insert(dropped->Some_0) =~= q.to_multiset().insert(f));
    }
}

/// Law: drain before direct. When a connection comes up over a non-empty
/// queue and the channel accepts anything at all, the first frame it
/// receives is the queue head.
pub proof fn lemma_drain_before_direct(m: PeerModel, k: int, closed: bool)
    requires
        0 < k <= m.queue.len(),
    ensures
        ({
            let m2 = step_opened(m, k, closed);
            &&& m2.sent.len() > m.sent.len()
            &&& m2.sent[m.sent.len() as int] == m.queue[0]
        }),
{
}

/// Law: a direct send never bypasses a non-empty queue. Routing to a
/// connected peer whose queue is not empty hands nothing to the channel;
/// the frame waits its turn behind the queue.
pub proof fn lemma_no_bypass(
    m: PeerModel,
    f: FrameView,
    res: SendResult,
    bridge_up: bool,
    cap: nat,
    p: PeerAddr,
)
    requires
        m.conn == ConnKind::Connected,
        m.queue.len() > 0,
    ensures
        step_route(m, f, res, bridge_up, cap, p).0.sent == m.sent,
{
}

/// Law: backpressure idempotence. A `Full` answer from an uncapped queue
/// hands nothing to the channel, drops nothing, and appends the frame at
/// the queue tail: however often it repeats, frames are neither reordered
/// nor duplicated.
pub proof fn lemma_backpressure(m: PeerModel, f: FrameView, cap: nat, p: PeerAddr)
    requires
        m.conn == ConnKind::Connected,
        m.queue.len() < cap,
    ensures
        ({
            let (m2, evs) = step_route(m, f, SendResult::WasFull, true, cap, p);
            &&& m2.sent == m.sent
            &&& m2.queue == m.queue.push(f)
            &&& m2.dead == m.dead
            &&& evs == Seq::<EventView>::empty()
        }),
{
}

} // verus!
