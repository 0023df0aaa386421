use vstd::prelude::*;

use crate::addr::PeerAddr;
use crate::frames::Frame;

verus! {

#[verifier::external_type_specification]
#[verifier::external_body]
#[verifier::reject_recursive_types(T)]
pub struct ExSender<T>(futures::sync::mpsc::Sender<T>);

/// The producer end of the bounded per-connection channel the bridge hands
/// out on `Opened`: the only way frames reach a live connection.
pub type FrameSender = futures::sync::mpsc::Sender<Frame>;

/// What one non-blocking send attempt did. `Full` and `Disconnected` hand
/// the rejected frame back, so nothing is lost on backpressure.
pub enum SendOutcome {
    Sent,
    Full(Frame),
    Disconnected(Frame),
}

/// Relies on futures' `sync::mpsc::Sender::try_send`: it either queues the
/// message and returns `Ok`, or returns it untouched inside an error that
/// `is_full`/`is_disconnected` classifies and `into_inner` unwraps. Which
/// outcome occurs depends on the channel's runtime state, so nothing more
/// is assumed of it.
#[verifier::external_body]
pub(crate) fn channel_try_send(tx: &mut FrameSender, frame: Frame) -> (r: SendOutcome)
    ensures
        match r {
            SendOutcome::Sent => true,
            SendOutcome::Full(f) => f == frame,
            SendOutcome::Disconnected(f) => f == frame,
        },
{
    match tx.try_send(frame) {
        Ok(()) => SendOutcome::Sent,
        Err(e) => {
            if e.is_full() {
                SendOutcome::Full(e.into_inner())
            } else {
                SendOutcome::Disconnected(e.into_inner())
            }
        },
    }
}

/// An event the network bridge feeds into the dispatcher.
pub enum NetworkEvent {
    /// A connection to `peer` is up; `tx` is its send channel.
    Opened { peer: PeerAddr, peer_id: u64, tx: FrameSender },
    /// The connection to `peer` went down.
    Closed { peer: PeerAddr },
    /// An attempt to connect to `peer` failed; `permanent` distinguishes
    /// refused/unreachable from transient faults.
    ConnectFailed { peer: PeerAddr, permanent: bool },
    /// An inbound frame arrived from `peer`.
    Received { peer: PeerAddr, frame: Frame },
}

} // verus!
