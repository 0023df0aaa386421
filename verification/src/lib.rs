//! Verified network dispatcher for an actor runtime: address registry,
//! per-peer connection state machine, pending-frame queues, and the
//! message-to-frame routing pipeline.

pub mod addr;
pub mod assoc;
pub mod dispatch;
pub mod frames;
pub mod laws;
pub mod lookup;
pub mod net;
pub mod queue;
pub mod wire;
