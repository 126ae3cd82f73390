//! A verified core for a multi-party text relay: the wire codec for the
//! message envelope, the participant registry, the bounded broadcast
//! channel, the message router, and the per-connection lifecycle state
//! machine.  Transport and scheduling live outside; every decision the
//! relay makes about a frame, a participant or a payload is made here.

pub mod message_type;
pub mod user_manager;
pub mod channel;
pub mod router;
pub mod connection;

use vstd::prelude::*;

verus! {

/// The number of payloads the broadcast channel retains for slow subscribers.
pub const CHANNEL_CAPACITY: usize = 100;

} // verus!
