//! Why a session ended (RFC 7854 §4.9).

use vstd::prelude::*;

verus! {

/// Closed here, with a NOTIFICATION.
pub const LOCAL_NOTIFICATION: u8 = 1;

/// Closed here by an event, whose code follows.
pub const LOCAL_FSM: u8 = 2;

/// Closed by the peer, with a NOTIFICATION.
pub const REMOTE_NOTIFICATION: u8 = 3;

/// Closed by the peer without one.
pub const REMOTE_NO_NOTIFICATION: u8 = 4;

/// The peer is no longer configured.
pub const PEER_DECONFIGURED: u8 = 5;

} // verus!
