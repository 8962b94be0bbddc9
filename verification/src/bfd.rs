//! Bidirectional Forwarding Detection (RFC 5880): the Control-packet codec, its
//! authentication section and the per-session state machine.

pub mod auth;
pub mod digest;
pub mod packet;
pub mod session;
