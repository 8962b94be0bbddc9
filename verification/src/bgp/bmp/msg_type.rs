//! The types of BMP messages (RFC 7854 §4.1).

use vstd::prelude::*;

verus! {

pub const ROUTE_MONITORING: u8 = 0;

pub const STATISTICS_REPORT: u8 = 1;

pub const PEER_DOWN: u8 = 2;

pub const PEER_UP: u8 = 3;

pub const INITIATION: u8 = 4;

pub const TERMINATION: u8 = 5;

pub const ROUTE_MIRRORING: u8 = 6;

} // verus!
