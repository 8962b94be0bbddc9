//! The type codes of FlowSpec components (RFC 8955 §4.2).

use vstd::prelude::*;

verus! {

pub const DEST_PREFIX: u8 = 1;

pub const SRC_PREFIX: u8 = 2;

pub const IP_PROTO: u8 = 3;

pub const PORT: u8 = 4;

pub const DEST_PORT: u8 = 5;

pub const SRC_PORT: u8 = 6;

pub const ICMP_TYPE: u8 = 7;

pub const ICMP_CODE: u8 = 8;

pub const TCP_FLAGS: u8 = 9;

pub const PKT_LEN: u8 = 10;

pub const DSCP: u8 = 11;

pub const FRAGMENT: u8 = 12;

} // verus!
