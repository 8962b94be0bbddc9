//! The type codes of PDUs (RFC 8210 §5).

use vstd::prelude::*;

verus! {

pub const SERIAL_NOTIFY: u8 = 0;

pub const SERIAL_QUERY: u8 = 1;

pub const RESET_QUERY: u8 = 2;

pub const CACHE_RESPONSE: u8 = 3;

pub const IPV4_PREFIX: u8 = 4;

pub const IPV6_PREFIX: u8 = 6;

pub const END_OF_DATA: u8 = 7;

pub const CACHE_RESET: u8 = 8;

pub const ROUTER_KEY: u8 = 9;

pub const ERROR_REPORT: u8 = 10;

} // verus!
