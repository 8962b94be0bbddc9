//! Endpoint behaviours of service SIDs (RFC 8986).

use vstd::prelude::*;

verus! {

/// Decapsulate and look up in an IPv6 table.
pub const END_DT6: u16 = 0x0012;

/// Decapsulate and look up in an IPv4 table.
pub const END_DT4: u16 = 0x0013;

/// Decapsulate and look up in a table of both families.
pub const END_DT46: u16 = 0x0014;

/// Decapsulate and bridge, unicast.
pub const END_DT2U: u16 = 0x0016;

/// Decapsulate and flood.
pub const END_DT2M: u16 = 0x0017;

} // verus!
