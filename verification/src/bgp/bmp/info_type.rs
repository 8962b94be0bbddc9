//! The types of information (RFC 7854 §4.4).

use vstd::prelude::*;

verus! {

/// Any text.
pub const STRING: u16 = 0;

/// What the router is.
pub const SYS_DESCR: u16 = 1;

/// What the router is called.
pub const SYS_NAME: u16 = 2;

} // verus!
