//! The types of peers (RFC 7854 §4.2).

use vstd::prelude::*;

verus! {

/// An ordinary peer.
pub const GLOBAL_INSTANCE: u8 = 0;

} // verus!
