//! Revision levels.

use vstd::prelude::*;

verus! {

pub const GOOD_OLD: u32 = 0;
pub const DYNAMIC: u32 = 1;

} // verus!
