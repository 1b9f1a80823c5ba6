//! What to do on an error.

use vstd::prelude::*;

verus! {

pub const CONTINUE: u16 = 1;
pub const REMOUNT_RO: u16 = 2;
pub const PANIC: u16 = 3;

} // verus!
