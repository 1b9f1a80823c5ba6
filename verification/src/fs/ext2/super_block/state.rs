//! Whether the file system was left clean.

use vstd::prelude::*;

verus! {

pub const CLEAN: u16 = 0x0001;
pub const DIRTY: u16 = 0x0002;

} // verus!
