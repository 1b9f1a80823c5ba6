//! Journal operations.

use vstd::prelude::*;

verus! {

pub const DELETE: u16 = 0x0001;
pub const RECOVER: u16 = 0x0002;
pub const COMMIT: u16 = 0x0003;

} // verus!
