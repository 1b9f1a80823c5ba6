//! Features that a reader may ignore and a writer may not.

use vstd::prelude::*;

verus! {

pub const SPARSE_SUPER: u32 = 0x0001;
pub const LARGE_FILE: u32 = 0x0002;
pub const BTREE_DIR: u32 = 0x0004;

} // verus!
