//! Features of the journal.

use vstd::prelude::*;

verus! {

pub const INCOMPAT_CSUM: u32 = 0x0001;
pub const INCOMPAT_64BIT: u32 = 0x0002;
pub const INCOMPAT_FLEX_BLK_SIZE: u32 = 0x0004;
pub const RO_COMPAT_SPARSESUPER2: u32 = 0x0001;

} // verus!
