//! Features that must be understood.

use vstd::prelude::*;

verus! {

pub const COMPRESSION: u32 = 0x0001;
pub const FILETYPE: u32 = 0x0002;
pub const RECOVER: u32 = 0x0004;
pub const JOURNAL_DEV: u32 = 0x0008;
pub const META_BG: u32 = 0x0010;

} // verus!
