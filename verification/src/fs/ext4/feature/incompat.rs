//! Features that must be understood.

use vstd::prelude::*;

verus! {

pub const COMPRESSION: u32 = 0x0001;
pub const FILETYPE: u32 = 0x0002;
pub const RECOVER: u32 = 0x0004;
pub const JOURNAL_DEV: u32 = 0x0008;
pub const META_BG: u32 = 0x0010;
pub const EXTENTS: u32 = 0x0040;
pub const MMETADATA: u32 = 0x0080;
pub const JOURNAL_CHECKSUM: u32 = 0x0400;
pub const REPLAY: u32 = 0x0800;
pub const BIGALLOC: u32 = 0x1000;
pub const METADATA_CSUM: u32 = 0x2000;
pub const FAST_COMMIT: u32 = 0x4000;
pub const INLINE_DATA: u32 = 0x8000;
pub const ENCRYPT: u32 = 0x10000;
pub const CASEFOLD: u32 = 0x20000;

} // verus!
