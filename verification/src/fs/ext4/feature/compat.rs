//! Features that any reader may ignore.

use vstd::prelude::*;

verus! {

pub const DIR_PREALLOC: u32 = 0x0001;
pub const IMAGIC_INODES: u32 = 0x0002;
pub const JOURNAL: u32 = 0x0004;
pub const EXT_ATTR: u32 = 0x0008;
pub const RESIZE_INODE: u32 = 0x0010;
pub const DIR_INDEX: u32 = 0x0020;

} // verus!
