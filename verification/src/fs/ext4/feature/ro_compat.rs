//! Features that a reader may ignore and a writer may not.

use vstd::prelude::*;

verus! {

pub const SPARSE_SUPER: u32 = 0x0001;
pub const LARGE_FILE: u32 = 0x0002;
pub const BTREE_DIR: u32 = 0x0004;
pub const HUGE_FILE: u32 = 0x0008;
pub const GDT_CSUM: u32 = 0x0010;
pub const FLEX_BG: u32 = 0x0020;
pub const EA_INODE: u32 = 0x0040;
pub const DIR_NLINK: u32 = 0x0100;
pub const INODE_CSUM: u32 = 0x0200;
pub const EXTRA_ISIZE: u32 = 0x0400;
pub const QUOTA: u32 = 0x0800;
pub const PROJECT: u32 = 0x1000;

} // verus!
