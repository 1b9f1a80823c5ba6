//! Mount options.

use vstd::prelude::*;

verus! {

pub const DEBUG: u32 = 0x0001;
pub const ERRORS_CONT: u32 = 0x0002;
pub const ERRORS_RO: u32 = 0x0004;
pub const ERRORS_PANIC: u32 = 0x0008;
pub const ERRORS_MASK: u32 = 0x000E;
pub const MINIX_DF: u32 = 0x0040;
pub const NOATIME: u32 = 0x0080;
pub const IVERSION: u32 = 0x0100;
pub const DIOREAD_NOLOCK: u32 = 0x1000;
pub const CHECK: u32 = 0x2000;
pub const NOEXTENTS: u32 = 0x4000;
pub const NODIRATIME: u32 = 0x8000;
pub const NOMGMTIME: u32 = 0x10000;
pub const BLOCK_VALIDITY: u32 = 0x20000;
pub const DELALLOC: u32 = 0x40000;
pub const DISCARD: u32 = 0x80000;
pub const NODELALLOC: u32 = 0x100000;
pub const INIT_ISIZE: u32 = 0x200000;
pub const EXTENTS: u32 = 0x400000;
pub const LARGE_MMAP: u32 = 0x800000;
pub const HUGEMMAP: u32 = 0x1000000;
pub const METADATA_CSUM: u32 = 0x2000000;
pub const FAST_COMMIT: u32 = 0x4000000;
pub const NOLARGEIO: u32 = 0x8000000;
pub const INODE_VERSION: u32 = 0x10000000;

} // verus!
