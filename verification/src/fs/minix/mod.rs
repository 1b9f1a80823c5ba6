//! The minix file system.
//!
//! Block 0 is not used, block 1 is the super block. The blocks of the inode
//! bitmap follow, then those of the zone bitmap, then the inode table with 32
//! inodes in a block. The data starts at the first data zone.

pub mod bitmap;
pub mod dir;
pub mod file;
pub mod inode_ops;
pub mod making;
pub mod mkfs;
pub mod mount;
pub mod namei;
pub mod names;
pub mod nodes;
pub mod shrink;
pub mod tree;
pub mod truncate;

use vstd::prelude::*;

verus! {

pub const MINIX_ROOT_INO: u32 = 1;
pub const MINIX_LINK_MAX: u16 = 250;
/// Names of 14 bytes.
pub const MINIX_SUPER_MAGIC: u32 = 0x137F;
/// Names of 30 bytes.
pub const MINIX_SUPER_MAGIC2: u32 = 0x138F;
pub const MINIX_VALID_FS: u16 = 0x0001;
pub const MINIX_ERROR_FS: u16 = 0x0002;
pub const MINIX_INODE_SIZE: usize = 32;
pub const MINIX_INODES_PER_BLOCK: u32 = 32;
pub const ZONES_PER_BLOCK: u32 = 512;
pub const DIRECT_ZONES: usize = 7;
pub const IND_ZONE: usize = 7;
pub const DIND_ZONE: usize = 8;
pub const BITS_PER_BLOCK: u32 = 8192;
pub const DIRENT_INO_SIZE: usize = 2;

/// Bitmap blocks that a mounted file system keeps track of, of each kind.
pub fn super_block_slots() -> (r: usize)
    ensures
        r == 8,
{
    crate::fs::super_block::MINIX_I_MAP_SLOTS
}

/// An inode on disk.
#[derive(Debug, Clone, Copy)]
pub struct MinixInode {
    pub i_mode: u16,
    pub i_uid: u16,
    pub i_size: u32,
    pub i_time: u32,
    pub i_gid: u8,
    pub i_nlinks: u8,
    pub i_zone: [u16; 9],
}

impl MinixInode {
    pub fn zeroed() -> (r: Self)
        ensures
            r.i_mode == 0,
            r.i_uid == 0,
            r.i_size == 0,
            r.i_time == 0,
            r.i_gid == 0,
            r.i_nlinks == 0,
            r.i_zone@ == Seq::new(9, |k: int| 0u16),
    {
        let r = MinixInode {
            i_mode: 0,
            i_uid: 0,
            i_size: 0,
            i_time: 0,
            i_gid: 0,
            i_nlinks: 0,
            i_zone: [0u16;9],
        };
        assert(r.i_zone@ =~= Seq::new(9, |k: int| 0u16));
        r
    }
}

/// A super block on disk.
#[derive(Debug, Clone, Copy, PartialEq, Eq, Structural)]
pub struct MinixSuperBlock {
    pub s_ninodes: u16,
    pub s_nzones: u16,
    pub s_imap_blocks: u16,
    pub s_zmap_blocks: u16,
    pub s_firstdatazone: u16,
    pub s_log_zone_size: u16,
    pub s_max_size: u32,
    pub s_magic: u16,
    pub s_state: u16,
}

impl MinixSuperBlock {
    pub fn zeroed() -> (r: Self)
        ensures
            r == (MinixSuperBlock {
                s_ninodes: 0,
                s_nzones: 0,
                s_imap_blocks: 0,
                s_zmap_blocks: 0,
                s_firstdatazone: 0,
                s_log_zone_size: 0,
                s_max_size: 0,
                s_magic: 0,
                s_state: 0,
            }),
    {
        MinixSuperBlock {
            s_ninodes: 0,
            s_nzones: 0,
            s_imap_blocks: 0,
            s_zmap_blocks: 0,
            s_firstdatazone: 0,
            s_log_zone_size: 0,
            s_max_size: 0,
            s_magic: 0,
            s_state: 0,
        }
    }
}

} // verus!
