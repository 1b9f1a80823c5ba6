//! Block group descriptors, and where an inode lies.
//!
//! A descriptor takes 32 bytes, or 64 on a file system with 64-bit block
//! numbers; the second half then holds the high parts of the numbers.

use crate::bytes::{get_le16, get_le32, join32, join64, le16, le32};
use vstd::prelude::*;

verus! {

pub const EXT2_MIN_DESC_SIZE: usize = 32;
pub const EXT4_MIN_DESC_SIZE_64BIT: usize = 64;

/// A block group descriptor, its numbers put together from their halves.
#[derive(Debug, Clone, Copy, Default)]
pub struct Ext4GroupDesc {
    pub block_bitmap: u64,
    pub inode_bitmap: u64,
    pub inode_table: u64,
    pub free_blocks_count: u32,
    pub free_inodes_count: u32,
    pub used_dirs_count: u32,
    pub flags: u16,
    pub itable_unused: u32,
    pub checksum: u16,
}

pub const EXT4_BG_INODE_UNINIT: u16 = 0x0001;
pub const EXT4_BG_BLOCK_UNINIT: u16 = 0x0002;
pub const EXT4_BG_INODE_ZEROED: u16 = 0x0004;

/// The size that a descriptor size stands for: zero stands for 32.
pub open spec fn desc_len(desc_size: int) -> int {
    if desc_size == 0 {
        32
    } else {
        desc_size
    }
}

/// The descriptor that the bytes `d` hold; `wide` where they hold the high
/// parts too.
pub open spec fn group_desc_of(d: Seq<u8>, wide: bool) -> Ext4GroupDesc {
    let hi32 = |o: int| if wide { le32(d, o) as int } else { 0 };
    let hi16 = |o: int| if wide { le16(d, o) as int } else { 0 };
    Ext4GroupDesc {
        block_bitmap: (hi32(32) * 0x1_0000_0000 + le32(d, 0)) as u64,
        inode_bitmap: (hi32(36) * 0x1_0000_0000 + le32(d, 4)) as u64,
        inode_table: (hi32(40) * 0x1_0000_0000 + le32(d, 8)) as u64,
        free_blocks_count: (hi16(44) * 0x1_0000 + le16(d, 12)) as u32,
        free_inodes_count: (hi16(46) * 0x1_0000 + le16(d, 14)) as u32,
        used_dirs_count: (hi16(48) * 0x1_0000 + le16(d, 16)) as u32,
        flags: le16(d, 18),
        itable_unused: (hi16(50) * 0x1_0000 + le16(d, 28)) as u32,
        checksum: le16(d, 30),
    }
}

impl Ext4GroupDesc {
    /// Reads a descriptor of `desc_size` bytes (zero stands for 32). There is
    /// none in fewer bytes than that, nor in fewer than 32.
    pub fn from_bytes(data: &[u8], desc_size: usize) -> (r: Option<Self>)
        ensures
            r == (if data@.len() < desc_len(desc_size as int) || desc_len(desc_size as int) < 32 {
                None
            } else {
                Some(group_desc_of(data@, desc_len(desc_size as int) >= 64))
            }),
    {
        let size: usize = if desc_size == 0 {
            EXT2_MIN_DESC_SIZE
        } else {
            desc_size
        };
        if data.len() < size || size < EXT2_MIN_DESC_SIZE {
            return None;
        }
        let mut g = Ext4GroupDesc {
            block_bitmap: get_le32(data, 0) as u64,
            inode_bitmap: get_le32(data, 4) as u64,
            inode_table: get_le32(data, 8) as u64,
            free_blocks_count: get_le16(data, 12) as u32,
            free_inodes_count: get_le16(data, 14) as u32,
            used_dirs_count: get_le16(data, 16) as u32,
            flags: get_le16(data, 18),
            itable_unused: get_le16(data, 28) as u32,
            checksum: get_le16(data, 30),
        };
        if size >= EXT4_MIN_DESC_SIZE_64BIT {
            g.block_bitmap = join64(get_le32(data, 32), get_le32(data, 0));
            g.inode_bitmap = join64(get_le32(data, 36), get_le32(data, 4));
            g.inode_table = join64(get_le32(data, 40), get_le32(data, 8));
            g.free_blocks_count = join32(get_le16(data, 44), get_le16(data, 12));
            g.free_inodes_count = join32(get_le16(data, 46), get_le16(data, 14));
            g.used_dirs_count = join32(get_le16(data, 48), get_le16(data, 16));
            g.itable_unused = join32(get_le16(data, 50), get_le16(data, 28));
        }
        Some(g)
    }

    pub fn inode_table_uninit(&self) -> (r: bool)
        ensures
            r == (self.flags & EXT4_BG_INODE_UNINIT != 0),
    {
        self.flags & EXT4_BG_INODE_UNINIT != 0
    }

    pub fn block_bitmap_uninit(&self) -> (r: bool)
        ensures
            r == (self.flags & EXT4_BG_BLOCK_UNINIT != 0),
    {
        self.flags & EXT4_BG_BLOCK_UNINIT != 0
    }
}

/// The group of an inode, and its place in the group. Inode numbers start at
/// one.
pub fn ino_to_group(ino: u32, inodes_per_group: u32) -> (r: Option<(u32, u32)>)
    ensures
        r == (if ino == 0 || inodes_per_group == 0 {
            None
        } else {
            Some(
                (
                    ((ino - 1) / (inodes_per_group as int)) as u32,
                    ((ino - 1) % (inodes_per_group as int)) as u32,
                ),
            )
        }),
{
    if ino == 0 || inodes_per_group == 0 {
        return None;
    }
    let idx: u32 = ino - 1;
    Some((idx / inodes_per_group, idx % inodes_per_group))
}

/// Group and place give the inode number back, and the place lies in the group.
pub proof fn lemma_ino_to_group(ino: int, per: int)
    requires
        ino >= 1,
        per >= 1,
    ensures
        (ino - 1) / per * per + (ino - 1) % per + 1 == ino,
        0 <= (ino - 1) % per < per,
{
    vstd::arithmetic::div_mod::lemma_fundamental_div_mod(ino - 1, per);
    assert(per * ((ino - 1) / per) == (ino - 1) / per * per) by (nonlinear_arith);
}

/// How many bytes into its group's inode table an inode starts.
pub open spec fn inode_byte_offset(ino: int, inodes_per_group: int, inode_size: int) -> int {
    (ino - 1) % inodes_per_group * inode_size
}

/// The block of an inode, and where in the block it starts.
pub fn ino_to_disk(
    ino: u32,
    inodes_per_group: u32,
    inode_size: u32,
    block_size: u32,
    inode_table: u64,
) -> (r: Option<(u64, u32)>)
    requires
        ino != 0 && inodes_per_group != 0 && inode_size != 0 && block_size != 0 ==> inode_table
            + inode_byte_offset(ino as int, inodes_per_group as int, inode_size as int) / (
        block_size as int) <= u64::MAX,
    ensures
        r == (if ino == 0 || inodes_per_group == 0 || inode_size == 0 || block_size == 0 {
            None
        } else {
            let off = inode_byte_offset(ino as int, inodes_per_group as int, inode_size as int);
            Some(((inode_table + off / (block_size as int)) as u64, (off % (block_size as int)) as u32))
        }),
{
    if inode_size == 0 || block_size == 0 {
        return None;
    }
    match ino_to_group(ino, inodes_per_group) {
        None => None,
        Some((group, index)) => {
            assert(index as u64 * inode_size as u64 <= u32::MAX * u32::MAX) by (nonlinear_arith)
                requires
                    index <= u32::MAX,
                    inode_size <= u32::MAX,
            ;
            let byte_off: u64 = index as u64 * inode_size as u64;
            Some((inode_table + byte_off / block_size as u64, (byte_off % block_size as u64) as u32))
        },
    }
}

} // verus!
