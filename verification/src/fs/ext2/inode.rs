//! The inode on disk.

pub mod mode;

use super::dir::{lemma_mask4, round_up4};
use crate::bytes::{get_le16, get_le32, le16, le32, take12, words12, words_at};
use vstd::prelude::*;

verus! {

/// Direct block pointers in an inode.
pub const EXT2_NDIR_BLOCKS: usize = 12;

/// Block pointers in an indirect block.
pub const EXT2_ADDR_PER_BLOCK: usize = 256;

/// An inode of the second extended file system.
#[derive(Debug, Clone, Copy)]
pub struct Ext2Inode {
    pub i_mode: u16,
    pub i_uid: u16,
    pub i_size: u32,
    pub i_atime: u32,
    pub i_ctime: u32,
    pub i_mtime: u32,
    pub i_dtime: u32,
    pub i_gid: u16,
    pub i_links_count: u16,
    pub i_blocks: u32,
    pub i_flags: u32,
    pub i_osd1: u32,
    pub i_block: [u32; 12],
    pub i_block_1ind: u32,
    pub i_block_2ind: u32,
    pub i_block_3ind: u32,
    pub i_generation: u32,
    pub i_file_acl: u32,
    pub i_dir_acl: u32,
    pub i_fragment_address: u32,
    pub i_osd2: [u8; 12],
}

impl Ext2Inode {
    /// This inode is what the bytes `d` hold.
    pub open spec fn parsed_from(self, d: Seq<u8>) -> bool {
        &&& self.i_mode == le16(d, 0)
        &&& self.i_uid == le16(d, 2)
        &&& self.i_size == le32(d, 4)
        &&& self.i_atime == le32(d, 8)
        &&& self.i_ctime == le32(d, 12)
        &&& self.i_mtime == le32(d, 16)
        &&& self.i_dtime == le32(d, 20)
        &&& self.i_gid == le16(d, 24)
        &&& self.i_links_count == le16(d, 26)
        &&& self.i_blocks == le32(d, 28)
        &&& self.i_flags == le32(d, 32)
        &&& self.i_osd1 == le32(d, 36)
        &&& words_at(self.i_block@, d, 40)
        &&& self.i_block_1ind == le32(d, 88)
        &&& self.i_block_2ind == le32(d, 92)
        &&& self.i_block_3ind == le32(d, 96)
        &&& self.i_generation == le32(d, 100)
        &&& self.i_file_acl == le32(d, 104)
        &&& self.i_dir_acl == le32(d, 108)
        &&& self.i_fragment_address == le32(d, 112)
        &&& self.i_osd2@ == d.subrange(116, 128)
    }

    /// Reads an inode from bytes; `inode_size` is the size of an inode on disk.
    pub fn from_bytes(data: &[u8], inode_size: u16) -> (r: Self)
        requires
            data@.len() >= inode_size,
            data@.len() >= 128,
        ensures
            r.parsed_from(data@),
    {
        Self {
            i_mode: get_le16(data, 0),
            i_uid: get_le16(data, 2),
            i_size: get_le32(data, 4),
            i_atime: get_le32(data, 8),
            i_ctime: get_le32(data, 12),
            i_mtime: get_le32(data, 16),
            i_dtime: get_le32(data, 20),
            i_gid: get_le16(data, 24),
            i_links_count: get_le16(data, 26),
            i_blocks: get_le32(data, 28),
            i_flags: get_le32(data, 32),
            i_osd1: get_le32(data, 36),
            i_block: words12(data, 40),
            i_block_1ind: get_le32(data, 88),
            i_block_2ind: get_le32(data, 92),
            i_block_3ind: get_le32(data, 96),
            i_generation: get_le32(data, 100),
            i_file_acl: get_le32(data, 104),
            i_dir_acl: get_le32(data, 108),
            i_fragment_address: get_le32(data, 112),
            i_osd2: take12(data, 116),
        }
    }

    pub fn is_dir(&self) -> (r: bool)
        ensures
            r == (mode::type_bits(self.i_mode) == mode::DIRECTORY),
    {
        mode::is_dir(self.i_mode)
    }

    pub fn is_reg(&self) -> (r: bool)
        ensures
            r == (mode::type_bits(self.i_mode) == mode::REGULAR),
    {
        mode::is_reg(self.i_mode)
    }
}

/// The head of a directory record; the name follows it on disk.
#[derive(Debug, Clone, Copy)]
pub struct Ext2DirEntry {
    pub inode: u32,
    pub rec_len: u16,
    pub name_len: u16,
}

impl Ext2DirEntry {
    /// The size of the head.
    pub const MIN_SIZE: usize = 8;

    /// The room that a record with a name of `name_len` bytes takes.
    pub fn rec_len(name_len: u16) -> (r: u16)
        requires
            name_len <= 65524,
        ensures
            r == round_up4(8 + name_len),
    {
        let raw: u16 = 8 + name_len;
        proof {
            lemma_mask4((raw + 3) as u16);
        }
        (raw + 3) & !3u16
    }
}

/// An inode in memory.
#[derive(Debug)]
pub struct Ext2InodeInfo {
    pub raw_inode: Ext2Inode,
    pub i_ino: u32,
    pub dirty: bool,
}

impl Ext2InodeInfo {
    /// A clean inode with number `ino`.
    pub fn new(ino: u32, inode: Ext2Inode) -> (r: Self)
        ensures
            r.raw_inode == inode,
            r.i_ino == ino,
            !r.dirty,
    {
        Self { raw_inode: inode, i_ino: ino, dirty: false }
    }
}

} // verus!
