//! The super block and the block group descriptor on disk.

pub mod errors;
pub mod feature_compat;
pub mod feature_incompat;
pub mod feature_ro_compat;
pub mod journal_ops;
pub mod revision;
pub mod state;

use crate::bytes::{
    get_le16, get_le32, le16, le32, take16, take64, words190, words3, words4, words_at,
};
use vstd::arithmetic::power2::pow2;
use vstd::prelude::*;

verus! {

pub const EXT2_SUPER_MAGIC: u16 = 0xEF53;

/// How many groups of `per_group` blocks it takes to hold `blocks` blocks.
pub open spec fn groups_for(blocks: int, per_group: int) -> int {
    (blocks + per_group - 1) / per_group
}

/// A quotient, and one more where something is left over, is the quotient
/// rounded up.
pub proof fn lemma_groups(blocks: u32, per: u32)
    requires
        per > 0,
    ensures
        blocks % per == 0 ==> groups_for(blocks as int, per as int) == blocks / per,
        blocks % per != 0 ==> groups_for(blocks as int, per as int) == blocks / per + 1,
        blocks % per != 0 ==> blocks / per < u32::MAX,
{
    let b = blocks as int;
    let p = per as int;
    let q = b / p;
    let m = b % p;
    assert(b == p * q + m && 0 <= m < p) by (nonlinear_arith)
        requires
            p > 0,
            q == b / p,
            m == b % p,
    ;
    assert(m == 0 ==> (b + p - 1) / p == q) by (nonlinear_arith)
        requires
            b == p * q + m,
            p > 0,
    ;
    assert(m != 0 ==> (b + p - 1) / p == q + 1) by (nonlinear_arith)
        requires
            b == p * q + m,
            0 <= m < p,
    ;
    assert(m != 0 ==> q < b) by (nonlinear_arith)
        requires
            b == p * q + m,
            0 <= m < p,
            b >= 0,
            q >= 0,
    ;
}

/// Shifting 1024 left by `k` bits doubles it `k` times.
pub proof fn lemma_block_size(k: u32)
    requires
        k <= 21,
    ensures
        1024usize << k == 1024 * pow2(k as nat),
{
    vstd::arithmetic::power2::lemma2_to64();
    if k < 21 {
        vstd::arithmetic::power2::lemma_pow2_strictly_increases(k as nat, 21);
    }
    vstd::bits::lemma_usize_shl_is_mul(1024usize, k as usize);
}

/// A super block of the second extended file system.
#[derive(Debug, Clone, Copy)]
pub struct Ext2SuperBlock {
    pub s_inodes_count: u32,
    pub s_blocks_count: u32,
    pub s_r_blocks_count: u32,
    pub s_free_blocks_count: u32,
    pub s_free_inodes_count: u32,
    pub s_first_data_block: u32,
    pub s_log_block_size: u32,
    pub s_log_frag_size: u32,
    pub s_blocks_per_group: u32,
    pub s_fragments_per_group: u32,
    pub s_inodes_per_group: u32,
    pub s_mtime: u32,
    pub s_wtime: u32,
    pub s_mnt_count: u16,
    pub s_max_mnt_count: u16,
    pub s_magic: u16,
    pub s_state: u16,
    pub s_errors: u16,
    pub s_minor_rev_level: u16,
    pub s_lastcheck: u32,
    pub s_checkinterval: u32,
    pub s_creator_os: u32,
    pub s_rev_level: u32,
    pub s_def_resuid: u16,
    pub s_def_resgid: u16,
    pub s_first_ino: u32,
    pub s_inode_size: u16,
    pub s_block_group_nr: u16,
    pub s_feature_compat: u32,
    pub s_feature_incompat: u32,
    pub s_feature_ro_compat: u32,
    pub s_uuid: [u8; 16],
    pub s_volume_name: [u8; 16],
    pub s_last_mounted: [u8; 64],
    pub s_algo_bitmap: u32,
    pub s_prealloc_blocks: u8,
    pub s_prealloc_dir_blocks: u8,
    pub s_padding1: u16,
    pub s_journal_uuid: [u8; 16],
    pub s_journal_inum: u32,
    pub s_journal_dev: u32,
    pub s_last_orphan: u32,
    pub s_hash_seed: [u32; 4],
    pub s_def_hash_version: u8,
    pub s_reserved_char_pad: u8,
    pub s_reserved_word_pad: u16,
    pub s_default_mount_opts: u32,
    pub s_first_meta_bg: u32,
    pub s_reserved: [u32; 190],
}

impl Ext2SuperBlock {
    /// This super block is what the bytes `d` hold.
    pub open spec fn parsed_from(self, d: Seq<u8>) -> bool {
        &&& self.s_inodes_count == le32(d, 0)
        &&& self.s_blocks_count == le32(d, 4)
        &&& self.s_r_blocks_count == le32(d, 8)
        &&& self.s_free_blocks_count == le32(d, 12)
        &&& self.s_free_inodes_count == le32(d, 16)
        &&& self.s_first_data_block == le32(d, 20)
        &&& self.s_log_block_size == le32(d, 24)
        &&& self.s_log_frag_size == le32(d, 28)
        &&& self.s_blocks_per_group == le32(d, 32)
        &&& self.s_fragments_per_group == le32(d, 36)
        &&& self.s_inodes_per_group == le32(d, 40)
        &&& self.s_mtime == le32(d, 44)
        &&& self.s_wtime == le32(d, 48)
        &&& self.s_mnt_count == le16(d, 52)
        &&& self.s_max_mnt_count == le16(d, 54)
        &&& self.s_magic == le16(d, 56)
        &&& self.s_state == le16(d, 58)
        &&& self.s_errors == le16(d, 60)
        &&& self.s_minor_rev_level == le16(d, 62)
        &&& self.s_lastcheck == le32(d, 64)
        &&& self.s_checkinterval == le32(d, 68)
        &&& self.s_creator_os == le32(d, 72)
        &&& self.s_rev_level == le32(d, 76)
        &&& self.s_def_resuid == le16(d, 80)
        &&& self.s_def_resgid == le16(d, 82)
        &&& self.s_first_ino == le32(d, 84)
        &&& self.s_inode_size == le16(d, 88)
        &&& self.s_block_group_nr == le16(d, 90)
        &&& self.s_feature_compat == le32(d, 92)
        &&& self.s_feature_incompat == le32(d, 96)
        &&& self.s_feature_ro_compat == le32(d, 100)
        &&& self.s_uuid@ == d.subrange(104, 120)
        &&& self.s_volume_name@ == d.subrange(120, 136)
        &&& self.s_last_mounted@ == d.subrange(136, 200)
        &&& self.s_algo_bitmap == le32(d, 200)
        &&& self.s_prealloc_blocks == d[204]
        &&& self.s_prealloc_dir_blocks == d[205]
        &&& self.s_padding1 == le16(d, 206)
        &&& self.s_journal_uuid@ == d.subrange(208, 224)
        &&& self.s_journal_inum == le32(d, 224)
        &&& self.s_journal_dev == le32(d, 228)
        &&& self.s_last_orphan == le32(d, 232)
        &&& words_at(self.s_hash_seed@, d, 236)
        &&& self.s_def_hash_version == d[252]
        &&& self.s_reserved_char_pad == d[253]
        &&& self.s_reserved_word_pad == le16(d, 254)
        &&& self.s_default_mount_opts == le32(d, 256)
        &&& self.s_first_meta_bg == le32(d, 260)
        &&& words_at(self.s_reserved@, d, 264)
    }

    /// Reads a super block from its 1024 bytes.
    pub fn from_bytes(data: &[u8; 1024]) -> (r: Self)
        ensures
            r.parsed_from(data@),
    {
        Self {
            s_inodes_count: get_le32(data, 0),
            s_blocks_count: get_le32(data, 4),
            s_r_blocks_count: get_le32(data, 8),
            s_free_blocks_count: get_le32(data, 12),
            s_free_inodes_count: get_le32(data, 16),
            s_first_data_block: get_le32(data, 20),
            s_log_block_size: get_le32(data, 24),
            s_log_frag_size: get_le32(data, 28),
            s_blocks_per_group: get_le32(data, 32),
            s_fragments_per_group: get_le32(data, 36),
            s_inodes_per_group: get_le32(data, 40),
            s_mtime: get_le32(data, 44),
            s_wtime: get_le32(data, 48),
            s_mnt_count: get_le16(data, 52),
            s_max_mnt_count: get_le16(data, 54),
            s_magic: get_le16(data, 56),
            s_state: get_le16(data, 58),
            s_errors: get_le16(data, 60),
            s_minor_rev_level: get_le16(data, 62),
            s_lastcheck: get_le32(data, 64),
            s_checkinterval: get_le32(data, 68),
            s_creator_os: get_le32(data, 72),
            s_rev_level: get_le32(data, 76),
            s_def_resuid: get_le16(data, 80),
            s_def_resgid: get_le16(data, 82),
            s_first_ino: get_le32(data, 84),
            s_inode_size: get_le16(data, 88),
            s_block_group_nr: get_le16(data, 90),
            s_feature_compat: get_le32(data, 92),
            s_feature_incompat: get_le32(data, 96),
            s_feature_ro_compat: get_le32(data, 100),
            s_uuid: take16(data, 104),
            s_volume_name: take16(data, 120),
            s_last_mounted: take64(data, 136),
            s_algo_bitmap: get_le32(data, 200),
            s_prealloc_blocks: data[204],
            s_prealloc_dir_blocks: data[205],
            s_padding1: get_le16(data, 206),
            s_journal_uuid: take16(data, 208),
            s_journal_inum: get_le32(data, 224),
            s_journal_dev: get_le32(data, 228),
            s_last_orphan: get_le32(data, 232),
            s_hash_seed: words4(data, 236),
            s_def_hash_version: data[252],
            s_reserved_char_pad: data[253],
            s_reserved_word_pad: get_le16(data, 254),
            s_default_mount_opts: get_le32(data, 256),
            s_first_meta_bg: get_le32(data, 260),
            s_reserved: words190(data, 264),
        }
    }

    pub fn is_valid(&self) -> (r: bool)
        ensures
            r == (self.s_magic == EXT2_SUPER_MAGIC),
    {
        self.s_magic == EXT2_SUPER_MAGIC
    }

    /// The block size in bytes.
    pub fn block_size(&self) -> (r: usize)
        requires
            self.s_log_block_size < usize::BITS,
        ensures
            r == 1024usize << self.s_log_block_size,
            self.s_log_block_size <= 21 ==> r == 1024 * pow2(self.s_log_block_size as nat),
    {
        proof {
            if self.s_log_block_size <= 21 {
                lemma_block_size(self.s_log_block_size);
            }
        }
        1024usize << self.s_log_block_size
    }

    /// The number of block groups, the last one perhaps not full.
    pub fn group_count(&self) -> (r: u32)
        requires
            self.s_blocks_per_group != 0,
        ensures
            r == groups_for(self.s_blocks_count as int, self.s_blocks_per_group as int),
    {
        let blocks: u32 = self.s_blocks_count;
        let blocks_per_group: u32 = self.s_blocks_per_group;
        proof {
            lemma_groups(blocks, blocks_per_group);
        }
        if blocks % blocks_per_group == 0 {
            blocks / blocks_per_group
        } else {
            blocks / blocks_per_group + 1
        }
    }

    /// The size of an inode on disk: 128 bytes, unless a dynamic revision gives
    /// another size.
    pub fn inode_size(&self) -> (r: u16)
        ensures
            r == (if self.s_rev_level >= revision::DYNAMIC && self.s_inode_size != 0 {
                self.s_inode_size
            } else {
                128
            }),
    {
        if self.s_rev_level >= revision::DYNAMIC {
            if self.s_inode_size == 0 {
                128
            } else {
                self.s_inode_size
            }
        } else {
            128
        }
    }

    pub fn has_journal(&self) -> (r: bool)
        ensures
            r == (self.s_feature_compat & feature_compat::HAS_JOURNAL != 0),
    {
        (self.s_feature_compat & feature_compat::HAS_JOURNAL) != 0
    }
}

/// A block group descriptor of 32 bytes.
#[derive(Debug, Clone, Copy)]
pub struct Ext2GroupDesc {
    pub bg_block_bitmap: u32,
    pub bg_inode_bitmap: u32,
    pub bg_inode_table: u32,
    pub bg_free_blocks_count: u16,
    pub bg_free_inodes_count: u16,
    pub bg_used_dirs_count: u16,
    pub bg_pad: u16,
    pub bg_reserved: [u32; 3],
}

impl Ext2GroupDesc {
    /// This descriptor is what the bytes `d` hold.
    pub open spec fn parsed_from(self, d: Seq<u8>) -> bool {
        &&& self.bg_block_bitmap == le32(d, 0)
        &&& self.bg_inode_bitmap == le32(d, 4)
        &&& self.bg_inode_table == le32(d, 8)
        &&& self.bg_free_blocks_count == le16(d, 12)
        &&& self.bg_free_inodes_count == le16(d, 14)
        &&& self.bg_used_dirs_count == le16(d, 16)
        &&& self.bg_pad == le16(d, 18)
        &&& words_at(self.bg_reserved@, d, 20)
    }

    /// Reads a descriptor from bytes.
    pub fn from_bytes(data: &[u8]) -> (r: Self)
        requires
            data@.len() >= 32,
        ensures
            r.parsed_from(data@),
    {
        Self {
            bg_block_bitmap: get_le32(data, 0),
            bg_inode_bitmap: get_le32(data, 4),
            bg_inode_table: get_le32(data, 8),
            bg_free_blocks_count: get_le16(data, 12),
            bg_free_inodes_count: get_le16(data, 14),
            bg_used_dirs_count: get_le16(data, 16),
            bg_pad: get_le16(data, 18),
            bg_reserved: words3(data, 20),
        }
    }
}

} // verus!
