//! The super block of the fourth extended file system. Its 1024 bytes are laid
//! out as those of the second.

use crate::bytes::{get_le16, get_le32, le16, le32, padded, take16, take64, words190, words4, words_at};
use crate::fs::ext2::super_block::{groups_for, lemma_block_size, lemma_groups, Ext2SuperBlock};
use vstd::arithmetic::power2::pow2;
use vstd::prelude::*;

verus! {

/// The three words of feature flags.
#[derive(Debug, Clone, Copy)]
pub struct Ext4FeatureFlags {
    pub ro_compat: u32,
    pub incompat: u32,
    pub compat: u32,
}

impl Ext4FeatureFlags {
    pub fn has_sparse_super2(&self) -> (r: bool)
        ensures
            r == (self.ro_compat & 0x0001 != 0),
    {
        (self.ro_compat & 0x0001) != 0
    }

    pub fn has_large_file(&self) -> (r: bool)
        ensures
            r == (self.ro_compat & 0x0002 != 0),
    {
        (self.ro_compat & 0x0002) != 0
    }

    pub fn has_huge_file(&self) -> (r: bool)
        ensures
            r == (self.ro_compat & 0x0008 != 0),
    {
        (self.ro_compat & 0x0008) != 0
    }

    pub fn has_flex_bg(&self) -> (r: bool)
        ensures
            r == (self.ro_compat & 0x0020 != 0),
    {
        (self.ro_compat & 0x0020) != 0
    }

    pub fn has_ea_inode(&self) -> (r: bool)
        ensures
            r == (self.ro_compat & 0x0040 != 0),
    {
        (self.ro_compat & 0x0040) != 0
    }

    pub fn has_dir_nlink(&self) -> (r: bool)
        ensures
            r == (self.ro_compat & 0x0100 != 0),
    {
        (self.ro_compat & 0x0100) != 0
    }

    pub fn has_extent(&self) -> (r: bool)
        ensures
            r == (self.incompat & 0x0040 != 0),
    {
        (self.incompat & 0x0040) != 0
    }

    pub fn has_64bit(&self) -> (r: bool)
        ensures
            r == (self.incompat & 0x0080 != 0),
    {
        (self.incompat & 0x0080) != 0
    }

    pub fn has_journal_checksum(&self) -> (r: bool)
        ensures
            r == (self.incompat & 0x0400 != 0),
    {
        (self.incompat & 0x0400) != 0
    }

    pub fn has_fast_commit(&self) -> (r: bool)
        ensures
            r == (self.incompat & 0x0800 != 0),
    {
        (self.incompat & 0x0800) != 0
    }
}

/// A super block of the fourth extended file system.
#[derive(Debug, Clone, Copy)]
pub struct Ext4SuperBlock {
    pub s_inodes_count: u32,
    pub s_blocks_count_lo: u32,
    pub s_r_blocks_count_lo: u32,
    pub s_free_blocks_count_lo: u32,
    pub s_free_inodes_count: u32,
    pub s_first_data_block: u32,
    pub s_log_block_size: u32,
    pub s_log_frag_size: u32,
    pub s_blocks_per_group: u32,
    pub s_fragments_per_group: u32,
    pub s_inodes_per_group: u32,
    pub s_mtime: u32,
    pub s_wtime: u32,
    pub s_mnt_count: u16,
    pub s_max_mnt_count: u16,
    pub s_magic: u16,
    pub s_state: u16,
    pub s_errors: u16,
    pub s_minor_rev_level: u16,
    pub s_lastcheck: u32,
    pub s_checkinterval: u32,
    pub s_creator_os: u32,
    pub s_rev_level: u32,
    pub s_def_resuid: u16,
    pub s_def_resgid: u16,
    pub s_first_ino: u32,
    pub s_inode_size: u16,
    pub s_block_group_nr: u16,
    pub s_feature_compat: u32,
    pub s_feature_incompat: u32,
    pub s_feature_ro_compat: u32,
    pub s_uuid: [u8; 16],
    pub s_volume_name: [u8; 16],
    pub s_last_mounted: [u8; 64],
    pub s_algo_bitmap: u32,
    pub s_prealloc_blocks: u8,
    pub s_prealloc_dir_blocks: u8,
    pub s_padding1: u16,
    pub s_journal_uuid: [u8; 16],
    pub s_journal_inum: u32,
    pub s_journal_dev: u32,
    pub s_last_orphan: u32,
    pub s_hash_seed: [u32; 4],
    pub s_def_hash_version: u8,
    pub s_reserved_char_pad: u8,
    pub s_reserved_word_pad: u16,
    pub s_default_mount_opts: u32,
    pub s_first_meta_bg: u32,
    pub s_reserved: [u32; 190],
    /// Lies outside the 1024 bytes; zero where they are all that was read.
    pub s_checksum: u32,
}

impl Ext4SuperBlock {
    /// This super block is what the bytes `d` hold.
    pub open spec fn parsed_from(self, d: Seq<u8>) -> bool {
        &&& self.s_inodes_count == le32(d, 0)
        &&& self.s_blocks_count_lo == le32(d, 4)
        &&& self.s_r_blocks_count_lo == le32(d, 8)
        &&& self.s_free_blocks_count_lo == le32(d, 12)
        &&& self.s_free_inodes_count == le32(d, 16)
        &&& self.s_first_data_block == le32(d, 20)
        &&& self.s_log_block_size == le32(d, 24)
        &&& self.s_log_frag_size == le32(d, 28)
        &&& self.s_blocks_per_group == le32(d, 32)
        &&& self.s_fragments_per_group == le32(d, 36)
        &&& self.s_inodes_per_group == le32(d, 40)
        &&& self.s_mtime == le32(d, 44)
        &&& self.s_wtime == le32(d, 48)
        &&& self.s_mnt_count == le16(d, 52)
        &&& self.s_max_mnt_count == le16(d, 54)
        &&& self.s_magic == le16(d, 56)
        &&& self.s_state == le16(d, 58)
        &&& self.s_errors == le16(d, 60)
        &&& self.s_minor_rev_level == le16(d, 62)
        &&& self.s_lastcheck == le32(d, 64)
        &&& self.s_checkinterval == le32(d, 68)
        &&& self.s_creator_os == le32(d, 72)
        &&& self.s_rev_level == le32(d, 76)
        &&& self.s_def_resuid == le16(d, 80)
        &&& self.s_def_resgid == le16(d, 82)
        &&& self.s_first_ino == le32(d, 84)
        &&& self.s_inode_size == le16(d, 88)
        &&& self.s_block_group_nr == le16(d, 90)
        &&& self.s_feature_compat == le32(d, 92)
        &&& self.s_feature_incompat == le32(d, 96)
        &&& self.s_feature_ro_compat == le32(d, 100)
        &&& self.s_uuid@ == d.subrange(104, 120)
        &&& self.s_volume_name@ == d.subrange(120, 136)
        &&& self.s_last_mounted@ == d.subrange(136, 200)
        &&& self.s_algo_bitmap == le32(d, 200)
        &&& self.s_prealloc_blocks == d[204]
        &&& self.s_prealloc_dir_blocks == d[205]
        &&& self.s_padding1 == le16(d, 206)
        &&& self.s_journal_uuid@ == d.subrange(208, 224)
        &&& self.s_journal_inum == le32(d, 224)
        &&& self.s_journal_dev == le32(d, 228)
        &&& self.s_last_orphan == le32(d, 232)
        &&& words_at(self.s_hash_seed@, d, 236)
        &&& self.s_def_hash_version == d[252]
        &&& self.s_reserved_char_pad == d[253]
        &&& self.s_reserved_word_pad == le16(d, 254)
        &&& self.s_default_mount_opts == le32(d, 256)
        &&& self.s_first_meta_bg == le32(d, 260)
        &&& words_at(self.s_reserved@, d, 264)
        &&& self.s_checksum == 0
    }

    /// Reads a super block from its 1024 bytes.
    pub fn from_bytes(data: &[u8; 1024]) -> (r: Self)
        ensures
            r.parsed_from(data@),
    {
        Self {
            s_inodes_count: get_le32(data, 0),
            s_blocks_count_lo: get_le32(data, 4),
            s_r_blocks_count_lo: get_le32(data, 8),
            s_free_blocks_count_lo: get_le32(data, 12),
            s_free_inodes_count: get_le32(data, 16),
            s_first_data_block: get_le32(data, 20),
            s_log_block_size: get_le32(data, 24),
            s_log_frag_size: get_le32(data, 28),
            s_blocks_per_group: get_le32(data, 32),
            s_fragments_per_group: get_le32(data, 36),
            s_inodes_per_group: get_le32(data, 40),
            s_mtime: get_le32(data, 44),
            s_wtime: get_le32(data, 48),
            s_mnt_count: get_le16(data, 52),
            s_max_mnt_count: get_le16(data, 54),
            s_magic: get_le16(data, 56),
            s_state: get_le16(data, 58),
            s_errors: get_le16(data, 60),
            s_minor_rev_level: get_le16(data, 62),
            s_lastcheck: get_le32(data, 64),
            s_checkinterval: get_le32(data, 68),
            s_creator_os: get_le32(data, 72),
            s_rev_level: get_le32(data, 76),
            s_def_resuid: get_le16(data, 80),
            s_def_resgid: get_le16(data, 82),
            s_first_ino: get_le32(data, 84),
            s_inode_size: get_le16(data, 88),
            s_block_group_nr: get_le16(data, 90),
            s_feature_compat: get_le32(data, 92),
            s_feature_incompat: get_le32(data, 96),
            s_feature_ro_compat: get_le32(data, 100),
            s_uuid: take16(data, 104),
            s_volume_name: take16(data, 120),
            s_last_mounted: take64(data, 136),
            s_algo_bitmap: get_le32(data, 200),
            s_prealloc_blocks: data[204],
            s_prealloc_dir_blocks: data[205],
            s_padding1: get_le16(data, 206),
            s_journal_uuid: take16(data, 208),
            s_journal_inum: get_le32(data, 224),
            s_journal_dev: get_le32(data, 228),
            s_last_orphan: get_le32(data, 232),
            s_hash_seed: words4(data, 236),
            s_def_hash_version: data[252],
            s_reserved_char_pad: data[253],
            s_reserved_word_pad: get_le16(data, 254),
            s_default_mount_opts: get_le32(data, 256),
            s_first_meta_bg: get_le32(data, 260),
            s_reserved: words190(data, 264),
            s_checksum: 0,
        }
    }

    /// Reads a super block from its first bytes; those that are not there count
    /// as zero.
    pub fn from_slice(data: &[u8]) -> (r: Self)
        ensures
            r.parsed_from(padded(data@, 1024)),
    {
        let mut buf: [u8; 1024] = [0u8;1024];
        for i in 0..1024usize
            invariant
                forall|j: int| 0 <= j < i ==> buf@[j] == padded(data@, 1024)[j],
                forall|j: int| i <= j < 1024 ==> buf@[j] == 0,
        {
            if i < data.len() {
                buf[i] = data[i];
            }
        }
        assert(buf@ =~= padded(data@, 1024));
        Self::from_bytes(&buf)
    }

    /// Takes every field over from a super block of the second extended file
    /// system.
    pub fn from_ext2(sb: &Ext2SuperBlock) -> (r: Self)
        ensures
            r.s_inodes_count == sb.s_inodes_count,
            r.s_blocks_count_lo == sb.s_blocks_count,
            r.s_r_blocks_count_lo == sb.s_r_blocks_count,
            r.s_free_blocks_count_lo == sb.s_free_blocks_count,
            r.s_free_inodes_count == sb.s_free_inodes_count,
            r.s_first_data_block == sb.s_first_data_block,
            r.s_log_block_size == sb.s_log_block_size,
            r.s_log_frag_size == sb.s_log_frag_size,
            r.s_blocks_per_group == sb.s_blocks_per_group,
            r.s_fragments_per_group == sb.s_fragments_per_group,
            r.s_inodes_per_group == sb.s_inodes_per_group,
            r.s_mtime == sb.s_mtime,
            r.s_wtime == sb.s_wtime,
            r.s_mnt_count == sb.s_mnt_count,
            r.s_max_mnt_count == sb.s_max_mnt_count,
            r.s_magic == sb.s_magic,
            r.s_state == sb.s_state,
            r.s_errors == sb.s_errors,
            r.s_minor_rev_level == sb.s_minor_rev_level,
            r.s_lastcheck == sb.s_lastcheck,
            r.s_checkinterval == sb.s_checkinterval,
            r.s_creator_os == sb.s_creator_os,
            r.s_rev_level == sb.s_rev_level,
            r.s_def_resuid == sb.s_def_resuid,
            r.s_def_resgid == sb.s_def_resgid,
            r.s_first_ino == sb.s_first_ino,
            r.s_inode_size == sb.s_inode_size,
            r.s_block_group_nr == sb.s_block_group_nr,
            r.s_feature_compat == sb.s_feature_compat,
            r.s_feature_incompat == sb.s_feature_incompat,
            r.s_feature_ro_compat == sb.s_feature_ro_compat,
            r.s_uuid == sb.s_uuid,
            r.s_volume_name == sb.s_volume_name,
            r.s_last_mounted == sb.s_last_mounted,
            r.s_algo_bitmap == sb.s_algo_bitmap,
            r.s_prealloc_blocks == sb.s_prealloc_blocks,
            r.s_prealloc_dir_blocks == sb.s_prealloc_dir_blocks,
            r.s_padding1 == sb.s_padding1,
            r.s_journal_uuid == sb.s_journal_uuid,
            r.s_journal_inum == sb.s_journal_inum,
            r.s_journal_dev == sb.s_journal_dev,
            r.s_last_orphan == sb.s_last_orphan,
            r.s_hash_seed == sb.s_hash_seed,
            r.s_def_hash_version == sb.s_def_hash_version,
            r.s_reserved_char_pad == sb.s_reserved_char_pad,
            r.s_reserved_word_pad == sb.s_reserved_word_pad,
            r.s_default_mount_opts == sb.s_default_mount_opts,
            r.s_first_meta_bg == sb.s_first_meta_bg,
            r.s_reserved == sb.s_reserved,
            r.s_checksum == 0,
    {
        Self {
            s_inodes_count: sb.s_inodes_count,
            s_blocks_count_lo: sb.s_blocks_count,
            s_r_blocks_count_lo: sb.s_r_blocks_count,
            s_free_blocks_count_lo: sb.s_free_blocks_count,
            s_free_inodes_count: sb.s_free_inodes_count,
            s_first_data_block: sb.s_first_data_block,
            s_log_block_size: sb.s_log_block_size,
            s_log_frag_size: sb.s_log_frag_size,
            s_blocks_per_group: sb.s_blocks_per_group,
            s_fragments_per_group: sb.s_fragments_per_group,
            s_inodes_per_group: sb.s_inodes_per_group,
            s_mtime: sb.s_mtime,
            s_wtime: sb.s_wtime,
            s_mnt_count: sb.s_mnt_count,
            s_max_mnt_count: sb.s_max_mnt_count,
            s_magic: sb.s_magic,
            s_state: sb.s_state,
            s_errors: sb.s_errors,
            s_minor_rev_level: sb.s_minor_rev_level,
            s_lastcheck: sb.s_lastcheck,
            s_checkinterval: sb.s_checkinterval,
            s_creator_os: sb.s_creator_os,
            s_rev_level: sb.s_rev_level,
            s_def_resuid: sb.s_def_resuid,
            s_def_resgid: sb.s_def_resgid,
            s_first_ino: sb.s_first_ino,
            s_inode_size: sb.s_inode_size,
            s_block_group_nr: sb.s_block_group_nr,
            s_feature_compat: sb.s_feature_compat,
            s_feature_incompat: sb.s_feature_incompat,
            s_feature_ro_compat: sb.s_feature_ro_compat,
            s_uuid: sb.s_uuid,
            s_volume_name: sb.s_volume_name,
            s_last_mounted: sb.s_last_mounted,
            s_algo_bitmap: sb.s_algo_bitmap,
            s_prealloc_blocks: sb.s_prealloc_blocks,
            s_prealloc_dir_blocks: sb.s_prealloc_dir_blocks,
            s_padding1: sb.s_padding1,
            s_journal_uuid: sb.s_journal_uuid,
            s_journal_inum: sb.s_journal_inum,
            s_journal_dev: sb.s_journal_dev,
            s_last_orphan: sb.s_last_orphan,
            s_hash_seed: sb.s_hash_seed,
            s_def_hash_version: sb.s_def_hash_version,
            s_reserved_char_pad: sb.s_reserved_char_pad,
            s_reserved_word_pad: sb.s_reserved_word_pad,
            s_default_mount_opts: sb.s_default_mount_opts,
            s_first_meta_bg: sb.s_first_meta_bg,
            s_reserved: sb.s_reserved,
            s_checksum: 0,
        }
    }

    pub fn is_valid(&self) -> (r: bool)
        ensures
            r == (self.s_magic == 0xEF53),
    {
        self.s_magic == 0xEF53
    }

    /// The block size in bytes.
    pub fn block_size(&self) -> (r: usize)
        requires
            self.s_log_block_size < usize::BITS,
        ensures
            r == 1024usize << self.s_log_block_size,
            self.s_log_block_size <= 21 ==> r == 1024 * pow2(self.s_log_block_size as nat),
    {
        proof {
            if self.s_log_block_size <= 21 {
                lemma_block_size(self.s_log_block_size);
            }
        }
        1024usize << self.s_log_block_size
    }

    pub fn blocks_count(&self) -> (r: u64)
        ensures
            r == self.s_blocks_count_lo,
    {
        self.s_blocks_count_lo as u64
    }

    pub fn free_blocks_count(&self) -> (r: u64)
        ensures
            r == self.s_free_blocks_count_lo,
    {
        self.s_free_blocks_count_lo as u64
    }

    /// The number of block groups, the last one perhaps not full.
    pub fn group_count(&self) -> (r: u32)
        requires
            self.s_blocks_per_group != 0,
        ensures
            r == groups_for(self.s_blocks_count_lo as int, self.s_blocks_per_group as int),
    {
        let blocks: u32 = self.s_blocks_count_lo;
        let blocks_per_group: u32 = self.s_blocks_per_group;
        proof {
            lemma_groups(blocks, blocks_per_group);
        }
        if blocks % blocks_per_group == 0 {
            blocks / blocks_per_group
        } else {
            blocks / blocks_per_group + 1
        }
    }

    /// The size of an inode on disk: 128 bytes, unless a dynamic revision gives
    /// another size.
    pub fn inode_size(&self) -> (r: u16)
        ensures
            r == (if self.s_rev_level >= 1 && self.s_inode_size != 0 {
                self.s_inode_size
            } else {
                128
            }),
    {
        if self.s_rev_level >= 1 {
            if self.s_inode_size == 0 {
                128
            } else {
                self.s_inode_size
            }
        } else {
            128
        }
    }

    /// The feature flags.
    pub fn features(&self) -> (r: Ext4FeatureFlags)
        ensures
            r == (Ext4FeatureFlags {
                ro_compat: self.s_feature_ro_compat,
                incompat: self.s_feature_incompat,
                compat: self.s_feature_compat,
            }),
    {
        Ext4FeatureFlags {
            compat: self.s_feature_compat,
            incompat: self.s_feature_incompat,
            ro_compat: self.s_feature_ro_compat,
        }
    }

    pub fn has_extent(&self) -> (r: bool)
        ensures
            r == (self.s_feature_incompat & 0x0040 != 0),
    {
        (self.s_feature_incompat & 0x0040) != 0
    }

    pub fn is_64bit(&self) -> (r: bool)
        ensures
            r == (self.s_feature_incompat & 0x0080 != 0),
    {
        (self.s_feature_incompat & 0x0080) != 0
    }

    pub fn has_journal(&self) -> (r: bool)
        ensures
            r == (self.s_feature_compat & 0x0004 != 0),
    {
        (self.s_feature_compat & 0x0004) != 0
    }

    pub fn has_large_file(&self) -> (r: bool)
        ensures
            r == (self.s_feature_ro_compat & 0x0002 != 0),
    {
        (self.s_feature_ro_compat & 0x0002) != 0
    }

    pub fn has_huge_file(&self) -> (r: bool)
        ensures
            r == (self.s_feature_ro_compat & 0x0008 != 0),
    {
        (self.s_feature_ro_compat & 0x0008) != 0
    }

    pub fn has_flex_bg(&self) -> (r: bool)
        ensures
            r == (self.s_feature_ro_compat & 0x0020 != 0),
    {
        (self.s_feature_ro_compat & 0x0020) != 0
    }

    /// Block groups in a flexible group, which is always one.
    pub fn flex_bg_size(&self) -> (r: u32)
        ensures
            r == 1,
    {
        if self.has_flex_bg() {
            assert(1u32 << 0u32 == 1) by (bit_vector);
            1u32 << (self.s_log_groups_per_flex() as u32)
        } else {
            1
        }
    }

    /// The logarithm of the groups in a flexible group.
    pub fn s_log_groups_per_flex(&self) -> (r: u8)
        ensures
            r == 0,
    {
        0
    }
}

/// A super block read as one of the second file system and taken over is the
/// super block read as one of the fourth.
pub proof fn lemma_from_ext2_agrees(e2: Ext2SuperBlock, e4: Ext4SuperBlock, d: Seq<u8>)
    requires
        e2.parsed_from(d),
        e4.parsed_from(d),
    ensures
        e4.s_inodes_count == e2.s_inodes_count,
        e4.s_blocks_count_lo == e2.s_blocks_count,
        e4.s_r_blocks_count_lo == e2.s_r_blocks_count,
        e4.s_free_blocks_count_lo == e2.s_free_blocks_count,
        e4.s_free_inodes_count == e2.s_free_inodes_count,
        e4.s_first_data_block == e2.s_first_data_block,
        e4.s_log_block_size == e2.s_log_block_size,
        e4.s_log_frag_size == e2.s_log_frag_size,
        e4.s_blocks_per_group == e2.s_blocks_per_group,
        e4.s_fragments_per_group == e2.s_fragments_per_group,
        e4.s_inodes_per_group == e2.s_inodes_per_group,
        e4.s_mtime == e2.s_mtime,
        e4.s_wtime == e2.s_wtime,
        e4.s_mnt_count == e2.s_mnt_count,
        e4.s_max_mnt_count == e2.s_max_mnt_count,
        e4.s_magic == e2.s_magic,
        e4.s_state == e2.s_state,
        e4.s_errors == e2.s_errors,
        e4.s_minor_rev_level == e2.s_minor_rev_level,
        e4.s_lastcheck == e2.s_lastcheck,
        e4.s_checkinterval == e2.s_checkinterval,
        e4.s_creator_os == e2.s_creator_os,
        e4.s_rev_level == e2.s_rev_level,
        e4.s_def_resuid == e2.s_def_resuid,
        e4.s_def_resgid == e2.s_def_resgid,
        e4.s_first_ino == e2.s_first_ino,
        e4.s_inode_size == e2.s_inode_size,
        e4.s_block_group_nr == e2.s_block_group_nr,
        e4.s_feature_compat == e2.s_feature_compat,
        e4.s_feature_incompat == e2.s_feature_incompat,
        e4.s_feature_ro_compat == e2.s_feature_ro_compat,
        e4.s_uuid@ == e2.s_uuid@,
        e4.s_volume_name@ == e2.s_volume_name@,
        e4.s_last_mounted@ == e2.s_last_mounted@,
        e4.s_algo_bitmap == e2.s_algo_bitmap,
        e4.s_prealloc_blocks == e2.s_prealloc_blocks,
        e4.s_prealloc_dir_blocks == e2.s_prealloc_dir_blocks,
        e4.s_padding1 == e2.s_padding1,
        e4.s_journal_uuid@ == e2.s_journal_uuid@,
        e4.s_journal_inum == e2.s_journal_inum,
        e4.s_journal_dev == e2.s_journal_dev,
        e4.s_last_orphan == e2.s_last_orphan,
        e4.s_hash_seed@ == e2.s_hash_seed@,
        e4.s_def_hash_version == e2.s_def_hash_version,
        e4.s_reserved_char_pad == e2.s_reserved_char_pad,
        e4.s_reserved_word_pad == e2.s_reserved_word_pad,
        e4.s_default_mount_opts == e2.s_default_mount_opts,
        e4.s_first_meta_bg == e2.s_first_meta_bg,
        e4.s_reserved@ == e2.s_reserved@,
{
    assert(e4.s_hash_seed@ =~= e2.s_hash_seed@);
    assert(e4.s_reserved@ =~= e2.s_reserved@);
}

} // verus!
