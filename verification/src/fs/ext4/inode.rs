//! The inode on disk. Its first 128 bytes are those of the second extended file
//! system; the fields behind them are there as far as the inode says.

pub mod mode;

use super::inode_flags::EXT4_EXTENTS_FL;
use crate::bytes::{
    get_le16, get_le16_or_zero, get_le32, get_le32_or_zero, join32, join64, le16, le32, take12, words12, words_at,
};
use crate::fs::ext2::inode::mode::type_bits;
use vstd::prelude::*;

verus! {

/// An inode of the fourth extended file system.
#[derive(Debug, Clone, Copy)]
pub struct Ext4Inode {
    pub i_mode: u16,
    pub i_uid: u16,
    pub i_size_lo: u32,
    pub i_atime: u32,
    pub i_ctime: u32,
    pub i_mtime: u32,
    pub i_dtime: u32,
    pub i_gid: u16,
    pub i_links_count: u16,
    pub i_blocks_lo: u32,
    pub i_flags: u32,
    pub i_osd1: u32,
    pub i_block: [u32; 12],
    pub i_block_indirect: u32,
    pub i_block_double_indirect: u32,
    pub i_block_triple_indirect: u32,
    pub i_generation: u32,
    pub i_file_acl: u32,
    pub i_size_high: u32,
    pub i_fragment_addr: u32,
    /// High parts: blocks, attribute block, owner, group, check sum.
    pub i_osd2: [u8; 12],
    /// How many bytes behind the first 128 this inode uses.
    pub i_extra_isize: u16,
    pub i_checksum_hi: u16,
    pub i_ctime_extra: u32,
    pub i_mtime_extra: u32,
    pub i_atime_extra: u32,
    pub i_crtime: u32,
    pub i_crtime_extra: u32,
    pub i_version_hi: u32,
    pub i_projid: u32,
}

/// How many bytes behind the first 128 the inode uses. In fewer than 256 bytes there
/// is an old inode, which uses none.
pub open spec fn extra_size(d: Seq<u8>) -> u16 {
    if d.len() >= 256 {
        le16(d, 128)
    } else {
        0
    }
}

/// A 16-bit field behind the first 128 bytes, which counts only where the
/// inode's extra size reaches its end.
pub open spec fn extra16(d: Seq<u8>, o: int) -> u16 {
    if o + 2 <= 128 + extra_size(d) {
        le16(d, o)
    } else {
        0
    }
}

/// A 32-bit field behind the first 128 bytes, which counts only where the
/// inode's extra size reaches its end.
pub open spec fn extra32(d: Seq<u8>, o: int) -> u32 {
    if o + 4 <= 128 + extra_size(d) {
        le32(d, o)
    } else {
        0
    }
}

impl Ext4Inode {
    /// The usual size of an inode on disk.
    pub const SIZE: usize = 256;

    /// The size of an old inode, and the fewest bytes that can be read.
    pub const MIN_SIZE: usize = 128;

    /// This inode is what the bytes `d` hold.
    pub open spec fn parsed_from(self, d: Seq<u8>) -> bool {
        &&& self.i_mode == le16(d, 0)
        &&& self.i_uid == le16(d, 2)
        &&& self.i_size_lo == le32(d, 4)
        &&& self.i_atime == le32(d, 8)
        &&& self.i_ctime == le32(d, 12)
        &&& self.i_mtime == le32(d, 16)
        &&& self.i_dtime == le32(d, 20)
        &&& self.i_gid == le16(d, 24)
        &&& self.i_links_count == le16(d, 26)
        &&& self.i_blocks_lo == le32(d, 28)
        &&& self.i_flags == le32(d, 32)
        &&& self.i_osd1 == le32(d, 36)
        &&& words_at(self.i_block@, d, 40)
        &&& self.i_block_indirect == le32(d, 88)
        &&& self.i_block_double_indirect == le32(d, 92)
        &&& self.i_block_triple_indirect == le32(d, 96)
        &&& self.i_generation == le32(d, 100)
        &&& self.i_file_acl == le32(d, 104)
        &&& self.i_size_high == le32(d, 108)
        &&& self.i_fragment_addr == le32(d, 112)
        &&& self.i_osd2@ == d.subrange(116, 128)
        &&& self.i_extra_isize == extra_size(d)
        &&& self.i_checksum_hi == extra16(d, 130)
        &&& self.i_ctime_extra == extra32(d, 132)
        &&& self.i_mtime_extra == extra32(d, 136)
        &&& self.i_atime_extra == extra32(d, 140)
        &&& self.i_crtime == extra32(d, 144)
        &&& self.i_crtime_extra == extra32(d, 148)
        &&& self.i_version_hi == extra32(d, 152)
        &&& self.i_projid == extra32(d, 156)
    }

    /// Reads an inode from bytes. There is none in fewer than 128 bytes; in fewer than
    /// 256 the fields behind the first 128 are zero, and so is one that the inode's
    /// extra size does not reach.
    pub fn from_bytes(data: &[u8]) -> (r: Option<Self>)
        ensures
            r is Some <==> data@.len() >= 128,
            r is Some ==> r->0.parsed_from(data@),
    {
        if data.len() < Self::MIN_SIZE {
            return None;
        }
        let mut inode = Ext4Inode {
            i_mode: get_le16(data, 0),
            i_uid: get_le16(data, 2),
            i_size_lo: get_le32(data, 4),
            i_atime: get_le32(data, 8),
            i_ctime: get_le32(data, 12),
            i_mtime: get_le32(data, 16),
            i_dtime: get_le32(data, 20),
            i_gid: get_le16(data, 24),
            i_links_count: get_le16(data, 26),
            i_blocks_lo: get_le32(data, 28),
            i_flags: get_le32(data, 32),
            i_osd1: get_le32(data, 36),
            i_block: words12(data, 40),
            i_block_indirect: get_le32(data, 88),
            i_block_double_indirect: get_le32(data, 92),
            i_block_triple_indirect: get_le32(data, 96),
            i_generation: get_le32(data, 100),
            i_file_acl: get_le32(data, 104),
            i_size_high: get_le32(data, 108),
            i_fragment_addr: get_le32(data, 112),
            i_osd2: take12(data, 116),
            i_extra_isize: get_le16_or_zero(data, 128),
            i_checksum_hi: get_le16_or_zero(data, 130),
            i_ctime_extra: get_le32_or_zero(data, 132),
            i_mtime_extra: get_le32_or_zero(data, 136),
            i_atime_extra: get_le32_or_zero(data, 140),
            i_crtime: get_le32_or_zero(data, 144),
            i_crtime_extra: get_le32_or_zero(data, 148),
            i_version_hi: get_le32_or_zero(data, 152),
            i_projid: get_le32_or_zero(data, 156),
        };
        if data.len() < Self::SIZE {
            inode.i_extra_isize = 0;
        }
        let covered: usize = 128 + inode.i_extra_isize as usize;
        if covered < 132 {
            inode.i_checksum_hi = 0;
        }
        if covered < 136 {
            inode.i_ctime_extra = 0;
        }
        if covered < 140 {
            inode.i_mtime_extra = 0;
        }
        if covered < 144 {
            inode.i_atime_extra = 0;
        }
        if covered < 148 {
            inode.i_crtime = 0;
        }
        if covered < 152 {
            inode.i_crtime_extra = 0;
        }
        if covered < 156 {
            inode.i_version_hi = 0;
        }
        if covered < 160 {
            inode.i_projid = 0;
        }
        Some(inode)
    }

    fn osd2_u16(&self, off: usize) -> (r: u16)
        requires
            off + 2 <= 12,
        ensures
            r == le16(self.i_osd2@, off as int),
    {
        get_le16(&self.i_osd2, off)
    }

    /// The size of the file. Only a regular file has a high half: elsewhere that
    /// field holds something else.
    pub open spec fn size_spec(&self) -> int {
        if type_bits(self.i_mode) == mode::S_IFREG {
            self.i_size_high * 0x1_0000_0000 + self.i_size_lo
        } else {
            self.i_size_lo as int
        }
    }

    pub fn i_size(&self) -> (r: u64)
        ensures
            r == self.size_spec(),
    {
        if self.is_reg() {
            join64(self.i_size_high, self.i_size_lo)
        } else {
            self.i_size_lo as u64
        }
    }

    /// The number of 512-byte sectors, of 48 bits.
    pub fn i_blocks(&self) -> (r: u64)
        ensures
            r == le16(self.i_osd2@, 0) * 0x1_0000_0000 + self.i_blocks_lo,
    {
        join64(self.osd2_u16(0) as u32, self.i_blocks_lo)
    }

    pub fn links_count(&self) -> (r: u32)
        ensures
            r == self.i_links_count,
    {
        self.i_links_count as u32
    }

    /// The owner, of 32 bits.
    pub fn uid(&self) -> (r: u32)
        ensures
            r == le16(self.i_osd2@, 4) * 0x1_0000 + self.i_uid,
    {
        join32(self.osd2_u16(4), self.i_uid)
    }

    /// The group, of 32 bits.
    pub fn gid(&self) -> (r: u32)
        ensures
            r == le16(self.i_osd2@, 6) * 0x1_0000 + self.i_gid,
    {
        join32(self.osd2_u16(6), self.i_gid)
    }

    /// The fifteen block pointers, in the order in which they lie on disk.
    pub open spec fn pointers(&self) -> Seq<u32> {
        self.i_block@ + seq![
            self.i_block_indirect,
            self.i_block_double_indirect,
            self.i_block_triple_indirect,
        ]
    }

    /// The 60 bytes of the block pointers as they lie on disk. An inode with
    /// extents keeps the root of its tree there.
    pub fn i_block_raw(&self) -> (r: [u8; 60])
        ensures
            words_at(self.pointers(), r@, 0),
    {
        let mut words: [u32; 15] = [0u32;15];
        for i in 0..12usize
            invariant
                forall|j: int| 0 <= j < i ==> words@[j] == self.i_block@[j],
        {
            words[i] = self.i_block[i];
        }
        words[12] = self.i_block_indirect;
        words[13] = self.i_block_double_indirect;
        words[14] = self.i_block_triple_indirect;
        assert(words@ =~= self.pointers());
        let mut out: [u8; 60] = [0u8;60];
        for i in 0..15usize
            invariant
                forall|j: int| 0 <= j < i ==> #[trigger] words@[j] == le32(out@, 4 * j),
        {
            let w: u32 = words[i];
            let ghost before = out@;
            out[4 * i] = (w % 256) as u8;
            out[4 * i + 1] = (w / 256 % 256) as u8;
            out[4 * i + 2] = (w / 65536 % 256) as u8;
            out[4 * i + 3] = (w / 16777216) as u8;
            assert(w == w % 256 + 256 * (w / 256 % 256) + 65536 * (w / 65536 % 256) + 16777216 * (w
                / 16777216));
            assert(forall|k: int| 0 <= k < 4 * i ==> out@[k] == before[k]);
            assert forall|j: int| 0 <= j < i + 1 implies #[trigger] words@[j] == le32(out@, 4 * j) by {
                if j < i {
                    assert(words@[j] == le32(before, 4 * j));
                }
            }
        }
        assert(forall|j: int| 0 <= j < 15 ==> #[trigger] self.pointers()[j] == words@[j]);
        out
    }

    pub fn atime(&self) -> (r: u32)
        ensures
            r == self.i_atime,
    {
        self.i_atime
    }

    pub fn mtime(&self) -> (r: u32)
        ensures
            r == self.i_mtime,
    {
        self.i_mtime
    }

    pub fn ctime(&self) -> (r: u32)
        ensures
            r == self.i_ctime,
    {
        self.i_ctime
    }

    pub fn is_dir(&self) -> (r: bool)
        ensures
            r == (type_bits(self.i_mode) == mode::S_IFDIR),
    {
        mode::is_dir(self.i_mode)
    }

    pub fn is_reg(&self) -> (r: bool)
        ensures
            r == (type_bits(self.i_mode) == mode::S_IFREG),
    {
        mode::is_reg(self.i_mode)
    }

    pub fn is_symlink(&self) -> (r: bool)
        ensures
            r == (type_bits(self.i_mode) == mode::S_IFLNK),
    {
        mode::is_lnk(self.i_mode)
    }

    /// Whether this is a symbolic link whose target lies in the 60 bytes of the
    /// block pointers: it has no blocks, and the target fits.
    pub fn is_fast_symlink(&self) -> (r: bool)
        ensures
            r == (type_bits(self.i_mode) == mode::S_IFLNK && le16(self.i_osd2@, 0) == 0
                && self.i_blocks_lo == 0 && self.i_size_lo <= 60),
    {
        self.is_symlink() && self.i_blocks() == 0 && self.i_size_lo <= 60
    }

    pub fn uses_extent(&self) -> (r: bool)
        ensures
            r == (self.i_flags & EXT4_EXTENTS_FL != 0),
    {
        (self.i_flags & EXT4_EXTENTS_FL) != 0
    }

    pub fn direct_blocks(&self) -> (r: usize)
        ensures
            r == 12,
    {
        12
    }

    /// Pointers in a page.
    pub fn indirect_blocks(&self) -> (r: usize)
        ensures
            r == 1024,
    {
        4096 / 4
    }

    pub fn double_indirect_blocks(&self) -> (r: usize)
        ensures
            r == 1024 * 1024,
    {
        let indirect: usize = self.indirect_blocks();
        indirect * indirect
    }

    pub fn triple_indirect_blocks(&self) -> (r: usize)
        ensures
            r == 1024 * 1024 * 1024,
    {
        let indirect: usize = self.indirect_blocks();
        indirect * indirect * indirect
    }
}

/// The raw block pointers of an inode are the bytes it was read from.
pub proof fn lemma_i_block_raw(ino: Ext4Inode, d: Seq<u8>, raw: Seq<u8>)
    requires
        d.len() >= 128,
        raw.len() == 60,
        ino.parsed_from(d),
        words_at(ino.pointers(), raw, 0),
    ensures
        raw == d.subrange(40, 100),
{
    let p = ino.pointers();
    assert forall|i: int| 0 <= i < 15 implies #[trigger] p[i] == le32(d, 40 + 4 * i) by {
        if i < 12 {
            assert(p[i] == ino.i_block@[i]);
        } else {
            assert(p[12] == ino.i_block_indirect);
            assert(p[13] == ino.i_block_double_indirect);
            assert(p[14] == ino.i_block_triple_indirect);
        }
    }
    assert forall|k: int| 0 <= k < 60 implies raw[k] == d[40 + k] by {
        let i = k / 4;
        assert(p[i] == le32(d, 40 + 4 * i) && p[i] == le32(raw, 0 + 4 * i));
        lemma_le32_inj(raw, 4 * i, d, 40 + 4 * i);
        assert(k == 4 * i || k == 4 * i + 1 || k == 4 * i + 2 || k == 4 * i + 3);
    }
    assert(raw =~= d.subrange(40, 100));
}

/// Equal words have equal bytes.
pub proof fn lemma_le32_inj(a: Seq<u8>, i: int, b: Seq<u8>, j: int)
    requires
        le32(a, i) == le32(b, j),
    ensures
        a[i] == b[j],
        a[i + 1] == b[j + 1],
        a[i + 2] == b[j + 2],
        a[i + 3] == b[j + 3],
{
    let x = a[i] + 256 * a[i + 1] + 65536 * a[i + 2] + 16777216 * a[i + 3];
    let y = b[j] + 256 * b[j + 1] + 65536 * b[j + 2] + 16777216 * b[j + 3];
    assert(x == y);
    assert(x % 256 == a[i] && y % 256 == b[j]);
}

} // verus!
