//! Making an empty file system.
//!
//! The root directory is inode 1. It has two entries, both of which lead to
//! itself, in the first block of the data area.

use crate::bits::{bitmap_bit, bitmap_turn_on, lemma_bitmap_on};
use crate::bytes::{
    le16, le32, lemma_with_le16, lemma_with_le32, put_le16, put_le32, with_le16, with_le32, zeroed,
    zeros,
};
use super::bitmap::zone_bit;
use super::dir::{entry_ino, sizes_ok};
use super::file::file_byte;
use super::inode_ops::{can_load, inode_block, inode_index, super_of, zones_at};
use super::mount::{accepted, super_status, SuperStatus};
use super::namei::{found, has_name, is_hit};
use super::tree::{layout_ok, marked, num, places, tree_ok};
use super::MinixSuperBlock;
use crate::fs::inode::NIL;
use crate::fs::mode;
use crate::fs::super_block::SuperBlock;
use crate::fs::{Blocks, Fs};
use vstd::prelude::*;

verus! {

/// Where the parts of a file system lie.
#[derive(Debug, Clone, Copy, PartialEq, Eq, Structural)]
pub struct Layout {
    pub nblocks: u32,
    pub ninodes: u16,
    pub imap_blocks: u16,
    pub zmap_blocks: u16,
    pub inode_blocks: u32,
    pub firstdatazone: u16,
}

/// The number of inodes, rounded up to full blocks of the inode table.
pub open spec fn rounded(ninodes: int) -> int {
    let n = (ninodes + 31) / 32 * 32;
    if n < 65535 {
        n
    } else {
        65535
    }
}

/// The layout for that many blocks and inodes. The inode bitmap has one bit more
/// than there are inodes, and the zone bitmap one for each block. Numbers that do not fit are cut to 16 bits.
pub open spec fn layout_for(nblocks: int, ninodes: int) -> Layout {
    let n = rounded(ninodes);
    let im = (n + 1 + 8191) / 8192;
    let zm = (nblocks + 8191) / 8192 % 65536;
    let ib = (n + 31) / 32;
    Layout {
        nblocks: nblocks as u32,
        ninodes: n as u16,
        imap_blocks: im as u16,
        zmap_blocks: zm as u16,
        inode_blocks: ib as u32,
        firstdatazone: ((2 + im + zm + ib) % 65536) as u16,
    }
}

impl Layout {
    /// The first block of the zone bitmap.
    pub open spec fn zmap_start(self) -> int {
        2 + self.imap_blocks
    }

    /// The first block of the inode table.
    pub open spec fn itable_start(self) -> int {
        2 + self.imap_blocks + self.zmap_blocks
    }
}

/// The super block.
pub open spec fn super_image(l: Layout) -> Seq<u8> {
    let d0 = with_le16(zeros(1024), 0, l.ninodes);
    let d1 = with_le16(d0, 2, (l.nblocks % 65536) as u16);
    let d2 = with_le16(d1, 4, l.imap_blocks);
    let d3 = with_le16(d2, 6, l.zmap_blocks);
    let d4 = with_le16(d3, 8, l.firstdatazone);
    let d5 = with_le16(d4, 10, 0);
    let d6 = with_le32(d5, 12, 268966912);
    let d7 = with_le16(d6, 16, 0x137F);
    with_le16(d7, 18, 1)
}

/// The block of the inode table with the root directory in it.
pub open spec fn root_inode_image(l: Layout) -> Seq<u8> {
    let d0 = with_le16(zeros(1024), 0, mode::S_IFDIR | 0o755);
    let d1 = with_le16(d0, 2, 0);
    let d2 = with_le32(d1, 4, 32);
    let d3 = with_le32(d2, 8, 0);
    with_le16(d3.update(12, 0u8).update(13, 2u8), 14, l.firstdatazone)
}

/// The block of the root directory.
pub open spec fn root_dir_image() -> Seq<u8> {
    let d = with_le16(zeros(1024), 0, 1).update(2, 46u8);
    with_le16(d, 16, 1).update(18, 46u8).update(19, 46u8)
}

/// A bitmap block in which those bits are set that stand for what there is not,
/// and in the first block the two lowest.
pub open spec fn is_map(d: Seq<u8>, i: int, limit: int) -> bool {
    &&& d.len() == 1024
    &&& forall|j: int|
        0 <= j < 8192 ==> #[trigger] bitmap_bit(d, j) == ((i == 0 && j < 2) || 8192 * i + j
            >= limit)
}

/// Block `b` of an empty file system, which was `d0` before, is `d`. Where parts
/// overlap, the last one that is written stands.
pub open spec fn is_image(l: Layout, b: int, d0: Seq<u8>, d: Seq<u8>) -> bool {
    if l.firstdatazone < b < l.nblocks {
        d == zeros(1024)
    } else if b == l.firstdatazone {
        d == root_dir_image()
    } else if b == l.itable_start() {
        d == root_inode_image(l)
    } else if l.itable_start() <= b < l.itable_start() + l.inode_blocks {
        d == zeros(1024)
    } else if l.zmap_start() <= b < l.itable_start() {
        is_map(d, b - l.zmap_start(), l.nblocks - l.firstdatazone + 1)
    } else if 2 <= b < l.zmap_start() {
        is_map(d, b - 2, l.ninodes + 1)
    } else if b == 1 {
        d == super_image(l)
    } else if b == 0 {
        d == zeros(1024)
    } else {
        d == d0
    }
}

/// The blocks `c` are `c0` with an empty file system on device `dev`.
pub open spec fn is_made(c0: Blocks, c: Blocks, dev: u16, l: Layout) -> bool {
    &&& c.dom() == c0.dom()
    &&& forall|k: (u16, u32)| #[trigger] c0.dom().contains(k) && k.0 != dev ==> c[k] == c0[k]
    &&& forall|b: u32|
        #[trigger] c0.dom().contains((dev, b)) ==> is_image(l, b as int, c0[(dev, b)], c[(dev, b)])
}

/// A bitmap block for what there is less than `limit` of, all blocks of it before
/// this one counted.
fn map_block(i: u32, limit: u32) -> (d: Vec<u8>)
    requires
        i < 65536,
    ensures
        is_map(d@, i as int, limit as int),
{
    let mut d: Vec<u8> = zeroed(1024);
    proof {
        assert forall|j: int| 0 <= j < 8192 implies !#[trigger] bitmap_bit(d@, j) by {
            crate::bits::lemma_zero_bits(d@, j);
        }
    }
    let base: u32 = 8192 * i;
    let mut j: u32 = 0;
    while j < 8192
        invariant
            j <= 8192,
            d@.len() == 1024,
            base == 8192 * i,
            i < 65536,
            forall|k: int|
                0 <= k < 8192 ==> #[trigger] bitmap_bit(d@, k) == (k < j && ((i == 0 && k < 2)
                    || 8192 * i + k >= limit)),
        decreases 8192 - j,
    {
        if (i == 0 && j < 2) || base + j >= limit {
            proof {
                lemma_bitmap_on(d@, j as int);
            }
            bitmap_turn_on(&mut d, j as usize);
        }
        j = j + 1;
    }
    d
}

/// Writes a block, where the device has it.
fn put(fs: &mut Fs, dev: u16, block: u32, data: &Vec<u8>)
    requires
        old(fs).wf(),
        data@.len() == 1024,
    ensures
        final(fs).wf(),
        *final(fs) == (Fs { cache: final(fs).cache, ..*old(fs) }),
        final(fs).blocks() == (if old(fs).blocks().dom().contains((dev, block)) {
            old(fs).blocks().insert((dev, block), data@)
        } else {
            old(fs).blocks()
        }),
{
    let ok: bool = fs.cache.write_block(dev, block, data.as_slice());
}

fn super_block_bytes(l: &Layout) -> (d: Vec<u8>)
    ensures
        d@ == super_image(*l),
        d@.len() == 1024,
{
    let mut d: Vec<u8> = zeroed(1024);
    put_le16(&mut d, 0, l.ninodes);
    put_le16(&mut d, 2, (l.nblocks % 65536) as u16);
    put_le16(&mut d, 4, l.imap_blocks);
    put_le16(&mut d, 6, l.zmap_blocks);
    put_le16(&mut d, 8, l.firstdatazone);
    put_le16(&mut d, 10, 0);
    put_le32(&mut d, 12, 268966912);
    put_le16(&mut d, 16, 0x137F);
    put_le16(&mut d, 18, 1);
    d
}

fn root_inode_bytes(l: &Layout) -> (d: Vec<u8>)
    ensures
        d@ == root_inode_image(*l),
        d@.len() == 1024,
{
    let mut d: Vec<u8> = zeroed(1024);
    put_le16(&mut d, 0, mode::S_IFDIR | 0o755);
    put_le16(&mut d, 2, 0);
    put_le32(&mut d, 4, 32);
    put_le32(&mut d, 8, 0);
    d[12] = 0;
    d[13] = 2;
    put_le16(&mut d, 14, l.firstdatazone);
    d
}

fn root_dir_bytes() -> (d: Vec<u8>)
    ensures
        d@ == root_dir_image(),
        d@.len() == 1024,
{
    let mut d: Vec<u8> = zeroed(1024);
    put_le16(&mut d, 0, 1);
    d[2] = 46;
    put_le16(&mut d, 16, 1);
    d[18] = 46;
    d[19] = 46;
    d
}

/// Writes zeros to the blocks from `first` up to `end`.
fn put_zeros(fs: &mut Fs, dev: u16, first: u32, end: u32)
    requires
        old(fs).wf(),
    ensures
        final(fs).wf(),
        *final(fs) == (Fs { cache: final(fs).cache, ..*old(fs) }),
        final(fs).blocks().dom() == old(fs).blocks().dom(),
        forall|k: (u16, u32)|
            #[trigger] old(fs).blocks().dom().contains(k) ==> final(fs).blocks()[k] == (if k.0 == dev
                && first <= k.1 < end {
                zeros(1024)
            } else {
                old(fs).blocks()[k]
            }),
{
    let zero: Vec<u8> = zeroed(1024);
    let mut b: u32 = first;
    while b < end
        invariant
            fs.wf(),
            zero@ == zeros(1024),
            first <= b,
            b == first || b <= end,
            *fs == (Fs { cache: fs.cache, ..*old(fs) }),
            fs.blocks().dom() == old(fs).blocks().dom(),
            forall|k: (u16, u32)|
                #[trigger] old(fs).blocks().dom().contains(k) ==> fs.blocks()[k] == (if k.0 == dev
                    && first <= k.1 < b {
                    zeros(1024)
                } else {
                    old(fs).blocks()[k]
                }),
        decreases end - b,
    {
        put(fs, dev, b, &zero);
        assert(fs.blocks().dom() =~= old(fs).blocks().dom());
        b = b + 1;
    }
}

/// Writes `count` bitmap blocks from `first` on.
fn put_maps(fs: &mut Fs, dev: u16, first: u32, count: u16, limit: u32)
    requires
        old(fs).wf(),
        first <= 0xFFFF,
    ensures
        final(fs).wf(),
        *final(fs) == (Fs { cache: final(fs).cache, ..*old(fs) }),
        final(fs).blocks().dom() == old(fs).blocks().dom(),
        forall|k: (u16, u32)|
            #[trigger] old(fs).blocks().dom().contains(k) ==> (if k.0 == dev && first <= k.1 < first
                + count {
                is_map(final(fs).blocks()[k], k.1 - first, limit as int)
            } else {
                final(fs).blocks()[k] == old(fs).blocks()[k]
            }),
{
    let mut i: u32 = 0;
    while i < count as u32
        invariant
            fs.wf(),
            i <= count,
            first <= 0xFFFF,
            *fs == (Fs { cache: fs.cache, ..*old(fs) }),
            fs.blocks().dom() == old(fs).blocks().dom(),
            forall|k: (u16, u32)|
                #[trigger] old(fs).blocks().dom().contains(k) ==> (if k.0 == dev && first <= k.1
                    < first + i {
                    is_map(fs.blocks()[k], k.1 - first, limit as int)
                } else {
                    fs.blocks()[k] == old(fs).blocks()[k]
                }),
        decreases count - i,
    {
        let d: Vec<u8> = map_block(i, limit);
        put(fs, dev, first + i, &d);
        assert(fs.blocks().dom() =~= old(fs).blocks().dom());
        i = i + 1;
    }
}

/// The device is there, so that its first block can be read.
pub open spec fn is_ready(c: Blocks, dev: u16) -> bool {
    c.dom().contains((dev, 0u32))
}

/// Makes an empty file system of `nblocks` blocks on device `dev`. It has to have
/// a data area, and the super block has to be there when it is read back.
#[verifier::spinoff_prover]
#[verifier::rlimit(40)]
pub fn mkfs(fs: &mut Fs, dev: u16, nblocks: u32, ninodes: u16) -> (r: Option<Layout>)
    requires
        old(fs).wf(),
    ensures
        final(fs).wf(),
        *final(fs) == (Fs { cache: final(fs).cache, ..*old(fs) }),
        ({
            let l = layout_for(nblocks as int, ninodes as int);
            let c0 = old(fs).blocks();
            let c = final(fs).blocks();
            if !is_ready(c0, dev) || l.firstdatazone >= nblocks {
                r is None && c == c0
            } else if !c0.dom().contains((dev, 1u32)) {
                r is None && c == c0.insert((dev, 0u32), zeros(1024))
            } else {
                r == Some(l) && is_made(c0, c, dev, l)
            }
        }),
{
    let ghost c0 = fs.blocks();
    if fs.cache.read_block(dev, 0).is_none() {
        return None;
    }
    let full: u32 = (ninodes as u32 + 31) / 32 * 32;
    let n: u16 = if full < 65535 {
        full as u16
    } else {
        65535
    };
    let imap_blocks: u16 = ((n as u32 + 1 + 8191) / 8192) as u16;
    let zmap_blocks: u16 = ((nblocks / 8192 + (if nblocks % 8192 == 0 {
        0u32
    } else {
        1u32
    })) % 65536) as u16;
    let inode_blocks: u32 = (n as u32 + 31) / 32;
    let firstdatazone: u16 = ((2 + imap_blocks as u32 + zmap_blocks as u32 + inode_blocks) % 65536) as u16;
    let l = Layout {
        nblocks,
        ninodes: n,
        imap_blocks,
        zmap_blocks,
        inode_blocks,
        firstdatazone,
    };
    assert(l == layout_for(nblocks as int, ninodes as int));
    if firstdatazone as u32 >= nblocks {
        return None;
    }
    let boot: Vec<u8> = zeroed(1024);
    put(fs, dev, 0, &boot);
    let sb: Vec<u8> = super_block_bytes(&l);
    put(fs, dev, 1, &sb);
    match fs.cache.read_block(dev, 1) {
        None => {
            return None;
        },
        Some(back) => {
            if back[16] != sb[16] || back[17] != sb[17] {
                return None;
            }
        },
    }
    let ghost c1 = fs.blocks();
    assert(c1.dom() =~= c0.dom());
    put_maps(fs, dev, 2, imap_blocks, n as u32 + 1);
    let zmap_start: u32 = 2 + imap_blocks as u32;
    let max_bit: u32 = nblocks - firstdatazone as u32 + 1;
    put_maps(fs, dev, zmap_start, zmap_blocks, max_bit);
    let itable_start: u32 = zmap_start + zmap_blocks as u32;
    put_zeros(fs, dev, itable_start, itable_start + inode_blocks);
    let itb: Vec<u8> = root_inode_bytes(&l);
    put(fs, dev, itable_start, &itb);
    let root: Vec<u8> = root_dir_bytes();
    put(fs, dev, firstdatazone as u32, &root);
    let ghost c2 = fs.blocks();
    assert(c2.dom() =~= c0.dom());
    put_zeros(fs, dev, firstdatazone as u32 + 1, nblocks);
    proof {
        let c = fs.blocks();
        assert forall|b: u32| #[trigger] c0.dom().contains((dev, b)) implies is_image(
            l,
            b as int,
            c0[(dev, b)],
            c[(dev, b)],
        ) by {}
    }
    Some(l)
}

/// A device of `nblocks` blocks, on which a file system with at least one inode
/// fits.
pub open spec fn fits(c: Blocks, dev: u16, nblocks: int, ninodes: int) -> bool {
    &&& 0 <= nblocks < 65536
    &&& 1 <= ninodes < 65536
    &&& layout_for(nblocks, ninodes).firstdatazone < nblocks
    &&& forall|b: u32| b < nblocks ==> #[trigger] c.dom().contains((dev, b))
    &&& forall|k: (u16, u32)| #[trigger] c.dom().contains(k) ==> c[k].len() == 1024
}

/// The numbers of a layout that fits.
pub proof fn lemma_layout(nblocks: int, ninodes: int)
    requires
        1 <= nblocks < 65536,
        1 <= ninodes < 65536,
    ensures
        ({
            let l = layout_for(nblocks, ninodes);
            &&& l.nblocks == nblocks
            &&& ninodes <= l.ninodes
            &&& 32 <= l.ninodes
            &&& 1 <= l.imap_blocks <= 8
            &&& 1 <= l.zmap_blocks <= 8
            &&& 1 <= l.inode_blocks <= 2048
            &&& 8192 * l.imap_blocks > l.ninodes
            &&& 8192 * l.zmap_blocks >= nblocks
            &&& 32 * l.inode_blocks >= l.ninodes
            &&& l.firstdatazone == l.itable_start() + l.inode_blocks
        }),
{
}

/// A file system that was just made is accepted when it is mounted, and is
/// marked as clean.
pub proof fn lemma_mkfs_mounts(c0: Blocks, c: Blocks, dev: u16, nblocks: int, ninodes: int)
    requires
        fits(c0, dev, nblocks, ninodes),
        is_made(c0, c, dev, layout_for(nblocks, ninodes)),
    ensures
        super_status(c, dev) == SuperStatus::Good,
        ({
            let l = layout_for(nblocks, ninodes);
            super_of(c[(dev, 1u32)]) == (MinixSuperBlock {
                s_ninodes: l.ninodes,
                s_nzones: nblocks as u16,
                s_imap_blocks: l.imap_blocks,
                s_zmap_blocks: l.zmap_blocks,
                s_firstdatazone: l.firstdatazone,
                s_log_zone_size: 0,
                s_max_size: 268966912,
                s_magic: 0x137F,
                s_state: 1,
            })
        }),
{
    let l = layout_for(nblocks, ninodes);
    lemma_layout(nblocks, ninodes);
    let one = 1u32;
    assert(c0.dom().contains((dev, one)));
    let d = c[(dev, one)];
    assert(d == super_image(l));
    lemma_super_image(l);
    assert forall|i: int| 2 <= i < 2 + (l.imap_blocks + l.zmap_blocks) implies #[trigger] c.dom().contains(
        (dev, i as u32),
    ) by {
        let b = i as u32;
        assert(c0.dom().contains((dev, b)));
    }
}

proof fn lemma_super_image(l: Layout)
    ensures
        ({
            let d = super_image(l);
            &&& le16(d, 0) == l.ninodes
            &&& le16(d, 2) == l.nblocks % 65536
            &&& le16(d, 4) == l.imap_blocks
            &&& le16(d, 6) == l.zmap_blocks
            &&& le16(d, 8) == l.firstdatazone
            &&& le16(d, 10) == 0
            &&& le32(d, 12) == 268966912
            &&& le16(d, 16) == 0x137F
            &&& le16(d, 18) == 1
        }),
{
    let d0 = with_le16(zeros(1024), 0, l.ninodes);
    lemma_with_le16(zeros(1024), 0, l.ninodes);
    let d1 = with_le16(d0, 2, (l.nblocks % 65536) as u16);
    lemma_with_le16(d0, 2, (l.nblocks % 65536) as u16);
    let d2 = with_le16(d1, 4, l.imap_blocks);
    lemma_with_le16(d1, 4, l.imap_blocks);
    let d3 = with_le16(d2, 6, l.zmap_blocks);
    lemma_with_le16(d2, 6, l.zmap_blocks);
    let d4 = with_le16(d3, 8, l.firstdatazone);
    lemma_with_le16(d3, 8, l.firstdatazone);
    let d5 = with_le16(d4, 10, 0);
    lemma_with_le16(d4, 10, 0);
    let d6 = with_le32(d5, 12, 268966912);
    lemma_with_le32(d5, 12, 268966912);
    let d7 = with_le16(d6, 16, 0x137F);
    lemma_with_le16(d6, 16, 0x137F);
    lemma_with_le16(d7, 18, 1);
}

proof fn lemma_root_images(l: Layout)
    ensures
        ({
            let d = root_inode_image(l);
            &&& le16(d, 0) == mode::S_IFDIR | 0o755
            &&& le32(d, 4) == 32
            &&& d[13] == 2
            &&& le16(d, 14) == l.firstdatazone
            &&& forall|k: int| 1 <= k < 9 ==> #[trigger] zones_at(d, 0)[k] == 0
        }),
        ({
            let d = root_dir_image();
            &&& d.len() == 1024
            &&& d[0] == 1 && d[1] == 0 && d[2] == 46 && d[3] == 0
            &&& d[16] == 1 && d[17] == 0 && d[18] == 46 && d[19] == 46 && d[20] == 0
        }),
{
    let m = mode::S_IFDIR | 0o755;
    let d0 = with_le16(zeros(1024), 0, m);
    lemma_with_le16(zeros(1024), 0, m);
    let d1 = with_le16(d0, 2, 0);
    lemma_with_le16(d0, 2, 0);
    let d2 = with_le32(d1, 4, 32);
    lemma_with_le32(d1, 4, 32);
    let d3 = with_le32(d2, 8, 0);
    lemma_with_le32(d2, 8, 0);
    let d4 = d3.update(12, 0u8).update(13, 2u8);
    lemma_with_le16(d4, 14, l.firstdatazone);
    let d = root_inode_image(l);
    assert forall|k: int| 1 <= k < 9 implies #[trigger] zones_at(d, 0)[k] == 0 by {
        assert(d[14 + 2 * k] == 0 && d[14 + 2 * k + 1] == 0);
    }
    lemma_with_le16(zeros(1024), 0, 1);
    let e = with_le16(zeros(1024), 0, 1).update(2, 46u8);
    lemma_with_le16(e, 16, 1);
}

/// In a file system that was just made and mounted in slot `s`, the root
/// directory is in order: its inode can be read, all blocks of the file are marked
/// as taken, and its two entries lead to itself.
pub proof fn lemma_mkfs_root(
    c0: Blocks,
    c: Blocks,
    dev: u16,
    nblocks: int,
    ninodes: int,
    s0: SuperBlock,
    s: SuperBlock,
)
    requires
        fits(c0, dev, nblocks, ninodes),
        is_made(c0, c, dev, layout_for(nblocks, ninodes)),
        s0.is_clear(),
        accepted(SuperBlock { s_dev: dev, ..s0 }, s, super_of(c[(dev, 1u32)])),
    ensures
        can_load(c, s, dev, 1),
        ({
            let d = c[(dev, inode_block(s, 1) as u32)];
            let z = zones_at(d, 0);
            &&& inode_index(1) == 0
            &&& le16(d, 0) == mode::S_IFDIR | 0o755
            &&& le32(d, 4) == 32
            &&& d[13] == 2
            &&& sizes_ok(s)
            &&& tree_ok(c, s, dev, z)
            &&& found(c, dev, z, 32, 14, seq![46u8], 0) == Some(0int)
            &&& found(c, dev, z, 32, 14, seq![46u8, 46u8], 0) == Some(16int)
            &&& entry_ino(c, dev, z, 0) == 1
            &&& entry_ino(c, dev, z, 16) == 1
        }),
{
    let l = layout_for(nblocks, ninodes);
    lemma_layout(nblocks, ninodes);
    lemma_mkfs_mounts(c0, c, dev, nblocks, ninodes);
    lemma_root_images(l);
    let it = l.itable_start() as u32;
    let fz = l.firstdatazone as u32;
    assert(c0.dom().contains((dev, it)));
    assert(c0.dom().contains((dev, fz)));
    assert(inode_block(s, 1) == it);
    let d = c[(dev, it)];
    assert(d == root_inode_image(l));
    let z = zones_at(d, 0);
    assert(z[0] == fz);
    assert forall|p: int| 0 <= p < places() implies #[trigger] num(c, dev, z, p) == (if p == 0 {
        fz as int
    } else {
        0
    }) by {}
    // the layout of the bitmaps
    let zs = l.zmap_start() as u32;
    assert(c0.dom().contains((dev, zs)));
    assert(s.s_zmap@[0] == zs);
    assert forall|i: int| 0 <= i < 8 implies #[trigger] s.s_zmap@[i] == NIL || s.s_zmap@[i]
        < s.s_firstdatazone by {}
    assert forall|k: (u16, u32)| #[trigger] c.dom().contains(k) implies c[k].len() == 1024 by {
        if k.0 == dev {
            assert(c0.dom().contains((dev, k.1)));
            lemma_image_len(l, k.1 as int, c0[k], c[k]);
        }
    }
    assert forall|b: u32| s.s_firstdatazone <= b < s.s_nzones implies #[trigger] c.dom().contains(
        (dev, b),
    ) by {
        assert(c0.dom().contains((dev, b)));
    }
    assert(layout_ok(c, s, dev));
    assert(marked(c, s, fz as int)) by {
        assert(zone_bit(s, fz as int) == 1);
        assert(is_map(c[(dev, zs)], 0, l.nblocks - l.firstdatazone + 1));
        assert(bitmap_bit(c[(dev, zs)], 1));
    }
    assert(tree_ok(c, s, dev, z));
    let r = c[(dev, fz)];
    assert(r == root_dir_image());
    assert forall|p: int| 0 <= p < 1024 implies #[trigger] file_byte(c, dev, z, p) == r[p] by {}
    let dot = seq![46u8];
    let dotdot = seq![46u8, 46u8];
    assert(entry_ino(c, dev, z, 0) == 1);
    assert(entry_ino(c, dev, z, 16) == 1);
    assert(file_byte(c, dev, z, 2) == 46 && file_byte(c, dev, z, 3) == 0);
    assert(file_byte(c, dev, z, 18) == 46 && file_byte(c, dev, z, 19) == 46 && file_byte(
        c,
        dev,
        z,
        20,
    ) == 0);
    assert(has_name(c, dev, z, 0, dot, 14));
    assert(is_hit(c, dev, z, 0, dot, 14));
    assert(dotdot[1] == 46);
    assert(!has_name(c, dev, z, 0, dotdot, 14)) by {
        assert(file_byte(c, dev, z, 0int + 2 + 1) != dotdot[1]);
    }
    assert(has_name(c, dev, z, 16, dotdot, 14));
    assert(found(c, dev, z, 32, 14, dotdot, 16) == Some(16int));
}

/// The blocks of a file system have their size.
proof fn lemma_image_len(l: Layout, b: int, d0: Seq<u8>, d: Seq<u8>)
    requires
        is_image(l, b, d0, d),
        d0.len() == 1024,
    ensures
        d.len() == 1024,
{
    lemma_super_image(l);
    lemma_root_images(l);
}

} // verus!
