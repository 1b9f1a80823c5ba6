//! The bitmaps of blocks and inodes of a group.
//!
//! A bitmap takes up one block of the file system, which is read in pieces of
//! 1024 bytes.

use crate::bits::{bitmap_bit, bitmap_get, bitmap_off, bitmap_on, bitmap_turn_off, bitmap_turn_on, lemma_bitmap_on};
use crate::fs::ext4::group_desc::Ext4GroupDesc;
use crate::fs::ext4::map::low32;
use crate::fs::ext4::super_block::Ext4SuperBlock;
use crate::fs::inode::NIL;
use crate::fs::super_block::{get_super, SuperBlock};
use crate::fs::{Blocks, Fs};
use vstd::arithmetic::power2::pow2;
use vstd::prelude::*;

verus! {

/// The table `s` is `s0` with the file system on device `dev` marked as changed.
pub open spec fn marked_dirty(s0: Seq<SuperBlock>, s: Seq<SuperBlock>, dev: u16) -> bool {
    &&& s.len() == s0.len()
    &&& forall|k: int|
        0 <= k < s0.len() ==> #[trigger] s[k] == (if dev != 0 && s0[k].s_dev == dev && (forall|j: int|
            0 <= j < k ==> (#[trigger] s0[j]).s_dev != dev) {
            SuperBlock { s_dirt: true, ..s0[k] }
        } else {
            s0[k]
        })
}

/// Marks the file system on a device as changed.
fn mark_sb_dirty(fs: &mut Fs, dev: u16)
    requires
        old(fs).wf(),
    ensures
        final(fs).wf(),
        *final(fs) == (Fs { supers: final(fs).supers, ..*old(fs) }),
        marked_dirty(old(fs).supers@, final(fs).supers@, dev),
{
    let n: usize = get_super(fs, dev);
    if n != NIL {
        fs.supers[n].s_dirt = true;
        proof {
            let s0 = old(fs).supers@;
            assert(s0[n as int].s_dev == dev);
        }
    }
}

/// A bit of a bitmap; past the end it counts as clear.
pub open spec fn bit_at(d: Seq<u8>, i: int) -> bool {
    i < 8 * d.len() && bitmap_bit(d, i)
}

/// Reads a bit; past the end it counts as clear.
pub fn bitmap_test(bitmap: &[u8], bit: usize) -> (r: bool)
    ensures
        r == bit_at(bitmap@, bit as int),
{
    let n: usize = bitmap.len();
    if bit / 8 < n {
        bitmap_get(bitmap, bit)
    } else {
        false
    }
}

/// Sets a bit, where the bitmap has it.
pub fn bitmap_set(bitmap: &mut Vec<u8>, bit: usize)
    ensures
        final(bitmap)@ == (if bit < 8 * old(bitmap)@.len() {
            bitmap_on(old(bitmap)@, bit as int)
        } else {
            old(bitmap)@
        }),
{
    let n: usize = bitmap.len();
    if bit / 8 < n {
        bitmap_turn_on(bitmap, bit);
    }
}

/// Clears a bit, where the bitmap has it.
pub fn bitmap_clear(bitmap: &mut Vec<u8>, bit: usize)
    ensures
        final(bitmap)@ == (if bit < 8 * old(bitmap)@.len() {
            bitmap_off(old(bitmap)@, bit as int)
        } else {
            old(bitmap)@
        }),
{
    let n: usize = bitmap.len();
    if bit / 8 < n {
        bitmap_turn_off(bitmap, bit);
    }
}

/// The first clear bit below `max_bits`. Bit 0 is never free.
pub fn find_free_bit(bitmap: &[u8], max_bits: usize) -> (r: Option<usize>)
    ensures
        match r {
            Some(b) => {
                &&& 1 <= b < max_bits
                &&& !bit_at(bitmap@, b as int)
                &&& forall|i: int| 1 <= i < b ==> #[trigger] bit_at(bitmap@, i)
            },
            None => forall|i: int| 1 <= i < max_bits ==> #[trigger] bit_at(bitmap@, i),
        },
{
    let mut bit: usize = 1;
    while bit < max_bits
        invariant
            1 <= bit,
            bit <= max_bits || max_bits == 0,
            forall|i: int| 1 <= i < bit ==> #[trigger] bit_at(bitmap@, i),
        decreases max_bits - bit,
    {
        if !bitmap_test(bitmap, bit) {
            return Some(bit);
        }
        bit = bit + 1;
    }
    None
}

/// Bit `pos` of piece `k` of a bitmap with `limit` bits is free. Bit 0 of the
/// bitmap never is.
pub open spec fn is_free(d: Seq<u8>, k: int, limit: int, pos: int) -> bool {
    0 < 8192 * k + pos < limit && !bitmap_bit(d, pos)
}

/// The first free bit of piece `k` from `pos` on, 8192 where there is none.
pub open spec fn first_free_in(d: Seq<u8>, k: int, limit: int, pos: int) -> int
    decreases 8192 - pos,
{
    if pos >= 8192 || is_free(d, k, limit, pos) {
        pos
    } else {
        first_free_in(d, k, limit, pos + 1)
    }
}

/// The first free bit of a bitmap of `n` pieces that starts at `block`, from piece
/// `k` on. A piece that cannot be read ends the search.
pub open spec fn first_free_bit(c: Blocks, dev: u16, block: int, n: int, limit: int, k: int) -> Option<int>
    decreases n - k,
{
    let key = (dev, low32(block + k));
    if k >= n || !c.dom().contains(key) {
        None
    } else {
        let pos = first_free_in(c[key], k, limit, 0);
        if pos < 8192 {
            Some(8192 * k + pos)
        } else {
            first_free_bit(c, dev, block, n, limit, k + 1)
        }
    }
}

/// The number of pieces of a bitmap; none where the block size does not fit in 64
/// bits.
pub open spec fn pieces(sb: Ext4SuperBlock) -> int {
    if sb.s_log_block_size <= 53 {
        pow2(sb.s_log_block_size as nat) as int
    } else {
        0
    }
}

/// Counts the pieces of a bitmap.
fn count_pieces(sb: &Ext4SuperBlock) -> (r: u64)
    ensures
        r == pieces(*sb),
        r <= 0x20_0000_0000_0000,
{
    let log: u32 = sb.s_log_block_size;
    if log > 53 {
        return 0;
    }
    proof {
        lemma_pow2_53(log as nat);
        vstd::bits::lemma_u64_shl_is_mul(1u64, log as u64);
    }
    1u64 << (log as u64)
}

/// How large the powers of two up to the 53rd are.
pub proof fn lemma_pow2_53(k: nat)
    requires
        k <= 53,
    ensures
        1 <= pow2(k) <= 0x20_0000_0000_0000,
{
    vstd::arithmetic::power2::lemma2_to64_rest();
    vstd::arithmetic::power2::lemma_pow2_pos(k);
    if k < 53 {
        vstd::arithmetic::power2::lemma_pow2_strictly_increases(k, 53);
    }
}

/// The blocks with a bit of the bitmap at `block` set.
pub open spec fn bit_taken(c: Blocks, dev: u16, block: int, bit: int) -> Blocks {
    let key = (dev, low32(block + bit / 8192));
    c.insert(key, bitmap_on(c[key], bit % 8192))
}

/// The blocks with a bit of the bitmap at `block` cleared, where it can be read.
pub open spec fn bit_freed(c: Blocks, dev: u16, block: int, bit: int) -> Blocks {
    let key = (dev, low32(block + bit / 8192));
    if c.dom().contains(key) {
        c.insert(key, bitmap_off(c[key], bit % 8192))
    } else {
        c
    }
}

/// Looks for the first free bit of a bitmap and takes it.
fn take_bit(fs: &mut Fs, dev: u16, block: u64, n: u64, limit: u32) -> (r: Option<u32>)
    requires
        old(fs).wf(),
        n <= 0x20_0000_0000_0000,
    ensures
        final(fs).wf(),
        *final(fs) == (Fs { cache: final(fs).cache, ..*old(fs) }),
        match first_free_bit(old(fs).blocks(), dev, block as int, n as int, limit as int, 0) {
            None => r is None && final(fs).blocks() == old(fs).blocks(),
            Some(bit) => {
                &&& r is Some && r->0 == bit
                &&& 0 < bit < limit
                &&& final(fs).blocks() == bit_taken(old(fs).blocks(), dev, block as int, bit)
            },
        },
{
    let ghost c = fs.blocks();
    let mut k: u64 = 0;
    while k < n
        invariant
            fs.wf(),
            k <= n <= 0x20_0000_0000_0000,
            *fs == (Fs { cache: fs.cache, ..*old(fs) }),
            fs.blocks() == c,
            c == old(fs).blocks(),
            first_free_bit(c, dev, block as int, n as int, limit as int, 0) == first_free_bit(
                c,
                dev,
                block as int,
                n as int,
                limit as int,
                k as int,
            ),
        decreases n - k,
    {
        let b: u32 = ((block % 0x1_0000_0000 + k) % 0x1_0000_0000) as u32;
        proof {
            vstd::arithmetic::div_mod::lemma_add_mod_noop(block as int, k as int, 0x1_0000_0000);
            vstd::arithmetic::div_mod::lemma_add_mod_noop(
                block as int % 0x1_0000_0000,
                k as int,
                0x1_0000_0000,
            );
            vstd::arithmetic::div_mod::lemma_mod_twice(block as int, 0x1_0000_0000);
            assert(b == low32(block + k));
        }
        match fs.cache.read_block(dev, b) {
            None => {
                return None;
            },
            Some(mut data) => {
                let ghost d = data@;
                let base: u128 = 8192 * k as u128;
                let mut pos: usize = 0;
                while pos < 8192 && (base + pos as u128 == 0 || base + pos as u128 >= limit as u128
                    || bitmap_test(data.as_slice(), pos))
                    invariant
                        k <= 0x20_0000_0000_0000,
                        base == 8192 * k,
                        pos <= 8192,
                        data@.len() == 1024,
                        data@ == d,
                        first_free_in(d, k as int, limit as int, 0) == first_free_in(
                            d,
                            k as int,
                            limit as int,
                            pos as int,
                        ),
                    decreases 8192 - pos,
                {
                    pos = pos + 1;
                }
                if pos < 8192 {
                    bitmap_set(&mut data, pos);
                    proof {
                        lemma_bitmap_on(d, pos as int);
                        let bit = 8192 * k + pos;
                        assert(bit / 8192 == k && bit % 8192 == pos);
                    }
                    let ok: bool = fs.cache.write_block(dev, b, data.as_slice());
                    return Some((base + pos as u128) as u32);
                }
            },
        }
        k = k + 1;
    }
    None
}

/// Clears a bit of a bitmap; answers whether it can be read.
fn give_bit(fs: &mut Fs, dev: u16, block: u64, bit: u32) -> (r: bool)
    requires
        old(fs).wf(),
    ensures
        final(fs).wf(),
        *final(fs) == (Fs { cache: final(fs).cache, ..*old(fs) }),
        r == old(fs).blocks().dom().contains((dev, low32(block + bit as int / 8192))),
        final(fs).blocks() == bit_freed(old(fs).blocks(), dev, block as int, bit as int),
{
    let k: u64 = (bit / 8192) as u64;
    let b: u32 = ((block % 0x1_0000_0000 + k) % 0x1_0000_0000) as u32;
    proof {
        vstd::arithmetic::div_mod::lemma_add_mod_noop(block as int, k as int, 0x1_0000_0000);
        vstd::arithmetic::div_mod::lemma_add_mod_noop(
            block as int % 0x1_0000_0000,
            k as int,
            0x1_0000_0000,
        );
        vstd::arithmetic::div_mod::lemma_mod_twice(block as int, 0x1_0000_0000);
        assert(b == low32(block + k));
    }
    match fs.cache.read_block(dev, b) {
        None => false,
        Some(mut data) => {
            proof {
                crate::bits::lemma_bitmap_off(data@, bit as int % 8192);
            }
            bitmap_clear(&mut data, (bit % 8192) as usize);
            let ok: bool = fs.cache.write_block(dev, b, data.as_slice());
            true
        },
    }
}

/// One less, where there is one.
pub open spec fn less_one(n: u32) -> u32 {
    if n == 0 {
        0
    } else {
        (n - 1) as u32
    }
}

/// One more, where that can be.
pub open spec fn one_more(n: u32) -> u32 {
    if n == u32::MAX {
        n
    } else {
        (n + 1) as u32
    }
}

/// Takes a block of a group. Answers its number.
pub fn alloc_block(fs: &mut Fs, sb: &Ext4SuperBlock, gd: &mut Ext4GroupDesc, group: u32, dev: u16) -> (r: Option<
    u64,
>)
    requires
        old(fs).wf(),
    ensures
        final(fs).wf(),
        *final(fs) == (Fs { cache: final(fs).cache, supers: final(fs).supers, ..*old(fs) }),
        ({
            let c = old(fs).blocks();
            let block = old(gd).block_bitmap as int;
            let bit = first_free_bit(
                c,
                dev,
                block,
                pieces(*sb),
                sb.s_blocks_per_group as int,
                0,
            );
            if block == 0 || bit is None {
                &&& r is None
                &&& final(fs).blocks() == c && final(fs).supers@ == old(fs).supers@
                &&& *final(gd) == *old(gd)
            } else {
                &&& r == Some((group * sb.s_blocks_per_group + bit->0) as u64)
                &&& 0 < bit->0 < sb.s_blocks_per_group
                &&& final(fs).blocks() == bit_taken(c, dev, block, bit->0)
                &&& marked_dirty(old(fs).supers@, final(fs).supers@, dev)
                &&& *final(gd) == (Ext4GroupDesc {
                    free_blocks_count: less_one(old(gd).free_blocks_count),
                    ..*old(gd)
                })
            }
        }),
{
    let block: u64 = gd.block_bitmap;
    if block == 0 {
        return None;
    }
    let n: u64 = count_pieces(sb);
    match take_bit(fs, dev, block, n, sb.s_blocks_per_group) {
        None => None,
        Some(bit) => {
            gd.free_blocks_count = gd.free_blocks_count.saturating_sub(1);
            mark_sb_dirty(fs, dev);
            assert(group * sb.s_blocks_per_group <= 0xFFFF_FFFF * 0xFFFF_FFFF) by (nonlinear_arith)
                requires
                    group <= 0xFFFF_FFFF,
                    sb.s_blocks_per_group <= 0xFFFF_FFFF,
            ;
            Some(group as u64 * sb.s_blocks_per_group as u64 + bit as u64)
        },
    }
}

/// Gives a block of a group back.
pub fn free_block(
    fs: &mut Fs,
    _sb: &Ext4SuperBlock,
    gd: &mut Ext4GroupDesc,
    _group: u32,
    block_offset: u32,
    dev: u16,
)
    requires
        old(fs).wf(),
    ensures
        final(fs).wf(),
        *final(fs) == (Fs { cache: final(fs).cache, supers: final(fs).supers, ..*old(fs) }),
        ({
            let c = old(fs).blocks();
            let block = old(gd).block_bitmap as int;
            if block == 0 || !c.dom().contains((dev, low32(block + block_offset as int / 8192))) {
                &&& final(fs).blocks() == c && final(fs).supers@ == old(fs).supers@
                &&& *final(gd) == *old(gd)
            } else {
                &&& final(fs).blocks() == bit_freed(c, dev, block, block_offset as int)
                &&& marked_dirty(old(fs).supers@, final(fs).supers@, dev)
                &&& *final(gd) == (Ext4GroupDesc {
                    free_blocks_count: one_more(old(gd).free_blocks_count),
                    ..*old(gd)
                })
            }
        }),
{
    let block: u64 = gd.block_bitmap;
    if block == 0 {
        return;
    }
    if give_bit(fs, dev, block, block_offset) {
        gd.free_blocks_count = gd.free_blocks_count.saturating_add(1);
        mark_sb_dirty(fs, dev);
    }
}

/// Takes an inode of a group. Answers its number.
pub fn alloc_inode(fs: &mut Fs, sb: &Ext4SuperBlock, gd: &mut Ext4GroupDesc, group: u32, dev: u16) -> (r: Option<
    u32,
>)
    requires
        old(fs).wf(),
        (group + 1) * sb.s_inodes_per_group < 0x1_0000_0000,
    ensures
        final(fs).wf(),
        *final(fs) == (Fs { cache: final(fs).cache, supers: final(fs).supers, ..*old(fs) }),
        ({
            let c = old(fs).blocks();
            let block = old(gd).inode_bitmap as int;
            let bit = first_free_bit(
                c,
                dev,
                block,
                pieces(*sb),
                sb.s_inodes_per_group as int,
                0,
            );
            if block == 0 || bit is None {
                &&& r is None
                &&& final(fs).blocks() == c && final(fs).supers@ == old(fs).supers@
                &&& *final(gd) == *old(gd)
            } else {
                &&& r == Some((group * sb.s_inodes_per_group + bit->0 + 1) as u32)
                &&& 0 < bit->0 < sb.s_inodes_per_group
                &&& final(fs).blocks() == bit_taken(c, dev, block, bit->0)
                &&& marked_dirty(old(fs).supers@, final(fs).supers@, dev)
                &&& *final(gd) == (Ext4GroupDesc {
                    free_inodes_count: less_one(old(gd).free_inodes_count),
                    ..*old(gd)
                })
            }
        }),
{
    let block: u64 = gd.inode_bitmap;
    if block == 0 {
        return None;
    }
    let n: u64 = count_pieces(sb);
    match take_bit(fs, dev, block, n, sb.s_inodes_per_group) {
        None => None,
        Some(bit) => {
            gd.free_inodes_count = gd.free_inodes_count.saturating_sub(1);
            mark_sb_dirty(fs, dev);
            assert((group + 1) * sb.s_inodes_per_group == group * sb.s_inodes_per_group
                + sb.s_inodes_per_group) by (nonlinear_arith);
            assert(group * sb.s_inodes_per_group >= 0) by (nonlinear_arith);
            Some(group * sb.s_inodes_per_group + bit + 1)
        },
    }
}

/// Gives an inode of a group back.
pub fn free_inode(
    fs: &mut Fs,
    _sb: &Ext4SuperBlock,
    gd: &mut Ext4GroupDesc,
    _group: u32,
    inode_offset: u32,
    dev: u16,
)
    requires
        old(fs).wf(),
    ensures
        final(fs).wf(),
        *final(fs) == (Fs { cache: final(fs).cache, supers: final(fs).supers, ..*old(fs) }),
        ({
            let c = old(fs).blocks();
            let block = old(gd).inode_bitmap as int;
            if block == 0 || !c.dom().contains((dev, low32(block + inode_offset as int / 8192))) {
                &&& final(fs).blocks() == c && final(fs).supers@ == old(fs).supers@
                &&& *final(gd) == *old(gd)
            } else {
                &&& final(fs).blocks() == bit_freed(c, dev, block, inode_offset as int)
                &&& marked_dirty(old(fs).supers@, final(fs).supers@, dev)
                &&& *final(gd) == (Ext4GroupDesc {
                    free_inodes_count: one_more(old(gd).free_inodes_count),
                    ..*old(gd)
                })
            }
        }),
{
    let block: u64 = gd.inode_bitmap;
    if block == 0 {
        return;
    }
    if give_bit(fs, dev, block, inode_offset) {
        gd.free_inodes_count = gd.free_inodes_count.saturating_add(1);
        mark_sb_dirty(fs, dev);
    }
}

/// What a search finds is free, and in a piece that can be read.
pub proof fn lemma_first_free(c: Blocks, dev: u16, block: int, n: int, limit: int, k: int)
    requires
        0 <= k,
    ensures
        match first_free_bit(c, dev, block, n, limit, k) {
            None => true,
            Some(bit) => {
                let key = (dev, low32(block + bit / 8192));
                &&& 0 < bit < limit
                &&& k <= bit / 8192 < n
                &&& c.dom().contains(key)
                &&& !bitmap_bit(c[key], bit % 8192)
            },
        },
    decreases n - k,
{
    let key = (dev, low32(block + k));
    if k < n && c.dom().contains(key) {
        lemma_first_in(c[key], k, limit, 0);
        let pos = first_free_in(c[key], k, limit, 0);
        if pos < 8192 {
            assert((8192 * k + pos) / 8192 == k && (8192 * k + pos) % 8192 == pos);
        } else {
            lemma_first_free(c, dev, block, n, limit, k + 1);
        }
    }
}

proof fn lemma_first_in(d: Seq<u8>, k: int, limit: int, pos: int)
    requires
        0 <= pos <= 8192,
    ensures
        pos <= first_free_in(d, k, limit, pos) <= 8192,
        first_free_in(d, k, limit, pos) < 8192 ==> is_free(
            d,
            k,
            limit,
            first_free_in(d, k, limit, pos),
        ),
    decreases 8192 - pos,
{
    if pos < 8192 && !is_free(d, k, limit, pos) {
        lemma_first_in(d, k, limit, pos + 1);
    }
}

/// A bit that was taken and given back leaves the blocks as they were.
pub proof fn lemma_take_give(c: Blocks, dev: u16, block: int, n: int, limit: int)
    requires
        first_free_bit(c, dev, block, n, limit, 0) is Some,
        forall|k: (u16, u32)| #[trigger] c.dom().contains(k) ==> c[k].len() == 1024,
    ensures
        ({
            let bit = first_free_bit(c, dev, block, n, limit, 0)->0;
            bit_freed(bit_taken(c, dev, block, bit), dev, block, bit) == c
        }),
{
    lemma_first_free(c, dev, block, n, limit, 0);
    let bit = first_free_bit(c, dev, block, n, limit, 0)->0;
    let key = (dev, low32(block + bit / 8192));
    crate::bits::lemma_bitmap_on_off(c[key], bit % 8192);
    assert(bit_freed(bit_taken(c, dev, block, bit), dev, block, bit) =~= c);
}

/// A bit that was taken is not the one that is found next.
pub proof fn lemma_take_twice(c: Blocks, dev: u16, block: int, n: int, limit: int)
    requires
        first_free_bit(c, dev, block, n, limit, 0) is Some,
        forall|k: (u16, u32)| #[trigger] c.dom().contains(k) ==> c[k].len() == 1024,
    ensures
        ({
            let bit = first_free_bit(c, dev, block, n, limit, 0)->0;
            first_free_bit(bit_taken(c, dev, block, bit), dev, block, n, limit, 0) != Some(bit)
        }),
{
    lemma_first_free(c, dev, block, n, limit, 0);
    let bit = first_free_bit(c, dev, block, n, limit, 0)->0;
    let c1 = bit_taken(c, dev, block, bit);
    lemma_first_free(c1, dev, block, n, limit, 0);
    let key = (dev, low32(block + bit / 8192));
    lemma_bitmap_on(c[key], bit % 8192);
    assert(bitmap_bit(c1[key], bit % 8192));
}

} // verus!
