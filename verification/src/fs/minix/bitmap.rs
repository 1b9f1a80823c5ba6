//! The bitmaps of inodes and zones.
//!
//! Bit `n` of the inode bitmap stands for inode `n`; bit 0 is always set. Bit
//! `n` of the zone bitmap stands for block `n - 1` of the data area.

use crate::bits::{
    bit8, bitmap_bit, bitmap_get, bitmap_off, bitmap_on, bitmap_turn_off, bitmap_turn_on,
    lemma_bitmap_on,
};
use crate::bytes::{zeroed, zeros};
use crate::fs::buffer::{forgotten, wrote_back, BufferCache};
use crate::fs::inode::{clear_inode, flushed, get_empty_inode, iput, is_pick, is_taken, Inode, NIL};
use crate::fs::mode::S_ISGID;
use crate::fs::super_block::SuperBlock;
use crate::fs::{Blocks, Fs};
use vstd::prelude::*;

verus! {

/// Reads a bit; past the end everything counts as taken.
pub fn test_bit(data: &[u8], n: u32) -> (r: bool)
    ensures
        r == (n >= 8 * data@.len() || bitmap_bit(data@, n as int)),
{
    let byte: usize = (n / 8) as usize;
    if byte >= data.len() {
        return true;
    }
    bitmap_get(data, n as usize)
}

/// Sets a bit and answers what it was.
pub fn set_bit(data: &mut Vec<u8>, n: u32) -> (r: bool)
    ensures
        r == (n >= 8 * old(data)@.len() || bitmap_bit(old(data)@, n as int)),
        final(data)@ == (if n >= 8 * old(data)@.len() {
            old(data)@
        } else {
            bitmap_on(old(data)@, n as int)
        }),
{
    let byte: usize = (n / 8) as usize;
    if byte >= data.len() {
        return true;
    }
    let was: bool = bitmap_get(data.as_slice(), n as usize);
    bitmap_turn_on(data, n as usize);
    was
}

/// Clears a bit and answers what it was.
pub fn clear_bit(data: &mut Vec<u8>, n: u32) -> (r: bool)
    ensures
        r == (n < 8 * old(data)@.len() && bitmap_bit(old(data)@, n as int)),
        final(data)@ == (if n >= 8 * old(data)@.len() {
            old(data)@
        } else {
            bitmap_off(old(data)@, n as int)
        }),
{
    let byte: usize = (n / 8) as usize;
    if byte >= data.len() {
        return false;
    }
    let was: bool = bitmap_get(data.as_slice(), n as usize);
    bitmap_turn_off(data, n as usize);
    was
}

/// `n` is the first clear bit of a bitmap block, 8192 where there is none.
pub open spec fn is_first_zero(s: Seq<u8>, n: int) -> bool {
    &&& 0 <= n <= 8 * s.len()
    &&& forall|i: int| 0 <= i < n ==> #[trigger] bitmap_bit(s, i)
    &&& n < 8 * s.len() ==> !bitmap_bit(s, n)
}

/// The first clear bit of a bitmap block, 8192 where there is none.
pub open spec fn first_zero(s: Seq<u8>) -> int {
    choose|n: int| is_first_zero(s, n)
}

/// There is only one first clear bit.
pub proof fn lemma_first_zero(s: Seq<u8>, n: int)
    requires
        is_first_zero(s, n),
    ensures
        first_zero(s) == n,
{
    let m = first_zero(s);
    assert(is_first_zero(s, m));
    if m < n {
        assert(bitmap_bit(s, m));
    } else if n < m {
        assert(bitmap_bit(s, n));
    }
}

/// A byte with every bit set.
proof fn lemma_all_ones(b: u8)
    ensures
        b == 0xff <==> forall|k: int| 0 <= k < 8 ==> bit8(b, k),
{
    assert(0xffu8 & (1u8 << 0u8) != 0 && 0xffu8 & (1u8 << 1u8) != 0 && 0xffu8 & (1u8 << 2u8) != 0
        && 0xffu8 & (1u8 << 3u8) != 0 && 0xffu8 & (1u8 << 4u8) != 0 && 0xffu8 & (1u8 << 5u8) != 0
        && 0xffu8 & (1u8 << 6u8) != 0 && 0xffu8 & (1u8 << 7u8) != 0) by (bit_vector);
    assert forall|k: int| 0 <= k < 8 implies bit8(0xffu8, k) by {
        assert(k == 0 || k == 1 || k == 2 || k == 3 || k == 4 || k == 5 || k == 6 || k == 7);
    }
    if forall|k: int| 0 <= k < 8 ==> bit8(b, k) {
        crate::bits::lemma_byte_of_bits(b, 0xffu8);
    }
}

/// Finds the first clear bit of a bitmap block.
pub fn find_first_zero(data: &[u8]) -> (r: u32)
    requires
        data@.len() == 1024,
    ensures
        is_first_zero(data@, r as int),
        r == first_zero(data@),
{
    let mut i: usize = 0;
    while i < data.len()
        invariant
            i <= data@.len() == 1024,
            forall|n: int| 0 <= n < 8 * i ==> #[trigger] bitmap_bit(data@, n),
        decreases 1024 - i,
    {
        let b: u8 = data[i];
        proof {
            lemma_all_ones(b);
        }
        if b != 0xff {
            let mut k: usize = 0;
            while bitmap_get(data, 8 * i + k)
                invariant
                    i < data@.len() == 1024,
                    k < 8,
                    b == data@[i as int],
                    b != 0xff,
                    b == 0xff <==> forall|j: int| 0 <= j < 8 ==> bit8(b, j),
                    forall|n: int| 0 <= n < 8 * i + k ==> #[trigger] bitmap_bit(data@, n),
                decreases 8 - k,
            {
                proof {
                    if k == 7 {
                        assert forall|j: int| 0 <= j < 8 implies bit8(b, j) by {
                            assert(bitmap_bit(data@, 8 * i + j));
                            assert((8 * i + j) / 8 == i && (8 * i + j) % 8 == j);
                        }
                    }
                }
                k = k + 1;
            }
            proof {
                lemma_first_zero(data@, 8 * i + k);
            }
            return (8 * i + k) as u32;
        }
        assert forall|n: int| 0 <= n < 8 * (i + 1) implies #[trigger] bitmap_bit(data@, n) by {
            if n >= 8 * i {
                assert(bit8(b, n - 8 * i));
                assert(n / 8 == i && n % 8 == n - 8 * i);
            }
        }
        i = i + 1;
    }
    proof {
        lemma_first_zero(data@, 8192);
    }
    8192
}

/// A bit that was found clear and then set is no longer the first clear one, and
/// clearing it makes it the first again.
pub proof fn lemma_take_and_give_back(s: Seq<u8>, n: int)
    requires
        is_first_zero(s, n),
        n < 8 * s.len(),
    ensures
        bitmap_bit(bitmap_on(s, n), n),
        first_zero(bitmap_off(bitmap_on(s, n), n)) == n,
        bitmap_off(bitmap_on(s, n), n) == s,
{
    lemma_bitmap_on(s, n);
    crate::bits::lemma_bitmap_on_off(s, n);
    lemma_first_zero(s, n);
}

// ---- taking and giving back blocks ----

/// The bytes of a bitmap block, where the slot has one that can be read.
pub open spec fn map_bytes(c: Blocks, dev: u16, slot: usize) -> Option<Seq<u8>> {
    if slot == NIL || !c.dom().contains((dev, slot as u32)) {
        None
    } else {
        Some(c[(dev, slot as u32)])
    }
}

/// The first bitmap block from slot `i` on that has a clear bit, and the bit.
pub open spec fn first_free(c: Blocks, dev: u16, slots: Seq<usize>, i: int) -> Option<(int, int)>
    decreases 8 - i,
{
    if i >= 8 {
        None
    } else {
        match map_bytes(c, dev, slots[i]) {
            Some(s) => if first_zero(s) < 8192 {
                Some((i, first_zero(s)))
            } else {
                first_free(c, dev, slots, i + 1)
            },
            None => first_free(c, dev, slots, i + 1),
        }
    }
}

/// Finds the first bitmap block with a clear bit: the slot, the bit and the
/// block's bytes.
fn find_free(fs: &mut Fs, dev: u16, slots: &[usize; 8]) -> (r: Option<(usize, u32, Vec<u8>)>)
    requires
        old(fs).wf(),
        forall|i: int| 0 <= i < 8 ==> #[trigger] slots@[i] == NIL || slots@[i] <= u32::MAX,
    ensures
        final(fs).wf(),
        final(fs).blocks() == old(fs).blocks(),
        *final(fs) == (Fs { cache: final(fs).cache, ..*old(fs) }),
        match first_free(old(fs).blocks(), dev, slots@, 0) {
            None => r is None,
            Some((i, j)) => {
                &&& r is Some
                &&& (r->0).0 == i && (r->0).1 == j
                &&& 0 <= i < 8
                &&& slots@[i] != NIL && old(fs).blocks().dom().contains((dev, slots@[i] as u32))
                &&& (r->0).2@ == old(fs).blocks()[(dev, slots@[i] as u32)]
                &&& (r->0).2@.len() == 1024
                &&& is_first_zero((r->0).2@, j) && j < 8192
            },
        },
{
    let mut i: usize = 0;
    while i < 8
        invariant
            fs.wf(),
            i <= 8,
            fs.blocks() == old(fs).blocks(),
            *fs == (Fs { cache: fs.cache, ..*old(fs) }),
            forall|k: int| 0 <= k < 8 ==> #[trigger] slots@[k] == NIL || slots@[k] <= u32::MAX,
            first_free(old(fs).blocks(), dev, slots@, 0) == first_free(
                old(fs).blocks(),
                dev,
                slots@,
                i as int,
            ),
        decreases 8 - i,
    {
        let b: usize = slots[i];
        if b != NIL {
            match fs.cache.read_block(dev, b as u32) {
                None => {},
                Some(data) => {
                    let j: u32 = find_first_zero(data.as_slice());
                    if j < 8192 {
                        return Some((i, j, data));
                    }
                },
            }
        }
        i = i + 1;
    }
    None
}

/// The blocks after taking a block of the data area, and the block: zero where
/// no bit of the bitmap is clear, or the first clear one stands for no block of
/// the data area. That bit is set all the same. A new block is zeroed.
pub open spec fn new_block_spec(c: Blocks, s: SuperBlock) -> (Blocks, int) {
    match first_free(c, s.s_dev, s.s_zmap@, 0) {
        None => (c, 0),
        Some((i, j)) => {
            let key = (s.s_dev, s.s_zmap@[i] as u32);
            let c1 = c.insert(key, bitmap_on(c[key], j));
            let block = j + 8192 * i + s.s_firstdatazone - 1;
            if block < s.s_firstdatazone || block >= s.s_nzones {
                (c1, 0)
            } else if c1.dom().contains((s.s_dev, block as u32)) {
                (c1.insert((s.s_dev, block as u32), zeros(1024)), block)
            } else {
                (c1, block)
            }
        },
    }
}

/// Takes a block of the data area and zeroes it. Answers zero where there is
/// none.
pub fn new_block(fs: &mut Fs, sb_nr: usize) -> (r: u32)
    requires
        old(fs).wf(),
        sb_nr == NIL || sb_nr < 4,
    ensures
        final(fs).wf(),
        *final(fs) == (Fs { cache: final(fs).cache, ..*old(fs) }),
        sb_nr == NIL ==> r == 0 && final(fs).blocks() == old(fs).blocks(),
        sb_nr != NIL ==> ({
            let (c, b) = new_block_spec(old(fs).blocks(), old(fs).supers@[sb_nr as int]);
            final(fs).blocks() == c && r == b && r <= 0xFFFF
        }),
{
    if sb_nr == NIL {
        return 0;
    }
    let s: SuperBlock = fs.supers[sb_nr];
    match find_free(fs, s.s_dev, &s.s_zmap) {
        None => 0,
        Some((i, j, mut data)) => {
            let was: bool = set_bit(&mut data, j);
            proof {
                lemma_bitmap_on(old(fs).blocks()[(s.s_dev, s.s_zmap@[i as int] as u32)], j as int);
            }
            let ok: bool = fs.cache.write_block(s.s_dev, s.s_zmap[i] as u32, data.as_slice());
            let sum: u32 = j + i as u32 * 8192 + s.s_firstdatazone as u32;
            if sum == 0 {
                return 0;
            }
            let block: u32 = sum - 1;
            if block < s.s_firstdatazone as u32 || block >= s.s_nzones as u32 {
                return 0;
            }
            let zero: Vec<u8> = zeroed(1024);
            let done: bool = fs.cache.write_block(s.s_dev, block, zero.as_slice());
            block
        },
    }
}

/// The bit of a block of the data area.
pub open spec fn zone_bit(s: SuperBlock, block: int) -> int {
    block - s.s_firstdatazone + 1
}

/// The block is one of the data area.
pub open spec fn in_zones(s: SuperBlock, block: int) -> bool {
    s.s_firstdatazone <= block < s.s_nzones
}

/// The blocks `c` after giving a block back, with `stored` on the devices: what was
/// written to it and not yet stored is lost, and its bit is cleared. It has to be of
/// the data area, and its bitmap block to be there.
pub open spec fn free_block_spec(c: Blocks, stored: Blocks, s: SuperBlock, block: int) -> Blocks {
    if !in_zones(s, block) {
        c
    } else {
        let c1 = forgotten(c, stored, (s.s_dev, block as u32));
        let zone = zone_bit(s, block);
        let slot = s.s_zmap@[zone / 8192];
        match map_bytes(c1, s.s_dev, slot) {
            None => c1,
            Some(d) => c1.insert((s.s_dev, slot as u32), bitmap_off(d, zone % 8192)),
        }
    }
}

/// From the cache `k0` to the cache `k` a block was given back. What was written to it
/// does not reach the device any more.
pub open spec fn block_freed(k0: &BufferCache, k: &BufferCache, s: SuperBlock, block: int) -> bool {
    &&& k.content() == free_block_spec(k0.content(), k0.stored(), s, block)
    &&& k.stored() == k0.stored() || in_zones(s, block) && k.stored() == forgotten(
        k0.content(),
        k0.stored(),
        (s.s_dev, block as u32),
    )
}

/// A block that was given back reads as what its device holds, which is what it held
/// before, unless the block is that of its own bit.
pub proof fn lemma_freed_block(k0: &BufferCache, k: &BufferCache, s: SuperBlock, block: int)
    requires
        block_freed(k0, k, s, block),
        in_zones(s, block),
        k0.content().dom().contains((s.s_dev, block as u32)),
        s.s_zmap@[zone_bit(s, block) / 8192] as u32 != block as u32,
    ensures
        k.content()[(s.s_dev, block as u32)] == k.stored()[(s.s_dev, block as u32)],
        k.stored()[(s.s_dev, block as u32)] == k0.stored()[(s.s_dev, block as u32)],
{
}

/// Gives a block back. Its copy in the cache is forgotten first, so that what was
/// written to it does not end up in a file that gets the block later.
pub fn free_block(fs: &mut Fs, sb_nr: usize, block: u32)
    requires
        old(fs).wf(),
        sb_nr == NIL || sb_nr < 4,
    ensures
        final(fs).wf(),
        *final(fs) == (Fs { cache: final(fs).cache, ..*old(fs) }),
        sb_nr == NIL ==> *final(fs) == *old(fs),
        sb_nr != NIL ==> block_freed(
            &old(fs).cache,
            &final(fs).cache,
            old(fs).supers@[sb_nr as int],
            block as int,
        ),
{
    if sb_nr == NIL {
        return;
    }
    let s: SuperBlock = fs.supers[sb_nr];
    if block < s.s_firstdatazone as u32 || block >= s.s_nzones as u32 {
        return;
    }
    fs.cache.forget(s.s_dev, block);
    let zone: u32 = block - s.s_firstdatazone as u32 + 1;
    let bit: u32 = zone % 8192;
    let idx: usize = (zone / 8192) as usize;
    let map: usize = s.s_zmap[idx];
    if map == NIL {
        return;
    }
    match fs.cache.read_block(s.s_dev, map as u32) {
        None => {},
        Some(mut data) => {
            let was: bool = clear_bit(&mut data, bit);
            let ok: bool = fs.cache.write_block(s.s_dev, map as u32, data.as_slice());
        },
    }
}

/// How many of the first `n` bits are clear.
pub open spec fn clear_bits(s: Seq<u8>, n: int) -> int
    decreases n,
{
    if n <= 0 {
        0
    } else {
        clear_bits(s, n - 1) + (if bitmap_bit(s, n - 1) {
            0int
        } else {
            1
        })
    }
}

/// How many bits of the bitmap blocks in the first `n` slots are clear.
pub open spec fn free_in(c: Blocks, dev: u16, slots: Seq<usize>, n: int) -> int
    decreases n,
{
    if n <= 0 {
        0
    } else {
        free_in(c, dev, slots, n - 1) + match map_bytes(c, dev, slots[n - 1]) {
            None => 0,
            Some(s) => clear_bits(s, 8192),
        }
    }
}

/// Counts the clear bits of the zone bitmap or of the inode bitmap.
pub fn count_free(fs: &mut Fs, sb_nr: usize, zmap: bool) -> (r: u32)
    requires
        old(fs).wf(),
        sb_nr < 4,
    ensures
        final(fs).wf(),
        final(fs).blocks() == old(fs).blocks(),
        *final(fs) == (Fs { cache: final(fs).cache, ..*old(fs) }),
        ({
            let s = old(fs).supers@[sb_nr as int];
            r == free_in(
                old(fs).blocks(),
                s.s_dev,
                if zmap {
                    s.s_zmap@
                } else {
                    s.s_imap@
                },
                8,
            )
        }),
{
    let s: SuperBlock = fs.supers[sb_nr];
    let slots: [usize; 8] = if zmap {
        s.s_zmap
    } else {
        s.s_imap
    };
    let ghost c = fs.blocks();
    let mut free: u32 = 0;
    let mut i: usize = 0;
    while i < 8
        invariant
            fs.wf(),
            i <= 8,
            fs.blocks() == c,
            c == old(fs).blocks(),
            *fs == (Fs { cache: fs.cache, ..*old(fs) }),
            forall|k: int| 0 <= k < 8 ==> #[trigger] slots@[k] == NIL || slots@[k] <= u32::MAX,
            free == free_in(c, s.s_dev, slots@, i as int),
            free <= 8192 * i,
        decreases 8 - i,
    {
        let b: usize = slots[i];
        if b != NIL {
            match fs.cache.read_block(s.s_dev, b as u32) {
                None => {},
                Some(data) => {
                    let mut k: usize = 0;
                    let ghost before = free;
                    while k < 8192
                        invariant
                            k <= 8192,
                            data@.len() == 1024,
                            before <= 65536,
                            free == before + clear_bits(data@, k as int),
                            free <= before + k,
                        decreases 8192 - k,
                    {
                        if !bitmap_get(data.as_slice(), k) {
                            free = free + 1;
                        }
                        k = k + 1;
                    }
                },
            }
        }
        i = i + 1;
    }
    free
}

/// The numbers of the set bits among the first `n`, with `base` added.
pub open spec fn set_bits(s: Seq<u8>, n: int, base: int) -> Seq<u32>
    decreases n,
{
    if n <= 0 {
        Seq::empty()
    } else if bitmap_bit(s, n - 1) {
        set_bits(s, n - 1, base).push((base + n - 1) as u32)
    } else {
        set_bits(s, n - 1, base)
    }
}

/// The numbers of the set bits in the first `n` bitmap blocks.
pub open spec fn zones_in(c: Blocks, dev: u16, slots: Seq<usize>, n: int) -> Seq<u32>
    decreases n,
{
    if n <= 0 {
        Seq::empty()
    } else {
        zones_in(c, dev, slots, n - 1) + match map_bytes(c, dev, slots[n - 1]) {
            None => Seq::empty(),
            Some(s) => set_bits(s, 8192, 8192 * (n - 1)),
        }
    }
}

/// Lists the taken zones.
pub fn allocated_zones(fs: &mut Fs, sb_nr: usize) -> (r: Vec<u32>)
    requires
        old(fs).wf(),
        sb_nr < 4,
    ensures
        final(fs).wf(),
        final(fs).blocks() == old(fs).blocks(),
        *final(fs) == (Fs { cache: final(fs).cache, ..*old(fs) }),
        ({
            let s = old(fs).supers@[sb_nr as int];
            r@ == zones_in(old(fs).blocks(), s.s_dev, s.s_zmap@, 8)
        }),
{
    let s: SuperBlock = fs.supers[sb_nr];
    let ghost c = fs.blocks();
    let mut out: Vec<u32> = Vec::new();
    let mut i: usize = 0;
    while i < 8
        invariant
            fs.wf(),
            i <= 8,
            fs.blocks() == c,
            c == old(fs).blocks(),
            *fs == (Fs { cache: fs.cache, ..*old(fs) }),
            s.links_ok(),
            out@ == zones_in(c, s.s_dev, s.s_zmap@, i as int),
        decreases 8 - i,
    {
        let b: usize = s.s_zmap[i];
        if b != NIL {
            match fs.cache.read_block(s.s_dev, b as u32) {
                None => {},
                Some(data) => {
                    let mut k: usize = 0;
                    let ghost before = out@;
                    assert(before + set_bits(data@, 0, 8192 * i) =~= before);
                    while k < 8192
                        invariant
                            k <= 8192,
                            i < 8,
                            data@.len() == 1024,
                            out@ == before + set_bits(data@, k as int, 8192 * i),
                        decreases 8192 - k,
                    {
                        let ghost so_far = set_bits(data@, k as int, 8192 * i);
                        if bitmap_get(data.as_slice(), k) {
                            out.push((i * 8192 + k) as u32);
                            assert(before + so_far.push((8192 * i + k) as u32) =~= (before + so_far).push(
                                (8192 * i + k) as u32,
                            ));
                        }
                        k = k + 1;
                    }
                },
            }
        }
        assert(out@ =~= zones_in(c, s.s_dev, s.s_zmap@, i + 1));
        i = i + 1;
    }
    out
}

// ---- taking and giving back inodes ----

/// The conditions on which inode `i` may be given back: it is of a device and a
/// file system, referred to once, linked to from nowhere, its number is one of
/// the file system's, and the bitmap block is kept track of.
pub open spec fn may_free(supers: Seq<SuperBlock>, i: Inode) -> bool {
    &&& i.i_dev != 0
    &&& i.i_count == 1
    &&& i.i_nlink == 0
    &&& i.i_sb != NIL
    &&& 1 <= i.i_ino < supers[i.i_sb as int].s_ninodes
    &&& supers[i.i_sb as int].s_imap@[i.i_ino as int / 8192] != NIL
}

/// The blocks after the inode number `ino` was given back.
pub open spec fn free_ino_spec(c: Blocks, s: SuperBlock, ino: int) -> Blocks {
    let slot = s.s_imap@[ino / 8192];
    match map_bytes(c, s.s_dev, slot) {
        None => c,
        Some(d) => c.insert((s.s_dev, slot as u32), bitmap_off(d, ino % 8192)),
    }
}

/// Gives inode `n` back and empties its slot; does nothing where it may not be
/// given back.
pub fn free_inode(fs: &mut Fs, n: usize)
    requires
        old(fs).wf(),
        n == NIL || n < 64,
    ensures
        final(fs).wf(),
        *final(fs) == (Fs { cache: final(fs).cache, inodes: final(fs).inodes, ..*old(fs) }),
        ({
            let i = old(fs).inodes@[n as int];
            if n != NIL && may_free(old(fs).supers@, i) {
                &&& final(fs).blocks() == free_ino_spec(
                    old(fs).blocks(),
                    old(fs).supers@[i.i_sb as int],
                    i.i_ino as int,
                )
                &&& final(fs).inodes@ == old(fs).inodes@.update(
                    n as int,
                    final(fs).inodes@[n as int],
                )
                &&& final(fs).inodes@[n as int].is_clear()
                &&& wrote_back(&old(fs).cache, &final(fs).cache)
            } else {
                *final(fs) == *old(fs)
            }
        }),
{
    if n == NIL {
        return;
    }
    let i: Inode = fs.inodes[n];
    if i.i_dev == 0 || i.i_count != 1 || i.i_nlink != 0 || i.i_sb == NIL {
        return;
    }
    let s: SuperBlock = fs.supers[i.i_sb];
    let ino: u32 = i.i_ino;
    if ino < 1 || ino >= s.s_ninodes as u32 {
        return;
    }
    let map: usize = s.s_imap[(ino / 8192) as usize];
    if map == NIL {
        return;
    }
    clear_inode(fs, n);
    match fs.cache.read_block(s.s_dev, map as u32) {
        None => {},
        Some(mut data) => {
            let was: bool = clear_bit(&mut data, ino % 8192);
            let ok: bool = fs.cache.write_block(s.s_dev, map as u32, data.as_slice());
        },
    }
}

// ---- taking an inode ----

/// Inode `i` is `x`, which was just taken, as a new inode of number `ino` in the
/// file system `sb`, made in the directory `dir`. The group is that of a
/// directory which hands its group on.
pub open spec fn fresh_inode(
    x: Inode,
    i: Inode,
    sb_nr: usize,
    sb: SuperBlock,
    dir: Inode,
    ino: int,
    now: u32,
) -> bool {
    &&& is_taken(x)
    &&& i == (Inode {
        i_sb: sb_nr,
        i_flags: sb.s_flags,
        i_dev: sb.s_dev,
        i_ino: ino as u32,
        i_gid: if dir.i_mode & 0o2000 != 0 {
            dir.i_gid
        } else {
            0
        },
        i_mtime: now,
        i_atime: now,
        i_ctime: now,
        i_dirt: true,
        i_blksize: 1024,
        ..x
    })
}

/// A slot that was taken and given back unused.
pub open spec fn is_unused(i: Inode) -> bool {
    Inode { i_nlink: 0, ..i }.is_clear() && i.i_nlink == 1
}

/// What `new_inode` does to the blocks `c0` and the table `s0`, with answer `r`:
/// the first clear bit of the inode bitmap is set. One that stands for no inode
/// stays set, but gives none.
pub open spec fn inode_made(
    c0: Blocks,
    s0: Seq<Inode>,
    c: Blocks,
    s: Seq<Inode>,
    supers: Seq<SuperBlock>,
    now: u32,
    dir: usize,
    r: usize,
) -> bool {
    if dir == NIL || s0[dir as int].i_sb == NIL || forall|j: int|
        0 <= j < 64 ==> (#[trigger] s0[j]).i_count != 0 {
        r == NIL && c == c0 && s == s0
    } else {
        let sb_nr = s0[dir as int].i_sb;
        let sb = supers[sb_nr as int];
        &&& r == NIL || r < 64
        &&& forall|k: int|
            #[trigger] is_pick(s0, k) ==> {
                let c1 = flushed(c0, supers, s0[k]);
                &&& s == s0.update(k, s[k])
                &&& match first_free(c1, sb.s_dev, sb.s_imap@, 0) {
                    None => r == NIL && c == c1 && is_unused(s[k]),
                    Some((i, j)) => {
                        let key = (sb.s_dev, sb.s_imap@[i] as u32);
                        let ino = j + 8192 * i;
                        &&& c == c1.insert(key, bitmap_on(c1[key], j))
                        &&& if ino == 0 || ino >= sb.s_ninodes {
                            r == NIL && is_unused(s[k])
                        } else {
                            &&& r == k
                            &&& exists|x: Inode|
                                #[trigger] fresh_inode(
                                    x,
                                    s[k],
                                    sb_nr,
                                    sb,
                                    s0[dir as int],
                                    ino,
                                    now,
                                )
                        }
                    },
                }
            }
    }
}

/// Only one slot is the one to take.
pub proof fn lemma_one_pick(s: Seq<Inode>, a: int, b: int)
    requires
        is_pick(s, a),
        is_pick(s, b),
    ensures
        a == b,
{
    if a < b {
        assert(s[a].i_count == 0);
    } else if b < a {
        assert(s[b].i_count == 0);
    }
}

/// Takes a new inode for a file in the directory `dir`. `NIL` where the bitmap
/// has none, or the table no slot.
#[verifier::spinoff_prover]
#[verifier::rlimit(80)]
pub fn new_inode(fs: &mut Fs, dir: usize) -> (r: usize)
    requires
        old(fs).wf(),
        dir == NIL || dir < 64,
        dir != NIL ==> old(fs).inodes@[dir as int].i_count > 0,
    ensures
        final(fs).wf(),
        *final(fs) == (Fs { cache: final(fs).cache, inodes: final(fs).inodes, ..*old(fs) }),
        inode_made(
            old(fs).blocks(),
            old(fs).inodes@,
            final(fs).blocks(),
            final(fs).inodes@,
            old(fs).supers@,
            old(fs).now,
            dir,
            r,
        ),
        r != NIL ==> r < 64 && r != dir && is_pick(old(fs).inodes@, r as int),
{
    if dir == NIL {
        return NIL;
    }
    let sb_nr: usize = fs.inodes[dir].i_sb;
    if sb_nr == NIL {
        return NIL;
    }
    let ghost s0 = fs.inodes@;
    let n: usize = get_empty_inode(fs);
    if n == NIL {
        return NIL;
    }
    let ghost c1 = fs.blocks();
    let ghost x = fs.inodes@[n as int];
    proof {
        assert(s0[n as int].i_count == 0);
        assert(n != dir);
        assert forall|k: int| #[trigger] is_pick(s0, k) implies k == n by {
            lemma_one_pick(s0, k, n as int);
        }
        assert(!forall|j: int| 0 <= j < 64 ==> (#[trigger] s0[j]).i_count != 0);
    }
    let sb: SuperBlock = fs.supers[sb_nr];
    match find_free(fs, sb.s_dev, &sb.s_imap) {
        None => {
            iput(fs, n);
            proof {
                lemma_unused(x, fs.inodes@[n as int]);
                assert(fs.inodes@ =~= s0.update(n as int, fs.inodes@[n as int]));
                assert(fs.blocks() == c1);
                assert(inode_made(
                    old(fs).blocks(),
                    s0,
                    fs.blocks(),
                    fs.inodes@,
                    fs.supers@,
                    fs.now,
                    dir,
                    NIL,
                ));
            }
            NIL
        },
        Some((i, j, mut data)) => {
            let was: bool = set_bit(&mut data, j);
            proof {
                lemma_bitmap_on(c1[(sb.s_dev, sb.s_imap@[i as int] as u32)], j as int);
            }
            let ok: bool = fs.cache.write_block(sb.s_dev, sb.s_imap[i] as u32, data.as_slice());
            let ino: u32 = j + i as u32 * 8192;
            if ino == 0 || ino >= sb.s_ninodes as u32 {
                iput(fs, n);
                proof {
                    lemma_unused(x, fs.inodes@[n as int]);
                    assert(fs.inodes@ =~= s0.update(n as int, fs.inodes@[n as int]));
                    assert(inode_made(
                        old(fs).blocks(),
                        s0,
                        fs.blocks(),
                        fs.inodes@,
                        fs.supers@,
                        fs.now,
                        dir,
                        NIL,
                    ));
                }
                return NIL;
            }
            let dir_mode: u16 = fs.inodes[dir].i_mode;
            let dir_gid: u16 = fs.inodes[dir].i_gid;
            let mut ni: Inode = fs.inodes[n];
            ni.i_sb = sb_nr;
            ni.i_flags = sb.s_flags;
            ni.i_dev = sb.s_dev;
            ni.i_ino = ino;
            ni.i_gid = if dir_mode & S_ISGID != 0 {
                dir_gid
            } else {
                0
            };
            ni.i_mtime = fs.now;
            ni.i_atime = fs.now;
            ni.i_ctime = fs.now;
            ni.i_dirt = true;
            ni.i_blksize = 1024;
            fs.inodes[n] = ni;
            proof {
                assert(fs.inodes@ =~= s0.update(n as int, ni));
                assert(fresh_inode(x, ni, sb_nr, sb, s0[dir as int], ino as int, fs.now));
                assert(inode_made(
                    old(fs).blocks(),
                    s0,
                    fs.blocks(),
                    fs.inodes@,
                    fs.supers@,
                    fs.now,
                    dir,
                    n,
                ));
            }
            n
        },
    }
}

/// A taken slot that is given back is unused.
proof fn lemma_unused(x: Inode, i: Inode)
    requires
        is_taken(x),
        i == (Inode { i_dirt: false, i_count: 0, in_use: false, ..x }),
    ensures
        is_unused(i),
{
    let y = Inode { i_count: 0, i_nlink: 0, in_use: false, ..x };
    assert(y.data@ == i.data@);
}

} // verus!
