//! Making an empty file system of one group with blocks of 1024 bytes.
//!
//! Block 1 is the super block, block 2 the group descriptor, blocks 3 and 4 are the
//! bitmaps of blocks and inodes, and the inode table starts at block 5. The root
//! directory is inode 2; its block is block 13.

use super::dir::{block_lookup, entries_from, entry_at, first_named, is_named, name_of};
use super::extent::{extent_at, header_of, is_node, leaf_lookup, upper};
use super::ops::mount::{inode_size, is_super};
use crate::bytes::{
    le16, le32, lemma_with_le16, lemma_with_le32, put_le16, put_le32, with_le16, with_le32, zeroed,
    zeros,
};
use crate::fs::{Blocks, Fs};
use vstd::prelude::*;

verus! {

pub open spec fn super_image(total: u32) -> Seq<u8> {
    let d = with_le32(zeros(1024), 0, 32);
    let d = with_le32(d, 4, total);
    let d = with_le32(d, 8, 0);
    let d = with_le32(d, 12, (total - 12) as u32);
    let d = with_le32(d, 16, 21);
    let d = with_le32(d, 32, total);
    let d = with_le32(d, 40, 32);
    let d = with_le16(d, 52, 1);
    let d = with_le16(d, 54, 30);
    let d = d.update(56, 0x53u8).update(57, 0xEFu8);
    let d = with_le32(d, 76, 1);
    let d = d.update(88, 0u8).update(89, 1u8);
    let d = with_le32(d, 96, 0x42);
    with_le32(d, 100, 0x3)
}

pub open spec fn desc_image(total: u32) -> Seq<u8> {
    let d = with_le32(zeros(1024), 0, 3);
    let d = with_le32(d, 4, 4);
    let d = with_le32(d, 8, 5);
    let d = with_le16(d, 12, ((total - 13) % 65536) as u16);
    let d = with_le16(d, 14, 21);
    with_le16(d, 16, 2)
}

pub open spec fn block_map_image() -> Seq<u8> {
    zeros(1024).update(0, 0xFFu8).update(1, 0x1Fu8)
}

pub open spec fn inode_map_image() -> Seq<u8> {
    zeros(1024).update(0, 0xFFu8).update(1, 0x07u8)
}

/// The first block of the inode table. Inode 2 starts at offset 256; its tree of
/// extents at 296 has one extent, of block 13.
pub open spec fn inode_image() -> Seq<u8> {
    let d = zeros(1024).update(256, 0xEDu8).update(257, 0x41u8);
    let d = d.update(260, 0u8).update(261, 4u8).update(282, 2u8);
    let d = d.update(288, 0u8).update(289, 0u8).update(290, 8u8).update(291, 0u8);
    let d = d.update(296, 0x0Au8).update(297, 0xF3u8).update(298, 1u8).update(299, 0u8);
    let d = d.update(300, 4u8).update(301, 0u8);
    let d = with_le32(d, 308, 0);
    let d = with_le16(d, 312, 1);
    let d = with_le16(d, 314, 0);
    let d = with_le32(d, 316, 13);
    d.update(384, 28u8)
}

/// The block of the root directory, with its two entries.
pub open spec fn root_image() -> Seq<u8> {
    let d = with_le32(zeros(1024), 0, 2);
    let d = with_le16(d, 4, 12);
    let d = d.update(6, 1u8).update(7, 2u8).update(8, 46u8);
    let d = with_le32(d, 12, 2);
    let d = with_le16(d, 16, 1012);
    d.update(18, 2u8).update(19, 2u8).update(20, 46u8).update(21, 46u8)
}

/// Block `b` of an empty file system of `total` blocks, where it was `d0` before.
pub open spec fn image(total: u32, b: int, d0: Seq<u8>) -> Seq<u8> {
    if b == 0 {
        zeros(1024)
    } else if b == 1 {
        super_image(total)
    } else if b == 2 {
        desc_image(total)
    } else if b == 3 {
        block_map_image()
    } else if b == 4 {
        inode_map_image()
    } else if b == 5 {
        inode_image()
    } else if b == 13 {
        root_image()
    } else {
        d0
    }
}

/// The blocks `c` are `c0` with an empty file system on device `dev`.
pub open spec fn is_made(c0: Blocks, c: Blocks, dev: u16, total: u32) -> bool {
    &&& c.dom() == c0.dom()
    &&& forall|k: (u16, u32)|
        #[trigger] c0.dom().contains(k) ==> c[k] == (if k.0 == dev {
            image(total, k.1 as int, c0[k])
        } else {
            c0[k]
        })
}

fn super_bytes(total: u32) -> (d: Vec<u8>)
    requires
        total >= 13,
    ensures
        d@ == super_image(total),
        d@.len() == 1024,
{
    let mut d: Vec<u8> = zeroed(1024);
    put_le32(&mut d, 0, 32);
    put_le32(&mut d, 4, total);
    put_le32(&mut d, 8, 0);
    put_le32(&mut d, 12, total - 12);
    put_le32(&mut d, 16, 21);
    put_le32(&mut d, 32, total);
    put_le32(&mut d, 40, 32);
    put_le16(&mut d, 52, 1);
    put_le16(&mut d, 54, 30);
    d[56] = 0x53;
    d[57] = 0xEF;
    put_le32(&mut d, 76, 1);
    d[88] = 0;
    d[89] = 1;
    put_le32(&mut d, 96, 0x42);
    put_le32(&mut d, 100, 0x3);
    d
}

fn desc_bytes(total: u32) -> (d: Vec<u8>)
    requires
        total >= 13,
    ensures
        d@ == desc_image(total),
        d@.len() == 1024,
{
    let mut d: Vec<u8> = zeroed(1024);
    put_le32(&mut d, 0, 3);
    put_le32(&mut d, 4, 4);
    put_le32(&mut d, 8, 5);
    put_le16(&mut d, 12, ((total - 13) % 65536) as u16);
    put_le16(&mut d, 14, 21);
    put_le16(&mut d, 16, 2);
    d
}

fn map_bytes(second: u8) -> (d: Vec<u8>)
    ensures
        d@ == zeros(1024).update(0, 0xFFu8).update(1, second),
        d@.len() == 1024,
{
    let mut d: Vec<u8> = zeroed(1024);
    d[0] = 0xFF;
    d[1] = second;
    d
}

fn inode_bytes() -> (d: Vec<u8>)
    ensures
        d@ == inode_image(),
        d@.len() == 1024,
{
    let mut d: Vec<u8> = zeroed(1024);
    d[256] = 0xED;
    d[257] = 0x41;
    d[260] = 0;
    d[261] = 4;
    d[282] = 2;
    d[288] = 0;
    d[289] = 0;
    d[290] = 8;
    d[291] = 0;
    d[296] = 0x0A;
    d[297] = 0xF3;
    d[298] = 1;
    d[299] = 0;
    d[300] = 4;
    d[301] = 0;
    put_le32(&mut d, 308, 0);
    put_le16(&mut d, 312, 1);
    put_le16(&mut d, 314, 0);
    put_le32(&mut d, 316, 13);
    d[384] = 28;
    d
}

fn root_bytes() -> (d: Vec<u8>)
    ensures
        d@ == root_image(),
        d@.len() == 1024,
{
    let mut d: Vec<u8> = zeroed(1024);
    put_le32(&mut d, 0, 2);
    put_le16(&mut d, 4, 12);
    d[6] = 1;
    d[7] = 2;
    d[8] = 46;
    put_le32(&mut d, 12, 2);
    put_le16(&mut d, 16, 1012);
    d[18] = 2;
    d[19] = 2;
    d[20] = 46;
    d[21] = 46;
    d
}

/// Makes an empty file system of `total_blocks` blocks on device `dev`.
pub fn mkfs(fs: &mut Fs, dev: u16, total_blocks: u32, _inode_ratio: u32) -> (r: bool)
    requires
        old(fs).wf(),
        total_blocks >= 13,
    ensures
        final(fs).wf(),
        *final(fs) == (Fs { cache: final(fs).cache, ..*old(fs) }),
        is_made(old(fs).blocks(), final(fs).blocks(), dev, total_blocks),
        r,
{
    let boot: Vec<u8> = zeroed(1024);
    let ok: bool = fs.cache.write_block(dev, 0, boot.as_slice());
    let sb: Vec<u8> = super_bytes(total_blocks);
    let ok: bool = fs.cache.write_block(dev, 1, sb.as_slice());
    let desc: Vec<u8> = desc_bytes(total_blocks);
    let ok: bool = fs.cache.write_block(dev, 2, desc.as_slice());
    let blocks: Vec<u8> = map_bytes(0x1F);
    let ok: bool = fs.cache.write_block(dev, 3, blocks.as_slice());
    let inodes: Vec<u8> = map_bytes(0x07);
    let ok: bool = fs.cache.write_block(dev, 4, inodes.as_slice());
    let table: Vec<u8> = inode_bytes();
    let ok: bool = fs.cache.write_block(dev, 5, table.as_slice());
    let root: Vec<u8> = root_bytes();
    let ok: bool = fs.cache.write_block(dev, 13, root.as_slice());
    assert(fs.blocks().dom() =~= old(fs).blocks().dom());
    true
}

/// A file system that was just made is found when it is mounted: inodes have 256
/// bytes, blocks 1024.
pub proof fn lemma_mkfs_super(total: u32)
    requires
        total >= 13,
    ensures
        is_super(super_image(total)),
        le32(super_image(total), 24) == 0,
        inode_size(super_image(total)) == 256,
        le32(super_image(total), 4) == total,
{
    let d0 = zeros(1024);
    lemma_with_le32(d0, 0, 32);
    let d1 = with_le32(d0, 0, 32);
    lemma_with_le32(d1, 4, total);
    let d2 = with_le32(d1, 4, total);
    lemma_with_le32(d2, 8, 0);
    let d3 = with_le32(d2, 8, 0);
    lemma_with_le32(d3, 12, (total - 12) as u32);
    let d4 = with_le32(d3, 12, (total - 12) as u32);
    lemma_with_le32(d4, 16, 21);
    let d5 = with_le32(d4, 16, 21);
    lemma_with_le32(d5, 32, total);
    let d6 = with_le32(d5, 32, total);
    lemma_with_le32(d6, 40, 32);
    let d7 = with_le32(d6, 40, 32);
    lemma_with_le16(d7, 52, 1);
    let d8 = with_le16(d7, 52, 1);
    lemma_with_le16(d8, 54, 30);
    let d9 = with_le16(d8, 54, 30).update(56, 0x53u8).update(57, 0xEFu8);
    lemma_with_le32(d9, 76, 1);
    let da = with_le32(d9, 76, 1).update(88, 0u8).update(89, 1u8);
    lemma_with_le32(da, 96, 0x42);
    let db = with_le32(da, 96, 0x42);
    lemma_with_le32(db, 100, 0x3);
    let d = super_image(total);
    assert(d[24] == 0 && d[25] == 0 && d[26] == 0 && d[27] == 0);
    assert(d[76] == 1 && d[77] == 0 && d[78] == 0 && d[79] == 0);
    assert(d[88] == 0 && d[89] == 1);
    assert(d[4] == d2[4] && d[5] == d2[5] && d[6] == d2[6] && d[7] == d2[7]);
    assert(d[56] == 0x53 && d[57] == 0xEF);
    vstd::arithmetic::power2::lemma2_to64();
}

/// The root directory of a file system that was just made: its first block is
/// block 13, and both its entries lead to itself.
pub proof fn lemma_mkfs_root()
    ensures
        ({
            let ib = inode_image().subrange(296, 356);
            &&& is_node(ib)
            &&& header_of(ib).eh_depth == 0
            &&& leaf_lookup(ib, 0) is Some
            &&& leaf_lookup(ib, 0)->0.ee_block == 0
            &&& leaf_lookup(ib, 0)->0.start() == 13
        }),
        block_lookup(root_image(), seq![46u8]) == Some(2u32),
        block_lookup(root_image(), seq![46u8, 46u8]) == Some(2u32),
{
    let i0 = zeros(1024).update(256, 0xEDu8).update(257, 0x41u8).update(260, 0u8).update(
        261,
        4u8,
    ).update(282, 2u8).update(288, 0u8).update(289, 0u8).update(290, 8u8).update(291, 0u8).update(
        296,
        0x0Au8,
    ).update(297, 0xF3u8).update(298, 1u8).update(299, 0u8).update(300, 4u8).update(301, 0u8);
    lemma_with_le32(i0, 308, 0);
    let i1 = with_le32(i0, 308, 0);
    lemma_with_le16(i1, 312, 1);
    let i2 = with_le16(i1, 312, 1);
    lemma_with_le16(i2, 314, 0);
    let i3 = with_le16(i2, 314, 0);
    lemma_with_le32(i3, 316, 13);
    let im = inode_image();
    let ib = im.subrange(296, 356);
    assert(ib[0] == 0x0A && ib[1] == 0xF3 && ib[2] == 1 && ib[3] == 0 && ib[4] == 4 && ib[5] == 0
        && ib[6] == 0 && ib[7] == 0);
    assert(im[308] == i1[308] && im[309] == i1[309] && im[310] == i1[310] && im[311] == i1[311]);
    assert(i1[308] == 0 && i1[309] == 0 && i1[310] == 0 && i1[311] == 0);
    assert(im[312] == 1 && im[313] == 0 && im[314] == 0 && im[315] == 0);
    assert(im[316] == 13 && im[317] == 0 && im[318] == 0 && im[319] == 0);
    assert(le32(ib, 12) == 0);
    assert(header_of(ib).eh_entries == 1);
    let e = extent_at(ib, 12);
    assert(e.ee_block == 0 && e.ee_len == 1);
    reveal_with_fuel(upper, 3);
    assert(upper(ib, 0, 0, 1) == 1);
    // the entries
    let z = zeros(1024);
    lemma_with_le32(z, 0, 2);
    let r1 = with_le32(z, 0, 2);
    lemma_with_le16(r1, 4, 12);
    let r2 = with_le16(r1, 4, 12).update(6, 1u8).update(7, 2u8).update(8, 46u8);
    lemma_with_le32(r2, 12, 2);
    let r3 = with_le32(r2, 12, 2);
    lemma_with_le16(r3, 16, 1012);
    let r = root_image();
    assert(r[0] == 2 && r[1] == 0 && r[2] == 0 && r[3] == 0 && r[4] == 12 && r[5] == 0 && r[6] == 1
        && r[8] == 46);
    assert(r[12] == 2 && r[13] == 0 && r[14] == 0 && r[15] == 0);
    assert(le16(r, 16) == 1012);
    assert(r[18] == 2 && r[20] == 46 && r[21] == 46);
    let e0 = entry_at(r, 0, false)->0;
    let e1 = entry_at(r, 12, false)->0;
    assert(entry_at(r, 0, false) is Some && e0.inode == 2 && e0.name_off == 8 && e0.name_len == 1
        && e0.rec_len == 12);
    assert(entry_at(r, 12, false) is Some && e1.inode == 2 && e1.name_off == 20 && e1.name_len == 2
        && e1.rec_len == 1012);
    assert(entry_at(r, 1024, false) is None);
    reveal_with_fuel(entries_from, 4);
    let es = entries_from(r, 0, false);
    assert(es =~= seq![e0, e1]);
    assert(name_of(r, e0) =~= seq![46u8]);
    assert(name_of(r, e1) =~= seq![46u8, 46u8]);
    assert(is_named(r, e0, seq![46u8]));
    assert(!is_named(r, e0, seq![46u8, 46u8])) by {
        assert(name_of(r, e0).len() == 1);
        assert(seq![46u8, 46u8].len() == 2);
    }
    assert(es.drop_first() =~= seq![e1]);
    reveal_with_fuel(first_named, 3);
    assert(first_named(r, es, seq![46u8, 46u8]) == Some(e1));
}

} // verus!
