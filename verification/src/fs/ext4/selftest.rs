//! Checks of the readers of the on-disk formats, on bytes in memory.

use super::dir::{entries_from, entry_at, find_entry, first_named, is_named, name_of, DirIter};
use super::extent::{extent_at, header_of, key_at, upper, ExtentHeader, ExtentNode};
use super::group_desc::{ino_to_disk, ino_to_group, Ext4GroupDesc};
use super::inode::Ext4Inode;
use super::super_block::Ext4SuperBlock;
use crate::bytes::{le16, le32, padded};
use vstd::prelude::*;

verus! {

/// How many checks passed and failed.
#[derive(Debug, Clone, Copy, PartialEq, Eq, Structural)]
pub struct Tally {
    pub pass: u32,
    pub fail: u32,
}

impl Tally {
    /// Counts a check.
    fn check(&mut self, ok: bool)
        requires
            old(self).pass + old(self).fail < 1000,
        ensures
            *final(self) == (if ok {
                Tally { pass: (old(self).pass + 1) as u32, ..*old(self) }
            } else {
                Tally { fail: (old(self).fail + 1) as u32, ..*old(self) }
            }),
    {
        if ok {
            self.pass = self.pass + 1;
        } else {
            self.fail = self.fail + 1;
        }
    }
}

fn check_super(t: &mut Tally)
    requires
        old(t).pass + old(t).fail < 900,
    ensures
        *final(t) == (Tally { pass: (old(t).pass + 8) as u32, ..*old(t) }),
{
    let mut raw: [u8; 128] = [0u8;128];
    raw[56] = 0x53;
    raw[57] = 0xEF;
    raw[24] = 2;
    raw[32] = 0x00;
    raw[33] = 0x20;
    raw[4] = 0x00;
    raw[5] = 0x20;
    raw[76] = 1;
    raw[88] = 0;
    raw[89] = 1;
    raw[96] = 0x42;
    raw[100] = 0x02;
    let sb = Ext4SuperBlock::from_slice(&raw);
    proof {
        let p = padded(raw@, 1024);
        assert(p[56] == 0x53 && p[57] == 0xEF);
        assert(p[24] == 2 && p[25] == 0 && p[26] == 0 && p[27] == 0);
        assert(p[32] == 0 && p[33] == 0x20 && p[34] == 0 && p[35] == 0);
        assert(p[4] == 0 && p[5] == 0x20 && p[6] == 0 && p[7] == 0);
        assert(p[76] == 1 && p[77] == 0 && p[78] == 0 && p[79] == 0);
        assert(p[88] == 0 && p[89] == 1);
        assert(p[96] == 0x42 && p[97] == 0 && p[98] == 0 && p[99] == 0);
        assert(p[100] == 2 && p[101] == 0 && p[102] == 0 && p[103] == 0);
        assert(sb.s_feature_incompat == 0x42 && sb.s_feature_ro_compat == 2);
        assert(0x42u32 & 0x40 != 0 && 0x42u32 & 0x80 == 0 && 2u32 & 2 != 0) by (bit_vector);
        vstd::arithmetic::power2::lemma2_to64();
    }
    t.check(sb.is_valid());
    t.check(sb.block_size() == 4096);
    t.check(sb.group_count() == 1);
    t.check(sb.inode_size() == 256);
    t.check(sb.has_extent());
    t.check(sb.has_large_file());
    t.check(!sb.is_64bit());
    let mut raw2: [u8; 128] = raw;
    raw2[4] = 0x01;
    raw2[5] = 0x20;
    let sb2 = Ext4SuperBlock::from_slice(&raw2);
    proof {
        let p = padded(raw2@, 1024);
        assert(p[32] == 0 && p[33] == 0x20 && p[34] == 0 && p[35] == 0);
        assert(p[4] == 1 && p[5] == 0x20 && p[6] == 0 && p[7] == 0);
    }
    t.check(sb2.group_count() == 2);
}

fn check_groups(t: &mut Tally)
    requires
        old(t).pass + old(t).fail < 900,
    ensures
        *final(t) == (Tally { pass: (old(t).pass + 4) as u32, ..*old(t) }),
{
    let mut d: [u8; 32] = [0u8;32];
    d[0] = 5;
    d[4] = 6;
    d[8] = 7;
    d[12] = 200;
    d[14] = 64;
    match Ext4GroupDesc::from_bytes(&d, 32) {
        None => {
            t.check(false);
        },
        Some(g) => {
            t.check(g.block_bitmap == 5);
            t.check(g.inode_table == 7);
            t.check(g.free_blocks_count == 200);
        },
    }
    let mut w: [u8; 64] = [0u8;64];
    w[0] = 1;
    w[32] = 1;
    match Ext4GroupDesc::from_bytes(&w, 64) {
        None => {
            t.check(false);
        },
        Some(g) => {
            t.check(g.block_bitmap == 0x1_0000_0001);
        },
    }
}

fn check_inodes(t: &mut Tally)
    requires
        old(t).pass + old(t).fail < 900,
    ensures
        *final(t) == (Tally { pass: (old(t).pass + 8) as u32, ..*old(t) }),
{
    let mut raw: [u8; 256] = [0u8;256];
    raw[0] = 0xED;
    raw[1] = 0x81;
    raw[2] = 0xE8;
    raw[3] = 0x03;
    raw[4] = 0x00;
    raw[5] = 0x10;
    raw[24] = 0xE8;
    raw[25] = 0x03;
    raw[26] = 1;
    raw[120] = 0x01;
    raw[122] = 0x02;
    raw[128] = 28;
    match Ext4Inode::from_bytes(&raw) {
        None => {
            t.check(false);
        },
        Some(ino) => {
            proof {
                assert(ino.i_osd2@[4] == raw@[120] && ino.i_osd2@[5] == raw@[121]);
                assert(ino.i_osd2@[6] == raw@[122] && ino.i_osd2@[7] == raw@[123]);
                assert(le32(raw@, 4) == 4096);
                assert(le32(raw@, 108) == 0);
            }
            t.check(ino.is_reg());
            t.check(ino.i_size() == 4096);
            t.check(ino.uid() == 66536);
            t.check(ino.gid() == 132072);
        },
    }
    let mut rd: [u8; 128] = [0u8;128];
    rd[0] = 0xED;
    rd[1] = 0x41;
    rd[4] = 0x00;
    rd[5] = 0x10;
    rd[8] = 0xFF;
    match Ext4Inode::from_bytes(&rd) {
        None => {
            t.check(false);
        },
        Some(id) => {
            assert(le32(rd@, 4) == 4096);
            t.check(id.is_dir());
            t.check(id.i_size() == 4096);
        },
    }
    let mut rl: [u8; 128] = [0u8;128];
    rl[0] = 0xFF;
    rl[1] = 0xA1;
    rl[4] = 7;
    match Ext4Inode::from_bytes(&rl) {
        None => {
            t.check(false);
        },
        Some(il) => {
            proof {
                assert(il.i_osd2@[0] == rl@[116] && il.i_osd2@[1] == rl@[117]);
                assert(le32(rl@, 4) == 7 && le32(rl@, 28) == 0);
            }
            t.check(il.is_symlink());
            t.check(il.is_fast_symlink());
        },
    }
}

fn check_headers(t: &mut Tally)
    requires
        old(t).pass + old(t).fail < 900,
    ensures
        *final(t) == (Tally { pass: (old(t).pass + 4) as u32, ..*old(t) }),
{
    let mut h: [u8; 12] = [0u8;12];
    h[0] = 0x0A;
    h[1] = 0xF3;
    h[2] = 1;
    h[4] = 4;
    let eh = ExtentHeader::from_bytes(&h);
    t.check(eh.is_valid());
    t.check(eh.is_leaf());
    t.check(eh.entries() == 1);
    let mut h2: [u8; 12] = h;
    h2[0] = 0xFF;
    let eh2 = ExtentHeader::from_bytes(&h2);
    t.check(!eh2.is_valid());
}

/// Whether a leaf has a block for file block `lblock`, and which.
fn leaf_start(node: &ExtentNode, lblock: u32) -> (r: Option<u64>)
    ensures
        match super::extent::leaf_lookup(node.bytes(), lblock) {
            None => r is None,
            Some(e) => r is Some && r->0 == e.start(),
        },
{
    match node.lookup_leaf(lblock) {
        None => None,
        Some(e) => Some(e.ee_start()),
    }
}

fn check_leaves(t: &mut Tally)
    requires
        old(t).pass + old(t).fail < 900,
    ensures
        *final(t) == (Tally { pass: (old(t).pass + 4) as u32, ..*old(t) }),
{
    let mut buf: [u8; 24] = [0u8;24];
    buf[0] = 0x0A;
    buf[1] = 0xF3;
    buf[2] = 1;
    buf[4] = 4;
    buf[12] = 10;
    buf[16] = 10;
    buf[20] = 100;
    proof {
        let d = buf@;
        assert(header_of(d).eh_entries == 1 && header_of(d).eh_depth == 0);
        assert(key_at(d, 0) == 10);
        let e = extent_at(d, 12);
        assert(e.ee_block == 10 && e.ee_len == 10 && e.start() == 100);
        reveal_with_fuel(upper, 3);
    }
    match ExtentNode::parse(&buf) {
        None => {
            t.check(false);
        },
        Some(node) => {
            match node.lookup_leaf(10) {
                None => {
                    t.check(false);
                },
                Some(e) => {
                    t.check(e.ee_start() == 100);
                },
            }
            match node.lookup_leaf(15) {
                None => {
                    t.check(false);
                },
                Some(e) => {
                    t.check(e.ee_start() + (15 - e.ee_block()) as u64 == 105);
                },
            }
            t.check(node.lookup_leaf(9).is_none());
            t.check(node.lookup_leaf(20).is_none());
        },
    }
}

fn check_unwritten(t: &mut Tally)
    requires
        old(t).pass + old(t).fail < 900,
    ensures
        *final(t) == (Tally { pass: (old(t).pass + 5) as u32, ..*old(t) }),
{
    let mut buf: [u8; 24] = [0u8;24];
    buf[0] = 0x0A;
    buf[1] = 0xF3;
    buf[2] = 1;
    buf[4] = 4;
    buf[16] = 0x05;
    buf[17] = 0x80;
    buf[20] = 200;
    proof {
        let d = buf@;
        assert(header_of(d).eh_entries == 1 && header_of(d).eh_depth == 0);
        assert(key_at(d, 0) == 0);
        let e = extent_at(d, 12);
        assert(e.ee_block == 0 && e.ee_len == 0x8005);
        reveal_with_fuel(upper, 3);
    }
    match ExtentNode::parse(&buf) {
        None => {
            t.check(false);
        },
        Some(node) => {
            match node.extent(0) {
                None => {
                    t.check(false);
                },
                Some(e) => {
                    t.check(e.is_unwritten());
                    t.check(e.ee_len() == 5);
                },
            }
            t.check(node.lookup_leaf(3).is_some());
            t.check(node.lookup_leaf(5).is_none());
        },
    }
    let mut far: [u8; 24] = [0u8;24];
    far[0] = 0x0A;
    far[1] = 0xF3;
    far[2] = 1;
    far[4] = 4;
    far[16] = 1;
    far[18] = 0x01;
    proof {
        let d = far@;
        assert(header_of(d).eh_entries == 1 && header_of(d).eh_depth == 0);
        assert(extent_at(d, 12).start() == 0x1_0000_0000);
    }
    match ExtentNode::parse(&far) {
        None => {
            t.check(false);
        },
        Some(node) => match node.extent(0) {
            None => {
                t.check(false);
            },
            Some(e) => {
                t.check(e.ee_start() == 0x1_0000_0000);
            },
        },
    }
}

fn check_two_extents(t: &mut Tally)
    requires
        old(t).pass + old(t).fail < 900,
    ensures
        *final(t) == (Tally { pass: (old(t).pass + 3) as u32, ..*old(t) }),
{
    let mut buf: [u8; 36] = [0u8;36];
    buf[0] = 0x0A;
    buf[1] = 0xF3;
    buf[2] = 2;
    buf[4] = 4;
    buf[12] = 0;
    buf[16] = 10;
    buf[20] = 0xE8;
    buf[21] = 0x03;
    buf[24] = 20;
    buf[28] = 10;
    buf[32] = 0xD0;
    buf[33] = 0x07;
    proof {
        let d = buf@;
        assert(header_of(d).eh_entries == 2 && header_of(d).eh_depth == 0);
        assert(key_at(d, 0) == 0 && key_at(d, 1) == 20);
        let a = extent_at(d, 12);
        let b = extent_at(d, 24);
        assert(a.ee_block == 0 && a.ee_len == 10 && a.start() == 1000);
        assert(b.ee_block == 20 && b.ee_len == 10 && b.start() == 2000);
        reveal_with_fuel(upper, 4);
    }
    match ExtentNode::parse(&buf) {
        None => {
            t.check(false);
        },
        Some(node) => {
            let a: Option<u64> = leaf_start(&node, 5);
            let b: Option<u64> = leaf_start(&node, 25);
            t.check(a == Some(1000u64));
            t.check(b == Some(2000u64));
            t.check(leaf_start(&node, 15).is_none());
        },
    }
}

#[verifier::rlimit(40)]
fn check_dirs(t: &mut Tally)
    requires
        old(t).pass + old(t).fail < 900,
    ensures
        *final(t) == (Tally { pass: (old(t).pass + 5) as u32, ..*old(t) }),
{
    let mut blk: [u8; 52] = [0u8;52];
    blk[0] = 2;
    blk[4] = 12;
    blk[6] = 1;
    blk[7] = 2;
    blk[8] = 46;
    blk[12] = 3;
    blk[16] = 12;
    blk[18] = 2;
    blk[19] = 2;
    blk[20] = 46;
    blk[21] = 46;
    blk[28] = 12;
    blk[36] = 5;
    blk[40] = 16;
    blk[42] = 2;
    blk[43] = 1;
    blk[44] = 104;
    blk[45] = 105;
    let dot: [u8; 1] = [46u8];
    let hi: [u8; 2] = [104u8, 105u8];
    let nope: [u8; 4] = [110u8, 111u8, 112u8, 101u8];
    let ghost d = blk@;
    let ghost e0 = entry_at(d, 0, false)->0;
    let ghost e1 = entry_at(d, 12, false)->0;
    let ghost e2 = entry_at(d, 24, false)->0;
    let ghost e3 = entry_at(d, 36, false)->0;
    proof {
        assert(le16(d, 4) == 12 && le16(d, 16) == 12 && le16(d, 28) == 12 && le16(d, 40) == 16);
        assert(le32(d, 0) == 2 && le32(d, 12) == 3 && le32(d, 24) == 0 && le32(d, 36) == 5);
        assert(entry_at(d, 0, false) is Some && e0.rec_len == 12 && e0.inode == 2 && e0.name_len
            == 1 && e0.name_off == 8);
        assert(entry_at(d, 12, false) is Some && e1.rec_len == 12 && e1.inode == 3 && e1.name_len
            == 2 && e1.name_off == 20);
        assert(entry_at(d, 24, false) is Some && e2.rec_len == 12 && e2.inode == 0);
        assert(entry_at(d, 36, false) is Some && e3.rec_len == 16 && e3.inode == 5 && e3.name_len
            == 2 && e3.name_off == 44);
        assert(entry_at(d, 52, false) is None);
        reveal_with_fuel(entries_from, 6);
        let es = entries_from(d, 0, false);
        assert(es =~= seq![e0, e1, e2, e3]);
        let r1 = es.drop_first();
        assert(r1 =~= seq![e1, e2, e3]);
        let r2 = r1.drop_first();
        assert(r2 =~= seq![e2, e3]);
        let r3 = r2.drop_first();
        assert(r3 =~= seq![e3]);
        let r4 = r3.drop_first();
        assert(r4.len() == 0);
        assert(name_of(d, e0) =~= dot@);
        assert(name_of(d, e3) =~= hi@);
        assert(name_of(d, e1)[0] == 46);
        assert(name_of(d, e1).len() == 2);
        assert(hi@[0] == 104);
        assert(!is_named(d, e0, hi@) && !is_named(d, e1, hi@) && is_named(d, e3, hi@));
        assert(!is_named(d, e0, nope@) && !is_named(d, e1, nope@) && !is_named(d, e3, nope@));
        reveal_with_fuel(first_named, 6);
        assert(first_named(d, es, dot@) == Some(e0));
        assert(first_named(d, es, hi@) == Some(e3));
        assert(first_named(d, es, nope@) is None);
    }
    let mut count: u32 = 0;
    let mut last: u32 = 0;
    let mut it = DirIter::new(&blk);
    match it.next() {
        None => {},
        Some(e) => {
            count = count + 1;
            last = e.inode;
        },
    }
    match it.next() {
        None => {},
        Some(e) => {
            count = count + 1;
            last = e.inode;
        },
    }
    match it.next() {
        None => {},
        Some(e) => {
            count = count + 1;
            last = e.inode;
        },
    }
    match it.next() {
        None => {},
        Some(e) => {
            count = count + 1;
            last = e.inode;
        },
    }
    let end: bool = it.next().is_none();
    t.check(count == 4 && end);
    t.check(last == 5);
    t.check(find_entry(&blk, &dot) == Some(2u32));
    t.check(find_entry(&blk, &hi) == Some(5u32));
    t.check(find_entry(&blk, &nope).is_none());
}

fn check_bad_dirs(t: &mut Tally)
    requires
        old(t).pass + old(t).fail < 900,
    ensures
        *final(t) == (Tally { pass: (old(t).pass + 3) as u32, ..*old(t) }),
{
    let mut b0: [u8; 16] = [0u8;16];
    b0[0] = 1;
    let mut i0 = DirIter::new(&b0);
    t.check(i0.next().is_none());
    let mut b1: [u8; 16] = [0u8;16];
    b1[0] = 1;
    b1[4] = 3;
    let mut i1 = DirIter::new(&b1);
    t.check(i1.next().is_none());
    let mut b2: [u8; 16] = [0u8;16];
    b2[0] = 1;
    b2[4] = 100;
    let mut i2 = DirIter::new(&b2);
    t.check(i2.next().is_none());
}

fn check_places(t: &mut Tally)
    requires
        old(t).pass + old(t).fail < 900,
    ensures
        *final(t) == (Tally { pass: (old(t).pass + 7) as u32, ..*old(t) }),
{
    t.check(ino_to_group(1, 128) == Some((0u32, 0u32)));
    t.check(ino_to_group(128, 128) == Some((0u32, 127u32)));
    t.check(ino_to_group(129, 128) == Some((1u32, 0u32)));
    t.check(ino_to_group(0, 128).is_none());
    t.check(ino_to_disk(1, 128, 128, 1024, 7) == Some((7u64, 0u32)));
    t.check(ino_to_disk(9, 128, 128, 1024, 7) == Some((8u64, 0u32)));
    t.check(ino_to_disk(2, 128, 128, 1024, 7) == Some((7u64, 128u32)));
}

/// Runs all checks. All of them pass.
pub fn ext4_selftest() -> (r: Tally)
    ensures
        r == (Tally { pass: 51, fail: 0 }),
{
    let mut t = Tally { pass: 0, fail: 0 };
    check_super(&mut t);
    check_groups(&mut t);
    check_inodes(&mut t);
    check_headers(&mut t);
    check_leaves(&mut t);
    check_unwritten(&mut t);
    check_two_extents(&mut t);
    check_dirs(&mut t);
    check_bad_dirs(&mut t);
    check_places(&mut t);
    t
}

} // verus!
