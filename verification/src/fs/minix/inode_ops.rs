//! Super block, inodes and the blocks of a file.

use super::bitmap::{free_inode, new_block, new_block_spec};
use super::truncate::{trunc_did, truncate};
use super::{MinixInode, MinixSuperBlock};
use crate::bytes::{get_le16, get_le32, le16, le32, lemma_with_le16, lemma_with_le32, put_le16, put_le32, with_le16, with_le32};
use crate::fs::buffer::only_read;
use crate::fs::ext2::inode::mode::type_bits;
use crate::fs::inode::{dropped_in, FsType, Inode, NIL};
use crate::fs::mode;
use crate::fs::super_block::SuperBlock;
use crate::fs::{Blocks, Fs};
use vstd::prelude::*;

verus! {

/// The most blocks that a file can have.
pub const MAX_FILE_BLOCKS: u32 = 262663;

/// The super block that the bytes `d` hold.
pub open spec fn super_of(d: Seq<u8>) -> MinixSuperBlock {
    MinixSuperBlock {
        s_ninodes: le16(d, 0),
        s_nzones: le16(d, 2),
        s_imap_blocks: le16(d, 4),
        s_zmap_blocks: le16(d, 6),
        s_firstdatazone: le16(d, 8),
        s_log_zone_size: le16(d, 10),
        s_max_size: le32(d, 12),
        s_magic: le16(d, 16),
        s_state: le16(d, 18),
    }
}

pub fn parse_super(data: &[u8]) -> (r: MinixSuperBlock)
    requires
        data@.len() >= 20,
    ensures
        r == super_of(data@),
{
    MinixSuperBlock {
        s_ninodes: get_le16(data, 0),
        s_nzones: get_le16(data, 2),
        s_imap_blocks: get_le16(data, 4),
        s_zmap_blocks: get_le16(data, 6),
        s_firstdatazone: get_le16(data, 8),
        s_log_zone_size: get_le16(data, 10),
        s_max_size: get_le32(data, 12),
        s_magic: get_le16(data, 16),
        s_state: get_le16(data, 18),
    }
}

/// The nine block numbers of the inode that starts at offset `o`.
pub open spec fn zones_at(d: Seq<u8>, o: int) -> Seq<u16> {
    Seq::new(9, |k: int| le16(d, o + 14 + 2 * k))
}

impl MinixInode {
    /// This inode is what the bytes of `d` from `o` on hold.
    pub open spec fn parsed_from(self, d: Seq<u8>, o: int) -> bool {
        &&& self.i_mode == le16(d, o)
        &&& self.i_uid == le16(d, o + 2)
        &&& self.i_size == le32(d, o + 4)
        &&& self.i_time == le32(d, o + 8)
        &&& self.i_gid == d[o + 12]
        &&& self.i_nlinks == d[o + 13]
        &&& self.i_zone@ == zones_at(d, o)
    }
}

/// Reads inode number `idx` of an inode table block.
pub fn parse_inode(data: &[u8], idx: usize) -> (r: MinixInode)
    requires
        32 * idx + 32 <= data@.len(),
    ensures
        r.parsed_from(data@, 32 * idx),
{
    let n: usize = data.len();
    let o: usize = idx * 32;
    let mut zone: [u16; 9] = [0u16;9];
    for k in 0..9usize
        invariant
            o + 32 <= n == data@.len(),
            forall|j: int| 0 <= j < k ==> zone@[j] == le16(data@, o + 14 + 2 * j),
    {
        zone[k] = get_le16(data, o + 14 + 2 * k);
    }
    assert(zone@ =~= zones_at(data@, o as int));
    MinixInode {
        i_mode: get_le16(data, o),
        i_uid: get_le16(data, o + 2),
        i_size: get_le32(data, o + 4),
        i_time: get_le32(data, o + 8),
        i_gid: data[o + 12],
        i_nlinks: data[o + 13],
        i_zone: zone,
    }
}

/// `d` with the first `k` block numbers of an inode that starts at `o`.
pub open spec fn with_zones(d: Seq<u8>, o: int, z: Seq<u16>, k: int) -> Seq<u8>
    decreases k,
{
    if k <= 0 {
        d
    } else {
        with_le16(with_zones(d, o, z, k - 1), o + 14 + 2 * (k - 1), z[k - 1])
    }
}

/// `d` with an inode of those fields at offset `o`.
pub open spec fn with_inode(
    d: Seq<u8>,
    o: int,
    mode: u16,
    uid: u16,
    size: u32,
    time: u32,
    gid: u8,
    nlinks: u8,
    z: Seq<u16>,
) -> Seq<u8> {
    let a = with_le16(with_le16(d, o, mode), o + 2, uid);
    let b = with_le32(with_le32(a, o + 4, size), o + 8, time);
    with_zones(b.update(o + 12, gid).update(o + 13, nlinks), o, z, 9)
}

proof fn lemma_with_zones(d: Seq<u8>, o: int, z: Seq<u16>, k: int)
    requires
        0 <= o,
        o + 32 <= d.len(),
        0 <= k <= 9,
    ensures
        with_zones(d, o, z, k).len() == d.len(),
        forall|j: int| 0 <= j < k ==> le16(with_zones(d, o, z, k), #[trigger] (o + 14 + 2 * j)) == z[j],
        forall|p: int|
            0 <= p < d.len() && !(o + 14 <= p < o + 14 + 2 * k) ==> #[trigger] with_zones(d, o, z, k)[p]
                == d[p],
    decreases k,
{
    if k > 0 {
        lemma_with_zones(d, o, z, k - 1);
        let e = with_zones(d, o, z, k - 1);
        lemma_with_le16(e, o + 14 + 2 * (k - 1), z[k - 1]);
        let f = with_zones(d, o, z, k);
        assert forall|j: int| 0 <= j < k implies le16(f, #[trigger] (o + 14 + 2 * j)) == z[j] by {
            if j < k - 1 {
                assert(f[o + 14 + 2 * j] == e[o + 14 + 2 * j]);
                assert(f[o + 14 + 2 * j + 1] == e[o + 14 + 2 * j + 1]);
                assert(le16(e, o + 14 + 2 * j) == z[j]);
            }
        }
    }
}

/// What is stored as an inode is read back as it, and the rest of the block is
/// left alone.
pub proof fn lemma_with_inode(
    d: Seq<u8>,
    o: int,
    mode: u16,
    uid: u16,
    size: u32,
    time: u32,
    gid: u8,
    nlinks: u8,
    z: Seq<u16>,
)
    requires
        0 <= o,
        o + 32 <= d.len(),
        z.len() == 9,
    ensures
        ({
            let e = with_inode(d, o, mode, uid, size, time, gid, nlinks, z);
            &&& e.len() == d.len()
            &&& le16(e, o) == mode
            &&& le16(e, o + 2) == uid
            &&& le32(e, o + 4) == size
            &&& le32(e, o + 8) == time
            &&& e[o + 12] == gid
            &&& e[o + 13] == nlinks
            &&& zones_at(e, o) == z
            &&& forall|p: int| 0 <= p < d.len() && !(o <= p < o + 32) ==> #[trigger] e[p] == d[p]
        }),
{
    let a1 = with_le16(d, o, mode);
    lemma_with_le16(d, o, mode);
    let a2 = with_le16(a1, o + 2, uid);
    lemma_with_le16(a1, o + 2, uid);
    let b1 = with_le32(a2, o + 4, size);
    lemma_with_le32(a2, o + 4, size);
    let b2 = with_le32(b1, o + 8, time);
    lemma_with_le32(b1, o + 8, time);
    let c = b2.update(o + 12, gid).update(o + 13, nlinks);
    lemma_with_zones(c, o, z, 9);
    let e = with_zones(c, o, z, 9);
    assert(e[o] == a1[o] && e[o + 1] == a1[o + 1]);
    assert(e[o + 2] == a2[o + 2] && e[o + 3] == a2[o + 3]);
    assert(e[o + 4] == b1[o + 4] && e[o + 5] == b1[o + 5] && e[o + 6] == b1[o + 6] && e[o + 7]
        == b1[o + 7]);
    assert(e[o + 8] == b2[o + 8] && e[o + 9] == b2[o + 9] && e[o + 10] == b2[o + 10] && e[o + 11]
        == b2[o + 11]);
    assert forall|k: int| 0 <= k < 9 implies #[trigger] zones_at(e, o)[k] == z[k] by {
        assert(le16(e, o + 14 + 2 * k) == z[k]);
    }
    assert(zones_at(e, o) =~= z);
}

/// Stores an inode as number `idx` of an inode table block.
pub fn store_inode(data: &mut Vec<u8>, idx: usize, raw: &MinixInode)
    requires
        32 * idx + 32 <= old(data)@.len(),
        idx < 32,
    ensures
        final(data)@ == with_inode(
            old(data)@,
            32 * idx,
            raw.i_mode,
            raw.i_uid,
            raw.i_size,
            raw.i_time,
            raw.i_gid,
            raw.i_nlinks,
            raw.i_zone@,
        ),
{
    let o: usize = idx * 32;
    put_le16(data, o, raw.i_mode);
    put_le16(data, o + 2, raw.i_uid);
    put_le32(data, o + 4, raw.i_size);
    put_le32(data, o + 8, raw.i_time);
    data[o + 12] = raw.i_gid;
    data[o + 13] = raw.i_nlinks;
    let ghost c = data@;
    for k in 0..9usize
        invariant
            o + 32 <= data@.len(),
            o <= 992,
            data@.len() == c.len(),
            data@ == with_zones(c, o as int, raw.i_zone@, k as int),
    {
        put_le16(data, o + 14 + 2 * k, raw.i_zone[k]);
    }
}

/// The block of an inode in the inode table.
pub open spec fn inode_block(s: SuperBlock, ino: int) -> int {
    2 + s.s_imap_blocks + s.s_zmap_blocks + (ino - 1) / 32
}

/// The place of an inode in its block.
pub open spec fn inode_index(ino: int) -> int {
    (ino - 1) % 32
}

/// Where an inode is stored: its block, and its place in the block.
pub fn inode_location(s: &SuperBlock, ino: u32) -> (r: (u32, usize))
    requires
        1 <= ino < s.s_ninodes,
    ensures
        r.0 == inode_block(*s, ino as int),
        r.1 == inode_index(ino as int),
        2 + s.s_imap_blocks + s.s_zmap_blocks <= r.0 < 2 + s.s_imap_blocks + s.s_zmap_blocks + (
        s.s_ninodes + 31) / 32,
{
    let block: u32 = 2 + s.s_imap_blocks as u32 + s.s_zmap_blocks as u32 + (ino - 1) / 32;
    let idx: usize = ((ino - 1) % 32) as usize;
    (block, idx)
}

/// Different inodes are stored in different places.
pub proof fn lemma_inode_places(s: SuperBlock, a: int, b: int)
    requires
        a >= 1,
        b >= 1,
        inode_block(s, a) == inode_block(s, b),
        inode_index(a) == inode_index(b),
    ensures
        a == b,
{
}

/// The inode is a device file.
pub open spec fn is_special(m: u16) -> bool {
    type_bits(m) == mode::S_IFCHR || type_bits(m) == mode::S_IFBLK
}

/// What an inode of that mode is handled by.
pub open spec fn op_for(m: u16) -> FsType {
    if type_bits(m) == mode::S_IFREG || type_bits(m) == mode::S_IFDIR {
        FsType::Minix
    } else if type_bits(m) == mode::S_IFCHR {
        FsType::Chr
    } else if type_bits(m) == mode::S_IFBLK {
        FsType::Blk
    } else {
        FsType::Unbound
    }
}

/// The inode number and its block can be read.
pub open spec fn can_load(c: Blocks, s: SuperBlock, dev: u16, ino: u32) -> bool {
    &&& 1 <= ino < s.s_ninodes
    &&& c.dom().contains((dev, inode_block(s, ino as int) as u32))
}

/// Inode `i` is `i0` after it was read from disk. A device file keeps its device
/// number where another file keeps its first block number.
pub open spec fn loaded(c: Blocks, supers: Seq<SuperBlock>, i0: Inode, i: Inode) -> bool {
    if i0.i_sb == NIL || !can_load(c, supers[i0.i_sb as int], i0.i_dev, i0.i_ino) {
        i == (Inode { i_op: FsType::Unbound, i_mode: 0, ..i0 })
    } else {
        let s = supers[i0.i_sb as int];
        let d = c[(i0.i_dev, inode_block(s, i0.i_ino as int) as u32)];
        let o = 32 * inode_index(i0.i_ino as int);
        let m = le16(d, o);
        &&& i == (Inode {
            i_mode: m,
            i_uid: le16(d, o + 2),
            i_gid: d[o + 12] as u16,
            i_nlink: d[o + 13] as u16,
            i_size: le32(d, o + 4),
            i_mtime: le32(d, o + 8),
            i_atime: le32(d, o + 8),
            i_ctime: le32(d, o + 8),
            i_blksize: 1024,
            in_use: true,
            i_rdev: if is_special(m) {
                zones_at(d, o)[0]
            } else {
                i0.i_rdev
            },
            i_op: op_for(m),
            data: i.data,
            ..i0
        })
        &&& i.data@ == (if is_special(m) {
            Seq::new(9, |k: int| 0u16)
        } else {
            zones_at(d, o)
        })
    }
}

/// Reads inode `n`, whose device, super block and number are set, from disk.
pub fn read_inode(fs: &mut Fs, n: usize)
    requires
        old(fs).wf(),
        n < 64,
    ensures
        final(fs).wf(),
        final(fs).blocks() == old(fs).blocks(),
        *final(fs) == (Fs { cache: final(fs).cache, inodes: final(fs).inodes, ..*old(fs) }),
        final(fs).inodes@ == old(fs).inodes@.update(n as int, final(fs).inodes@[n as int]),
        loaded(
            old(fs).blocks(),
            old(fs).supers@,
            old(fs).inodes@[n as int],
            final(fs).inodes@[n as int],
        ),
{
    let mut i: Inode = fs.inodes[n];
    i.i_op = FsType::Unbound;
    i.i_mode = 0;
    let ghost i0 = old(fs).inodes@[n as int];
    if i.i_sb == NIL {
        fs.inodes[n] = i;
        return;
    }
    if i.i_ino == 0 || i.i_ino >= fs.supers[i.i_sb].s_ninodes as u32 {
        fs.inodes[n] = i;
        return;
    }
    let (block, idx) = inode_location(&fs.supers[i.i_sb], i.i_ino);
    match fs.cache.read_block(i.i_dev, block) {
        None => {
            fs.inodes[n] = i;
        },
        Some(data) => {
            let raw = parse_inode(data.as_slice(), idx);
            i.i_mode = raw.i_mode;
            i.i_uid = raw.i_uid;
            i.i_gid = raw.i_gid as u16;
            i.i_nlink = raw.i_nlinks as u16;
            i.i_size = raw.i_size;
            i.i_mtime = raw.i_time;
            i.i_atime = raw.i_time;
            i.i_ctime = raw.i_time;
            i.i_blksize = 1024;
            i.in_use = true;
            if mode::is_chr(raw.i_mode) || mode::is_blk(raw.i_mode) {
                i.i_rdev = raw.i_zone[0];
                i.data = [0u16;9];
                assert(i.data@ =~= Seq::new(9, |k: int| 0u16));
            } else {
                i.data = raw.i_zone;
            }
            i.i_op = if mode::is_reg(raw.i_mode) || mode::is_dir(raw.i_mode) {
                FsType::Minix
            } else if mode::is_chr(raw.i_mode) {
                FsType::Chr
            } else if mode::is_blk(raw.i_mode) {
                FsType::Blk
            } else {
                FsType::Unbound
            };
            fs.inodes[n] = i;
        },
    }
}

/// The block numbers that inode `i` is stored with.
pub open spec fn stored_zones(i: Inode) -> Seq<u16> {
    if is_special(i.i_mode) {
        Seq::new(9, |k: int| if k == 0 { i.i_rdev } else { 0u16 })
    } else {
        i.data@
    }
}

/// The blocks after inode `i` was written to disk.
pub open spec fn stored(c: Blocks, supers: Seq<SuperBlock>, i: Inode) -> Blocks {
    if i.i_sb == NIL || !can_load(c, supers[i.i_sb as int], i.i_dev, i.i_ino) {
        c
    } else {
        let key = (i.i_dev, inode_block(supers[i.i_sb as int], i.i_ino as int) as u32);
        c.insert(
            key,
            with_inode(
                c[key],
                32 * inode_index(i.i_ino as int),
                i.i_mode,
                i.i_uid,
                i.i_size,
                i.i_mtime,
                (i.i_gid % 256) as u8,
                (i.i_nlink % 256) as u8,
                stored_zones(i),
            ),
        )
    }
}

/// Writes inode `n` to disk. One of no file system stays as it is, dirty or not.
pub fn write_inode(fs: &mut Fs, n: usize)
    requires
        old(fs).wf(),
        n < 64,
    ensures
        final(fs).wf(),
        final(fs).blocks() == stored(
            old(fs).blocks(),
            old(fs).supers@,
            old(fs).inodes@[n as int],
        ),
        *final(fs) == (Fs { cache: final(fs).cache, inodes: final(fs).inodes, ..*old(fs) }),
        final(fs).inodes@ == (if old(fs).inodes@[n as int].i_sb == NIL {
            old(fs).inodes@
        } else {
            old(fs).inodes@.update(
                n as int,
                Inode { i_dirt: false, ..old(fs).inodes@[n as int] },
            )
        }),
{
    let i: Inode = fs.inodes[n];
    if i.i_sb == NIL {
        return;
    }
    if i.i_ino == 0 || i.i_ino >= fs.supers[i.i_sb].s_ninodes as u32 {
        fs.inodes[n].i_dirt = false;
        assert(fs.inodes@ =~= old(fs).inodes@.update(n as int, Inode { i_dirt: false, ..i }));
        return;
    }
    let (block, idx) = inode_location(&fs.supers[i.i_sb], i.i_ino);
    match fs.cache.read_block(i.i_dev, block) {
        None => {},
        Some(mut data) => {
            let mut zone: [u16; 9] = [0u16;9];
            if mode::is_chr(i.i_mode) || mode::is_blk(i.i_mode) {
                zone[0] = i.i_rdev;
            } else {
                zone = i.data;
            }
            assert(zone@ =~= stored_zones(i));
            let raw = MinixInode {
                i_mode: i.i_mode,
                i_uid: i.i_uid,
                i_size: i.i_size,
                i_time: i.i_mtime,
                i_gid: (i.i_gid % 256) as u8,
                i_nlinks: (i.i_nlink % 256) as u8,
                i_zone: zone,
            };
            store_inode(&mut data, idx, &raw);
            proof {
                lemma_with_inode(
                    old(fs).blocks()[(i.i_dev, block)],
                    32 * idx,
                    raw.i_mode,
                    raw.i_uid,
                    raw.i_size,
                    raw.i_time,
                    raw.i_gid,
                    raw.i_nlinks,
                    zone@,
                );
            }
            let ok: bool = fs.cache.write_block(i.i_dev, block, data.as_slice());
        },
    }
    fs.inodes[n].i_dirt = false;
    assert(fs.inodes@ =~= old(fs).inodes@.update(n as int, Inode { i_dirt: false, ..i }));
}

/// An inode that was written and is read again, into a slot for the same number,
/// has its mode, owner, size, time, block numbers and, where they fit in a byte,
/// its group and link count.
#[verifier::spinoff_prover]
#[verifier::rlimit(60)]
pub proof fn lemma_write_then_read(c: Blocks, supers: Seq<SuperBlock>, i: Inode, j0: Inode, j: Inode)
    requires
        i.i_sb != NIL,
        can_load(c, supers[i.i_sb as int], i.i_dev, i.i_ino),
        c[(i.i_dev, inode_block(supers[i.i_sb as int], i.i_ino as int) as u32)].len() == 1024,
        j0.i_sb == i.i_sb,
        j0.i_dev == i.i_dev,
        j0.i_ino == i.i_ino,
        loaded(stored(c, supers, i), supers, j0, j),
    ensures
        j.i_mode == i.i_mode,
        j.i_uid == i.i_uid,
        j.i_size == i.i_size,
        j.i_mtime == i.i_mtime,
        i.i_gid < 256 ==> j.i_gid == i.i_gid,
        i.i_nlink < 256 ==> j.i_nlink == i.i_nlink,
        is_special(i.i_mode) ==> j.i_rdev == i.i_rdev,
        !is_special(i.i_mode) ==> j.data@ == i.data@,
        j.i_op == op_for(i.i_mode),
{
    let s = supers[i.i_sb as int];
    let key = (i.i_dev, inode_block(s, i.i_ino as int) as u32);
    lemma_with_inode(
        c[key],
        32 * inode_index(i.i_ino as int),
        i.i_mode,
        i.i_uid,
        i.i_size,
        i.i_mtime,
        (i.i_gid % 256) as u8,
        (i.i_nlink % 256) as u8,
        stored_zones(i),
    );
}

// ---- the blocks of a file ----

/// Number `nr` in a block of block numbers; zero where there is no such block.
pub open spec fn block_number(c: Blocks, dev: u16, block: int, nr: int) -> int {
    if block == 0 || !c.dom().contains((dev, block as u32)) {
        0
    } else {
        le16(c[(dev, block as u32)], 2 * nr) as int
    }
}

/// The device block of file block `block`, zero for a hole. The first seven are
/// in the inode; the next 512 in one block of numbers; the rest in blocks of
/// numbers whose own numbers are in one block.
pub open spec fn mapped(c: Blocks, dev: u16, z: Seq<u16>, block: int) -> int {
    if block >= 262663 {
        0
    } else if block < 7 {
        z[block] as int
    } else if block < 519 {
        block_number(c, dev, z[7] as int, block - 7)
    } else {
        block_number(
            c,
            dev,
            block_number(c, dev, z[8] as int, (block - 519) / 512),
            (block - 519) % 512,
        )
    }
}

/// Reads number `nr` of a block of block numbers.
pub fn block_bmap(fs: &mut Fs, dev: u16, block: u32, nr: u32) -> (r: u32)
    requires
        old(fs).wf(),
        nr < 512,
    ensures
        final(fs).wf(),
        final(fs).blocks() == old(fs).blocks(),
        *final(fs) == (Fs { cache: final(fs).cache, ..*old(fs) }),
        r == block_number(old(fs).blocks(), dev, block as int, nr as int),
        r <= 0xFFFF,
        only_read(&old(fs).cache, &final(fs).cache),
{
    if block == 0 {
        return 0;
    }
    match fs.cache.read_block(dev, block) {
        None => 0,
        Some(data) => get_le16(data.as_slice(), nr as usize * 2) as u32,
    }
}

/// The device block of file block `block` of inode `n`, zero for a hole.
pub fn bmap(fs: &mut Fs, n: usize, block: u32) -> (r: u32)
    requires
        old(fs).wf(),
        n < 64,
    ensures
        final(fs).wf(),
        final(fs).blocks() == old(fs).blocks(),
        *final(fs) == (Fs { cache: final(fs).cache, ..*old(fs) }),
        r == mapped(
            old(fs).blocks(),
            old(fs).inodes@[n as int].i_dev,
            old(fs).inodes@[n as int].data@,
            block as int,
        ),
        r <= 0xFFFF,
{
    if block >= MAX_FILE_BLOCKS {
        return 0;
    }
    let dev: u16 = fs.inodes[n].i_dev;
    if block < 7 {
        return fs.inodes[n].data[block as usize] as u32;
    }
    let block: u32 = block - 7;
    if block < 512 {
        let ind: u32 = fs.inodes[n].data[7] as u32;
        if ind == 0 {
            return 0;
        }
        return block_bmap(fs, dev, ind, block);
    }
    let block: u32 = block - 512;
    let dind: u32 = fs.inodes[n].data[8] as u32;
    if dind == 0 {
        return 0;
    }
    let mid: u32 = block_bmap(fs, dev, dind, block / 512);
    if mid == 0 {
        return 0;
    }
    block_bmap(fs, dev, mid, block % 512)
}

/// Looks block number `nr` of the inode up and, with `create`, gives it a new
/// block where it has none: the blocks and the numbers afterwards, and the block.
pub open spec fn zone_got(c: Blocks, s: SuperBlock, z: Seq<u16>, nr: int, create: bool) -> (
    Blocks,
    Seq<u16>,
    int,
) {
    if z[nr] != 0 || !create {
        (c, z, z[nr] as int)
    } else {
        let (c1, b) = new_block_spec(c, s);
        if b == 0 {
            (c1, z, 0)
        } else {
            (c1, z.update(nr, b as u16), b)
        }
    }
}

/// The same for number `nr` in the block of numbers `ind` of device `dev`.
pub open spec fn entry_got(c: Blocks, s: SuperBlock, dev: u16, ind: int, nr: int, create: bool) -> (
    Blocks,
    int,
) {
    let b0 = block_number(c, dev, ind, nr);
    if b0 != 0 || !create || ind == 0 || !c.dom().contains((dev, ind as u32)) {
        (c, b0)
    } else {
        let (c1, b) = new_block_spec(c, s);
        if b == 0 {
            (c1, 0)
        } else {
            let key = (dev, ind as u32);
            (c1.insert(key, with_le16(c1[key], 2 * nr, b as u16)), b)
        }
    }
}

/// The same for file block `block`.
#[verifier::opaque]
pub open spec fn got(
    c: Blocks,
    s: SuperBlock,
    dev: u16,
    z: Seq<u16>,
    block: int,
    create: bool,
) -> (Blocks, Seq<u16>, int) {
    if block >= 262663 {
        (c, z, 0)
    } else if block < 7 {
        zone_got(c, s, z, block, create)
    } else if block < 519 {
        let (c1, z1, ind) = zone_got(c, s, z, 7, create);
        let (c2, b) = entry_got(c1, s, dev, ind, block - 7, create);
        (c2, z1, b)
    } else {
        let (c1, z1, dind) = zone_got(c, s, z, 8, create);
        let (c2, mid) = entry_got(c1, s, dev, dind, (block - 519) / 512, create);
        let (c3, b) = entry_got(c2, s, dev, mid, (block - 519) % 512, create);
        (c3, z1, b)
    }
}

/// Inode `i` is `i0` with the block numbers `z`. A new number marks it dirty and
/// changed now.
pub open spec fn renumbered(i0: Inode, i: Inode, z: Seq<u16>, now: u32) -> bool {
    if z == i0.data@ {
        i == i0
    } else {
        i == (Inode { data: i.data, i_ctime: now, i_dirt: true, ..i0 }) && i.data@ == z
    }
}

/// `zone_got` for inode `n`. Answers the block, zero where there is none.
pub fn inode_getblk(fs: &mut Fs, n: usize, nr: usize, create: bool) -> (r: u32)
    requires
        old(fs).wf(),
        n < 64,
        nr < 9,
        create ==> old(fs).inodes@[n as int].i_sb != NIL,
    ensures
        final(fs).wf(),
        *final(fs) == (Fs { cache: final(fs).cache, inodes: final(fs).inodes, ..*old(fs) }),
        final(fs).inodes@ == old(fs).inodes@.update(n as int, final(fs).inodes@[n as int]),
        ({
            let i0 = old(fs).inodes@[n as int];
            let (c, z, b) = zone_got(
                old(fs).blocks(),
                old(fs).supers@[i0.i_sb as int],
                i0.data@,
                nr as int,
                create,
            );
            &&& final(fs).blocks() == c
            &&& renumbered(i0, final(fs).inodes@[n as int], z, old(fs).now)
            &&& r == b
            &&& r <= 0xFFFF
        }),
{
    let tmp: u16 = fs.inodes[n].data[nr];
    let ghost i0 = fs.inodes@[n as int];
    if tmp != 0 || !create {
        assert(fs.inodes@ =~= old(fs).inodes@.update(n as int, fs.inodes@[n as int]));
        return tmp as u32;
    }
    let sb_nr: usize = fs.inodes[n].i_sb;
    let blk: u32 = new_block(fs, sb_nr);
    if blk == 0 {
        assert(fs.inodes@ =~= old(fs).inodes@.update(n as int, fs.inodes@[n as int]));
        return 0;
    }
    let now: u32 = fs.now;
    fs.inodes[n].data[nr] = blk as u16;
    fs.inodes[n].i_ctime = now;
    fs.inodes[n].i_dirt = true;
    proof {
        assert(fs.inodes@[n as int].data@ =~= i0.data@.update(nr as int, blk as u16));
        assert(fs.inodes@[n as int].data@[nr as int] != i0.data@[nr as int]);
        assert(fs.inodes@ =~= old(fs).inodes@.update(n as int, fs.inodes@[n as int]));
    }
    blk
}

/// `entry_got` for inode `n` and the block of numbers `ind`. Answers the block,
/// zero where there is none.
pub fn block_getblk(fs: &mut Fs, n: usize, ind: u32, nr: u32, create: bool) -> (r: u32)
    requires
        old(fs).wf(),
        n < 64,
        nr < 512,
        create ==> old(fs).inodes@[n as int].i_sb != NIL,
    ensures
        final(fs).wf(),
        *final(fs) == (Fs { cache: final(fs).cache, ..*old(fs) }),
        ({
            let i0 = old(fs).inodes@[n as int];
            let (c, b) = entry_got(
                old(fs).blocks(),
                old(fs).supers@[i0.i_sb as int],
                i0.i_dev,
                ind as int,
                nr as int,
                create,
            );
            &&& final(fs).blocks() == c
            &&& r == b
            &&& r <= 0xFFFF
        }),
{
    if ind == 0 {
        return 0;
    }
    let dev: u16 = fs.inodes[n].i_dev;
    let off: usize = nr as usize * 2;
    let tmp: u16 = match fs.cache.read_block(dev, ind) {
        None => {
            return 0;
        },
        Some(data) => get_le16(data.as_slice(), off),
    };
    if tmp != 0 || !create {
        return tmp as u32;
    }
    let sb_nr: usize = fs.inodes[n].i_sb;
    let blk: u32 = new_block(fs, sb_nr);
    if blk == 0 {
        return 0;
    }
    let ghost c1 = fs.blocks();
    match fs.cache.read_block(dev, ind) {
        None => {},
        Some(mut data) => {
            put_le16(&mut data, off, blk as u16);
            let ok: bool = fs.cache.write_block(dev, ind, data.as_slice());
        },
    }
    blk
}

/// The device block of file block `block` of inode `n`, zero where there is
/// none. With `create` it is given one, and the blocks of numbers on the way too.
pub fn get_block(fs: &mut Fs, n: usize, block: u32, create: bool) -> (r: u32)
    requires
        old(fs).wf(),
        n < 64,
        create ==> old(fs).inodes@[n as int].i_sb != NIL,
    ensures
        final(fs).wf(),
        *final(fs) == (Fs { cache: final(fs).cache, inodes: final(fs).inodes, ..*old(fs) }),
        final(fs).inodes@ == old(fs).inodes@.update(n as int, final(fs).inodes@[n as int]),
        ({
            let i0 = old(fs).inodes@[n as int];
            let (c, z, b) = got(
                old(fs).blocks(),
                old(fs).supers@[i0.i_sb as int],
                i0.i_dev,
                i0.data@,
                block as int,
                create,
            );
            &&& final(fs).blocks() == c
            &&& renumbered(i0, final(fs).inodes@[n as int], z, old(fs).now)
            &&& r == b
            &&& r <= 0xFFFF
        }),
{
    proof {
        reveal(got);
    }
    if block >= MAX_FILE_BLOCKS {
        assert(fs.inodes@ =~= old(fs).inodes@.update(n as int, fs.inodes@[n as int]));
        return 0;
    }
    if block < 7 {
        return inode_getblk(fs, n, block as usize, create);
    }
    let block: u32 = block - 7;
    if block < 512 {
        let ind: u32 = inode_getblk(fs, n, 7, create);
        return block_getblk(fs, n, ind, block, create);
    }
    let block: u32 = block - 512;
    let dind: u32 = inode_getblk(fs, n, 8, create);
    let mid: u32 = block_getblk(fs, n, dind, block / 512, create);
    block_getblk(fs, n, mid, block % 512, create)
}

/// The device block of file block `block` of inode `n`, and its bytes; none
/// where there is no such block or it does not exist on the device.
pub fn minix_bread(fs: &mut Fs, n: usize, block: u32, create: bool) -> (r: Option<(u32, Vec<u8>)>)
    requires
        old(fs).wf(),
        n < 64,
        create ==> old(fs).inodes@[n as int].i_sb != NIL,
    ensures
        final(fs).wf(),
        *final(fs) == (Fs { cache: final(fs).cache, inodes: final(fs).inodes, ..*old(fs) }),
        final(fs).inodes@ == old(fs).inodes@.update(n as int, final(fs).inodes@[n as int]),
        ({
            let i0 = old(fs).inodes@[n as int];
            let (c, z, b) = got(
                old(fs).blocks(),
                old(fs).supers@[i0.i_sb as int],
                i0.i_dev,
                i0.data@,
                block as int,
                create,
            );
            &&& final(fs).blocks() == c
            &&& renumbered(i0, final(fs).inodes@[n as int], z, old(fs).now)
            &&& r is Some <==> b != 0 && c.dom().contains((i0.i_dev, b as u32))
            &&& r is Some ==> (r->0).0 == b && (r->0).1@ == c[(i0.i_dev, b as u32)] && (r->0).1@.len()
                == 1024
        }),
{
    let b: u32 = get_block(fs, n, block, create);
    if b == 0 {
        return None;
    }
    let dev: u16 = fs.inodes[n].i_dev;
    match fs.cache.read_block(dev, b) {
        None => None,
        Some(data) => Some((b, data)),
    }
}

/// What the map of a file gives, a lookup that does not create gives too, and
/// leaves everything as it is.
pub proof fn lemma_got_is_mapped(c: Blocks, s: SuperBlock, dev: u16, z: Seq<u16>, block: int)
    requires
        0 <= block,
        z.len() == 9,
    ensures
        got(c, s, dev, z, block, false) == (c, z, mapped(c, dev, z, block)),
{
    reveal(got);
}

/// The last reference to inode `n` is being given up: where nothing links to it,
/// gives back its blocks and its number.
pub fn put_inode(fs: &mut Fs, n: usize)
    requires
        old(fs).wf(),
        n < 64,
        old(fs).inodes@[n as int].i_sb != NIL,
    ensures
        final(fs).wf(),
        *final(fs) == (Fs { cache: final(fs).cache, inodes: final(fs).inodes, ..*old(fs) }),
        if old(fs).inodes@[n as int].i_nlink != 0 {
            *final(fs) == *old(fs)
        } else {
            dropped_in(
                &old(fs).cache,
                old(fs).inodes@,
                &final(fs).cache,
                final(fs).inodes@,
                old(fs).supers@,
                old(fs).now,
                n,
            )
        },
{
    if fs.inodes[n].i_nlink != 0 {
        return;
    }
    fs.inodes[n].i_size = 0;
    let ghost i0 = old(fs).inodes@[n as int];
    truncate(fs, n);
    assert(trunc_did(
        &old(fs).cache,
        &fs.cache,
        fs.supers@[i0.i_sb as int],
        i0.i_dev,
        i0.data@,
        fs.inodes@[n as int].data@,
        0,
    ));
    free_inode(fs, n);
    assert(fs.inodes@ =~= old(fs).inodes@.update(n as int, fs.inodes@[n as int]));
}

} // verus!
