//! Names in directories.
//!
//! The entries of a directory lie in blocks of the file system. A block of up to
//! four buffers is read as one.

use super::dir::{entries_from, ext4_dir_rec_len, find_named, first_named};
use super::map::low32;
use super::ops::full::{
    alloc_block_any, block_taken, bmap, extend_inode_block, has_buffer, is_extended, mapped, scaled,
    Ext4SbInfo,
};
use crate::bytes::{
    get_le16, get_le32, le16, le32, overlay, put_bytes, put_le16, put_le32, with_le16, with_le32,
    zeroed, zeros,
};
use crate::errno::{EIO, ENOENT, ENOSPC, ENOTDIR};
use crate::fs::ext2::dir::round_up4;
use crate::fs::ext2::inode::mode::type_bits;
use crate::fs::inode::{iget, iget_fs, Inode, NIL};
use crate::fs::mode;
use crate::fs::super_block::SuperBlock;
use crate::fs::sync::{is_synced, sync_dev, synced_from};
use crate::fs::{Blocks, Fs};
use vstd::prelude::*;

verus! {

// ---- blocks of directories ----

/// The number of buffer `k` of block `blk` of a directory.
pub open spec fn buffer_of(scale: int, blk: int, k: int) -> int {
    low32(blk * scale + k) as int
}

/// The bytes of block `blk` of directory `i`. One that has a hole cannot be read,
/// nor one of more than four buffers.
pub open spec fn dir_block(
    c: Blocks,
    supers: Seq<SuperBlock>,
    info: Seq<Ext4SbInfo>,
    i: Inode,
    blk: int,
) -> Option<Seq<u8>> {
    let scale = info[i.i_sb as int].scale();
    let dev = supers[i.i_sb as int].s_dev;
    if scale > 4 || exists|k: int|
        0 <= k < scale && !has_buffer(c, supers, info, i, #[trigger] buffer_of(scale, blk, k)) {
        None
    } else {
        Some(
            Seq::new(
                (1024 * scale) as nat,
                |p: int|
                    c[(dev, mapped(c, supers, info, i, buffer_of(scale, blk, p / 1024)))][p % 1024],
            ),
        )
    }
}

/// Reads a block of a directory.
pub fn read_dir_block(fs: &mut Fs, dir: usize, blk: u64) -> (r: Option<Vec<u8>>)
    requires
        old(fs).wf(),
        dir < 64,
        old(fs).inodes@[dir as int].i_sb != NIL,
        blk <= u32::MAX,
    ensures
        final(fs).wf(),
        *final(fs) == (Fs { cache: final(fs).cache, ..*old(fs) }),
        final(fs).blocks() == old(fs).blocks(),
        ({
            let i = old(fs).inodes@[dir as int];
            match dir_block(
                old(fs).blocks(),
                old(fs).supers@,
                old(fs).ext4@,
                i,
                blk as int,
            ) {
                None => r is None,
                Some(d) => {
                    &&& r is Some
                    &&& r->0@ == d
                    &&& d.len() == 1024 * old(fs).ext4@[i.i_sb as int].scale()
                    &&& 1024 <= d.len() <= 4096
                },
            }
        }),
{
    let ghost c = fs.blocks();
    let ghost supers = fs.supers@;
    let ghost info = fs.ext4@;
    let ghost i = fs.inodes@[dir as int];
    let sb_nr: usize = fs.inodes[dir].i_sb;
    let dev: u16 = fs.supers[sb_nr].s_dev;
    let scale: u64 = (fs.ext4[sb_nr].fs_block_size / 1024) as u64;
    if scale > 4 {
        return None;
    }
    let mut out: Vec<u8> = Vec::new();
    let mut k: u64 = 0;
    while k < scale
        invariant
            fs.wf(),
            dir < 64,
            k <= scale <= 4,
            blk <= u32::MAX,
            scale == info[i.i_sb as int].scale(),
            dev == supers[i.i_sb as int].s_dev,
            *fs == (Fs { cache: fs.cache, ..*old(fs) }),
            fs.blocks() == c,
            c == old(fs).blocks(),
            supers == fs.supers@,
            info == fs.ext4@,
            i == fs.inodes@[dir as int],
            out@.len() == 1024 * k,
            forall|j: int|
                0 <= j < k ==> has_buffer(
                    c,
                    supers,
                    info,
                    i,
                    #[trigger] buffer_of(scale as int, blk as int, j),
                ),
            forall|p: int|
                0 <= p < 1024 * k ==> #[trigger] out@[p] == c[(
                    dev,
                    mapped(c, supers, info, i, buffer_of(scale as int, blk as int, p / 1024)),
                )][p % 1024],
        decreases scale - k,
    {
        assert(blk * scale <= 0x1_0000_0000 * 4) by (nonlinear_arith)
            requires
                blk <= 0x1_0000_0000,
                scale <= 4,
        ;
        let b: u32 = ((blk * scale + k) % 0x1_0000_0000) as u32;
        assert(b == buffer_of(scale as int, blk as int, k as int));
        let phys: u32 = bmap(fs, dir, b, false);
        if phys == 0 {
            assert(!has_buffer(c, supers, info, i, buffer_of(scale as int, blk as int, k as int)));
            return None;
        }
        match fs.cache.read_block(dev, phys) {
            None => {
                assert(!has_buffer(
                    c,
                    supers,
                    info,
                    i,
                    buffer_of(scale as int, blk as int, k as int),
                ));
                return None;
            },
            Some(data) => {
                let ghost before = out@;
                let mut data: Vec<u8> = data;
                let ghost more = data@;
                out.append(&mut data);
                assert(out@ =~= before + more);
            },
        }
        k = k + 1;
    }
    proof {
        let d = dir_block(c, supers, info, i, blk as int);
        assert(d is Some);
        assert(out@ =~= d->0);
    }
    Some(out)
}

// ---- looking names up ----

/// How many blocks a directory has.
pub open spec fn dir_blocks(info: Seq<Ext4SbInfo>, i: Inode) -> int {
    let bs = info[i.i_sb as int].fs_block_size as int;
    (i.i_size + bs - 1) / bs
}

/// The number of blocks of a directory.
pub fn count_blocks(fs: &Fs, dir: usize) -> (r: u64)
    requires
        fs.wf(),
        dir < 64,
        fs.inodes@[dir as int].i_sb != NIL,
    ensures
        r == dir_blocks(fs.ext4@, fs.inodes@[dir as int]),
        r <= u32::MAX,
{
    let size: u64 = fs.inodes[dir].i_size as u64;
    let bs: u64 = fs.ext4[fs.inodes[dir].i_sb].fs_block_size as u64;
    let n: u64 = (size + bs - 1) / bs;
    assert(n <= size) by (nonlinear_arith)
        requires
            n == (size + bs - 1) / (bs as int),
            bs >= 1,
            size >= 0,
    ;
    n
}

/// The inode number that blocks `blk` to `n` of directory `i` have for a name.
pub open spec fn found(
    c: Blocks,
    supers: Seq<SuperBlock>,
    info: Seq<Ext4SbInfo>,
    i: Inode,
    name: Seq<u8>,
    blk: int,
    n: int,
) -> Option<u32>
    decreases n - blk,
{
    if blk >= n {
        None
    } else {
        match dir_block(c, supers, info, i, blk) {
            None => found(c, supers, info, i, name, blk + 1, n),
            Some(d) => match first_named(d, entries_from(d, 0, false), name) {
                Some(e) => Some(e.inode),
                None => found(c, supers, info, i, name, blk + 1, n),
            },
        }
    }
}

/// The inode number that a name in directory `dir` stands for.
pub fn find_entry(fs: &mut Fs, dir: usize, name: &[u8]) -> (r: Option<u32>)
    requires
        old(fs).wf(),
        dir < 64,
        old(fs).inodes@[dir as int].i_sb != NIL,
    ensures
        final(fs).wf(),
        *final(fs) == (Fs { cache: final(fs).cache, ..*old(fs) }),
        final(fs).blocks() == old(fs).blocks(),
        r == named_in(old(fs), dir, name@),
{
    if name.len() > 255 {
        return None;
    }
    let ghost c = fs.blocks();
    let ghost supers = fs.supers@;
    let ghost info = fs.ext4@;
    let ghost i = fs.inodes@[dir as int];
    let n: u64 = count_blocks(fs, dir);
    let mut blk: u64 = 0;
    while blk < n
        invariant
            fs.wf(),
            dir < 64,
            i.i_sb != NIL,
            blk <= n <= u32::MAX,
            n == dir_blocks(info, i),
            name@.len() <= 255,
            *fs == (Fs { cache: fs.cache, ..*old(fs) }),
            fs.blocks() == c,
            c == old(fs).blocks(),
            supers == fs.supers@,
            info == fs.ext4@,
            i == fs.inodes@[dir as int],
            found(c, supers, info, i, name@, 0, n as int) == found(
                c,
                supers,
                info,
                i,
                name@,
                blk as int,
                n as int,
            ),
        decreases n - blk,
    {
        match read_dir_block(fs, dir, blk) {
            None => {},
            Some(d) => match find_named(d.as_slice(), name, false) {
                None => {},
                Some(e) => {
                    return Some(e.inode);
                },
            },
        }
        blk = blk + 1;
    }
    None
}

/// The inode number that a name in directory `dir` stands for. There are no names
/// of more than 255 bytes.
pub open spec fn named_in(fs: &Fs, dir: usize, name: Seq<u8>) -> Option<u32> {
    if name.len() > 255 {
        None
    } else {
        let i = fs.inodes@[dir as int];
        found(fs.blocks(), fs.supers@, fs.ext4@, i, name, 0, dir_blocks(fs.ext4@, i))
    }
}

/// The inode that a name in directory `dir` leads to.
pub fn lookup(fs: &mut Fs, dir: usize, name: &[u8]) -> (r: Result<usize, i32>)
    requires
        old(fs).wf(),
        dir < 64,
        old(fs).inodes@[dir as int].i_sb != NIL,
        forall|n: int| 0 <= n < 64 ==> (#[trigger] old(fs).inodes@[n]).i_count < u16::MAX,
    ensures
        final(fs).wf(),
        lookup_did(old(fs), final(fs), dir, name@, r),
{
    if !mode::is_dir(fs.inodes[dir].i_mode) {
        return Err(ENOTDIR);
    }
    match find_entry(fs, dir, name) {
        None => Err(ENOENT),
        Some(ino) => {
            if ino == 0 {
                return Err(ENOENT);
            }
            let sb_nr: usize = fs.inodes[dir].i_sb;
            let ip: usize = iget(fs, sb_nr, ino);
            if ip == NIL {
                return Err(EIO);
            }
            Ok(ip)
        },
    }
}

/// The state `fs` is that of `fs0` after a name in directory `dir` was looked up.
pub open spec fn lookup_did(fs0: &Fs, fs: &Fs, dir: usize, name: Seq<u8>, r: Result<usize, i32>) -> bool {
    let i = fs0.inodes@[dir as int];
    let same = *fs == (Fs { cache: fs.cache, ..*fs0 }) && fs.blocks() == fs0.blocks();
    if type_bits(i.i_mode) != mode::S_IFDIR {
        r == Err::<usize, i32>(ENOTDIR) && same
    } else {
        match named_in(fs0, dir, name) {
            None => r == Err::<usize, i32>(ENOENT) && same,
            Some(ino) => if ino == 0 {
                r == Err::<usize, i32>(ENOENT) && same
            } else {
                &&& iget_fs(
                    fs0,
                    fs,
                    i.i_sb,
                    ino,
                    true,
                    match r {
                        Ok(n) => n,
                        Err(_) => NIL,
                    },
                )
                &&& r is Err ==> r == Err::<usize, i32>(EIO)
                &&& r is Ok ==> r->Ok_0 < 64
            },
        }
    }
}

// ---- adding names ----

/// The first place in the directory block `d` from `off` on for an entry that needs
/// `need` bytes: an unused entry, or one that has room behind its name.
pub open spec fn place_in(d: Seq<u8>, need: int, off: int) -> Option<(int, bool)>
    decreases d.len() - off,
    when off >= 0
{
    let rec = le16(d, off + 4) as int;
    if off + 8 > d.len() || rec == 0 || off + rec > d.len() {
        None
    } else if le32(d, off) == 0 && rec >= need {
        Some((off, false))
    } else if le32(d, off) != 0 && rec >= round_up4(8 + d[off + 6]) + need {
        Some((off, true))
    } else {
        place_in(d, need, off + rec)
    }
}

/// The block `d` with an entry at `o`; its record length is not touched.
pub open spec fn with_entry(d: Seq<u8>, o: int, ino: u32, name: Seq<u8>, ftype: u8) -> Seq<u8> {
    let d1 = with_le32(d, o, ino).update(o + 6, name.len() as u8).update(o + 7, ftype);
    overlay(d1, o + 8, name)
}

/// The block `d` with an entry in that place. Where the place is behind the name of
/// another entry, the two share its record.
pub open spec fn entry_in(d: Seq<u8>, place: (int, bool), ino: u32, name: Seq<u8>, ftype: u8) -> Seq<u8> {
    let (off, behind) = place;
    if behind {
        let rec = le16(d, off + 4) as int;
        let used = round_up4(8 + d[off + 6]);
        let d1 = with_le16(d, off + 4, used as u16);
        let d2 = with_le16(d1, off + used + 4, (rec - used) as u16);
        with_entry(d2, off + used, ino, name, ftype)
    } else {
        with_entry(d, off, ino, name, ftype)
    }
}

/// Looks for a place in a directory block and puts an entry there.
fn put_in_block(d: &mut Vec<u8>, ino: u32, name: &[u8], ftype: u8) -> (r: bool)
    requires
        1024 <= old(d)@.len() <= 4096,
        name@.len() <= 255,
    ensures
        final(d)@.len() == old(d)@.len(),
        match place_in(old(d)@, round_up4(8 + name@.len() as int), 0) {
            None => !r && final(d)@ == old(d)@,
            Some(place) => r && final(d)@ == entry_in(old(d)@, place, ino, name@, ftype),
        },
{
    let ghost d0 = d@;
    let need: usize = ext4_dir_rec_len(name.len() as u8) as usize;
    let len: usize = d.len();
    let mut off: usize = 0;
    while off + 8 <= len
        invariant
            len == d@.len() <= 4096,
            d@ == d0,
            d0 == old(d)@,
            name@.len() <= 255,
            need == round_up4(8 + name@.len() as int),
            need >= 8 + name@.len(),
            off <= len,
            place_in(d0, need as int, 0) == place_in(d0, need as int, off as int),
        decreases len - off,
    {
        let rec: usize = get_le16(d.as_slice(), off + 4) as usize;
        if rec == 0 || off + rec > len {
            return false;
        }
        let have: u32 = get_le32(d.as_slice(), off);
        let used: usize = ext4_dir_rec_len(d[off + 6]) as usize;
        if have == 0 && rec >= need {
            write_entry(d, off, ino, name, ftype);
            return true;
        }
        if have != 0 && rec >= used + need {
            let at: usize = off + used;
            put_le16(d, off + 4, used as u16);
            put_le16(d, at + 4, (rec - used) as u16);
            write_entry(d, at, ino, name, ftype);
            return true;
        }
        off = off + rec;
    }
    false
}

/// Writes an entry at `o`.
fn write_entry(d: &mut Vec<u8>, o: usize, ino: u32, name: &[u8], ftype: u8)
    requires
        name@.len() <= 255,
        o + 8 + name@.len() <= old(d)@.len() <= 4096,
    ensures
        final(d)@ == with_entry(old(d)@, o as int, ino, name@, ftype),
        final(d)@.len() == old(d)@.len(),
{
    put_le32(d, o, ino);
    d[o + 6] = name.len() as u8;
    d[o + 7] = ftype;
    put_bytes(d, o + 8, name);
}

/// The blocks after the first `k` buffers of block `blk` of directory `i` were
/// written, those that it has.
pub open spec fn dir_block_put(
    c: Blocks,
    supers: Seq<SuperBlock>,
    info: Seq<Ext4SbInfo>,
    i: Inode,
    blk: int,
    d: Seq<u8>,
    k: int,
) -> Blocks
    decreases k,
{
    if k <= 0 {
        c
    } else {
        let c1 = dir_block_put(c, supers, info, i, blk, d, k - 1);
        let b = mapped(c1, supers, info, i, buffer_of(info[i.i_sb as int].scale(), blk, k - 1));
        let key = (supers[i.i_sb as int].s_dev, b);
        if b != 0 && c1.dom().contains(key) {
            c1.insert(key, d.subrange(1024 * (k - 1), 1024 * k))
        } else {
            c1
        }
    }
}

/// Writes a block of a directory.
fn write_dir_block(fs: &mut Fs, dir: usize, blk: u64, d: &Vec<u8>)
    requires
        old(fs).wf(),
        dir < 64,
        old(fs).inodes@[dir as int].i_sb != NIL,
        blk <= u32::MAX,
        d@.len() == 1024 * old(fs).ext4@[old(fs).inodes@[dir as int].i_sb as int].scale(),
        d@.len() <= 4096,
    ensures
        final(fs).wf(),
        *final(fs) == (Fs { cache: final(fs).cache, ..*old(fs) }),
        ({
            let i = old(fs).inodes@[dir as int];
            final(fs).blocks() == dir_block_put(
                old(fs).blocks(),
                old(fs).supers@,
                old(fs).ext4@,
                i,
                blk as int,
                d@,
                old(fs).ext4@[i.i_sb as int].scale(),
            )
        }),
{
    let ghost supers = fs.supers@;
    let ghost info = fs.ext4@;
    let ghost i = fs.inodes@[dir as int];
    let sb_nr: usize = fs.inodes[dir].i_sb;
    let dev: u16 = fs.supers[sb_nr].s_dev;
    let scale: u64 = (fs.ext4[sb_nr].fs_block_size / 1024) as u64;
    let mut k: u64 = 0;
    while k < scale
        invariant
            fs.wf(),
            dir < 64,
            k <= scale <= 4,
            blk <= u32::MAX,
            d@.len() == 1024 * scale,
            scale == info[i.i_sb as int].scale(),
            dev == supers[i.i_sb as int].s_dev,
            *fs == (Fs { cache: fs.cache, ..*old(fs) }),
            supers == fs.supers@,
            info == fs.ext4@,
            i == fs.inodes@[dir as int],
            fs.blocks() == dir_block_put(
                old(fs).blocks(),
                supers,
                info,
                i,
                blk as int,
                d@,
                k as int,
            ),
        decreases scale - k,
    {
        assert(blk * scale <= 0x1_0000_0000 * 4) by (nonlinear_arith)
            requires
                blk <= 0x1_0000_0000,
                scale <= 4,
        ;
        let b: u32 = ((blk * scale + k) % 0x1_0000_0000) as u32;
        let phys: u32 = bmap(fs, dir, b, true);
        if phys != 0 {
            let from: usize = k as usize * 1024;
            let piece: &[u8] = &d.as_slice()[from..from + 1024];
            let ok: bool = fs.cache.write_block(dev, phys, piece);
        }
        k = k + 1;
    }
}

/// The first block from `blk` to `n` of directory `i` that has a place for an entry
/// of `need` bytes, and the place.
pub open spec fn placed(
    c: Blocks,
    supers: Seq<SuperBlock>,
    info: Seq<Ext4SbInfo>,
    i: Inode,
    need: int,
    blk: int,
    n: int,
) -> Option<(int, (int, bool))>
    decreases n - blk,
{
    if blk >= n {
        None
    } else {
        match dir_block(c, supers, info, i, blk) {
            None => placed(c, supers, info, i, need, blk + 1, n),
            Some(d) => match place_in(d, need, 0) {
                Some(p) => Some((blk, p)),
                None => placed(c, supers, info, i, need, blk + 1, n),
            },
        }
    }
}

/// Buffer `k` of block `b` of the file system.
pub open spec fn block_buffer(b: int, scale: int, k: int) -> u32 {
    low32(low32(b) * scale + k)
}

/// The blocks with the first `k` buffers of block `b` of the file system zero.
pub open spec fn zeroed_buffers(c: Blocks, dev: u16, b: int, scale: int, k: int) -> Blocks
    decreases k,
{
    if k <= 0 {
        c
    } else {
        let c1 = zeroed_buffers(c, dev, b, scale, k - 1);
        let key = (dev, block_buffer(b, scale, k - 1));
        if c1.dom().contains(key) {
            c1.insert(key, zeros(1024))
        } else {
            c1
        }
    }
}

/// Zeroes a block of the file system.
pub fn zero_block(fs: &mut Fs, dev: u16, b: u64, scale: u32)
    requires
        old(fs).wf(),
    ensures
        final(fs).wf(),
        *final(fs) == (Fs { cache: final(fs).cache, ..*old(fs) }),
        final(fs).blocks() == zeroed_buffers(
            old(fs).blocks(),
            dev,
            b as int,
            scale as int,
            scale as int,
        ),
{
    let zero: Vec<u8> = zeroed(1024);
    let low: u32 = (b % 0x1_0000_0000) as u32;
    let mut k: u32 = 0;
    while k < scale
        invariant
            fs.wf(),
            k <= scale,
            zero@ == zeros(1024),
            low == low32(b as int),
            *fs == (Fs { cache: fs.cache, ..*old(fs) }),
            fs.blocks() == zeroed_buffers(
                old(fs).blocks(),
                dev,
                b as int,
                scale as int,
                k as int,
            ),
        decreases scale - k,
    {
        let n: u32 = scaled(low, scale, k);
        let ok: bool = fs.cache.write_block(dev, n, zero.as_slice());
        k = k + 1;
    }
}

/// The first buffer of a block with one entry that takes up all of it.
pub open spec fn single_entry(ino: u32, bs: int, name: Seq<u8>, ftype: u8) -> Seq<u8> {
    with_entry(with_le16(zeros(1024), 4, (bs % 65536) as u16), 0, ino, name, ftype)
}

/// The blocks with one entry in block `b` of the file system, `scale` buffers of
/// which are set. The entry takes up `bs` bytes.
pub open spec fn entry_block(
    c: Blocks,
    dev: u16,
    b: int,
    scale: int,
    bs: int,
    ino: u32,
    name: Seq<u8>,
    ftype: u8,
) -> Blocks {
    let c1 = zeroed_buffers(c, dev, b, scale, scale);
    let key = (dev, block_buffer(b, scale, 0));
    if c1.dom().contains(key) {
        c1.insert(key, single_entry(ino, bs, name, ftype))
    } else {
        c1
    }
}

/// The state `fs` is that of `fs0` after directory `dir` was given a block `phys`
/// with the entry in it. The device is then written out.
pub open spec fn block_added(
    fs0: &Fs,
    fs: &Fs,
    dir: usize,
    phys: u64,
    ino: u32,
    name: Seq<u8>,
    ftype: u8,
) -> bool {
    let i0 = fs0.inodes@[dir as int];
    let f = fs0.ext4@[i0.i_sb as int];
    let dev = fs0.supers@[i0.i_sb as int].s_dev;
    let new_block = i0.i_size as int / f.fs_block_size as int;
    exists|fs1: Fs, fs2: Fs|
        {
            let i1 = fs1.inodes@[dir as int];
            &&& #[trigger] is_extended(fs0, &fs1, dir, new_block as u32, low32(phys as int))
            &&& fs2 == (Fs { cache: fs2.cache, inodes: fs2.inodes, ..fs1 })
            &&& fs2.blocks() == entry_block(
                fs1.blocks(),
                dev,
                phys as int,
                f.scale32(),
                f.fs_block_size as int,
                ino,
                name,
                ftype,
            )
            &&& fs2.inodes@ == fs1.inodes@.update(
                dir as int,
                Inode {
                    i_size: low32((new_block + 1) * f.fs_block_size),
                    i_dirt: true,
                    ..i1
                },
            )
            &&& #[trigger] is_synced(&fs2, fs, dev)
        }
}

/// The state `fs` is that of `fs0` after a name was put into directory `dir`, with
/// the answer `r`: into the first place for it, or into a new block. The device is
/// then written out.
pub open spec fn entry_put(
    fs0: &Fs,
    fs: &Fs,
    dir: usize,
    ino: u32,
    name: Seq<u8>,
    ftype: u8,
    r: Result<(), i32>,
) -> bool {
    let c = fs0.blocks();
    let i = fs0.inodes@[dir as int];
    let f = fs0.ext4@[i.i_sb as int];
    let dev = fs0.supers@[i.i_sb as int].s_dev;
    match placed(
        c,
        fs0.supers@,
        fs0.ext4@,
        i,
        round_up4(8 + name.len() as int),
        0,
        dir_blocks(fs0.ext4@, i),
    ) {
        Some((blk, place)) => {
            let d = dir_block(c, fs0.supers@, fs0.ext4@, i, blk)->0;
            &&& r is Ok
            &&& synced_from(
                fs0,
                dir_block_put(
                    c,
                    fs0.supers@,
                    fs0.ext4@,
                    i,
                    blk,
                    entry_in(d, place, ino, name, ftype),
                    f.scale(),
                ),
                fs,
                dev,
            )
        },
        None => exists|fs1: Fs, b: Option<u64>|
            {
                &&& #[trigger] block_taken(fs0, &fs1, i.i_sb, b)
                &&& match b {
                    None => {
                        &&& r == Err::<(), i32>(ENOSPC)
                        &&& *fs == fs1
                    },
                    Some(phys) => {
                        &&& r is Ok
                        &&& block_added(&fs1, fs, dir, phys, ino, name, ftype)
                    },
                }
            },
    }
}

/// The inodes are in their slots as before, with the references and links that they
/// had.
pub open spec fn same_links(s0: Seq<Inode>, s: Seq<Inode>) -> bool {
    &&& s.len() == s0.len()
    &&& forall|k: int|
        0 <= k < s0.len() ==> {
            &&& (#[trigger] s[k]).i_count == s0[k].i_count
            &&& s[k].i_nlink == s0[k].i_nlink
            &&& s[k].i_sb == s0[k].i_sb
            &&& s[k].i_mount == s0[k].i_mount
            &&& s[k].i_dev == s0[k].i_dev
            &&& s[k].i_ino == s0[k].i_ino
            &&& s[k].in_use == s0[k].in_use
            &&& s[k].i_mode == s0[k].i_mode
        }
}

/// Gives a directory a new block with the entry in it.
#[verifier::spinoff_prover]
#[verifier::rlimit(40)]
fn add_block(fs: &mut Fs, dir: usize, phys: u64, ino: u32, name: &[u8], ftype: u8)
    requires
        old(fs).wf(),
        dir < 64,
        old(fs).inodes@[dir as int].i_sb != NIL,
        name@.len() <= 255,
    ensures
        final(fs).wf(),
        block_added(old(fs), final(fs), dir, phys, ino, name@, ftype),
        same_links(old(fs).inodes@, final(fs).inodes@),
{
    let ghost i0 = fs.inodes@[dir as int];
    let sb_nr: usize = fs.inodes[dir].i_sb;
    let dev: u16 = fs.supers[sb_nr].s_dev;
    let bs: u64 = fs.ext4[sb_nr].fs_block_size as u64;
    let scale: u32 = (bs / 1024 % 0x1_0000_0000) as u32;
    let size: u64 = fs.inodes[dir].i_size as u64;
    let new_block: u64 = size / bs;
    proof {
        assert(new_block <= size) by (nonlinear_arith)
            requires
                new_block == size / bs,
                bs >= 1,
                size >= 0,
        ;
        assert((new_block + 1) * bs <= size + bs) by (nonlinear_arith)
            requires
                new_block == size / bs,
                bs >= 1,
                size >= 0,
        ;
    }
    extend_inode_block(fs, dir, new_block as u32, (phys % 0x1_0000_0000) as u32);
    let ghost fs1 = *fs;
    zero_block(fs, dev, phys, scale);
    let first: u32 = scaled((phys % 0x1_0000_0000) as u32, scale, 0);
    let mut raw: Vec<u8> = zeroed(1024);
    put_le16(&mut raw, 4, (bs % 65536) as u16);
    write_entry(&mut raw, 0, ino, name, ftype);
    let ok: bool = fs.cache.write_block(dev, first, raw.as_slice());
    fs.inodes[dir].i_size = ((new_block + 1) * bs % 0x1_0000_0000) as u32;
    fs.inodes[dir].i_dirt = true;
    let ghost fs2 = *fs;
    assert(fs2.inodes@ =~= fs1.inodes@.update(dir as int, fs2.inodes@[dir as int]));
    sync_dev(fs, dev);
    assert(is_extended(old(fs), &fs1, dir, new_block as u32, low32(phys as int)));
    assert(is_synced(&fs2, fs, dev));
}

/// Puts a name into directory `dir`.
#[verifier::spinoff_prover]
#[verifier::rlimit(60)]
pub fn add_entry(fs: &mut Fs, dir: usize, ino: u32, name: &[u8], ftype: u8) -> (r: Result<(), i32>)
    requires
        old(fs).wf(),
        dir < 64,
        old(fs).inodes@[dir as int].i_sb != NIL,
        name@.len() <= 255,
    ensures
        final(fs).wf(),
        entry_put(old(fs), final(fs), dir, ino, name@, ftype, r),
        same_links(old(fs).inodes@, final(fs).inodes@),
{
    let ghost c = fs.blocks();
    let ghost supers = fs.supers@;
    let ghost info = fs.ext4@;
    let ghost i = fs.inodes@[dir as int];
    let ghost need = round_up4(8 + name@.len() as int);
    let sb_nr: usize = fs.inodes[dir].i_sb;
    let dev: u16 = fs.supers[sb_nr].s_dev;
    let n: u64 = count_blocks(fs, dir);
    let mut blk: u64 = 0;
    while blk < n
        invariant
            fs.wf(),
            dir < 64,
            i.i_sb != NIL,
            i.i_sb == sb_nr,
            dev == supers[i.i_sb as int].s_dev,
            name@.len() <= 255,
            need == round_up4(8 + name@.len() as int),
            blk <= n <= u32::MAX,
            n == dir_blocks(info, i),
            *fs == (Fs { cache: fs.cache, ..*old(fs) }),
            fs.blocks() == c,
            c == old(fs).blocks(),
            supers == fs.supers@,
            info == fs.ext4@,
            i == fs.inodes@[dir as int],
            placed(c, supers, info, i, need, 0, n as int) == placed(
                c,
                supers,
                info,
                i,
                need,
                blk as int,
                n as int,
            ),
        decreases n - blk,
    {
        match read_dir_block(fs, dir, blk) {
            None => {},
            Some(mut d) => {
                if put_in_block(&mut d, ino, name, ftype) {
                    write_dir_block(fs, dir, blk, &d);
                    sync_dev(fs, dev);
                    return Ok(());
                }
            },
        }
        blk = blk + 1;
    }
    let ghost fs0 = *fs;
    match alloc_block_any(fs, sb_nr) {
        None => {
            let ghost none: Option<u64> = None;
            assert(block_taken(old(fs), fs, sb_nr, none));
            Err(ENOSPC)
        },
        Some(phys) => {
            let ghost fs1 = *fs;
            assert(block_taken(old(fs), &fs1, sb_nr, Some(phys)));
            add_block(fs, dir, phys, ino, name, ftype);
            Ok(())
        },
    }
}

} // verus!
