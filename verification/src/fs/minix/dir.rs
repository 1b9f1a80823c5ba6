//! Reading directories.
//!
//! A directory is a file of entries of one size. An entry starts with an inode
//! number; zero marks one that is not used. The name follows. It ends with a zero
//! byte where it is shorter than the longest name there can be.

use super::file::file_byte;
use super::inode_ops::{lemma_got_is_mapped, mapped, minix_bread};
use crate::bytes::{get_le16, le16};
use crate::errno::{EBADF, ENOTDIR};
use crate::fs::ext2::inode::mode::type_bits;
use crate::fs::inode::NIL;
use crate::fs::mode;
use crate::fs::super_block::SuperBlock;
use crate::fs::{Blocks, Dirent, Fs, DIRENT_SIZE};
use vstd::prelude::*;

verus! {

/// An entry of a directory.
#[derive(Debug, Clone, Copy)]
pub struct DirEntry {
    pub ino: u16,
    pub name: [u8; 32],
    pub name_len: usize,
    /// Where the entry stands in the directory.
    pub offset: u64,
}

/// The sizes of entries and names are those of one of the two formats.
pub open spec fn sizes_ok(s: SuperBlock) -> bool {
    (s.s_dirsize == 16 && s.s_namelen == 14) || (s.s_dirsize == 32 && s.s_namelen == 30)
}

/// The inode number of the entry at `off`.
pub open spec fn entry_ino(c: Blocks, dev: u16, z: Seq<u16>, off: int) -> int {
    file_byte(c, dev, z, off) + 256 * file_byte(c, dev, z, off + 1)
}

/// Where the entry after the one at `off` starts. No entry runs over the end of a
/// block.
pub open spec fn next_off(off: int, ds: int) -> int {
    if off % 1024 + ds <= 1024 {
        off + ds
    } else {
        1024 * (off / 1024 + 1)
    }
}

/// Where the first entry in use from `off` on starts.
pub open spec fn next_entry(c: Blocks, dev: u16, z: Seq<u16>, size: int, ds: int, off: int) -> Option<
    int,
>
    decreases
            if off < size {
                size - off
            } else {
                0
            },
    when 0 <= off && 0 < ds
{
    if off >= size {
        None
    } else if off % 1024 + ds <= 1024 && entry_ino(c, dev, z, off) != 0 {
        Some(off)
    } else {
        next_entry(c, dev, z, size, ds, next_off(off, ds))
    }
}

/// How long the name in the bytes `raw` is: up to the first zero byte, at most
/// `max`.
pub open spec fn name_end(raw: Seq<u8>, max: int, n: int) -> bool {
    &&& 0 <= n <= max && n <= raw.len()
    &&& forall|i: int| 0 <= i < n ==> raw[i] != 0
    &&& n == max || n == raw.len() || raw[n] == 0
}

/// How long the name in an entry is. A name of full length has no zero byte.
pub fn name_len(raw: &[u8], namelen: usize) -> (r: usize)
    ensures
        name_end(raw@, namelen as int, r as int),
{
    let mut i: usize = 0;
    while i < namelen && i < raw.len() && raw[i] != 0
        invariant
            i <= namelen,
            i <= raw@.len(),
            forall|k: int| 0 <= k < i ==> raw@[k] != 0,
        decreases raw@.len() - i,
    {
        i = i + 1;
    }
    i
}

/// In a block that a file does not have there is no entry in use.
pub proof fn lemma_skip_hole(c: Blocks, dev: u16, z: Seq<u16>, size: int, ds: int, off: int)
    requires
        0 <= off,
        2 <= ds <= 1024,
        ({
            let b = mapped(c, dev, z, off / 1024);
            b == 0 || !c.dom().contains((dev, b as u32))
        }),
    ensures
        next_entry(c, dev, z, size, ds, off) == next_entry(
            c,
            dev,
            z,
            size,
            ds,
            1024 * (off / 1024 + 1),
        ),
    decreases 1024 * (off / 1024 + 1) - off,
{
    let end = 1024 * (off / 1024 + 1);
    if off < size {
        let n = next_off(off, ds);
        if off % 1024 + ds <= 1024 {
            assert((off + 1) / 1024 == off / 1024);
            assert(entry_ino(c, dev, z, off) == 0);
            if n < end {
                assert(n / 1024 == off / 1024);
                lemma_skip_hole(c, dev, z, size, ds, n);
            }
        }
    }
}

/// The bytes of a file within one block are those of the device block.
pub proof fn lemma_entry_in_block(c: Blocks, dev: u16, z: Seq<u16>, off: int, k: int)
    requires
        0 <= off,
        0 <= k,
        off % 1024 + k < 1024,
        ({
            let b = mapped(c, dev, z, off / 1024);
            b != 0 && c.dom().contains((dev, b as u32))
        }),
    ensures
        file_byte(c, dev, z, off + k) == c[(dev, mapped(c, dev, z, off / 1024) as u32)][off % 1024
            + k],
{
    assert((off + k) / 1024 == off / 1024 && (off + k) % 1024 == off % 1024 + k);
}

/// `e` is the entry at `off`.
pub open spec fn is_entry(c: Blocks, dev: u16, z: Seq<u16>, max: int, off: int, e: DirEntry) -> bool {
    &&& e.offset == off
    &&& e.ino == entry_ino(c, dev, z, off)
    &&& e.name_len <= max
    &&& forall|i: int|
        0 <= i < e.name_len ==> e.name@[i] != 0 && #[trigger] e.name@[i] == file_byte(
            c,
            dev,
            z,
            off + 2 + i,
        )
    &&& e.name_len == max || file_byte(c, dev, z, off + 2 + e.name_len) == 0
    &&& forall|i: int| e.name_len <= i < 32 ==> #[trigger] e.name@[i] == 0
}

/// The entry that starts at `in_block` in the bytes of a block.
fn entry_from(data: &Vec<u8>, in_block: usize, ds: usize, max: usize, off: u64) -> (e: DirEntry)
    requires
        data@.len() == 1024,
        in_block + ds <= 1024,
        ds == max + 2,
        max <= 30,
    ensures
        e.offset == off,
        e.ino == le16(data@, in_block as int),
        name_end(
            data@.subrange(in_block + 2, in_block + ds),
            max as int,
            e.name_len as int,
        ),
        forall|i: int|
            0 <= i < 32 ==> #[trigger] e.name@[i] == (if i < e.name_len {
                data@[in_block + 2 + i]
            } else {
                0
            }),
{
    let ino: u16 = get_le16(data.as_slice(), in_block);
    let nraw: &[u8] = &data.as_slice()[in_block + 2..in_block + ds];
    let nl: usize = name_len(nraw, max);
    let mut name: [u8; 32] = [0u8;32];
    let mut i: usize = 0;
    while i < nl
        invariant
            i <= nl <= max <= 30,
            nraw@.len() == max,
            nraw@ == data@.subrange(in_block + 2, in_block + ds),
            ds == max + 2,
            in_block + ds <= 1024 == data@.len(),
            forall|k: int|
                0 <= k < 32 ==> #[trigger] name@[k] == (if k < i {
                    data@[in_block + 2 + k]
                } else {
                    0
                }),
        decreases nl - i,
    {
        name[i] = nraw[i];
        i = i + 1;
    }
    DirEntry { ino, name, name_len: nl, offset: off }
}

/// The first entry in use of directory `n` from `pos` on.
pub fn readdir(fs: &mut Fs, n: usize, pos: u64) -> (r: Option<DirEntry>)
    requires
        old(fs).wf(),
        n < 64,
        old(fs).inodes@[n as int].i_sb != NIL ==> sizes_ok(
            old(fs).supers@[old(fs).inodes@[n as int].i_sb as int],
        ),
    ensures
        final(fs).wf(),
        final(fs).blocks() == old(fs).blocks(),
        final(fs).inodes@ == old(fs).inodes@,
        *final(fs) == (Fs { cache: final(fs).cache, inodes: final(fs).inodes, ..*old(fs) }),
        ({
            let i = old(fs).inodes@[n as int];
            let s = old(fs).supers@[i.i_sb as int];
            let c = old(fs).blocks();
            if i.i_sb == NIL {
                r is None
            } else {
                match next_entry(
                    c,
                    i.i_dev,
                    i.data@,
                    i.i_size as int,
                    s.s_dirsize as int,
                    pos as int,
                ) {
                    None => r is None,
                    Some(off) => r is Some && is_entry(
                        c,
                        i.i_dev,
                        i.data@,
                        s.s_namelen as int,
                        off,
                        r->0,
                    ) && pos <= off < i.i_size,
                }
            }
        }),
{
    let ghost i0 = fs.inodes@[n as int];
    let ghost c = fs.blocks();
    let sb_nr: usize = fs.inodes[n].i_sb;
    let size: u64 = fs.inodes[n].i_size as u64;
    if sb_nr == NIL {
        return None;
    }
    let ds: usize = fs.supers[sb_nr].s_dirsize;
    let max: usize = fs.supers[sb_nr].s_namelen;
    let ghost z = i0.data@;
    let ghost dev = i0.i_dev;
    let mut off: u64 = pos;
    while off < size
        invariant
            fs.wf(),
            n < 64,
            ds == max + 2,
            ds == 16 || ds == 32,
            pos <= off,
            size == i0.i_size,
            i0.i_sb != NIL,
            ds == fs.supers@[i0.i_sb as int].s_dirsize,
            max == fs.supers@[i0.i_sb as int].s_namelen,
            z == i0.data@,
            dev == i0.i_dev,
            *fs == (Fs { cache: fs.cache, inodes: fs.inodes, ..*old(fs) }),
            fs.inodes@ == old(fs).inodes@,
            fs.blocks() == c,
            c == old(fs).blocks(),
            i0 == fs.inodes@[n as int],
            next_entry(c, dev, z, size as int, ds as int, pos as int) == next_entry(
                c,
                dev,
                z,
                size as int,
                ds as int,
                off as int,
            ),
        decreases size + 1024 - off,
    {
        let block: u32 = (off / 1024) as u32;
        proof {
            lemma_got_is_mapped(c, fs.supers@[i0.i_sb as int], dev, z, block as int);
        }
        let got: Option<(u32, Vec<u8>)> = minix_bread(fs, n, block, false);
        assert(fs.inodes@ =~= old(fs).inodes@);
        match got {
            None => {
                proof {
                    lemma_skip_hole(c, dev, z, size as int, ds as int, off as int);
                }
                off = (block as u64 + 1) * 1024;
            },
            Some((b, data)) => {
                let mut in_block: usize = (off % 1024) as usize;
                while in_block + ds <= 1024 && off < size
                    invariant
                        pos <= off,
                        off <= size + 32,
                        size <= u32::MAX,
                        off == 1024 * block + in_block,
                        in_block <= 1024,
                        ds == max + 2,
                        ds == 16 || ds == 32,
                        data@.len() == 1024,
                        b != 0,
                        b == mapped(c, dev, z, block as int),
                        c.dom().contains((dev, b)),
                        data@ == c[(dev, b)],
                        fs.wf(),
                        size == i0.i_size,
                        i0.i_sb != NIL,
                        ds == fs.supers@[i0.i_sb as int].s_dirsize,
                        max == fs.supers@[i0.i_sb as int].s_namelen,
                        z == i0.data@,
                        dev == i0.i_dev,
                        *fs == (Fs { cache: fs.cache, inodes: fs.inodes, ..*old(fs) }),
                        fs.inodes@ == old(fs).inodes@,
                        fs.blocks() == c,
                        c == old(fs).blocks(),
                        i0 == fs.inodes@[n as int],
                        next_entry(c, dev, z, size as int, ds as int, pos as int) == next_entry(
                            c,
                            dev,
                            z,
                            size as int,
                            ds as int,
                            off as int,
                        ),
                    decreases 1024 - in_block,
                {
                    assert(off / 1024 == block && off % 1024 == in_block);
                    proof {
                        lemma_entry_in_block(c, dev, z, off as int, 0);
                        lemma_entry_in_block(c, dev, z, off as int, 1);
                    }
                    let ino: u16 = get_le16(data.as_slice(), in_block);
                    if ino != 0 {
                        let e: DirEntry = entry_from(&data, in_block, ds, max, off);
                        proof {
                            assert forall|i: int| 0 <= i < e.name_len implies e.name@[i] != 0
                                && #[trigger] e.name@[i] == file_byte(c, dev, z, off + 2 + i) by {
                                lemma_entry_in_block(c, dev, z, off as int, 2 + i);
                                assert(data@.subrange(in_block + 2, in_block + ds)[i] != 0);
                            }
                            if e.name_len < max {
                                lemma_entry_in_block(c, dev, z, off as int, 2 + e.name_len);
                                assert(data@.subrange(in_block + 2, in_block + ds)[e.name_len as int]
                                    == 0);
                            }
                        }
                        return Some(e);
                    }
                    in_block = in_block + ds;
                    off = off + ds as u64;
                }
                if in_block + ds > 1024 {
                    proof {
                        if in_block < 1024 && off < size {
                            assert(off / 1024 == block && off % 1024 == in_block);
                        }
                        if off >= size {
                            assert(next_entry(c, dev, z, size as int, ds as int, off as int) is None);
                        }
                    }
                    off = (block as u64 + 1) * 1024;
                }
            },
        }
    }
    None
}

/// `d` is `d0` with the entry at `off` in it. The kind of file is not touched.
pub open spec fn is_filled(
    c: Blocks,
    dev: u16,
    z: Seq<u16>,
    s: SuperBlock,
    off: int,
    d0: Dirent,
    d: Dirent,
) -> bool {
    &&& d.d_ino == entry_ino(c, dev, z, off)
    &&& d.d_off == off + s.s_dirsize
    &&& d.d_reclen == DIRENT_SIZE
    &&& d.d_type == d0.d_type
    &&& exists|e: DirEntry|
        #[trigger] is_entry(c, dev, z, s.s_namelen as int, off, e) && d.d_name@ == e.name@
}

/// What handing out the first entry in use of directory `n` from `pos` on does, with
/// the answer `r`.
pub open spec fn dirent_filled(fs0: &Fs, fs: &Fs, n: usize, pos: u64, out0: &Dirent, out: &Dirent, r: i64) -> bool {
    &&& fs.blocks() == fs0.blocks()
    &&& fs.inodes@ == fs0.inodes@
    &&& *fs == (Fs { cache: fs.cache, inodes: fs.inodes, ..*fs0 })
    &&& ({
        let i = fs0.inodes@[n as int];
        let s = fs0.supers@[i.i_sb as int];
        let c = fs0.blocks();
        if type_bits(i.i_mode) != mode::S_IFDIR {
            r == -ENOTDIR && *out == *out0
        } else if i.i_sb == NIL {
            r == -EBADF && *out == *out0
        } else {
            match next_entry(
                c,
                i.i_dev,
                i.data@,
                i.i_size as int,
                s.s_dirsize as int,
                pos as int,
            ) {
                None => r == 0 && *out == *out0,
                Some(off) => r == off + s.s_dirsize && is_filled(
                    c,
                    i.i_dev,
                    i.data@,
                    s,
                    off,
                    *out0,
                    *out,
                ),
            }
        }
    })
}

/// Hands out the first entry in use of directory `n` from `pos` on. Answers where
/// the next one starts, and zero at the end.
pub fn fill_dirent(fs: &mut Fs, n: usize, pos: u64, out: &mut Dirent) -> (r: i64)
    requires
        old(fs).wf(),
        n < 64,
        old(fs).inodes@[n as int].i_sb != NIL ==> sizes_ok(
            old(fs).supers@[old(fs).inodes@[n as int].i_sb as int],
        ),
    ensures
        final(fs).wf(),
        dirent_filled(old(fs), final(fs), n, pos, old(out), final(out), r),
{
    if !mode::is_dir(fs.inodes[n].i_mode) {
        return -(ENOTDIR as i64);
    }
    let sb_nr: usize = fs.inodes[n].i_sb;
    if sb_nr == NIL {
        return -(EBADF as i64);
    }
    let ds: u64 = fs.supers[sb_nr].s_dirsize as u64;
    match readdir(fs, n, pos) {
        None => 0,
        Some(e) => {
            out.d_ino = e.ino as u64;
            out.d_off = (e.offset + ds) as i64;
            out.d_reclen = DIRENT_SIZE;
            out.d_name = e.name;
            (e.offset + ds) as i64
        },
    }
}

} // verus!
