//! Handing out the entries of a directory.

use super::dir::{entries_from, DirIter, Ext4DirEntry};
use super::namei::{count_blocks, dir_block, dir_blocks, read_dir_block};
use super::ops::full::Ext4SbInfo;
use crate::errno::{EBADF, ENOTDIR};
use crate::fs::ext2::inode::mode::type_bits;
use crate::fs::inode::{Inode, NIL};
use crate::fs::mode;
use crate::fs::super_block::SuperBlock;
use crate::fs::{Blocks, Dirent, Fs, DIRENT_SIZE};
use vstd::prelude::*;

verus! {

/// The first of the entries that is in use and starts at `cur` or behind.
pub open spec fn first_from(es: Seq<Ext4DirEntry>, cur: int) -> Option<Ext4DirEntry>
    decreases es.len(),
{
    if es.len() == 0 {
        None
    } else if es[0].name_off - 8 >= cur && es[0].inode != 0 {
        Some(es[0])
    } else {
        first_from(es.drop_first(), cur)
    }
}

/// The first entry in use of blocks `blk` to `n` of directory `i`, in the first of
/// them from `cur` on, and its block.
pub open spec fn next_entry(
    c: Blocks,
    supers: Seq<SuperBlock>,
    info: Seq<Ext4SbInfo>,
    i: Inode,
    cur: int,
    blk: int,
    n: int,
) -> Option<(int, Ext4DirEntry)>
    decreases n - blk,
{
    if blk >= n {
        None
    } else {
        match dir_block(c, supers, info, i, blk) {
            None => next_entry(c, supers, info, i, 0, blk + 1, n),
            Some(d) => match first_from(entries_from(d, 0, false), cur) {
                Some(e) => Some((blk, e)),
                None => next_entry(c, supers, info, i, 0, blk + 1, n),
            },
        }
    }
}

/// The first entry in use of a directory block from `cur` on.
fn find_from(d: &Vec<u8>, cur: usize) -> (r: Option<Ext4DirEntry>)
    requires
        d@.len() <= 4096,
    ensures
        r == first_from(entries_from(d@, 0, false), cur as int),
        r is Some ==> 8 <= r->0.name_off && r->0.name_off + r->0.name_len <= d@.len(),
{
    let mut it = DirIter::new(d.as_slice());
    loop
        invariant
            it.block() == d@,
            !it.is_piece(),
            first_from(entries_from(d@, 0, false), cur as int) == first_from(
                it.remaining(),
                cur as int,
            ),
        decreases d@.len() - it.at(),
    {
        let ghost rest = it.remaining();
        match it.next() {
            None => {
                return None;
            },
            Some(e) => {
                assert(rest.drop_first() =~= it.remaining());
                assert(rest[0] == e);
                if e.name_off - 8 >= cur && !e.is_empty() {
                    return Some(e);
                }
            },
        }
    }
}

/// The name of an entry as far as there is room for it.
pub open spec fn cut_name(d: Seq<u8>, e: Ext4DirEntry) -> Seq<u8> {
    Seq::new(
        32,
        |k: int|
            if k < e.name_len {
                d[e.name_off + k]
            } else {
                0
            },
    )
}

/// What handing out an entry of directory `n` from `pos` on gives: where the next
/// one starts, zero at the end, or an error.
pub open spec fn dirent_given(fs: &Fs, n: usize, pos: int, d0: Dirent, d: Dirent, r: int) -> bool {
    let i = fs.inodes@[n as int];
    let f = fs.ext4@[i.i_sb as int];
    let bs = f.fs_block_size as int;
    if type_bits(i.i_mode) != mode::S_IFDIR {
        r == -ENOTDIR && d == d0
    } else if i.i_sb == NIL {
        r == -EBADF && d == d0
    } else if pos >= i.i_size {
        r == 0 && d == d0
    } else {
        match next_entry(
            fs.blocks(),
            fs.supers@,
            fs.ext4@,
            i,
            pos % bs,
            pos / bs,
            dir_blocks(fs.ext4@, i),
        ) {
            None => r == 0 && d == d0,
            Some((blk, e)) => {
                let raw = dir_block(fs.blocks(), fs.supers@, fs.ext4@, i, blk)->0;
                &&& r == blk * bs + e.name_off - 8 + e.rec_len
                &&& d.d_ino == e.inode
                &&& d.d_off == r
                &&& d.d_reclen == DIRENT_SIZE
                &&& d.d_type == e.file_type
                &&& d.d_name@ == cut_name(raw, e)
            },
        }
    }
}

/// Hands out the first entry in use of directory `n` from `pos` on.
#[verifier::spinoff_prover]
#[verifier::rlimit(60)]
pub fn fill_dirent(fs: &mut Fs, n: usize, pos: u64, out: &mut Dirent) -> (r: i64)
    requires
        old(fs).wf(),
        n < 64,
    ensures
        final(fs).wf(),
        *final(fs) == (Fs { cache: final(fs).cache, ..*old(fs) }),
        final(fs).blocks() == old(fs).blocks(),
        dirent_given(old(fs), n, pos as int, *old(out), *final(out), r as int),
{
    if !mode::is_dir(fs.inodes[n].i_mode) {
        return -(ENOTDIR as i64);
    }
    let sb_nr: usize = fs.inodes[n].i_sb;
    if sb_nr == NIL {
        return -(EBADF as i64);
    }
    if pos >= fs.inodes[n].i_size as u64 {
        return 0;
    }
    let ghost c = fs.blocks();
    let ghost supers = fs.supers@;
    let ghost info = fs.ext4@;
    let ghost i = fs.inodes@[n as int];
    let bs: u64 = fs.ext4[sb_nr].fs_block_size as u64;
    let count: u64 = count_blocks(fs, n);
    let mut blk: u64 = pos / bs;
    let mut cur: u64 = pos % bs;
    let ghost first = blk as int;
    let ghost cur0 = cur as int;
    while blk < count
        invariant
            fs.wf(),
            n < 64,
            i.i_sb != NIL,
            type_bits(i.i_mode) == mode::S_IFDIR,
            pos < i.i_size,
            count == dir_blocks(info, i),
            count <= u32::MAX,
            bs == info[i.i_sb as int].fs_block_size,
            1024 <= bs <= 0x8000_0000_0000_0000,
            cur < bs,
            first == pos as int / bs as int,
            cur0 == pos as int % bs as int,
            *fs == (Fs { cache: fs.cache, ..*old(fs) }),
            fs.blocks() == c,
            c == old(fs).blocks(),
            supers == fs.supers@,
            info == fs.ext4@,
            i == fs.inodes@[n as int],
            *out == *old(out),
            next_entry(c, supers, info, i, cur0, first, count as int) == next_entry(
                c,
                supers,
                info,
                i,
                cur as int,
                blk as int,
                count as int,
            ),
        decreases count - blk,
    {
        match read_dir_block(fs, n, blk) {
            None => {},
            Some(d) => match find_from(&d, cur as usize) {
                None => {},
                Some(e) => {
                    proof {
                        let x = i.i_size + bs - 1;
                        let q = x / bs as int;
                        vstd::arithmetic::div_mod::lemma_fundamental_div_mod(x, bs as int);
                        assert(q == count);
                        assert((blk + 1) * bs <= q * bs) by (nonlinear_arith)
                            requires
                                blk + 1 <= q,
                                bs >= 1,
                        ;
                        assert((blk + 1) * bs == blk * bs + bs) by (nonlinear_arith);
                        assert(q * bs == bs * q) by (nonlinear_arith);
                        assert(blk * bs >= 0) by (nonlinear_arith)
                            requires
                                blk >= 0,
                                bs >= 0,
                        ;
                    }
                    let next: u64 = blk * bs + (e.name_off - 8) as u64 + e.rec_len as u64;
                    let len: usize = if (e.name_len as usize) < 32 {
                        e.name_len as usize
                    } else {
                        32
                    };
                    let mut name: [u8; 32] = [0u8;32];
                    let mut k: usize = 0;
                    while k < len
                        invariant
                            k <= len <= 32,
                            len <= e.name_len,
                            d@.len() <= 4096,
                            e.name_off + e.name_len <= d@.len(),
                            forall|j: int|
                                0 <= j < 32 ==> #[trigger] name@[j] == (if j < k {
                                    d@[e.name_off + j]
                                } else {
                                    0
                                }),
                        decreases len - k,
                    {
                        name[k] = d[e.name_off + k];
                        k = k + 1;
                    }
                    assert(name@ =~= cut_name(d@, e));
                    out.d_ino = e.inode as u64;
                    out.d_off = next as i64;
                    out.d_reclen = DIRENT_SIZE;
                    out.d_type = e.file_type;
                    out.d_name = name;
                    return next as i64;
                },
            },
        }
        blk = blk + 1;
        cur = 0;
    }
    0
}

} // verus!
