//! Reading and writing regular files.

use super::inode_ops::{get_block, got, mapped, minix_bread, renumbered};
use crate::bytes::overlay;
use crate::errno::{EINVAL, ENOSPC};
use crate::fs::inode::{Inode, NIL};
use crate::fs::super_block::SuperBlock;
use crate::fs::{Blocks, Fs};
use vstd::prelude::*;

verus! {

/// Byte number `p` of a file; zero in a hole, and in a block that the device
/// does not have.
pub open spec fn file_byte(c: Blocks, dev: u16, z: Seq<u16>, p: int) -> u8 {
    let b = mapped(c, dev, z, p / 1024);
    if b == 0 || !c.dom().contains((dev, b as u32)) {
        0
    } else {
        c[(dev, b as u32)][p % 1024]
    }
}

/// How many bytes a read of `len` bytes at `pos` gives.
pub open spec fn read_count(size: int, pos: int, len: int) -> int {
    if pos >= size {
        0
    } else if len < size - pos {
        len
    } else {
        size - pos
    }
}

/// What reading from inode `n` at `pos` into `b0` does, with the answer `r`.
pub open spec fn read_did(fs0: &Fs, fs: &Fs, n: usize, pos: u64, b0: Seq<u8>, b: Seq<u8>, r: i64) -> bool {
    &&& fs.blocks() == fs0.blocks()
    &&& *fs == (Fs { cache: fs.cache, inodes: fs.inodes, ..*fs0 })
    &&& ({
        let i0 = fs0.inodes@[n as int];
        &&& r == read_count(i0.i_size as int, pos as int, b0.len() as int)
        &&& b.len() == b0.len()
        &&& forall|k: int|
            0 <= k < b.len() ==> #[trigger] b[k] == (if k < r {
                file_byte(fs0.blocks(), i0.i_dev, i0.data@, pos + k)
            } else {
                b0[k]
            })
        &&& fs.inodes@ == (if pos >= i0.i_size {
            fs0.inodes@
        } else {
            fs0.inodes@.update(
                n as int,
                Inode { i_atime: fs0.now, i_dirt: true, ..i0 },
            )
        })
    })
}

/// Reads from inode `n` at `pos`, as far as the file goes. Answers the number of
/// bytes; a read before the end is an access now.
pub fn read(fs: &mut Fs, n: usize, pos: u64, buf: &mut Vec<u8>) -> (r: i64)
    requires
        old(fs).wf(),
        n < 64,
    ensures
        final(fs).wf(),
        read_did(old(fs), final(fs), n, pos, old(buf)@, final(buf)@, r),
{
    let ghost i0 = fs.inodes@[n as int];
    let ghost c = fs.blocks();
    let size: u64 = fs.inodes[n].i_size as u64;
    if pos >= size {
        return 0;
    }
    let left: usize = (size - pos) as usize;
    let want: usize = if buf.len() < left {
        buf.len()
    } else {
        left
    };
    let mut done: usize = 0;
    while done < want
        invariant
            fs.wf(),
            n < 64,
            done <= want <= buf@.len(),
            pos + want <= size <= u32::MAX,
            buf@.len() == old(buf)@.len(),
            *fs == (Fs { cache: fs.cache, inodes: fs.inodes, ..*old(fs) }),
            fs.inodes@ == old(fs).inodes@,
            fs.blocks() == c,
            c == old(fs).blocks(),
            i0 == fs.inodes@[n as int],
            forall|k: int|
                0 <= k < buf@.len() ==> #[trigger] buf@[k] == (if k < done {
                    file_byte(c, i0.i_dev, i0.data@, pos + k)
                } else {
                    old(buf)@[k]
                }),
        decreases want - done,
    {
        let off: u64 = pos + done as u64;
        let block: u32 = (off / 1024) as u32;
        let in_block: usize = (off % 1024) as usize;
        let room: usize = 1024 - in_block;
        let chunk: usize = if room < want - done {
            room
        } else {
            want - done
        };
        proof {
            super::inode_ops::lemma_got_is_mapped(
                c,
                fs.supers@[i0.i_sb as int],
                i0.i_dev,
                i0.data@,
                block as int,
            );
        }
        let ghost before = buf@;
        let piece: Option<(u32, Vec<u8>)> = minix_bread(fs, n, block, false);
        assert(fs.inodes@ =~= old(fs).inodes@);
        let mut k: usize = 0;
        while k < chunk
            invariant
                k <= chunk <= 1024 - in_block,
                done + chunk <= want <= buf@.len(),
                buf@.len() == before.len(),
                off == pos + done,
                block == off / 1024,
                in_block == off % 1024,
                piece is Some <==> {
                    let b = mapped(c, i0.i_dev, i0.data@, block as int);
                    b != 0 && c.dom().contains((i0.i_dev, b as u32))
                },
                piece is Some ==> (piece->0).1@.len() == 1024 && (piece->0).1@ == c[(
                    i0.i_dev,
                    mapped(c, i0.i_dev, i0.data@, block as int) as u32,
                )],
                forall|j: int|
                    0 <= j < buf@.len() ==> #[trigger] buf@[j] == (if done <= j < done + k {
                        file_byte(c, i0.i_dev, i0.data@, pos + j)
                    } else {
                        before[j]
                    }),
            decreases chunk - k,
        {
            assert((pos + (done + k)) / 1024 == block && (pos + (done + k)) % 1024 == in_block + k);
            buf[done + k] = match &piece {
                None => 0u8,
                Some(p) => p.1[in_block + k],
            };
            k = k + 1;
        }
        done = done + chunk;
    }
    let now: u32 = fs.now;
    fs.inodes[n].i_atime = now;
    fs.inodes[n].i_dirt = true;
    assert(fs.inodes@ =~= old(fs).inodes@.update(
        n as int,
        Inode { i_atime: old(fs).now, i_dirt: true, ..i0 },
    ));
    done as i64
}

/// Why a write ended.
#[derive(Debug, Clone, Copy, PartialEq, Eq, Structural)]
pub enum WriteEnd {
    /// All was written.
    Done,
    /// A block could not be had.
    NoSpace,
    /// A block that was to be changed in part could not be read.
    Unreadable,
}

/// How many bytes of the rest of a write go into the block that its next byte is
/// in.
pub open spec fn chunk_len(off: int, left: int) -> int {
    if 1024 - off % 1024 < left {
        1024 - off % 1024
    } else {
        left
    }
}

/// Writes `piece`, which lies in one block, at offset `off`: the blocks and the
/// numbers afterwards, and whether it could be written.
pub open spec fn chunk_written(
    c: Blocks,
    s: SuperBlock,
    dev: u16,
    z: Seq<u16>,
    off: int,
    piece: Seq<u8>,
) -> (Blocks, Seq<u16>, WriteEnd) {
    let (c1, z1, b) = got(c, s, dev, z, off / 1024, true);
    let key = (dev, b as u32);
    if b == 0 {
        (c1, z1, WriteEnd::NoSpace)
    } else if c1.dom().contains(key) {
        (c1.insert(key, overlay(c1[key], off % 1024, piece)), z1, WriteEnd::Done)
    } else if piece.len() != 1024 {
        (c1, z1, WriteEnd::Unreadable)
    } else {
        (c1, z1, WriteEnd::Done)
    }
}

/// Writes the bytes of `data` from number `done` on at `pos + done`, block by
/// block: the blocks and the numbers afterwards, how many bytes were written in
/// all, and why it ended.
pub open spec fn written(
    c: Blocks,
    s: SuperBlock,
    dev: u16,
    z: Seq<u16>,
    pos: int,
    data: Seq<u8>,
    done: int,
) -> (Blocks, Seq<u16>, int, WriteEnd)
    decreases data.len() - done,
{
    if done >= data.len() || done < 0 {
        (c, z, done, WriteEnd::Done)
    } else {
        let len = chunk_len(pos + done, data.len() - done);
        let (c1, z1, end) = chunk_written(
            c,
            s,
            dev,
            z,
            pos + done,
            data.subrange(done, done + len),
        );
        if end == WriteEnd::Done {
            written(c1, s, dev, z1, pos, data, done + len)
        } else {
            (c1, z1, done, end)
        }
    }
}

/// Writes a piece that lies in one block.
fn write_chunk(fs: &mut Fs, n: usize, off: u64, piece: &[u8]) -> (r: WriteEnd)
    requires
        old(fs).wf(),
        n < 64,
        old(fs).inodes@[n as int].i_sb != NIL,
        off <= u32::MAX,
        off % 1024 + piece@.len() <= 1024,
    ensures
        final(fs).wf(),
        *final(fs) == (Fs { cache: final(fs).cache, inodes: final(fs).inodes, ..*old(fs) }),
        final(fs).inodes@ == old(fs).inodes@.update(n as int, final(fs).inodes@[n as int]),
        ({
            let i0 = old(fs).inodes@[n as int];
            let (c, z, end) = chunk_written(
                old(fs).blocks(),
                old(fs).supers@[i0.i_sb as int],
                i0.i_dev,
                i0.data@,
                off as int,
                piece@,
            );
            &&& final(fs).blocks() == c
            &&& renumbered(i0, final(fs).inodes@[n as int], z, old(fs).now)
            &&& r == end
        }),
{
    let block: u32 = (off / 1024) as u32;
    let dev: u16 = fs.inodes[n].i_dev;
    let b: u32 = get_block(fs, n, block, true);
    if b == 0 {
        return WriteEnd::NoSpace;
    }
    match fs.cache.read_block(dev, b) {
        None => {
            if piece.len() != 1024 {
                WriteEnd::Unreadable
            } else {
                WriteEnd::Done
            }
        },
        Some(mut data) => {
            crate::bytes::put_bytes(&mut data, (off % 1024) as usize, piece);
            let ok: bool = fs.cache.write_block(dev, b, data.as_slice());
            WriteEnd::Done
        },
    }
}

/// How many bytes of a write of `len` bytes at `pos` the largest file size `max`
/// leaves room for.
pub open spec fn write_want(max: int, pos: int, len: int) -> int {
    if len < max - pos {
        len
    } else {
        max - pos
    }
}

/// Inode `i` is `i0` after a write that ended at `end`: it has the numbers `z`,
/// is as long as that at least, and was changed now.
pub open spec fn grown(i0: Inode, i: Inode, z: Seq<u16>, end: int, now: u32) -> bool {
    i == (Inode {
        data: i.data,
        i_size: if end > i0.i_size {
            end as u32
        } else {
            i0.i_size
        },
        i_mtime: now,
        i_ctime: now,
        i_dirt: true,
        ..i0
    }) && i.data@ == z
}

/// What writing to inode `n` at `pos` does, with the answer `r`.
pub open spec fn write_did(fs0: &Fs, fs: &Fs, n: usize, pos: u64, data: Seq<u8>, r: i64) -> bool {
    &&& *fs == (Fs { cache: fs.cache, inodes: fs.inodes, ..*fs0 })
    &&& ({
        let i0 = fs0.inodes@[n as int];
        let s = fs0.supers@[i0.i_sb as int];
        if i0.i_sb == NIL || pos >= s.s_max_size {
            &&& r == -EINVAL
            &&& fs.blocks() == fs0.blocks()
            &&& fs.inodes@ == fs0.inodes@
        } else {
            let want = write_want(s.s_max_size as int, pos as int, data.len() as int);
            let (c, z, done, end) = written(
                fs0.blocks(),
                s,
                i0.i_dev,
                i0.data@,
                pos as int,
                data.subrange(0, want),
                0,
            );
            let i = fs.inodes@[n as int];
            &&& fs.blocks() == c
            &&& fs.inodes@ == fs0.inodes@.update(n as int, i)
            &&& if done == 0 && end !is Done {
                &&& r == -(if end is NoSpace {
                    ENOSPC
                } else {
                    EINVAL
                })
                &&& renumbered(i0, i, z, fs0.now)
            } else {
                &&& r == done
                &&& grown(i0, i, z, pos + done, fs0.now)
            }
        }
    })
}

/// Writes to inode `n` at `pos`. Answers the number of bytes written, or an error
/// where the position is past the largest file, or not one byte could be written.
#[verifier::rlimit(40)]
pub fn write(fs: &mut Fs, n: usize, pos: u64, buf: &[u8]) -> (r: i64)
    requires
        old(fs).wf(),
        n < 64,
        buf@.len() <= i64::MAX,
    ensures
        final(fs).wf(),
        write_did(old(fs), final(fs), n, pos, buf@, r),
{
    let ghost i0 = fs.inodes@[n as int];
    let sb_nr: usize = fs.inodes[n].i_sb;
    if sb_nr == NIL {
        return -(EINVAL as i64);
    }
    let ghost s = fs.supers@[sb_nr as int];
    let max: u64 = fs.supers[sb_nr].s_max_size as u64;
    if pos >= max {
        return -(EINVAL as i64);
    }
    let left: usize = (max - pos) as usize;
    let want: usize = if buf.len() < left {
        buf.len()
    } else {
        left
    };
    let ghost data = buf@.subrange(0, want as int);
    let dev: u16 = fs.inodes[n].i_dev;
    let mut done: usize = 0;
    let ghost goal = written(fs.blocks(), s, dev, i0.data@, pos as int, data, 0);
    let mut stop: bool = false;
    while done < want && !stop
        invariant
            fs.wf(),
            n < 64,
            done <= want <= buf@.len(),
            pos + want <= max <= u32::MAX,
            old(fs).inodes@.len() == 64,
            i0 == old(fs).inodes@[n as int],
            sb_nr == i0.i_sb,
            sb_nr != NIL,
            dev == i0.i_dev,
            s == old(fs).supers@[sb_nr as int],
            *fs == (Fs { cache: fs.cache, inodes: fs.inodes, ..*old(fs) }),
            fs.inodes@ == old(fs).inodes@.update(n as int, fs.inodes@[n as int]),
            fs.inodes@[n as int] == (Inode {
                data: fs.inodes@[n as int].data,
                i_ctime: fs.inodes@[n as int].i_ctime,
                i_dirt: fs.inodes@[n as int].i_dirt,
                ..i0
            }),
            done == 0 ==> fs.inodes@[n as int] == i0,
            data == buf@.subrange(0, want as int),
            !stop ==> goal == written(
                fs.blocks(),
                s,
                dev,
                fs.inodes@[n as int].data@,
                pos as int,
                data,
                done as int,
            ),
            stop ==> done != 0 && goal.0 == fs.blocks() && goal.1 == fs.inodes@[n as int].data@
                && goal.2 == done,
            goal == written(old(fs).blocks(), s, dev, i0.data@, pos as int, data, 0),
            want == write_want(s.s_max_size as int, pos as int, buf@.len() as int),
            pos < s.s_max_size,
        decreases want - done + (if stop { 0int } else { 1 }),
    {
        let off: u64 = pos + done as u64;
        let room: usize = 1024 - (off % 1024) as usize;
        let chunk: usize = if room < want - done {
            room
        } else {
            want - done
        };
        let piece: Vec<u8> = crate::bytes::copy_range(buf, done, done + chunk);
        assert(piece@ =~= data.subrange(done as int, done + chunk));
        assert(chunk == chunk_len(off as int, data.len() - done));
        let e: WriteEnd = write_chunk(fs, n, off, piece.as_slice());
        assert(fs.inodes@ =~= old(fs).inodes@.update(n as int, fs.inodes@[n as int]));
        if e == WriteEnd::Done {
            done = done + chunk;
        } else if done == 0 {
            return if e == WriteEnd::NoSpace {
                -(ENOSPC as i64)
            } else {
                -(EINVAL as i64)
            };
        } else {
            stop = true;
        }
    }
    let end: u64 = pos + done as u64;
    let now: u32 = fs.now;
    if end > fs.inodes[n].i_size as u64 {
        fs.inodes[n].i_size = end as u32;
    }
    fs.inodes[n].i_mtime = now;
    fs.inodes[n].i_ctime = now;
    fs.inodes[n].i_dirt = true;
    assert(fs.inodes@ =~= old(fs).inodes@.update(n as int, fs.inodes@[n as int]));
    done as i64
}

} // verus!
