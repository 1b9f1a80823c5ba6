//! What is written to a file is what is read back from it.

use crate::bytes::overlay;
use crate::fs::ext4::bitmap::{lemma_first_free, pieces};
use crate::fs::ext4::map::low32;
use crate::fs::ext4::ops::full::{
    block_alloc, blocks_written, file_byte, file_read_did, file_write_did, growth, has_buffer,
    last_buffer, lemma_mapped_same, mapped, readable, Ext4SbInfo,
};
use crate::fs::ext4::group_desc::Ext4GroupDesc;
use crate::fs::inode::Inode;
use crate::fs::super_block::SuperBlock;
use crate::fs::{Blocks, Fs};
use vstd::prelude::*;

verus! {

/// How many buffers a file can have: its size is a number of 32 bits.
pub open spec fn max_buffers() -> int {
    0x40_0000
}

/// The buffer is one of the file.
pub open spec fn is_own(c: Blocks, supers: Seq<SuperBlock>, info: Seq<Ext4SbInfo>, i: Inode, key: (u16, u32)) -> bool {
    &&& key.0 == supers[i.i_sb as int].s_dev
    &&& key.1 != 0
    &&& exists|blk: int|
        0 <= blk < max_buffers() && #[trigger] mapped(c, supers, info, i, blk) == key.1
}

/// The buffer is one of those that say which blocks are taken.
pub open spec fn is_bitmap(f: Ext4SbInfo, dev: u16, key: (u16, u32)) -> bool {
    &&& key.0 == dev
    &&& exists|k: int|
        0 <= k < pieces(f.ext4_sb) && key.1 == #[trigger] low32(f.ext4_gd.block_bitmap as int + k)
}

/// The blocks `c` differ from `c0` at most in the buffers of the file and those that
/// say which blocks are taken.
pub open spec fn agrees(c0: Blocks, c: Blocks, supers: Seq<SuperBlock>, info: Seq<Ext4SbInfo>, i: Inode) -> bool {
    &&& c.dom() == c0.dom()
    &&& forall|key: (u16, u32)|
        #[trigger] c[key] == c0[key] || is_own(c0, supers, info, i, key) || is_bitmap(
            info[i.i_sb as int],
            supers[i.i_sb as int].s_dev,
            key,
        )
    &&& forall|key: (u16, u32)|
        #[trigger] is_own(c0, supers, info, i, key) && c0.dom().contains(key) ==> c[key].len()
            == 1024
}

/// The file keeps to its own: where its buffers are is said in none of them and in
/// none of the bitmap, no buffer is two of the file, and none is of the bitmap.
pub open spec fn map_apart(c0: Blocks, supers: Seq<SuperBlock>, info: Seq<Ext4SbInfo>, i: Inode) -> bool {
    &&& forall|c: Blocks, blk: int|
        0 <= blk < max_buffers() && agrees(c0, c, supers, info, i) ==> #[trigger] mapped(
            c,
            supers,
            info,
            i,
            blk,
        ) == mapped(c0, supers, info, i, blk)
    &&& forall|p: int, q: int|
        #![trigger mapped(c0, supers, info, i, p), mapped(c0, supers, info, i, q)]
        0 <= p < q < max_buffers() && mapped(c0, supers, info, i, p) != 0 ==> mapped(c0, supers, info, i, p)
            != mapped(c0, supers, info, i, q)
    &&& forall|key: (u16, u32)|
        #[trigger] is_own(c0, supers, info, i, key) ==> !is_bitmap(
            info[i.i_sb as int],
            supers[i.i_sb as int].s_dev,
            key,
        )
    &&& forall|key: (u16, u32)| #[trigger] c0.dom().contains(key) ==> c0[key].len() == 1024
}

/// The two differ at most in the number of free blocks.
pub open spec fn same_place(f0: Ext4SbInfo, f: Ext4SbInfo) -> bool {
    &&& f == (Ext4SbInfo { ext4_gd: f.ext4_gd, ..f0 })
    &&& f.ext4_gd == (Ext4GroupDesc {
        free_blocks_count: f.ext4_gd.free_blocks_count,
        ..f0.ext4_gd
    })
}

proof fn lemma_same_map(
    c: Blocks,
    supers: Seq<SuperBlock>,
    info: Seq<Ext4SbInfo>,
    i: Inode,
    supers1: Seq<SuperBlock>,
    info1: Seq<Ext4SbInfo>,
    i1: Inode,
)
    requires
        i1.i_sb == i.i_sb,
        i1.i_ino == i.i_ino,
        supers1[i.i_sb as int].s_dev == supers[i.i_sb as int].s_dev,
        same_place(info[i.i_sb as int], info1[i.i_sb as int]),
    ensures
        forall|blk: int|
            #[trigger] mapped(c, supers1, info1, i1, blk) == mapped(c, supers, info, i, blk),
{
    assert forall|blk: int|
        #[trigger] mapped(c, supers1, info1, i1, blk) == mapped(c, supers, info, i, blk) by {
        lemma_mapped_same(c, supers, info, i, supers1, info1, i1, blk);
    }
}

/// Giving a file buffers changes the bitmap only.
proof fn lemma_growth(
    c0: Blocks,
    info0: Seq<Ext4SbInfo>,
    c: Blocks,
    supers: Seq<SuperBlock>,
    info: Seq<Ext4SbInfo>,
    i: Inode,
    z: Seq<u16>,
    blk: int,
    last: int,
)
    requires
        0 <= i.i_sb < info.len(),
        same_place(info0[i.i_sb as int], info[i.i_sb as int]),
        map_apart(c0, supers, info0, i),
        agrees(c0, c, supers, info0, i),
    ensures
        ({
            let g = growth(c, supers, info, i, z, blk, last);
            agrees(c0, g.c, supers, info0, i) && same_place(info0[i.i_sb as int], g.f)
        }),
    decreases last + 1 - blk,
{
    let n = i.i_sb as int;
    let f = info[n];
    if blk <= last {
        if mapped(c, supers, info, i, blk) != 0 {
            lemma_growth(c0, info0, c, supers, info, i, z, blk + 1, last);
        } else {
            match block_alloc(c, supers[n].s_dev, f) {
                None => {},
                Some((c1, f1, bit)) => {
                    let z1 = if blk < 9 {
                        z.update(blk, (bit % 65536) as u16)
                    } else {
                        z
                    };
                    let block = f.ext4_gd.block_bitmap as int;
                    let dev = supers[n].s_dev;
                    lemma_first_free(
                        c,
                        dev,
                        block,
                        pieces(f.ext4_sb),
                        f.ext4_sb.s_blocks_per_group as int,
                        0,
                    );
                    let k = bit / 8192;
                    let key = (dev, low32(block + k));
                    assert(0 <= k < pieces(f.ext4_sb));
                    assert(is_bitmap(info0[n], dev, key));
                    assert(c1.dom() =~= c.dom());
                    assert forall|y: (u16, u32)|
                        #[trigger] c1[y] == c0[y] || is_own(c0, supers, info0, i, y) || is_bitmap(
                            info0[n],
                            dev,
                            y,
                        ) by {
                        let before = c[y];
                    }
                    lemma_growth(c0, info0, c1, supers, info.update(n, f1), i, z1, blk + 1, last);
                },
            }
        }
    }
}

/// Giving a file buffers leaves a block alone that is not of the bitmap.
proof fn lemma_growth_beside(
    info0: Seq<Ext4SbInfo>,
    c: Blocks,
    supers: Seq<SuperBlock>,
    info: Seq<Ext4SbInfo>,
    i: Inode,
    z: Seq<u16>,
    blk: int,
    last: int,
    key: (u16, u32),
)
    requires
        0 <= i.i_sb < info.len(),
        same_place(info0[i.i_sb as int], info[i.i_sb as int]),
        !is_bitmap(info0[i.i_sb as int], supers[i.i_sb as int].s_dev, key),
        forall|y: (u16, u32)| #[trigger] c.dom().contains(y) ==> c[y].len() == 1024,
    ensures
        growth(c, supers, info, i, z, blk, last).c[key] == c[key],
    decreases last + 1 - blk,
{
    let n = i.i_sb as int;
    let f = info[n];
    if blk <= last {
        if mapped(c, supers, info, i, blk) != 0 {
            lemma_growth_beside(info0, c, supers, info, i, z, blk + 1, last, key);
        } else {
            match block_alloc(c, supers[n].s_dev, f) {
                None => {},
                Some((c1, f1, bit)) => {
                    let z1 = if blk < 9 {
                        z.update(blk, (bit % 65536) as u16)
                    } else {
                        z
                    };
                    let block = f.ext4_gd.block_bitmap as int;
                    let dev = supers[n].s_dev;
                    lemma_first_free(
                        c,
                        dev,
                        block,
                        pieces(f.ext4_sb),
                        f.ext4_sb.s_blocks_per_group as int,
                        0,
                    );
                    let k = bit / 8192;
                    let y = (dev, low32(block + k));
                    assert(is_bitmap(info0[n], dev, y));
                    assert(c1[key] == c[key]);
                    assert(c1.dom() =~= c.dom());
                    assert forall|q: (u16, u32)| #[trigger] c1.dom().contains(q) implies c1[q].len() == 1024 by {
                        assert(c.dom().contains(q));
                    }
                    lemma_growth_beside(info0, c1, supers, info.update(n, f1), i, z1, blk + 1, last, key);
                },
            }
        }
    }
}

/// What is written is in the buffers of the file.
proof fn lemma_written_from(
    c0: Blocks,
    info0: Seq<Ext4SbInfo>,
    c: Blocks,
    supers: Seq<SuperBlock>,
    info: Seq<Ext4SbInfo>,
    i: Inode,
    pos: int,
    data: Seq<u8>,
    done: int,
)
    requires
        map_apart(c0, supers, info0, i),
        agrees(c0, c, supers, info0, i),
        same_place(info0[i.i_sb as int], info[i.i_sb as int]),
        0 <= pos,
        0 <= done <= data.len(),
        pos + data.len() <= u32::MAX,
    ensures
        ({
            let dev = supers[i.i_sb as int].s_dev;
            let (c1, n) = blocks_written(c, supers, info, i, pos, data, done);
            &&& done <= n <= data.len()
            &&& agrees(c0, c1, supers, info0, i)
            &&& forall|p: int|
                pos + done <= p < pos + n ==> #[trigger] has_buffer(c0, supers, info0, i, p / 1024)
            &&& forall|p: int|
                0 <= p <= u32::MAX && has_buffer(c0, supers, info0, i, p / 1024) ==> #[trigger] c1[(
                    dev,
                    mapped(c0, supers, info0, i, p / 1024),
                )][p % 1024] == if pos + done <= p < pos + n {
                    data[p - pos]
                } else {
                    c[(dev, mapped(c0, supers, info0, i, p / 1024))][p % 1024]
                }
        }),
    decreases data.len() - done,
{
    let dev = supers[i.i_sb as int].s_dev;
    let off = pos + done;
    let blk = off / 1024;
    let b = mapped(c, supers, info, i, low32(blk) as int);
    let key = (dev, b);
    assert(low32(blk) == blk);
    lemma_same_map(c, supers, info0, i, supers, info, i);
    assert(b == mapped(c0, supers, info0, i, blk)) by {
        assert(mapped(c, supers, info, i, blk) == mapped(c, supers, info0, i, blk));
    }
    if !(done >= data.len() || b == 0 || !c.dom().contains(key)) {
        let n = if 1024 - off % 1024 < data.len() - done {
            1024 - off % 1024
        } else {
            data.len() - done
        };
        let piece = data.subrange(done, done + n);
        let c2 = c.insert(key, overlay(c[key], off % 1024, piece));
        assert(is_own(c0, supers, info0, i, key));
        assert(c2.dom() =~= c0.dom());
        assert forall|y: (u16, u32)|
            #[trigger] c2[y] == c0[y] || is_own(c0, supers, info0, i, y) || is_bitmap(
                info0[i.i_sb as int],
                dev,
                y,
            ) by {
            let before = c[y];
        }
        lemma_written_from(c0, info0, c2, supers, info, i, pos, data, done + n);
        let (c1, m) = blocks_written(c2, supers, info, i, pos, data, done + n);
        assert forall|p: int| pos + done <= p < pos + m implies #[trigger] has_buffer(
            c0,
            supers,
            info0,
            i,
            p / 1024,
        ) by {
            if p < off + n {
                assert(p / 1024 == blk);
            }
        }
        assert forall|p: int|
            0 <= p <= u32::MAX && has_buffer(c0, supers, info0, i, p / 1024) implies #[trigger] c1[(
                dev,
                mapped(c0, supers, info0, i, p / 1024),
            )][p % 1024] == if pos + done <= p < pos + m {
                data[p - pos]
            } else {
                c[(dev, mapped(c0, supers, info0, i, p / 1024))][p % 1024]
            } by {
            let q = p / 1024;
            let y = (dev, mapped(c0, supers, info0, i, q));
            if q == blk {
                assert(y == key);
                if off <= p < off + n {
                    assert(c2[key][p % 1024] == piece[p - off]);
                }
            } else {
                assert(y != key) by {
                    if q < blk {
                        assert(mapped(c0, supers, info0, i, q) != mapped(c0, supers, info0, i, blk));
                    } else {
                        assert(mapped(c0, supers, info0, i, blk) != mapped(c0, supers, info0, i, q));
                    }
                }
                assert(c2[y] == c[y]);
            }
        }
    }
}

proof fn lemma_readable(
    c: Blocks,
    supers: Seq<SuperBlock>,
    info: Seq<Ext4SbInfo>,
    i: Inode,
    off: int,
    len: int,
)
    requires
        0 <= off,
        0 <= len,
        forall|p: int| off <= p < off + len ==> #[trigger] has_buffer(c, supers, info, i, p / 1024),
    ensures
        readable(c, supers, info, i, off, len) == len,
    decreases len,
{
    if len > 0 {
        assert(has_buffer(c, supers, info, i, off / 1024));
        let n = if 1024 - off % 1024 < len {
            1024 - off % 1024
        } else {
            len
        };
        lemma_readable(c, supers, info, i, off + n, len - n);
    }
}

/// What is written to a file that keeps to its own is what is read back from there:
/// after a write of `r` bytes, a read of as many at the same place gives them.
pub proof fn lemma_write_read(
    fs0: &Fs,
    fs1: &Fs,
    fs2: &Fs,
    ip: usize,
    pos: u64,
    data: Seq<u8>,
    r: i64,
    b0: Seq<u8>,
    b: Seq<u8>,
    got: i64,
)
    requires
        fs0.wf(),
        ip < 64,
        map_apart(fs0.blocks(), fs0.supers@, fs0.ext4@, fs0.inodes@[ip as int]),
        pos + data.len() <= u32::MAX,
        file_write_did(fs0, fs1, ip, pos, data, r),
        r > 0,
        b0.len() == r,
        file_read_did(fs1, fs2, ip, pos, b0, b, got),
    ensures
        got == r,
        b == data.subrange(0, r as int),
{
    let i0 = fs0.inodes@[ip as int];
    let n = i0.i_sb as int;
    let c0 = fs0.blocks();
    let supers = fs0.supers@;
    let info0 = fs0.ext4@;
    let dev = supers[n].s_dev;
    assert(i0.links_ok());
    let last = last_buffer(pos as int, data.len() as int);
    let first = i0.i_size as int / 1024;
    let g = growth(c0, supers, info0, i0, i0.data@, first, last);
    assert(agrees(c0, c0, supers, info0, i0));
    lemma_growth(c0, info0, c0, supers, info0, i0, i0.data@, first, last);
    let info = info0.update(n, g.f);
    let fit = if g.stop * 1024 > pos {
        g.stop * 1024 - pos
    } else {
        0
    };
    let part = if last < first || g.stop > last {
        data
    } else {
        data.subrange(0, fit)
    };
    lemma_written_from(c0, info0, g.c, supers, info, i0, pos as int, part, 0);
    let (c1, done) = blocks_written(g.c, supers, info, i0, pos as int, part, 0);
    let i1 = fs1.inodes@[ip as int];
    assert(r == done && fs1.blocks() == c1);
    assert(i1.i_sb == i0.i_sb && i1.i_ino == i0.i_ino && i1.i_size >= pos + done);
    assert(fs1.supers@[n].s_dev == dev);
    lemma_same_map(c1, supers, info0, i0, fs1.supers@, fs1.ext4@, i1);
    assert forall|p: int| pos <= p < pos + r implies #[trigger] has_buffer(
        c1,
        fs1.supers@,
        fs1.ext4@,
        i1,
        p / 1024,
    ) by {
        assert(has_buffer(c0, supers, info0, i0, p / 1024));
        assert(mapped(c1, fs1.supers@, fs1.ext4@, i1, p / 1024) == mapped(
            c1,
            supers,
            info0,
            i0,
            p / 1024,
        ));
    }
    lemma_readable(c1, fs1.supers@, fs1.ext4@, i1, pos as int, r as int);
    assert forall|k: int| 0 <= k < r implies b[k] == data[k] by {
        let p = pos + k;
        assert(has_buffer(c0, supers, info0, i0, p / 1024));
        assert(mapped(c1, fs1.supers@, fs1.ext4@, i1, p / 1024) == mapped(
            c1,
            supers,
            info0,
            i0,
            p / 1024,
        ));
        assert(b[k] == file_byte(c1, fs1.supers@, fs1.ext4@, i1, p));
        assert(c1[(dev, mapped(c0, supers, info0, i0, p / 1024))][p % 1024] == part[p - pos]);
    }
    assert(b =~= data.subrange(0, r as int));
}

/// A write changes no byte of the file but those that it writes, and the file is as large
/// as it was, or ends where the write ended where that is further.
#[verifier::spinoff_prover]
#[verifier::rlimit(60)]
pub proof fn lemma_write_others(
    fs0: &Fs,
    fs1: &Fs,
    ip: usize,
    pos: u64,
    data: Seq<u8>,
    r: i64,
    p: int,
)
    requires
        fs0.wf(),
        ip < 64,
        map_apart(fs0.blocks(), fs0.supers@, fs0.ext4@, fs0.inodes@[ip as int]),
        pos + data.len() <= u32::MAX,
        file_write_did(fs0, fs1, ip, pos, data, r),
        r > 0,
        0 <= p <= u32::MAX,
        !(pos <= p < pos + r),
        has_buffer(fs0.blocks(), fs0.supers@, fs0.ext4@, fs0.inodes@[ip as int], p / 1024),
    ensures
        file_byte(fs1.blocks(), fs1.supers@, fs1.ext4@, fs1.inodes@[ip as int], p) == file_byte(
            fs0.blocks(),
            fs0.supers@,
            fs0.ext4@,
            fs0.inodes@[ip as int],
            p,
        ),
        r <= data.len(),
        fs1.inodes@[ip as int].i_size == (if pos + r > fs0.inodes@[ip as int].i_size {
            pos + r
        } else {
            fs0.inodes@[ip as int].i_size as int
        }),
{
    let i0 = fs0.inodes@[ip as int];
    let n = i0.i_sb as int;
    let c0 = fs0.blocks();
    let supers = fs0.supers@;
    let info0 = fs0.ext4@;
    let dev = supers[n].s_dev;
    assert(i0.links_ok());
    let last = last_buffer(pos as int, data.len() as int);
    let first = i0.i_size as int / 1024;
    let g = growth(c0, supers, info0, i0, i0.data@, first, last);
    assert(agrees(c0, c0, supers, info0, i0));
    lemma_growth(c0, info0, c0, supers, info0, i0, i0.data@, first, last);
    let info = info0.update(n, g.f);
    let fit = if g.stop * 1024 > pos {
        g.stop * 1024 - pos
    } else {
        0
    };
    let part = if last < first || g.stop > last {
        data
    } else {
        data.subrange(0, fit)
    };
    lemma_written_from(c0, info0, g.c, supers, info, i0, pos as int, part, 0);
    let (c1, done) = blocks_written(g.c, supers, info, i0, pos as int, part, 0);
    let i1 = fs1.inodes@[ip as int];
    assert(r == done && fs1.blocks() == c1);
    assert(i1.i_sb == i0.i_sb && i1.i_ino == i0.i_ino);
    assert(fs1.supers@[n].s_dev == dev);
    lemma_same_map(c1, supers, info0, i0, fs1.supers@, fs1.ext4@, i1);
    let b = mapped(c0, supers, info0, i0, p / 1024);
    assert(mapped(c1, fs1.supers@, fs1.ext4@, i1, p / 1024) == mapped(c1, supers, info0, i0, p / 1024));
    assert(mapped(c1, supers, info0, i0, p / 1024) == b);
    assert(c1[(dev, b)][p % 1024] == g.c[(dev, b)][p % 1024]);
    assert(is_own(c0, supers, info0, i0, (dev, b)));
    lemma_growth_beside(info0, c0, supers, info0, i0, i0.data@, first, last, (dev, b));
}

} // verus!
