//! What making, linking and removing files comes to: which names lead where afterwards.

use super::bitmap::{first_free, free_ino_spec, fresh_inode, inode_made, may_free};
use super::dir::{entry_ino, sizes_ok};
use super::file::file_byte;
use super::inode_ops::{
    can_load, got, inode_block, inode_index, is_special, lemma_with_inode, loaded, mapped, renumbered, stored,
    stored_zones,
};
use super::namei::{added, aligned, entry_added, found, found_in, has_name, is_hit, AddEnd};
use super::names::{
    lemma_add_then_find, lemma_added, lemma_added_spared, lemma_first, lemma_found_first,
    lemma_found_other, lemma_found_same, lemma_hit_by_bytes, lemma_next_aligned, lemma_no_hit,
    lemma_one_name, lemma_remove_then_find, is_name,
};
use super::nodes::{
    as_dir, as_node, countable, dir_filled, dir_gone, dir_made, dots, entered, is_empty_dir,
    link_did, link_gone, linked, lookup_did, mkdir_did, mknod_did, node_made, removed_dir,
    removed_file, rmdir_did, rmdir_error, unlink_did, with_dots, with_ino,
};
use super::shrink::lemma_truncate;
use super::truncate::{trunc_did, truncated};
use super::tree::{
    disjoint, layout_ok, lemma_beside, lemma_data_insert, lemma_extends_bytes, lemma_first_free,
    lemma_got, lemma_got_spared, lemma_insert_spared, lemma_mapped, lemma_marked_extends,
    lemma_spared_trans, marked, num, only_marked, owns, place, places, spared, tree_ok,
};
use crate::bits::{bitmap_bit, lemma_bitmap_off, lemma_bitmap_on};
use crate::bytes::{le16, le32, with_le16};
use crate::fs::ext2::inode::mode::type_bits;
use crate::fs::buffer::{wrote_back, BufferCache};
use crate::fs::inode::{
    counted, dropped_in, flushed, iget_did, iput_did, is_last, is_pick, is_slot, no_slot, Inode,
    NIL,
};
use crate::fs::mode;
use crate::fs::super_block::SuperBlock;
use crate::fs::{Blocks, Fs};
use vstd::prelude::*;

verus! {

/// Inode `i` is a file in order: its blocks are its own and marked as taken, and its
/// entries, if it is a directory, have one of the two sizes.
pub open spec fn in_order(c: Blocks, supers: Seq<SuperBlock>, i: Inode) -> bool {
    let s = supers[i.i_sb as int];
    &&& i.i_sb != NIL
    &&& i.i_dev == s.s_dev
    &&& sizes_ok(s)
    &&& tree_ok(c, s, i.i_dev, i.data@)
    &&& aligned(i.i_size as int, s.s_namelen as int)
    &&& i.i_size <= 1024 * 262663
}

/// Where the inode is stored lies before the data of a file system and beside its zone
/// bitmap.
pub open spec fn inode_apart(supers: Seq<SuperBlock>, i: Inode, s: SuperBlock) -> bool {
    let b = inode_block(supers[i.i_sb as int], i.i_ino as int);
    i.i_sb != NIL && i.i_dev == s.s_dev ==> b < s.s_firstdatazone && !s.s_zmap@.contains(b as usize)
}

/// The inode table and the inode bitmap of a file system lie before its data and beside
/// its zone bitmap; so do the inodes in the table in memory that are on that device.
pub open spec fn tables_apart(c: Blocks, supers: Seq<SuperBlock>, t: Seq<Inode>, s: SuperBlock) -> bool {
    &&& t.len() == 64
    &&& s.s_imap@.len() == 8
    &&& forall|k: int| 0 <= k < 64 ==> inode_apart(supers, #[trigger] t[k], s)
    &&& forall|k: int|
        0 <= k < 8 && #[trigger] s.s_imap@[k] != NIL ==> s.s_imap@[k] < s.s_firstdatazone && !s.s_zmap@.contains(
            s.s_imap@[k],
        )
}

/// In directory `i` the name leads to inode number `ino`.
pub open spec fn leads(c: Blocks, supers: Seq<SuperBlock>, i: Inode, name: Seq<u8>, ino: int) -> bool {
    let r = found_in(c, supers[i.i_sb as int], i, name);
    r is Some && entry_ino(c, i.i_dev, i.data@, r->0) == ino
}

/// In directory `i` the name leads nowhere.
pub open spec fn leads_nowhere(c: Blocks, supers: Seq<SuperBlock>, i: Inode, name: Seq<u8>) -> bool {
    found_in(c, supers[i.i_sb as int], i, name) is None
}

/// The name leads in directory `i1` on the blocks `c1` where it led in `i` on `c`.
pub open spec fn leads_as(
    c: Blocks,
    i: Inode,
    c1: Blocks,
    i1: Inode,
    supers: Seq<SuperBlock>,
    name: Seq<u8>,
) -> bool {
    &&& leads_nowhere(c1, supers, i1, name) <==> leads_nowhere(c, supers, i, name)
    &&& forall|ino: int|
        #[trigger] leads(c1, supers, i1, name, ino) <==> leads(c, supers, i, name, ino)
}

// ---- a new inode ----

proof fn lemma_pick(s: Seq<Inode>, from: int) -> (k: int)
    requires
        s.len() == 64,
        0 <= from <= 64,
        exists|j: int| 0 <= j < 64 && (#[trigger] s[j]).i_count == 0,
        forall|j: int| 0 <= j < from && (#[trigger] s[j]).i_count == 0 ==> s[j].i_dirt,
    ensures
        is_pick(s, k),
    decreases 64 - from,
{
    if from < 64 {
        if s[from].i_count == 0 && !s[from].i_dirt {
            from
        } else {
            lemma_pick(s, from + 1)
        }
    } else {
        lemma_first_unused(s, 0)
    }
}

proof fn lemma_first_unused(s: Seq<Inode>, from: int) -> (k: int)
    requires
        s.len() == 64,
        0 <= from <= 64,
        exists|j: int| 0 <= j < 64 && (#[trigger] s[j]).i_count == 0,
        forall|j: int| 0 <= j < 64 && (#[trigger] s[j]).i_count == 0 ==> s[j].i_dirt,
        forall|j: int| 0 <= j < from ==> (#[trigger] s[j]).i_count != 0,
    ensures
        is_pick(s, k),
    decreases 64 - from,
{
    if from < 64 && s[from].i_count != 0 {
        lemma_first_unused(s, from + 1)
    } else {
        from
    }
}

/// Changes before the data and beside the zone bitmap mark nothing.
proof fn lemma_elsewhere(c: Blocks, c1: Blocks, s: SuperBlock, dev: u16, x: u32)
    requires
        layout_ok(c, s, dev),
        c1.dom() == c.dom(),
        x < s.s_firstdatazone,
        !s.s_zmap@.contains(x as usize),
        forall|key: (u16, u32)| key != (dev, x) ==> #[trigger] c1[key] == c[key],
        c.dom().contains((dev, x)) ==> c1[(dev, x)].len() == 1024,
    ensures
        only_marked(c, c1, s, dev, 0),
{
    assert forall|k: (u16, u32)| #[trigger] c1.dom().contains(k) implies c1[k].len() == 1024 by {
        assert(c.dom().contains(k));
    }
    assert forall|b: u32| s.s_firstdatazone <= b < s.s_nzones implies #[trigger] c1.dom().contains(
        (dev, b),
    ) by {
        assert(c.dom().contains((dev, b)));
    }
    assert forall|y: int| s.s_firstdatazone <= y < s.s_nzones && #[trigger] marked(c, s, y) implies marked(
        c1,
        s,
        y,
    ) by {
        let a = super::bitmap::zone_bit(s, y) / 8192;
        assert(0 <= a < 8);
        let slot = s.s_zmap@[a];
        assert(slot < s.s_firstdatazone);
        assert(s.s_zmap@.contains(slot));
        assert(slot as u32 != x);
    }
}

proof fn lemma_marked_trans(c: Blocks, c1: Blocks, c2: Blocks, s: SuperBlock, dev: u16)
    requires
        only_marked(c, c1, s, dev, 0),
        only_marked(c1, c2, s, dev, 0),
        s.s_firstdatazone >= 1,
    ensures
        only_marked(c, c2, s, dev, 0),
{
    assert forall|y: u32| s.s_firstdatazone <= y && y != 0 implies #[trigger] c2[(dev, y)] == c[(dev, y)] by {
        assert(c1[(dev, y)] == c[(dev, y)]);
    }
    assert forall|x: int| s.s_firstdatazone <= x < s.s_nzones && #[trigger] marked(c, s, x) implies marked(
        c2,
        s,
        x,
    ) by {
        assert(marked(c1, s, x));
    }
}

/// Writing an inode out touches no data and no mark.
proof fn lemma_flushed(c: Blocks, supers: Seq<SuperBlock>, i: Inode, s: SuperBlock, dev: u16)
    requires
        layout_ok(c, s, dev),
        inode_apart(supers, i, s),
    ensures
        only_marked(c, flushed(c, supers, i), s, dev, 0),
{
    let c1 = flushed(c, supers, i);
    if c1 != c {
        let o = 32 * inode_index(i.i_ino as int);
        let key = (i.i_dev, inode_block(supers[i.i_sb as int], i.i_ino as int) as u32);
        assert(c.dom().contains(key));
        assert(0 <= o && o + 32 <= 1024);
        lemma_with_inode(
            c[key],
            o,
            i.i_mode,
            i.i_uid,
            i.i_size,
            i.i_mtime,
            (i.i_gid % 256) as u8,
            (i.i_nlink % 256) as u8,
            stored_zones(i),
        );
        assert(c1.dom() =~= c.dom());
        if key.0 == dev {
            lemma_elsewhere(c, c1, s, dev, key.1);
        } else {
            assert forall|x: int|
                s.s_firstdatazone <= x < s.s_nzones && #[trigger] marked(c, s, x) implies marked(
                c1,
                s,
                x,
            ) by {}
            assert forall|q: (u16, u32)| #[trigger] c1.dom().contains(q) implies c1[q].len() == 1024 by {
                assert(c.dom().contains(q));
            }
            assert forall|b: u32| s.s_firstdatazone <= b < s.s_nzones implies #[trigger] c1.dom().contains(
                (dev, b),
            ) by {
                assert(c.dom().contains((dev, b)));
            }
        }
    } else {
        assert(only_marked(c, c, s, dev, 0));
    }
}

/// What is known of a new inode: its number was free, it has no blocks, and no data and
/// no mark has changed.
proof fn lemma_inode_made(
    c0: Blocks,
    s0: Seq<Inode>,
    c1: Blocks,
    s1: Seq<Inode>,
    supers: Seq<SuperBlock>,
    now: u32,
    dir: usize,
    k: usize,
)
    requires
        inode_made(c0, s0, c1, s1, supers, now, dir, k),
        k != NIL,
        dir < 64,
        s0[dir as int].i_count > 0,
        s0[dir as int].i_sb != NIL,
        layout_ok(c0, supers[s0[dir as int].i_sb as int], supers[s0[dir as int].i_sb as int].s_dev),
        tables_apart(c0, supers, s0, supers[s0[dir as int].i_sb as int]),
    ensures
        k < 64,
        k != dir,
        s1 == s0.update(k as int, s1[k as int]),
        s0[k as int].i_count == 0,
        ({
            let sb = supers[s0[dir as int].i_sb as int];
            let i = s1[k as int];
            &&& only_marked(c0, c1, sb, sb.s_dev, 0)
            &&& i.i_sb == s0[dir as int].i_sb
            &&& i.i_dev == sb.s_dev
            &&& 1 <= i.i_ino < sb.s_ninodes
            &&& i.data@ == Seq::new(9, |j: int| 0u16)
            &&& i.i_nlink == 1 && i.i_count == 1 && i.in_use && i.i_size == 0
            &&& i.i_mount == NIL
            &&& i.i_uid == 0
            &&& s0[dir as int].i_mode & 0o2000 != 0 ==> i.i_gid == s0[dir as int].i_gid
            &&& s0[dir as int].i_mode & 0o2000 == 0 ==> i.i_gid == 0
            &&& i.i_mtime == now && i.i_atime == now && i.i_ctime == now
        }),
{
    let sb = supers[s0[dir as int].i_sb as int];
    let dev = sb.s_dev;
    let p = lemma_pick(s0, 0);
    assert(is_pick(s0, p));
    assert(inode_apart(supers, s0[p], sb));
    lemma_flushed(c0, supers, s0[p], sb, dev);
    let cf = flushed(c0, supers, s0[p]);
    lemma_first_free(cf, dev, sb.s_imap@, 0);
    let (a, j) = first_free(cf, dev, sb.s_imap@, 0)->0;
    let key = (dev, sb.s_imap@[a] as u32);
    assert(cf.dom().contains(key));
    lemma_bitmap_on(cf[key], j);
    assert(cf[key].len() == 1024);
    assert(c1.dom() =~= cf.dom());
    assert(sb.s_imap@[a] < sb.s_firstdatazone && !sb.s_zmap@.contains(sb.s_imap@[a]));
    lemma_elsewhere(cf, c1, sb, dev, key.1);
    lemma_marked_trans(c0, cf, c1, sb, dev);
    let x = choose|x: Inode|
        #[trigger] fresh_inode(x, s1[p], s0[dir as int].i_sb, sb, s0[dir as int], j + 8192 * a, now);
    assert(fresh_inode(x, s1[p], s0[dir as int].i_sb, sb, s0[dir as int], j + 8192 * a, now));
}

// ---- a name for it ----

/// What entering an inode into a directory comes to: the name leads to it, all others
/// lead where they led, and the blocks of other files are as before.
#[verifier::spinoff_prover]
#[verifier::rlimit(80)]
proof fn lemma_put_name(
    c: Blocks,
    supers: Seq<SuperBlock>,
    d0: Inode,
    d: Inode,
    c1: Blocks,
    z: Seq<u16>,
    end: AddEnd,
    b: int,
    off: int,
    name: Seq<u8>,
    ino: u16,
    now: u32,
)
    requires
        in_order(c, supers, d0),
        is_name(name, supers[d0.i_sb as int].s_namelen as int),
        leads_nowhere(c, supers, d0, name),
        ino != 0,
        (c1, z, end, b, off) == added(
            c,
            supers[d0.i_sb as int],
            d0.i_dev,
            d0.data@,
            d0.i_size as int,
            name,
            0,
        ),
        end == AddEnd::Put,
        entry_added(d0, d, z, end, off, supers[d0.i_sb as int].s_namelen as int, now),
    ensures
        ({
            let c2 = with_ino(c1, d0.i_dev, b as u32, off % 1024, ino);
            &&& in_order(c2, supers, d)
            &&& leads(c2, supers, d, name, ino as int)
            &&& forall|other: Seq<u8>|
                is_name(other, supers[d0.i_sb as int].s_namelen as int) && other != name
                    ==> #[trigger] leads_as(c, d0, c2, d, supers, other)
            &&& spared(c, d0.data@, c2, d.data@, supers[d0.i_sb as int], d0.i_dev)
            &&& layout_ok(c2, supers[d0.i_sb as int], d0.i_dev)
        }),
{
    let s = supers[d0.i_sb as int];
    let dev = d0.i_dev;
    let max = s.s_namelen as int;
    let size = d0.i_size as int;
    lemma_added(c, s, dev, d0.data@, size, name, 0);
    lemma_added_spared(c, s, dev, d0.data@, size, name, 0);
    lemma_add_then_find(c, s, dev, d0.data@, size, name, ino);
    let c2 = with_ino(c1, dev, b as u32, off % 1024, ino);
    let blk = off / 1024;
    lemma_mapped(c1, dev, z, blk);
    assert(b == mapped(c1, dev, z, blk));
    assert(blk < 262663);
    lemma_next_aligned(off, max);
    assert(aligned(268966912int, max));
    assert(off + max + 2 <= 1024 * 262663);
    assert(num(c1, dev, z, place(blk)) == b);
    let e = with_le16(c1[(dev, b as u32)], off % 1024, ino);
    lemma_data_insert(c1, s, dev, z, place(blk), e);
    assert(owns(c1, dev, z, b));
    lemma_insert_spared(c1, s, dev, z, b, e);
    assert(c1.dom().contains((dev, b as u32)));
    lemma_spared_trans(c, d0.data@, c1, z, c2, z, s, dev);
    let size1 = if off + max + 2 > size {
        off + max + 2
    } else {
        size
    };
    assert(d.i_size == size1);
    assert(in_order(c2, supers, d));
    assert(leads(c2, supers, d, name, ino as int));
    assert forall|other: Seq<u8>| is_name(other, max) && other != name implies #[trigger] leads_as(
        c,
        d0,
        c2,
        d,
        supers,
        other,
    ) by {
        lemma_put_other(c, supers, d0, d, c2, off, name, other);
    }
}

proof fn lemma_put_other(
    c: Blocks,
    supers: Seq<SuperBlock>,
    d0: Inode,
    d: Inode,
    c2: Blocks,
    off: int,
    name: Seq<u8>,
    other: Seq<u8>,
)
    requires
        d0.i_sb != NIL,
        d.i_sb == d0.i_sb,
        d.i_dev == d0.i_dev,
        sizes_ok(supers[d0.i_sb as int]),
        is_name(name, supers[d0.i_sb as int].s_namelen as int),
        is_name(other, supers[d0.i_sb as int].s_namelen as int),
        other != name,
        0 <= off <= d0.i_size,
        aligned(off, supers[d0.i_sb as int].s_namelen as int),
        aligned(d0.i_size as int, supers[d0.i_sb as int].s_namelen as int),
        off + supers[d0.i_sb as int].s_namelen + 2 > d0.i_size || entry_ino(c, d0.i_dev, d0.data@, off) == 0,
        d.i_size == (if off + supers[d0.i_sb as int].s_namelen + 2 > d0.i_size {
            off + supers[d0.i_sb as int].s_namelen + 2
        } else {
            d0.i_size as int
        }),
        found_in(c2, supers[d0.i_sb as int], d, name) == Some(off),
        forall|p: int|
            0 <= p && !(off <= p < off + supers[d0.i_sb as int].s_namelen + 2) ==> #[trigger] file_byte(
                c2,
                d0.i_dev,
                d.data@,
                p,
            ) == file_byte(c, d0.i_dev, d0.data@, p),
    ensures
        leads_as(c, d0, c2, d, supers, other),
{
    let s = supers[d0.i_sb as int];
    let dev = d0.i_dev;
    let max = s.s_namelen as int;
    let size = d0.i_size as int;
    let size1 = d.i_size as int;
    let z = d.data@;
    lemma_found_first(c2, dev, z, size1, max, name, 0);
    assert(has_name(c2, dev, z, off, name, max));
    if has_name(c2, dev, z, off, other, max) {
        lemma_one_name(c2, dev, z, off, name, other, max);
    }
    lemma_next_aligned(off, max);
    lemma_found_other(c, d0.data@, c2, z, dev, size, size1, max, off, other);
    if found(c, dev, d0.data@, size, max, other, 0) is Some {
        lemma_found_first(c, dev, d0.data@, size, max, other, 0);
        let o = found(c, dev, d0.data@, size, max, other, 0)->0;
        assert(o != off);
        assert(entry_ino(c2, dev, z, o) == entry_ino(c, dev, d0.data@, o));
    }
}

/// The state after a file was made: the name leads to it in its directory, and every
/// other name leads where it led.
pub open spec fn made_there(fs0: &Fs, fs: &Fs, dir: usize, name: Seq<u8>, n: usize) -> bool {
    let d0 = fs0.inodes@[dir as int];
    let d = fs.inodes@[dir as int];
    let i = fs.inodes@[n as int];
    let max = fs0.supers@[d0.i_sb as int].s_namelen as int;
    &&& n < 64 && n != dir
    &&& in_order(fs.blocks(), fs0.supers@, d)
    &&& i.i_ino > 0 && i.i_sb == d0.i_sb && i.i_dev == d0.i_dev && i.in_use && i.i_count == 1
    &&& leads(fs.blocks(), fs0.supers@, d, name, i.i_ino as int)
    &&& forall|other: Seq<u8>|
        is_name(other, max) && other != name ==> #[trigger] leads_as(
            fs0.blocks(),
            d0,
            fs.blocks(),
            d,
            fs0.supers@,
            other,
        )
    &&& d.i_ino == d0.i_ino && d.i_sb == d0.i_sb && d.i_dev == d0.i_dev && d.i_mode == d0.i_mode
    &&& fs0.inodes@[n as int].i_count == 0
    &&& forall|j: int|
        0 <= j < 64 && j != n && j != dir ==> #[trigger] fs.inodes@[j] == fs0.inodes@[j]
}

/// After a file was made its name leads to it, and every other name of the directory leads
/// where it led. The new file is of the kind that was asked for, has one link, and is
/// empty. It belongs to the group of a directory that hands its group on, and else to the
/// first one.
pub proof fn lemma_mknod(fs0: &Fs, fs: &Fs, dir: usize, name: Seq<u8>, m: u16, rdev: u16, n: usize)
    requires
        mknod_did(fs0, fs, dir, name, m, rdev, Ok(n)),
        dir < 64,
        fs0.inodes@[dir as int].i_count > 0,
        in_order(fs0.blocks(), fs0.supers@, fs0.inodes@[dir as int]),
        tables_apart(
            fs0.blocks(),
            fs0.supers@,
            fs0.inodes@,
            fs0.supers@[fs0.inodes@[dir as int].i_sb as int],
        ),
        is_name(name, fs0.supers@[fs0.inodes@[dir as int].i_sb as int].s_namelen as int),
    ensures
        made_there(fs0, fs, dir, name, n),
        fs.inodes@[n as int].i_mode == m,
        fs.inodes@[n as int].i_nlink == 1,
        fs.inodes@[n as int].i_size == 0,
        fs0.inodes@[dir as int].i_mode & 0o2000 != 0 ==> fs.inodes@[n as int].i_gid
            == fs0.inodes@[dir as int].i_gid,
        fs0.inodes@[dir as int].i_mode & 0o2000 == 0 ==> fs.inodes@[n as int].i_gid == 0,
        fs.inodes@[n as int].i_uid == 0,
        fs.inodes@[n as int].i_mtime == fs0.now,
        type_bits(m) == mode::S_IFCHR || type_bits(m) == mode::S_IFBLK ==> fs.inodes@[n as int].i_rdev
            == rdev,
        fs.inodes@[dir as int].i_nlink == fs0.inodes@[dir as int].i_nlink,
{
    let c0 = fs0.blocks();
    let s0 = fs0.inodes@;
    let supers = fs0.supers@;
    let d0 = s0[dir as int];
    let sb = supers[d0.i_sb as int];
    let dev = d0.i_dev;
    let r: Result<usize, i32> = Ok(n);
    assert(node_made(c0, s0, &fs.cache, fs.inodes@, supers, fs0.now, dir, name, m, rdev, r));
    let (c1, s1, k) = choose|c1: Blocks, s1: Seq<Inode>, k: usize|
        {
            &&& #[trigger] inode_made(c0, s0, c1, s1, supers, fs0.now, dir, k)
            &&& if k == NIL {
                r == Err::<usize, i32>(crate::errno::ENOSPC) && fs.cache.content() == c1 && fs.inodes@ == s1
            } else {
                entered(
                    c1,
                    s1.update(k as int, as_node(s1[k as int], m, rdev)),
                    &fs.cache,
                    fs.inodes@,
                    supers,
                    fs0.now,
                    dir,
                    name,
                    k,
                    r,
                )
            }
        };
    assert(k != NIL);
    lemma_inode_made(c0, s0, c1, s1, supers, fs0.now, dir, k);
    lemma_marked_extends(c0, c1, sb, dev, d0.data@, 0);
    assert forall|p: int| 0 <= p implies #[trigger] file_byte(c1, dev, d0.data@, p) == file_byte(
        c0,
        dev,
        d0.data@,
        p,
    ) by {
        lemma_extends_bytes(c0, d0.data@, c1, d0.data@, sb, dev, p);
    }
    let s2 = s1.update(k as int, as_node(s1[k as int], m, rdev));
    assert(s2[dir as int] == d0);
    lemma_entered(c0, c1, s2, &fs.cache, fs.inodes@, supers, fs0.now, dir, name, k, r);
}

/// The same for an inode in a table: the directory has the same bytes on `c1` as on `c0`.
#[verifier::spinoff_prover]
#[verifier::rlimit(60)]
proof fn lemma_entered(
    c0: Blocks,
    c1: Blocks,
    s2: Seq<Inode>,
    e: &BufferCache,
    s: Seq<Inode>,
    supers: Seq<SuperBlock>,
    now: u32,
    dir: usize,
    name: Seq<u8>,
    k: usize,
    r: Result<usize, i32>,
)
    requires
        entered(c1, s2, e, s, supers, now, dir, name, k, r),
        r is Ok,
        s2.len() == 64,
        dir < 64,
        k < 64,
        k != dir,
        in_order(c0, supers, s2[dir as int]),
        tree_ok(
            c1,
            supers[s2[dir as int].i_sb as int],
            s2[dir as int].i_dev,
            s2[dir as int].data@,
        ),
        forall|p: int|
            0 <= p ==> #[trigger] file_byte(c1, s2[dir as int].i_dev, s2[dir as int].data@, p)
                == file_byte(c0, s2[dir as int].i_dev, s2[dir as int].data@, p),
        is_name(name, supers[s2[dir as int].i_sb as int].s_namelen as int),
        leads_nowhere(c0, supers, s2[dir as int], name),
        1 <= s2[k as int].i_ino < 65536,
    ensures
        r == Ok::<usize, i32>(k),
        s == s2.update(dir as int, s[dir as int]),
        ({
            let d0 = s2[dir as int];
            let d = s[dir as int];
            &&& in_order(e.content(), supers, d)
            &&& leads(e.content(), supers, d, name, s2[k as int].i_ino as int)
            &&& forall|other: Seq<u8>|
                is_name(other, supers[d0.i_sb as int].s_namelen as int) && other != name
                    ==> #[trigger] leads_as(c0, d0, e.content(), d, supers, other)
            &&& spared(c1, d0.data@, e.content(), d.data@, supers[d0.i_sb as int], d0.i_dev)
            &&& layout_ok(e.content(), supers[d0.i_sb as int], d0.i_dev)
            &&& d == (Inode {
                data: d.data,
                i_size: d.i_size,
                i_mtime: d.i_mtime,
                i_ctime: d.i_ctime,
                i_dirt: d.i_dirt,
                ..d0
            })
        }),
{
    let d0 = s2[dir as int];
    let sb = supers[d0.i_sb as int];
    let max = sb.s_namelen as int;
    let (c2, z, end, b, off) = added(c1, sb, d0.i_dev, d0.data@, d0.i_size as int, name, 0);
    let ino = (s2[k as int].i_ino % 65536) as u16;
    let d = choose|d: Inode|
        {
            &&& #[trigger] entry_added(d0, d, z, end, off, max, now)
            &&& if end == AddEnd::Put {
                &&& r == Ok::<usize, i32>(k)
                &&& e.content() == with_ino(c2, d0.i_dev, b as u32, off % 1024, ino)
                &&& s == s2.update(dir as int, d)
            } else {
                &&& r == Err::<usize, i32>(super::namei::add_error(end))
                &&& crate::fs::inode::iput_did(
                    c2,
                    s2.update(k as int, Inode { i_nlink: 0, ..s2[k as int] }).update(dir as int, d),
                    e,
                    s,
                    supers,
                    now,
                    k,
                )
            }
        };
    assert(end == AddEnd::Put);
    lemma_found_same(c0, d0.data@, c1, d0.data@, d0.i_dev, d0.i_size as int, max, name, 0);
    lemma_put_name(c1, supers, d0, d, c2, z, end, b, off, name, ino, now);
    assert(s[dir as int] == d);
    assert forall|other: Seq<u8>| is_name(other, max) && other != name implies #[trigger] leads_as(
        c0,
        d0,
        e.content(),
        d,
        supers,
        other,
    ) by {
        lemma_found_same(c0, d0.data@, c1, d0.data@, d0.i_dev, d0.i_size as int, max, other, 0);
        assert(leads_as(c1, d0, e.content(), d, supers, other));
        if found(c0, d0.i_dev, d0.data@, d0.i_size as int, max, other, 0) is Some {
            lemma_found_first(c0, d0.i_dev, d0.data@, d0.i_size as int, max, other, 0);
        }
        assert forall|x: int| #[trigger] leads(e.content(), supers, d, other, x) <==> leads(
            c0,
            supers,
            d0,
            other,
            x,
        ) by {
            assert(leads(e.content(), supers, d, other, x) <==> leads(c1, supers, d0, other, x));
        }
    }
}

// ---- directories ----

/// A file without numbers is in order.
proof fn lemma_no_numbers(c: Blocks, s: SuperBlock, dev: u16, z: Seq<u16>)
    requires
        layout_ok(c, s, dev),
        z == Seq::new(9, |j: int| 0u16),
    ensures
        tree_ok(c, s, dev, z),
        forall|p: int| 0 <= p < places() ==> #[trigger] num(c, dev, z, p) == 0,
        forall|w: Seq<u16>| #[trigger] disjoint(c, dev, z, w),
{
    assert forall|p: int| 0 <= p < places() implies #[trigger] num(c, dev, z, p) == 0 by {}
}

proof fn lemma_disjoint_swap(c: Blocks, dev: u16, z: Seq<u16>, w: Seq<u16>)
    requires
        disjoint(c, dev, z, w),
    ensures
        disjoint(c, dev, w, z),
{
    assert forall|p: int| 0 <= p < places() && #[trigger] num(c, dev, z, p) != 0 implies !owns(
        c,
        dev,
        w,
        num(c, dev, z, p),
    ) by {
        let y = num(c, dev, z, p);
        if owns(c, dev, w, y) {
            let q = choose|q: int| 0 <= q < places() && #[trigger] num(c, dev, w, q) == y;
            assert(!owns(c, dev, z, num(c, dev, w, q)));
            assert(num(c, dev, z, p) == y);
        }
    }
}

/// What a directory with two entries holds: the first is "." and leads to `ino`, the second
/// is ".." and leads to `parent`, and there is no other.
proof fn lemma_two_entries(c: Blocks, supers: Seq<SuperBlock>, i: Inode, ino: u16, parent: u16, d: Seq<u8>)
    requires
        i.i_sb != NIL,
        sizes_ok(supers[i.i_sb as int]),
        i.i_size == 2 * supers[i.i_sb as int].s_dirsize,
        d.len() == 1024,
        ino != 0,
        parent != 0,
        forall|p: int|
            0 <= p < 1024 ==> #[trigger] file_byte(c, i.i_dev, i.data@, p) == dots(
                d,
                supers[i.i_sb as int].s_dirsize as int,
                ino,
                parent,
            )[p],
    ensures
        leads(c, supers, i, seq![46u8], ino as int),
        leads(c, supers, i, seq![46u8, 46u8], parent as int),
        forall|other: Seq<u8>|
            is_name(other, supers[i.i_sb as int].s_namelen as int) && other != seq![46u8] && other
                != seq![46u8, 46u8] ==> #[trigger] leads_nowhere(c, supers, i, other),
        is_empty_dir(c, supers, i),
{
    let s = supers[i.i_sb as int];
    let ds = s.s_dirsize as int;
    let max = s.s_namelen as int;
    let dev = i.i_dev;
    let z = i.data@;
    let size = i.i_size as int;
    let e = dots(d, ds, ino, parent);
    assert(e[0] == ino % 256 && e[1] == ino / 256 && e[2] == 46 && e[3] == 0);
    assert(e[ds] == parent % 256 && e[ds + 1] == parent / 256 && e[ds + 2] == 46 && e[ds + 3] == 46 && e[ds
        + 4] == 0);
    assert(file_byte(c, dev, z, 0) == e[0] && file_byte(c, dev, z, 1) == e[1] && file_byte(c, dev, z, 2)
        == e[2] && file_byte(c, dev, z, 3) == e[3]);
    assert(file_byte(c, dev, z, ds) == e[ds] && file_byte(c, dev, z, ds + 1) == e[ds + 1] && file_byte(
        c,
        dev,
        z,
        ds + 2,
    ) == e[ds + 2] && file_byte(c, dev, z, ds + 3) == e[ds + 3] && file_byte(c, dev, z, ds + 4) == e[ds + 4]);
    assert(entry_ino(c, dev, z, 0) == ino);
    assert(entry_ino(c, dev, z, ds) == parent);
    let dot = seq![46u8];
    let up = seq![46u8, 46u8];
    assert(dot.len() == 1 && dot[0] == 46u8);
    assert(up.len() == 2 && up[0] == 46u8 && up[1] == 46u8);
    assert(has_name(c, dev, z, 0, dot, max));
    assert(is_hit(c, dev, z, 0, dot, max));
    lemma_first(c, dev, z, size, max, dot, 0, 0);
    assert(has_name(c, dev, z, ds, up, max)) by {
        assert forall|k: int| 0 <= k < up.len() implies file_byte(c, dev, z, ds + 2 + k) == #[trigger] up[k] by {
            assert(k == 0 || k == 1);
        }
    }
    assert(is_name(dot, max) && is_name(up, max));
    assert(!has_name(c, dev, z, 0, up, max)) by {
        if has_name(c, dev, z, 0, up, max) {
            lemma_one_name(c, dev, z, 0, dot, up, max);
        }
    }
    assert(aligned(ds, max) && aligned(0, max));
    lemma_next_aligned(0, max);
    lemma_next_aligned(ds, max);
    assert forall|q: int| 0 <= q < ds && aligned(q, max) implies !#[trigger] is_hit(c, dev, z, q, up, max) by {
        assert(q == 0);
    }
    lemma_first(c, dev, z, size, max, up, 0, ds);
    assert forall|other: Seq<u8>| is_name(other, max) && other != dot && other != up implies #[trigger] leads_nowhere(
        c,
        supers,
        i,
        other,
    ) by {
        assert forall|q: int| 0 <= q < size && aligned(q, max) implies !#[trigger] is_hit(
            c,
            dev,
            z,
            q,
            other,
            max,
        ) by {
            assert(q == 0 || q == ds);
            if q == 0 {
                if has_name(c, dev, z, 0, other, max) {
                    lemma_one_name(c, dev, z, 0, dot, other, max);
                }
            } else {
                if has_name(c, dev, z, ds, other, max) {
                    lemma_one_name(c, dev, z, ds, up, other, max);
                }
            }
        }
        lemma_no_hit(c, dev, z, size, max, other, 0);
    }
}

/// After a directory was made its name leads to it, and every other name of the directory
/// above leads where it led. In the new directory "." leads to itself, ".." to the
/// directory above, and nothing else is there. It has two links, and the directory
/// above one more.
#[verifier::spinoff_prover]
#[verifier::rlimit(80)]
pub proof fn lemma_mkdir(fs0: &Fs, fs: &Fs, dir: usize, name: Seq<u8>, m: u16, n: usize)
    requires
        mkdir_did(fs0, fs, dir, name, m, Ok(n)),
        dir < 64,
        fs0.inodes@[dir as int].i_count > 0,
        1 <= fs0.inodes@[dir as int].i_ino < 65536,
        in_order(fs0.blocks(), fs0.supers@, fs0.inodes@[dir as int]),
        tables_apart(
            fs0.blocks(),
            fs0.supers@,
            fs0.inodes@,
            fs0.supers@[fs0.inodes@[dir as int].i_sb as int],
        ),
        is_name(name, fs0.supers@[fs0.inodes@[dir as int].i_sb as int].s_namelen as int),
    ensures
        made_there(fs0, fs, dir, name, n),
        ({
            let i = fs.inodes@[n as int];
            let c = fs.blocks();
            &&& in_order(c, fs0.supers@, i)
            &&& leads(c, fs0.supers@, i, seq![46u8], i.i_ino as int)
            &&& leads(c, fs0.supers@, i, seq![46u8, 46u8], fs0.inodes@[dir as int].i_ino as int)
            &&& forall|other: Seq<u8>|
                is_name(other, fs0.supers@[i.i_sb as int].s_namelen as int) && other != seq![46u8] && other
                    != seq![46u8, 46u8] ==> #[trigger] leads_nowhere(c, fs0.supers@, i, other)
            &&& is_empty_dir(c, fs0.supers@, i)
            &&& i.i_nlink == 2
            &&& i.i_mode == (m & !mode::S_IFMT) | mode::S_IFDIR
        }),
        fs.inodes@[dir as int].i_nlink == fs0.inodes@[dir as int].i_nlink + 1,
{
    let c0 = fs0.blocks();
    let s0 = fs0.inodes@;
    let supers = fs0.supers@;
    let d0 = s0[dir as int];
    let sb = supers[d0.i_sb as int];
    let dev = d0.i_dev;
    let ds = sb.s_dirsize as int;
    let e = &fs.cache;
    let r: Result<usize, i32> = Ok(n);
    assert(dir_made(c0, s0, e, fs.inodes@, supers, fs0.now, dir, name, m, r));
    let (c1, s1, k) = choose|c1: Blocks, s1: Seq<Inode>, k: usize|
        {
            &&& #[trigger] inode_made(c0, s0, c1, s1, supers, fs0.now, dir, k)
            &&& if k == NIL {
                r == Err::<usize, i32>(crate::errno::ENOSPC) && e.content() == c1 && fs.inodes@ == s1
            } else {
                exists|x2: Inode|
                    #[trigger] dir_filled(c1, s1, x2, e, fs.inodes@, supers, fs0.now, dir, name, m, k, r)
            }
        };
    assert(k != NIL);
    let x2 = choose|x2: Inode|
        #[trigger] dir_filled(c1, s1, x2, e, fs.inodes@, supers, fs0.now, dir, name, m, k, r);
    lemma_inode_made(c0, s0, c1, s1, supers, fs0.now, dir, k);
    lemma_marked_extends(c0, c1, sb, dev, d0.data@, 0);
    assert(s1[dir as int] == d0);
    let x1 = as_dir(s1[k as int], m, ds);
    let z0 = x1.data@;
    lemma_no_numbers(c1, sb, dev, z0);
    lemma_got(c1, sb, dev, z0, 0);
    lemma_got_spared(c1, sb, dev, z0, 0);
    let (c2, z2, db) = got(c1, sb, dev, z0, 0, true);
    assert(disjoint(c1, dev, z0, d0.data@));
    lemma_beside(c1, z0, c2, z2, sb, dev, d0.data@);
    assert(db != 0);
    let self_ino = (x1.i_ino % 65536) as u16;
    let parent = (d0.i_ino % 65536) as u16;
    assert(self_ino == x1.i_ino && parent == d0.i_ino);
    lemma_mapped(c2, dev, z2, 0);
    assert(num(c2, dev, z2, 0) == db);
    let b0 = c2[(dev, db as u32)];
    assert(sb.s_firstdatazone <= db < sb.s_nzones);
    assert(c2.dom().contains((dev, db as u32)));
    assert(b0.len() == 1024);
    let d3 = dots(b0, ds, self_ino, parent);
    assert(d3.len() == 1024);
    let c3 = with_dots(c2, dev, db as u32, ds, self_ino, parent);
    assert(c3 == c2.insert((dev, db as u32), d3));
    lemma_data_insert(c2, sb, dev, z2, 0, d3);
    assert(owns(c2, dev, z2, db));
    lemma_insert_spared(c2, sb, dev, z2, db, d3);
    lemma_beside(c2, z2, c3, z2, sb, dev, d0.data@);
    assert forall|p: int| 0 <= p implies #[trigger] file_byte(c3, dev, d0.data@, p) == file_byte(
        c0,
        dev,
        d0.data@,
        p,
    ) by {
        lemma_extends_bytes(c0, d0.data@, c1, d0.data@, sb, dev, p);
        assert(file_byte(c2, dev, d0.data@, p) == file_byte(c1, dev, d0.data@, p));
    }
    let s2 = s1.update(k as int, Inode { i_nlink: 2, i_dirt: true, ..x2 });
    let s4 = choose|s4: Seq<Inode>|
        {
            &&& #[trigger] entered(c3, s2, e, s4, supers, fs0.now, dir, name, k, r)
            &&& fs.inodes@ == (if r is Ok {
                s4.update(
                    dir as int,
                    Inode {
                        i_nlink: (s4[dir as int].i_nlink + 1) as u16,
                        i_dirt: true,
                        ..s4[dir as int]
                    },
                )
            } else {
                s4
            })
        };
    assert(renumbered(x1, x2, z2, fs0.now));
    assert(x2.i_ino == x1.i_ino && x2.data@ == z2);
    assert(s2[dir as int] == d0);
    lemma_entered(c0, c3, s2, e, s4, supers, fs0.now, dir, name, k, r);
    let d4 = s4[dir as int];
    let d = fs.inodes@[dir as int];
    let i = fs.inodes@[k as int];
    lemma_disjoint_swap(c3, dev, z2, d0.data@);
    lemma_beside(c3, d0.data@, e.content(), d4.data@, sb, dev, z2);
    assert(i == s2[k as int]);
    assert forall|p: int| 0 <= p < 1024 implies #[trigger] file_byte(e.content(), dev, z2, p) == d3[p] by {
        assert(file_byte(c3, dev, z2, p) == d3[p]) by {
            lemma_mapped(c3, dev, z2, 0);
            assert(num(c3, dev, z2, 0) == db);
            assert(p / 1024 == 0 && p % 1024 == p);
        }
    }
    lemma_two_entries(e.content(), supers, i, self_ino, parent, b0);
    assert(d.i_size == d4.i_size && d.data@ == d4.data@);
    lemma_same_dir(c0, d0, e.content(), d4, d, supers, name, i.i_ino as int);
}

/// The number of links of a directory has no part in what its names lead to.
proof fn lemma_same_dir(
    c0: Blocks,
    d0: Inode,
    c: Blocks,
    d4: Inode,
    d: Inode,
    supers: Seq<SuperBlock>,
    name: Seq<u8>,
    ino: int,
)
    requires
        d.i_sb == d4.i_sb,
        d.i_dev == d4.i_dev,
        d.i_size == d4.i_size,
        d.data@ == d4.data@,
        in_order(c, supers, d4),
        leads(c, supers, d4, name, ino),
    ensures
        in_order(c, supers, d),
        leads(c, supers, d, name, ino),
        forall|other: Seq<u8>|
            #[trigger] leads_as(c0, d0, c, d, supers, other) == leads_as(c0, d0, c, d4, supers, other),
{
    assert forall|other: Seq<u8>|
        #[trigger] leads_as(c0, d0, c, d, supers, other) == leads_as(c0, d0, c, d4, supers, other) by {
        assert forall|x: int| #[trigger] leads(c, supers, d, other, x) == leads(c, supers, d4, other, x) by {}
        if leads_as(c0, d0, c, d4, supers, other) {
            assert forall|x: int| #[trigger] leads(c, supers, d, other, x) <==> leads(
                c0,
                supers,
                d0,
                other,
                x,
            ) by {
                assert(leads(c, supers, d4, other, x) <==> leads(c0, supers, d0, other, x));
            }
        }
        if leads_as(c0, d0, c, d, supers, other) {
            assert forall|x: int| #[trigger] leads(c, supers, d4, other, x) <==> leads(
                c0,
                supers,
                d0,
                other,
                x,
            ) by {
                assert(leads(c, supers, d, other, x) <==> leads(c0, supers, d0, other, x));
            }
        }
    }
}

/// The way up from a directory that was just made is the directory that it was made in:
/// looking ".." up there finds that one.
pub proof fn lemma_mkdir_up(
    fs0: &Fs,
    fs: &Fs,
    fs1: &Fs,
    dir: usize,
    name: Seq<u8>,
    m: u16,
    n: usize,
    r: Result<usize, i32>,
)
    requires
        mkdir_did(fs0, fs, dir, name, m, Ok(n)),
        dir < 64,
        fs0.inodes@[dir as int].i_count > 0,
        1 <= fs0.inodes@[dir as int].i_ino < 65536,
        in_order(fs0.blocks(), fs0.supers@, fs0.inodes@[dir as int]),
        tables_apart(
            fs0.blocks(),
            fs0.supers@,
            fs0.inodes@,
            fs0.supers@[fs0.inodes@[dir as int].i_sb as int],
        ),
        is_name(name, fs0.supers@[fs0.inodes@[dir as int].i_sb as int].s_namelen as int),
        is_slot(
            fs.inodes@,
            fs0.inodes@[dir as int].i_dev,
            fs0.inodes@[dir as int].i_ino,
            dir as int,
        ),
        fs.inodes@[dir as int].i_mount == NIL,
        lookup_did(fs, fs1, n, seq![46u8, 46u8], r),
    ensures
        r == Ok::<usize, i32>(dir),
{
    lemma_mkdir(fs0, fs, dir, name, m, n);
    let i = fs.inodes@[n as int];
    mode::lemma_type(i.i_mode);
    assert(type_bits(i.i_mode) == mode::S_IFDIR) by {
        lemma_dir_type(m);
    }
    assert(fs.supers@ == fs0.supers@);
    assert(is_slot(
        fs.inodes@,
        fs.supers@[i.i_sb as int].s_dev,
        fs0.inodes@[dir as int].i_ino,
        dir as int,
    ));
}

/// The mode of a directory is that of a directory.
pub proof fn lemma_dir_type(m: u16)
    ensures
        type_bits((m & !mode::S_IFMT) | mode::S_IFDIR) == mode::S_IFDIR,
{
    let x = (m & !mode::S_IFMT) | mode::S_IFDIR;
    mode::lemma_type(x);
    assert(((m & !0o170000u16) | 0o040000u16) & 0o170000u16 == 0o040000u16) by (bit_vector);
}

// ---- links ----

/// After a file got one more name, that name leads to it, every other name of the
/// directory leads where it led, and the file has one link more.
pub proof fn lemma_link(fs0: &Fs, fs: &Fs, target: usize, dir: usize, name: Seq<u8>)
    requires
        linked(fs0, fs, target, dir, name, 0),
        dir < 64,
        target < 64,
        target != dir,
        fs0.inodes@.len() == 64,
        1 <= fs0.inodes@[target as int].i_ino < 65536,
        in_order(fs0.blocks(), fs0.supers@, fs0.inodes@[dir as int]),
        is_name(name, fs0.supers@[fs0.inodes@[dir as int].i_sb as int].s_namelen as int),
    ensures
        ({
            let d0 = fs0.inodes@[dir as int];
            let d = fs.inodes@[dir as int];
            let t0 = fs0.inodes@[target as int];
            let t = fs.inodes@[target as int];
            &&& in_order(fs.blocks(), fs0.supers@, d)
            &&& leads(fs.blocks(), fs0.supers@, d, name, t0.i_ino as int)
            &&& forall|other: Seq<u8>|
                is_name(other, fs0.supers@[d0.i_sb as int].s_namelen as int) && other != name
                    ==> #[trigger] leads_as(fs0.blocks(), d0, fs.blocks(), d, fs0.supers@, other)
            &&& t.i_nlink == t0.i_nlink + 1
            &&& t.i_ino == t0.i_ino && t.i_mode == t0.i_mode && t.i_size == t0.i_size && t.data@ == t0.data@
            &&& d.i_nlink == d0.i_nlink
        }),
{
    let c0 = fs0.blocks();
    let supers = fs0.supers@;
    let s0 = fs0.inodes@;
    let d0 = s0[dir as int];
    let sb = supers[d0.i_sb as int];
    let max = sb.s_namelen as int;
    assert(link_did(c0, s0, fs.blocks(), fs.inodes@, supers, fs0.now, target, dir, name, 0));
    let (c1, z, end, b, off) = added(c0, sb, d0.i_dev, d0.data@, d0.i_size as int, name, 0);
    let ino = (s0[target as int].i_ino % 65536) as u16;
    assert(exists|d: Inode| #[trigger] entry_added(d0, d, z, end, off, max, fs0.now));
    if end == AddEnd::Put {
        let d = choose|d: Inode|
            {
                let s1 = s0.update(dir as int, d);
                &&& #[trigger] entry_added(d0, d, z, end, off, max, fs0.now)
                &&& fs.blocks() == with_ino(c1, d0.i_dev, b as u32, off % 1024, ino)
                &&& fs.inodes@ == s1.update(
                    target as int,
                    Inode {
                        i_nlink: (s1[target as int].i_nlink + 1) as u16,
                        i_ctime: fs0.now,
                        i_dirt: true,
                        ..s1[target as int]
                    },
                )
            };
        lemma_put_name(c0, supers, d0, d, c1, z, end, b, off, name, ino, fs0.now);
        assert(fs.inodes@[dir as int] == d);
    } else {
        assert(super::namei::add_error(end) != 0);
    }
}

// ---- names that are taken away ----

/// Giving a reference back leaves other files alone.
#[verifier::spinoff_prover]
#[verifier::rlimit(60)]
proof fn lemma_iput_beside(
    c: Blocks,
    s2: Seq<Inode>,
    e: &BufferCache,
    s: Seq<Inode>,
    supers: Seq<SuperBlock>,
    now: u32,
    n: usize,
    sb: SuperBlock,
    dev: u16,
    w: Seq<u16>,
)
    requires
        iput_did(c, s2, e, s, supers, now, n),
        n < 64,
        s2.len() == 64,
        tree_ok(c, sb, dev, w),
        inode_apart(supers, s2[n as int], sb),
        imap_apart(sb),
        is_last(s2[n as int]) ==> supers[s2[n as int].i_sb as int] == sb && s2[n as int].i_dev == dev
            && tree_ok(c, sb, dev, s2[n as int].data@) && disjoint(c, dev, s2[n as int].data@, w),
    ensures
        tree_ok(e.content(), sb, dev, w),
        forall|p: int| 0 <= p ==> #[trigger] file_byte(e.content(), dev, w, p) == file_byte(c, dev, w, p),
        s == s2.update(n as int, s[n as int]),
        s2[n as int].i_count > 1 ==> s[n as int] == counted(s2[n as int], -1),
{
    let i0 = s2[n as int];
    let c4 = e.content();
    if i0.i_count == 0 {
        assert(s2 =~= s2.update(n as int, s2[n as int]));
    } else if i0.i_count > 1 {
    } else if is_last(i0) {
        let k0 = choose|k0: BufferCache|
            {
                &&& k0.wf()
                &&& k0.content() == c
                &&& #[trigger] dropped_in(&k0, s2, e, s, supers, now, n)
            };
        let i1 = Inode { i_size: 0, ..i0 };
        let (k1, z1) = choose|k1: BufferCache, z1: Seq<u16>|
            {
                &&& #[trigger] trunc_did(&k0, &k1, sb, i0.i_dev, i0.data@, z1, 0)
                &&& s == s2.update(n as int, s[n as int])
                &&& if may_free(supers, i1) {
                    &&& c4 == free_ino_spec(k1.content(), sb, i0.i_ino as int)
                    &&& wrote_back(&k1, e)
                    &&& s[n as int].is_clear()
                } else {
                    &&& *e == k1
                    &&& truncated(i1, s[n as int], z1, now)
                }
            };
        lemma_truncate(&k0, &k1, sb, dev, i0.data@, z1, 0);
        let c3 = k1.content();
        lemma_beside(c, i0.data@, c3, z1, sb, dev, w);
        if may_free(supers, i1) {
            let slot = sb.s_imap@[i0.i_ino as int / 8192];
            let a = i0.i_ino as int / 8192;
            assert(0 <= a < 8);
            assert(sb.s_imap@[a] != NIL);
            if c4 != c3 {
                let key = (dev, slot as u32);
                let j = i0.i_ino as int % 8192;
                assert(c3.dom().contains(key));
                assert(c3[key].len() == 1024);
                lemma_bitmap_off(c3[key], j);
                assert(c4.dom() =~= c3.dom());
                lemma_elsewhere(c3, c4, sb, dev, key.1);
            } else {
                assert(only_marked(c3, c4, sb, dev, 0));
            }
            lemma_marked_extends(c3, c4, sb, dev, w, 0);
            assert forall|p: int| 0 <= p implies #[trigger] file_byte(c4, dev, w, p) == file_byte(
                c,
                dev,
                w,
                p,
            ) by {
                lemma_extends_bytes(c3, w, c4, w, sb, dev, p);
                assert(file_byte(c3, dev, w, p) == file_byte(c, dev, w, p));
            }
        }
    } else {
        lemma_flushed(c, supers, i0, sb, dev);
        lemma_marked_extends(c, c4, sb, dev, w, 0);
        assert forall|p: int| 0 <= p implies #[trigger] file_byte(c4, dev, w, p) == file_byte(c, dev, w, p) by {
            lemma_extends_bytes(c, w, c4, w, sb, dev, p);
        }
    }
}

/// The inode bitmap of a file system lies before its data and beside its zone bitmap.
pub open spec fn imap_apart(s: SuperBlock) -> bool {
    &&& s.s_imap@.len() == 8
    &&& forall|k: int|
        0 <= k < 8 && #[trigger] s.s_imap@[k] != NIL ==> s.s_imap@[k] < s.s_firstdatazone && !s.s_zmap@.contains(
            s.s_imap@[k],
        )
}

/// The file that inode number `ino` of the file system of directory `dir` is, wherever its
/// slot is, is in order, shares no block with the directory, and is not the directory.
pub open spec fn file_apart(fs0: &Fs, dir: usize, ino: u32) -> bool {
    let d0 = fs0.inodes@[dir as int];
    let sb = fs0.supers@[d0.i_sb as int];
    forall|c1: Blocks, s1: Seq<Inode>, n: usize|
        #[trigger] iget_did(
            fs0.blocks(),
            fs0.inodes@,
            c1,
            s1,
            fs0.supers@,
            d0.i_sb,
            ino,
            false,
            n,
        ) && n != NIL ==> {
            let x = s1[n as int];
            &&& n != dir
            &&& x.i_sb == d0.i_sb
            &&& x.i_dev == d0.i_dev
            &&& x.i_ino == ino
            &&& inode_apart(fs0.supers@, x, sb)
            &&& tree_ok(c1, sb, d0.i_dev, x.data@)
            &&& disjoint(c1, d0.i_dev, x.data@, d0.data@)
        }
}

/// The entry at `off` of directory `i` is the only one of that name.
pub open spec fn only_entry(c: Blocks, supers: Seq<SuperBlock>, i: Inode, name: Seq<u8>, off: int) -> bool {
    let max = supers[i.i_sb as int].s_namelen as int;
    forall|q: int|
        0 <= q < i.i_size && q != off && aligned(q, max) ==> !#[trigger] is_hit(
            c,
            i.i_dev,
            i.data@,
            q,
            name,
            max,
        )
}

/// Taking the one entry of a name out of use makes the name lead nowhere, and no other
/// name lead elsewhere.
#[verifier::spinoff_prover]
#[verifier::rlimit(80)]
proof fn lemma_entry_gone(c0: Blocks, c1: Blocks, supers: Seq<SuperBlock>, d0: Inode, name: Seq<u8>, off: int, x: Seq<u16>)
    requires
        in_order(c0, supers, d0),
        tree_ok(c1, supers[d0.i_sb as int], d0.i_dev, d0.data@),
        forall|p: int|
            0 <= p ==> #[trigger] file_byte(c1, d0.i_dev, d0.data@, p) == file_byte(
                c0,
                d0.i_dev,
                d0.data@,
                p,
            ),
        mapped(c1, d0.i_dev, d0.data@, off / 1024) == mapped(c0, d0.i_dev, d0.data@, off / 1024),
        is_name(name, supers[d0.i_sb as int].s_namelen as int),
        found_in(c0, supers[d0.i_sb as int], d0, name) == Some(off),
        only_entry(c0, supers, d0, name, off),
        tree_ok(c1, supers[d0.i_sb as int], d0.i_dev, x),
        disjoint(c1, d0.i_dev, x, d0.data@),
    ensures
        ({
            let s = supers[d0.i_sb as int];
            let c2 = with_ino(
                c1,
                d0.i_dev,
                mapped(c0, d0.i_dev, d0.data@, off / 1024) as u32,
                off % 1024,
                0,
            );
            &&& tree_ok(c2, s, d0.i_dev, d0.data@)
            &&& tree_ok(c2, s, d0.i_dev, x)
            &&& disjoint(c2, d0.i_dev, x, d0.data@)
            &&& leads_nowhere(c2, supers, d0, name)
            &&& forall|other: Seq<u8>|
                is_name(other, s.s_namelen as int) && other != name ==> #[trigger] leads_as(
                    c0,
                    d0,
                    c2,
                    d0,
                    supers,
                    other,
                )
        }),
{
    let s = supers[d0.i_sb as int];
    let dev = d0.i_dev;
    let z = d0.data@;
    let max = s.s_namelen as int;
    let size = d0.i_size as int;
    lemma_found_first(c0, dev, z, size, max, name, 0);
    assert forall|q: int| 0 <= q implies #[trigger] is_hit(c1, dev, z, q, name, max) == is_hit(
        c0,
        dev,
        z,
        q,
        name,
        max,
    ) by {
        assert forall|i: int| 0 <= i < max + 2 implies #[trigger] file_byte(c1, dev, z, q + i) == file_byte(
            c0,
            dev,
            z,
            q + i,
        ) by {
            assert(file_byte(c1, dev, z, q + i) == file_byte(c0, dev, z, q + i));
        }
        lemma_hit_by_bytes(c0, z, c1, z, dev, q, name, max);
    }
    lemma_remove_then_find(c1, s, dev, z, size, name, off);
    let b = mapped(c1, dev, z, off / 1024);
    let c2 = with_ino(c1, dev, b as u32, off % 1024, 0);
    let blk = off / 1024;
    assert(b != 0) by {
        if b == 0 {
            lemma_next_aligned(off, max);
            assert((off + 1) / 1024 == off / 1024);
            assert(entry_ino(c1, dev, z, off) == 0);
        }
    }
    lemma_mapped(c1, dev, z, blk);
    assert(num(c1, dev, z, place(blk)) == b);
    assert(c1.dom().contains((dev, b as u32)));
    let d = with_le16(c1[(dev, b as u32)], off % 1024, 0);
    lemma_data_insert(c1, s, dev, z, place(blk), d);
    assert(owns(c1, dev, z, b));
    lemma_insert_spared(c1, s, dev, z, b, d);
    lemma_disjoint_swap(c1, dev, x, z);
    lemma_beside(c1, z, c2, z, s, dev, x);
    lemma_disjoint_swap(c2, dev, z, x);
    assert forall|other: Seq<u8>| is_name(other, max) && other != name implies #[trigger] leads_as(
        c0,
        d0,
        c2,
        d0,
        supers,
        other,
    ) by {
        lemma_other_stays(c0, c2, supers, d0, name, off, other);
    }
}

proof fn lemma_other_stays(c0: Blocks, c2: Blocks, supers: Seq<SuperBlock>, d0: Inode, name: Seq<u8>, off: int, other: Seq<u8>)
    requires
        d0.i_sb != NIL,
        sizes_ok(supers[d0.i_sb as int]),
        is_name(name, supers[d0.i_sb as int].s_namelen as int),
        is_name(other, supers[d0.i_sb as int].s_namelen as int),
        other != name,
        aligned(d0.i_size as int, supers[d0.i_sb as int].s_namelen as int),
        found_in(c0, supers[d0.i_sb as int], d0, name) == Some(off),
        forall|p: int|
            0 <= p && p != off && p != off + 1 ==> #[trigger] file_byte(c2, d0.i_dev, d0.data@, p)
                == file_byte(c0, d0.i_dev, d0.data@, p),
    ensures
        leads_as(c0, d0, c2, d0, supers, other),
{
    let s = supers[d0.i_sb as int];
    let dev = d0.i_dev;
    let z = d0.data@;
    let max = s.s_namelen as int;
    let size = d0.i_size as int;
    lemma_found_first(c0, dev, z, size, max, name, 0);
    lemma_next_aligned(off, max);
    if has_name(c0, dev, z, off, other, max) {
        lemma_one_name(c0, dev, z, off, name, other, max);
    }
    assert(has_name(c2, dev, z, off, other, max) == has_name(c0, dev, z, off, other, max)) by {
        assert forall|i: int| 0 <= i implies #[trigger] file_byte(c2, dev, z, off + 2 + i) == file_byte(
            c0,
            dev,
            z,
            off + 2 + i,
        ) by {}
        assert(file_byte(c2, dev, z, off + 2 + other.len()) == file_byte(c0, dev, z, off + 2 + other.len()));
        if has_name(c2, dev, z, off, other, max) {
            assert forall|i: int| 0 <= i < other.len() implies file_byte(c0, dev, z, off + 2 + i)
                == #[trigger] other[i] by {
                assert(file_byte(c2, dev, z, off + 2 + i) == other[i]);
            }
        }
    }
    lemma_found_other(c0, z, c2, z, dev, size, size, max, off, other);
    if found(c0, dev, z, size, max, other, 0) is Some {
        lemma_found_first(c0, dev, z, size, max, other, 0);
        let o = found(c0, dev, z, size, max, other, 0)->0;
        assert(entry_ino(c2, dev, z, o) == entry_ino(c0, dev, z, o));
    }
}

/// Taking a reference to an inode touches no data and no mark, and not the directory.
proof fn lemma_iget_apart(fs0: &Fs, dir: usize, ino: u32, c1: Blocks, s1: Seq<Inode>, n: usize)
    requires
        dir < 64,
        fs0.inodes@.len() == 64,
        fs0.inodes@[dir as int].i_count > 0,
        in_order(fs0.blocks(), fs0.supers@, fs0.inodes@[dir as int]),
        tables_apart(
            fs0.blocks(),
            fs0.supers@,
            fs0.inodes@,
            fs0.supers@[fs0.inodes@[dir as int].i_sb as int],
        ),
        iget_did(
            fs0.blocks(),
            fs0.inodes@,
            c1,
            s1,
            fs0.supers@,
            fs0.inodes@[dir as int].i_sb,
            ino,
            false,
            n,
        ),
        n != NIL,
        n != dir,
    ensures
        n < 64,
        s1 == fs0.inodes@.update(n as int, s1[n as int]),
        only_marked(
            fs0.blocks(),
            c1,
            fs0.supers@[fs0.inodes@[dir as int].i_sb as int],
            fs0.inodes@[dir as int].i_dev,
            0,
        ),
        fs0.inodes@[n as int].i_count > 0 ==> s1[n as int] == counted(fs0.inodes@[n as int], 1),
{
    let s0 = fs0.inodes@;
    let d0 = s0[dir as int];
    let sb = fs0.supers@[d0.i_sb as int];
    let dev = sb.s_dev;
    let c0 = fs0.blocks();
    if no_slot(s0, dev, ino) {
        assert(inode_apart(fs0.supers@, s0[n as int], sb));
        lemma_flushed(c0, fs0.supers@, s0[n as int], sb, dev);
    } else {
        let j = choose|j: int|
            0 <= j < s0.len() && (#[trigger] s0[j]).in_use && s0[j].i_dev == dev && s0[j].i_ino == ino;
        let k = crate::fs::inode::lemma_first_slot(s0, dev, ino, j);
        assert(is_slot(s0, dev, ino, k));
        assert(only_marked(c0, c0, sb, dev, 0));
    }
}

/// After a file was removed from a directory that had its name once, the name leads
/// nowhere, and every other name leads where it led. A file that is in use elsewhere has
/// one link less.
#[verifier::spinoff_prover]
#[verifier::rlimit(80)]
pub proof fn lemma_unlink(fs0: &Fs, fs: &Fs, dir: usize, name: Seq<u8>, off: int)
    requires
        removed_file(fs0, fs, dir, name, 0),
        fs0.inodes@.len() == 64,
        countable(fs0.inodes@),
        dir < 64,
        fs0.inodes@[dir as int].i_count > 0,
        in_order(fs0.blocks(), fs0.supers@, fs0.inodes@[dir as int]),
        tables_apart(
            fs0.blocks(),
            fs0.supers@,
            fs0.inodes@,
            fs0.supers@[fs0.inodes@[dir as int].i_sb as int],
        ),
        imap_apart(fs0.supers@[fs0.inodes@[dir as int].i_sb as int]),
        is_name(name, fs0.supers@[fs0.inodes@[dir as int].i_sb as int].s_namelen as int),
        ({
            let d0 = fs0.inodes@[dir as int];
            &&& found_in(fs0.blocks(), fs0.supers@[d0.i_sb as int], d0, name) == Some(off)
            &&& only_entry(fs0.blocks(), fs0.supers@, d0, name, off)
            &&& file_apart(fs0, dir, entry_ino(fs0.blocks(), d0.i_dev, d0.data@, off) as u32)
        }),
    ensures
        ({
            let d0 = fs0.inodes@[dir as int];
            let d = fs.inodes@[dir as int];
            let ino = entry_ino(fs0.blocks(), d0.i_dev, d0.data@, off) as u32;
            &&& in_order(fs.blocks(), fs0.supers@, d)
            &&& leads_nowhere(fs.blocks(), fs0.supers@, d, name)
            &&& forall|other: Seq<u8>|
                is_name(other, fs0.supers@[d0.i_sb as int].s_namelen as int) && other != name
                    ==> #[trigger] leads_as(fs0.blocks(), d0, fs.blocks(), d, fs0.supers@, other)
            &&& d.i_nlink == d0.i_nlink && d.i_size == d0.i_size
            &&& forall|n: int|
                #[trigger] is_slot(fs0.inodes@, d0.i_dev, ino, n) && fs0.inodes@[n].i_count > 0
                    && fs0.inodes@[n].i_nlink > 0 ==> fs.inodes@[n].i_nlink == fs0.inodes@[n].i_nlink - 1
                    && fs.inodes@[n].i_count == fs0.inodes@[n].i_count
        }),
{
    let c0 = fs0.blocks();
    let s0 = fs0.inodes@;
    let supers = fs0.supers@;
    let d0 = s0[dir as int];
    let sb = supers[d0.i_sb as int];
    let dev = d0.i_dev;
    let ino = entry_ino(c0, dev, d0.data@, off) as u32;
    let b = mapped(c0, dev, d0.data@, off / 1024) as u32;
    let e = &fs.cache;
    assert(unlink_did(c0, s0, e, fs.inodes@, supers, fs0.now, dir, ino, b, off % 1024, 0));
    let (c1, s1, n) = choose|c1: Blocks, s1: Seq<Inode>, n: usize|
        {
            &&& #[trigger] iget_did(c0, s0, c1, s1, supers, d0.i_sb, ino, false, n)
            &&& if n == NIL {
                0 == crate::errno::ENOENT && e.content() == c1 && fs.inodes@ == s1
            } else if type_bits(s1[n as int].i_mode) == mode::S_IFDIR {
                0 == crate::errno::EPERM && iput_did(c1, s1, e, fs.inodes@, supers, fs0.now, n)
            } else {
                iput_did(
                    with_ino(c1, dev, b, off % 1024, 0),
                    link_gone(s1, dir, n, fs0.now),
                    e,
                    fs.inodes@,
                    supers,
                    fs0.now,
                    n,
                )
            }
        };
    assert(n != NIL && type_bits(s1[n as int].i_mode) != mode::S_IFDIR);
    let x = s1[n as int];
    assert(n != dir);
    lemma_iget_apart(fs0, dir, ino, c1, s1, n);
    lemma_marked_extends(c0, c1, sb, dev, d0.data@, 0);
    assert forall|p: int| 0 <= p implies #[trigger] file_byte(c1, dev, d0.data@, p) == file_byte(
        c0,
        dev,
        d0.data@,
        p,
    ) by {
        lemma_extends_bytes(c0, d0.data@, c1, d0.data@, sb, dev, p);
    }
    assert(mapped(c1, dev, d0.data@, off / 1024) == mapped(c0, dev, d0.data@, off / 1024)) by {
        if off / 1024 < 262663 {
            lemma_found_first(c0, dev, d0.data@, d0.i_size as int, sb.s_namelen as int, name, 0);
            lemma_mapped(c0, dev, d0.data@, off / 1024);
            lemma_mapped(c1, dev, d0.data@, off / 1024);
            assert(num(c1, dev, d0.data@, place(off / 1024)) == num(c0, dev, d0.data@, place(off / 1024)));
        }
    }
    lemma_entry_gone(c0, c1, supers, d0, name, off, x.data@);
    let c2 = with_ino(c1, dev, b, off % 1024, 0);
    let s2 = link_gone(s1, dir, n, fs0.now);
    assert(s2.len() == 64);
    assert(s2[n as int].data@ == x.data@ && s2[n as int].i_sb == x.i_sb && s2[n as int].i_ino == x.i_ino);
    lemma_iput_beside(c2, s2, e, fs.inodes@, supers, fs0.now, n, sb, dev, d0.data@);
    let d = fs.inodes@[dir as int];
    assert(d == s2[dir as int]);
    assert(d.data@ == d0.data@ && d.i_size == d0.i_size);
    lemma_dir_bytes(c0, d0, c2, e.content(), d, supers, name);
    assert forall|k: int|
        #[trigger] is_slot(s0, dev, ino, k) && s0[k].i_count > 0 && s0[k].i_nlink > 0 implies fs.inodes@[k].i_nlink
        == s0[k].i_nlink - 1 && fs.inodes@[k].i_count == s0[k].i_count by {
        assert(n == k);
        assert(s0[k].i_count < u16::MAX);
    }
}

/// A directory with the same bytes has the same names.
proof fn lemma_dir_bytes(c0: Blocks, d0: Inode, c2: Blocks, c: Blocks, d: Inode, supers: Seq<SuperBlock>, name: Seq<u8>)
    requires
        d0.i_sb != NIL,
        d.i_sb == d0.i_sb,
        d.i_dev == d0.i_dev,
        d.i_size == d0.i_size,
        d.data@ == d0.data@,
        sizes_ok(supers[d0.i_sb as int]),
        is_name(name, supers[d0.i_sb as int].s_namelen as int),
        leads_nowhere(c2, supers, d0, name),
        forall|p: int|
            0 <= p ==> #[trigger] file_byte(c, d0.i_dev, d0.data@, p) == file_byte(
                c2,
                d0.i_dev,
                d0.data@,
                p,
            ),
    ensures
        leads_nowhere(c, supers, d, name),
        forall|other: Seq<u8>|
            is_name(other, supers[d0.i_sb as int].s_namelen as int) && leads_as(
                c0,
                d0,
                c2,
                d0,
                supers,
                other,
            ) ==> #[trigger] leads_as(c0, d0, c, d, supers, other),
{
    let max = supers[d0.i_sb as int].s_namelen as int;
    let z = d0.data@;
    let dev = d0.i_dev;
    lemma_found_same(c2, z, c, z, dev, d0.i_size as int, max, name, 0);
    assert forall|other: Seq<u8>| is_name(other, max) && leads_as(c0, d0, c2, d0, supers, other) implies #[trigger] leads_as(
        c0,
        d0,
        c,
        d,
        supers,
        other,
    ) by {
        lemma_found_same(c2, z, c, z, dev, d0.i_size as int, max, other, 0);
        if found(c2, dev, z, d0.i_size as int, max, other, 0) is Some {
            lemma_found_first(c2, dev, z, d0.i_size as int, max, other, 0);
        }
        assert forall|y: int| #[trigger] leads(c, supers, d, other, y) <==> leads(c0, supers, d0, other, y) by {
            assert(leads(c2, supers, d0, other, y) <==> leads(c0, supers, d0, other, y));
        }
    }
}

/// After a directory was removed from one that had its name once, the name leads nowhere,
/// every other name leads where it led, and the directory above has one link less. Only
/// a directory without entries, on which nothing is mounted and which is not in use
/// elsewhere, is removed.
#[verifier::spinoff_prover]
#[verifier::rlimit(80)]
pub proof fn lemma_rmdir(fs0: &Fs, fs: &Fs, dir: usize, name: Seq<u8>, off: int)
    requires
        removed_dir(fs0, fs, dir, name, 0),
        fs0.inodes@.len() == 64,
        countable(fs0.inodes@),
        dir < 64,
        fs0.inodes@[dir as int].i_count > 0,
        fs0.inodes@[dir as int].i_nlink > 0,
        in_order(fs0.blocks(), fs0.supers@, fs0.inodes@[dir as int]),
        tables_apart(
            fs0.blocks(),
            fs0.supers@,
            fs0.inodes@,
            fs0.supers@[fs0.inodes@[dir as int].i_sb as int],
        ),
        imap_apart(fs0.supers@[fs0.inodes@[dir as int].i_sb as int]),
        is_name(name, fs0.supers@[fs0.inodes@[dir as int].i_sb as int].s_namelen as int),
        ({
            let d0 = fs0.inodes@[dir as int];
            &&& found_in(fs0.blocks(), fs0.supers@[d0.i_sb as int], d0, name) == Some(off)
            &&& only_entry(fs0.blocks(), fs0.supers@, d0, name, off)
            &&& file_apart(fs0, dir, entry_ino(fs0.blocks(), d0.i_dev, d0.data@, off) as u32)
        }),
    ensures
        ({
            let d0 = fs0.inodes@[dir as int];
            let d = fs.inodes@[dir as int];
            let ino = entry_ino(fs0.blocks(), d0.i_dev, d0.data@, off) as u32;
            &&& in_order(fs.blocks(), fs0.supers@, d)
            &&& leads_nowhere(fs.blocks(), fs0.supers@, d, name)
            &&& forall|other: Seq<u8>|
                is_name(other, fs0.supers@[d0.i_sb as int].s_namelen as int) && other != name
                    ==> #[trigger] leads_as(fs0.blocks(), d0, fs.blocks(), d, fs0.supers@, other)
            &&& d.i_nlink == d0.i_nlink - 1
            &&& forall|n: int|
                #[trigger] is_slot(fs0.inodes@, d0.i_dev, ino, n) ==> fs0.inodes@[n].i_count == 0
                    && fs0.inodes@[n].i_mount == NIL && n != fs0.root_inode && type_bits(
                    fs0.inodes@[n].i_mode,
                ) == mode::S_IFDIR && is_empty_dir(fs0.blocks(), fs0.supers@, fs0.inodes@[n])
        }),
{
    let c0 = fs0.blocks();
    let s0 = fs0.inodes@;
    let supers = fs0.supers@;
    let d0 = s0[dir as int];
    let sb = supers[d0.i_sb as int];
    let dev = d0.i_dev;
    let ino = entry_ino(c0, dev, d0.data@, off) as u32;
    let b = mapped(c0, dev, d0.data@, off / 1024) as u32;
    let e = &fs.cache;
    let root = fs0.root_inode;
    assert(rmdir_did(c0, s0, e, fs.inodes@, supers, fs0.now, root, dir, ino, b, off % 1024, 0));
    let (c1, s1, n) = choose|c1: Blocks, s1: Seq<Inode>, n: usize|
        {
            &&& #[trigger] iget_did(c0, s0, c1, s1, supers, d0.i_sb, ino, false, n)
            &&& if n == NIL {
                0 == crate::errno::ENOENT && e.content() == c1 && fs.inodes@ == s1
            } else {
                let err = rmdir_error(c1, s1, supers, root, n);
                &&& 0 == err
                &&& if err != 0 {
                    iput_did(c1, s1, e, fs.inodes@, supers, fs0.now, n)
                } else {
                    iput_did(
                        with_ino(c1, dev, b, off % 1024, 0),
                        dir_gone(s1, dir, n, fs0.now),
                        e,
                        fs.inodes@,
                        supers,
                        fs0.now,
                        n,
                    )
                }
            }
        };
    assert(n != NIL);
    let x = s1[n as int];
    assert(n != dir);
    lemma_iget_apart(fs0, dir, ino, c1, s1, n);
    lemma_marked_extends(c0, c1, sb, dev, d0.data@, 0);
    assert forall|p: int| 0 <= p implies #[trigger] file_byte(c1, dev, d0.data@, p) == file_byte(
        c0,
        dev,
        d0.data@,
        p,
    ) by {
        lemma_extends_bytes(c0, d0.data@, c1, d0.data@, sb, dev, p);
    }
    assert(mapped(c1, dev, d0.data@, off / 1024) == mapped(c0, dev, d0.data@, off / 1024)) by {
        if off / 1024 < 262663 {
            lemma_found_first(c0, dev, d0.data@, d0.i_size as int, sb.s_namelen as int, name, 0);
            lemma_mapped(c0, dev, d0.data@, off / 1024);
            lemma_mapped(c1, dev, d0.data@, off / 1024);
            assert(num(c1, dev, d0.data@, place(off / 1024)) == num(c0, dev, d0.data@, place(off / 1024)));
        }
    }
    lemma_entry_gone(c0, c1, supers, d0, name, off, x.data@);
    let c2 = with_ino(c1, dev, b, off % 1024, 0);
    let s2 = dir_gone(s1, dir, n, fs0.now);
    assert(s2.len() == 64);
    assert(s2[n as int].data@ == x.data@ && s2[n as int].i_sb == x.i_sb && s2[n as int].i_ino == x.i_ino);
    lemma_iput_beside(c2, s2, e, fs.inodes@, supers, fs0.now, n, sb, dev, d0.data@);
    let d = fs.inodes@[dir as int];
    assert(d == s2[dir as int]);
    assert(d.data@ == d0.data@ && d.i_size == d0.i_size);
    lemma_dir_bytes(c0, d0, c2, e.content(), d, supers, name);
    assert forall|k: int| #[trigger] is_slot(s0, dev, ino, k) implies s0[k].i_count == 0 && s0[k].i_mount
        == NIL && k != root && type_bits(s0[k].i_mode) == mode::S_IFDIR && is_empty_dir(c0, supers, s0[k]) by {
        assert(n == k);
        assert(s0[k].i_count < u16::MAX);
        assert(s1[n as int] == counted(s0[k], 1));
    }
}

// ---- numbers that are taken and given back ----

/// The inode number is marked as taken in the inode bitmap.
pub open spec fn ino_taken(c: Blocks, s: SuperBlock, ino: int) -> bool {
    let slot = s.s_imap@[ino / 8192];
    &&& slot != NIL
    &&& c.dom().contains((s.s_dev, slot as u32))
    &&& bitmap_bit(c[(s.s_dev, slot as u32)], ino % 8192)
}

/// The number of a new inode was free once what was in its slot was written out, and is
/// taken then.
pub proof fn lemma_new_number(
    c0: Blocks,
    s0: Seq<Inode>,
    c1: Blocks,
    s1: Seq<Inode>,
    supers: Seq<SuperBlock>,
    now: u32,
    dir: usize,
    k: usize,
)
    requires
        inode_made(c0, s0, c1, s1, supers, now, dir, k),
        k != NIL,
        dir < 64,
        s0.len() == 64,
        s0[dir as int].i_sb != NIL,
        layout_ok(c0, supers[s0[dir as int].i_sb as int], supers[s0[dir as int].i_sb as int].s_dev),
        tables_apart(c0, supers, s0, supers[s0[dir as int].i_sb as int]),
    ensures
        ({
            let sb = supers[s0[dir as int].i_sb as int];
            let ino = s1[k as int].i_ino as int;
            &&& 1 <= ino < sb.s_ninodes
            &&& !ino_taken(flushed(c0, supers, s0[k as int]), sb, ino)
            &&& ino_taken(c1, sb, ino)
        }),
{
    let sb = supers[s0[dir as int].i_sb as int];
    let dev = sb.s_dev;
    let p = lemma_pick(s0, 0);
    assert(is_pick(s0, p));
    assert(inode_apart(supers, s0[p], sb));
    lemma_flushed(c0, supers, s0[p], sb, dev);
    let cf = flushed(c0, supers, s0[p]);
    lemma_first_free(cf, dev, sb.s_imap@, 0);
    let (a, j) = first_free(cf, dev, sb.s_imap@, 0)->0;
    let key = (dev, sb.s_imap@[a] as u32);
    assert(cf.dom().contains(key));
    assert(cf[key].len() == 1024);
    lemma_bitmap_on(cf[key], j);
    let x = choose|x: Inode|
        #[trigger] fresh_inode(x, s1[p], s0[dir as int].i_sb, sb, s0[dir as int], j + 8192 * a, now);
    assert(fresh_inode(x, s1[p], s0[dir as int].i_sb, sb, s0[dir as int], j + 8192 * a, now));
    let ino = j + 8192 * a;
    assert(ino / 8192 == a && ino % 8192 == j);
}

/// A file whose last reference was given up while nothing links to it has given back its
/// number and all of its blocks, and its slot is empty.
pub proof fn lemma_dropped(
    k0: &BufferCache,
    s0: Seq<Inode>,
    k: &BufferCache,
    s: Seq<Inode>,
    supers: Seq<SuperBlock>,
    now: u32,
    n: usize,
    p: int,
)
    requires
        dropped_in(k0, s0, k, s, supers, now, n),
        k0.wf(),
        n < 64,
        ({
            let i = s0[n as int];
            let sb = supers[i.i_sb as int];
            &&& may_free(supers, i)
            &&& i.i_dev == sb.s_dev
            &&& tree_ok(k0.content(), sb, i.i_dev, i.data@)
            &&& imap_apart(sb)
            &&& k0.content().dom().contains((i.i_dev, sb.s_imap@[i.i_ino as int / 8192] as u32))
            &&& 0 <= p < places()
            &&& num(k0.content(), i.i_dev, i.data@, p) != 0
        }),
    ensures
        ({
            let i = s0[n as int];
            let sb = supers[i.i_sb as int];
            &&& !ino_taken(k.content(), sb, i.i_ino as int)
            &&& !marked(k.content(), sb, num(k0.content(), i.i_dev, i.data@, p))
            &&& s[n as int].is_clear()
        }),
{
    let i = s0[n as int];
    let i1 = Inode { i_size: 0, ..i };
    let sb = supers[i.i_sb as int];
    let dev = i.i_dev;
    let (k1, z1) = choose|k1: BufferCache, z1: Seq<u16>|
        {
            &&& #[trigger] trunc_did(k0, &k1, sb, i.i_dev, i.data@, z1, 0)
            &&& s == s0.update(n as int, s[n as int])
            &&& if may_free(supers, i1) {
                &&& k.content() == free_ino_spec(k1.content(), sb, i.i_ino as int)
                &&& wrote_back(&k1, k)
                &&& s[n as int].is_clear()
            } else {
                &&& *k == k1
                &&& truncated(i1, s[n as int], z1, now)
            }
        };
    lemma_truncate(k0, &k1, sb, dev, i.data@, z1, 0);
    super::shrink::lemma_all_freed(k0, &k1, sb, dev, i.data@, z1, p);
    let c3 = k1.content();
    let a = i.i_ino as int / 8192;
    let j = i.i_ino as int % 8192;
    let slot = sb.s_imap@[a];
    let key = (dev, slot as u32);
    assert(0 <= a < 8 && slot != NIL);
    assert(c3.dom().contains(key));
    assert(c3[key].len() == 1024);
    lemma_bitmap_off(c3[key], j);
    let y = num(k0.content(), dev, i.data@, p);
    let b = super::bitmap::zone_bit(sb, y) / 8192;
    if sb.s_zmap@[b] != NIL {
        assert(0 <= b < 8);
        assert(sb.s_zmap@.contains(sb.s_zmap@[b]));
        assert(sb.s_zmap@[b] < sb.s_firstdatazone);
        assert(sb.s_zmap@[b] as u32 != slot as u32);
    }
}

// ---- inodes on disk ----

/// An inode that was read is what the disk says: 32 inodes of 32 bytes lie in each block of
/// the table, which starts behind the two bitmaps, and inode numbers start at one. `q`
/// is the block in the table, and `j` the place in it.
pub proof fn lemma_loaded(c: Blocks, supers: Seq<SuperBlock>, i0: Inode, i: Inode, q: int, j: int)
    requires
        loaded(c, supers, i0, i),
        i0.i_sb != NIL,
        can_load(c, supers[i0.i_sb as int], i0.i_dev, i0.i_ino),
        0 <= j < 32,
        0 <= q,
        i0.i_ino == 32 * q + j + 1,
    ensures
        ({
            let s = supers[i0.i_sb as int];
            let d = c[(i0.i_dev, (2 + s.s_imap_blocks + s.s_zmap_blocks + q) as u32)];
            let o = 32 * j;
            &&& i.i_mode == le16(d, o)
            &&& i.i_uid == le16(d, o + 2)
            &&& i.i_size == le32(d, o + 4)
            &&& i.i_mtime == le32(d, o + 8)
            &&& i.i_gid == d[o + 12]
            &&& i.i_nlink == d[o + 13]
            &&& i.i_ino == i0.i_ino && i.i_dev == i0.i_dev
            &&& !is_special(i.i_mode) ==> forall|k: int|
                0 <= k < 9 ==> #[trigger] i.data@[k] == le16(d, o + 14 + 2 * k)
            &&& is_special(i.i_mode) ==> i.i_rdev == le16(d, o + 14)
        }),
{
    assert((i0.i_ino - 1) as int / 32 == q && (i0.i_ino - 1) as int % 32 == j);
}

} // verus!
