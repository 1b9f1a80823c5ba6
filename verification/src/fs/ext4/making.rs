//! What names lead to after files were made, linked and removed.

use crate::bytes::{
    le16, le32, lemma_with_le16, lemma_with_le32, overlay, with_le16, with_le32, zeros,
};
use crate::fs::ext2::dir::round_up4;
use crate::fs::ext4::dir::{block_lookup, entries_from, entry_at, first_named, name_of};
use crate::fs::ext4::file_type;
use crate::fs::ext4::map::low32;
use crate::fs::ext4::namei::{
    block_buffer, buffer_of, dir_block, dir_block_put, dir_blocks, entry_in, entry_put, found,
    named_in, place_in, placed, with_entry, zeroed_buffers,
};
use crate::fs::ext4::names::{
    lemma_add_then_find, lemma_piece, lemma_remove_then_find, once, sound_from,
};
use crate::fs::ext4::nodes::{
    buffers, dir_made, dir_started, dots, entry_buffer, entry_removed, link_did, mkdir_did,
};
use crate::bits::{bitmap_bit, lemma_bitmap_off, lemma_bitmap_on};
use crate::fs::ext4::bitmap::{lemma_first_free, pieces};
use crate::fs::ext4::ops::full::{
    block_alloc, block_release, has_buffer, is_truncated, lemma_mapped_same, mapped, numbers_released,
    Ext4SbInfo,
};
use crate::fs::ext4::ops::reread::{agrees, is_own, map_apart, max_buffers};
use crate::fs::inode::{synced_to, Inode, NIL};
use crate::fs::super_block::{supers_settled, supers_synced, SuperBlock};
use crate::fs::sync::inodes_settled;
use crate::fs::{Blocks, Fs};
use vstd::prelude::*;

verus! {

// ---- new directories ----

/// In the first block of a new directory "." leads to the directory itself, ".." to the
/// one that it was made in, and no other name leads anywhere.
pub proof fn lemma_new_dots(ino: u32, parent: u32, other: Seq<u8>)
    requires
        ino != 0,
        parent != 0,
        other != seq![46u8],
        other != seq![46u8, 46u8],
    ensures
        block_lookup(dots(ino, parent, 1024), seq![46u8]) == Some(ino),
        block_lookup(dots(ino, parent, 1024), seq![46u8, 46u8]) == Some(parent),
        block_lookup(dots(ino, parent, 1024), other) is None,
        sound_from(dots(ino, parent, 1024), 0),
{
    let dot = seq![46u8];
    let up = seq![46u8, 46u8];
    let z = zeros(1024);
    lemma_with_le16(z, 4, 12);
    let a = with_le16(z, 4, 12);
    lemma_with_le32(a, 0, ino);
    let b = with_le32(a, 0, ino).update(6, 1u8).update(7, file_type::EXT4_FT_DIR);
    let d1 = overlay(b, 8, dot);
    assert(d1 == with_entry(a, 0, ino, dot, file_type::EXT4_FT_DIR));
    lemma_with_le16(d1, 16, 1012);
    let d2 = with_le16(d1, 16, 1012);
    lemma_with_le32(d2, 12, parent);
    let e = with_le32(d2, 12, parent).update(18, 2u8).update(19, file_type::EXT4_FT_DIR);
    let r = overlay(e, 20, up);
    assert(r == dots(ino, parent, 1024));
    assert(r[0] == b[0] && r[1] == b[1] && r[2] == b[2] && r[3] == b[3]);
    assert(le32(r, 0) == ino);
    assert(r[4] == a[4] && r[5] == a[5]);
    assert(le16(r, 4) == 12);
    assert(r[6] == 1 && r[8] == 46);
    assert(r[12] == e[12] && r[13] == e[13] && r[14] == e[14] && r[15] == e[15]);
    assert(le32(r, 12) == parent);
    assert(r[16] == d2[16] && r[17] == d2[17]);
    assert(le16(r, 16) == 1012);
    assert(r[18] == 2 && r[20] == 46 && r[21] == 46);
    let e0 = entry_at(r, 0, false)->0;
    let e1 = entry_at(r, 12, false)->0;
    assert(entry_at(r, 0, false) is Some && e0.inode == ino && e0.name_off == 8 && e0.name_len == 1
        && e0.rec_len == 12);
    assert(entry_at(r, 12, false) is Some && e1.inode == parent && e1.name_off == 20 && e1.name_len == 2
        && e1.rec_len == 1012);
    assert(entry_at(r, 1024, false) is None);
    reveal_with_fuel(entries_from, 4);
    reveal_with_fuel(sound_from, 4);
    let es = entries_from(r, 0, false);
    assert(es =~= seq![e0, e1]);
    assert(name_of(r, e0) =~= dot);
    assert(name_of(r, e1) =~= up);
    assert(dot.len() == 1 && up.len() == 2);
    assert(es.drop_first() =~= seq![e1]);
    assert(es.drop_first().drop_first().len() == 0);
    reveal_with_fuel(first_named, 4);
}

/// A directory that was just made has one block, in which "." leads to itself and ".." to
/// the directory that it was made in. It has two links.
pub proof fn lemma_mkdir(fs0: &Fs, fs: &Fs, dir: usize, name: Seq<u8>, m: u16, ip: usize, other: Seq<u8>)
    requires
        mkdir_did(fs0, fs, dir, name, m, Ok(ip)),
        fs.wf(),
        ip < 64,
        dir < 64,
        ip != dir,
        fs.inodes@[ip as int].i_sb != NIL,
        fs.ext4@[fs.inodes@[ip as int].i_sb as int].fs_block_size == 1024,
        fs.inodes@[ip as int].i_ino != 0,
        fs.inodes@[dir as int].i_ino != 0,
        other != seq![46u8],
        other != seq![46u8, 46u8],
    ensures
        fs.inodes@[ip as int].i_nlink == 2,
        fs.inodes@[ip as int].i_size == 1024,
        exists|phys: u64|
            {
                let key = (
                    fs.supers@[fs.inodes@[ip as int].i_sb as int].s_dev,
                    #[trigger] low32(phys as int),
                );
                let d = fs.blocks()[key];
                &&& fs.inodes@[ip as int].data@[0] == phys % 65536
                &&& fs.blocks().dom().contains(key) ==> {
                    &&& block_lookup(d, seq![46u8]) == Some(fs.inodes@[ip as int].i_ino)
                    &&& block_lookup(d, seq![46u8, 46u8]) == Some(fs.inodes@[dir as int].i_ino)
                    &&& block_lookup(d, other) is None
                }
            },
{
    let r: Result<usize, i32> = Ok(ip);
    let (f1, r1) = choose|f1: Fs, r1: Result<usize, i32>|
        {
            &&& #[trigger] crate::fs::ext4::nodes::mknod_did(
                fs0,
                &f1,
                dir,
                name,
                0o40000 | m,
                crate::fs::ext4::nodes::type_of(0o40000 | m),
                r1,
            )
            &&& match r1 {
                Err(e) => r == Err::<usize, i32>(e) && *fs == f1,
                Ok(ip) => dir_made(&f1, fs, ip, dir, r),
            }
        };
    let ip1 = r1->Ok_0;
    let sb = f1.inodes@[ip1 as int].i_sb;
    let (f2, f3, got) = choose|f2: Fs, f3: Fs, got: Option<u64>|
        {
            &&& crate::fs::ext4::nodes::dir_linked(&f1, &f2, ip1, dir)
            &&& f1.wf() && f3.wf()
            &&& #[trigger] crate::fs::ext4::ops::full::block_taken(&f2, &f3, sb, got)
            &&& match got {
                None => r == Err::<usize, i32>(crate::errno::ENOSPC)
                    && crate::fs::ext4::nodes::dir_given_up(&f3, fs, ip1),
                Some(phys) => r == Ok::<usize, i32>(ip1) && dir_started(&f3, fs, ip1, dir, phys),
            }
        };
    let phys = got->0;
    assert(ip1 == ip);
    lemma_linked_twice(&f1, &f2, &f3, fs, ip, dir, sb, got, phys);
    lemma_started(&f3, fs, ip, dir, phys, other);
    let key = (fs.supers@[fs.inodes@[ip as int].i_sb as int].s_dev, low32(phys as int));
    assert(fs.inodes@[ip as int].data@[0] == phys % 65536);
}

proof fn lemma_started(f3: &Fs, fs: &Fs, ip: usize, dir: usize, phys: u64, other: Seq<u8>)
    requires
        dir_started(f3, fs, ip, dir, phys),
        fs.wf(),
        f3.wf(),
        ip < 64,
        dir < 64,
        ip != dir,
        fs.inodes@[ip as int].i_sb != NIL,
        fs.ext4@[fs.inodes@[ip as int].i_sb as int].fs_block_size == 1024,
        fs.inodes@[ip as int].i_ino != 0,
        fs.inodes@[dir as int].i_ino != 0,
        other != seq![46u8],
        other != seq![46u8, 46u8],
    ensures
        fs.inodes@[ip as int].i_size == 1024,
        fs.inodes@[ip as int].data@[0] == phys % 65536,
        ({
            let key = (
                fs.supers@[fs.inodes@[ip as int].i_sb as int].s_dev,
                low32(phys as int),
            );
            let d = fs.blocks()[key];
            fs.blocks().dom().contains(key) ==> {
                &&& block_lookup(d, seq![46u8]) == Some(fs.inodes@[ip as int].i_ino)
                &&& block_lookup(d, seq![46u8, 46u8]) == Some(fs.inodes@[dir as int].i_ino)
                &&& block_lookup(d, other) is None
            }
        }),
{
    let i0 = f3.inodes@[ip as int];
    let i = fs.inodes@[ip as int];
    let f = f3.ext4@[i0.i_sb as int];
    assert(i.i_sb == i0.i_sb && i.i_ino == i0.i_ino);
    assert(f.scale32() == 1);
    let dev = f3.supers@[i0.i_sb as int].s_dev;
    let parent = f3.inodes@[dir as int].i_ino;
    assert(fs.inodes@[dir as int].i_ino == parent);
    lemma_new_dots(i0.i_ino, parent, other);
    assert(block_buffer(phys as int, 1, 0) == low32(phys as int));
    let key = (dev, low32(phys as int));
    let c1 = zeroed_buffers(f3.blocks(), dev, phys as int, 1, 1);
    if fs.blocks().dom().contains(key) {
        assert(c1.dom().contains(key));
        assert(fs.blocks()[key] == dots(i0.i_ino, parent, 1024));
    }
}

proof fn lemma_linked_twice(
    f1: &Fs,
    f2: &Fs,
    f3: &Fs,
    fs: &Fs,
    ip: usize,
    dir: usize,
    sb: usize,
    got: Option<u64>,
    phys: u64,
)
    requires
        crate::fs::ext4::nodes::dir_linked(f1, f2, ip, dir),
        crate::fs::ext4::ops::full::block_taken(f2, f3, sb, got),
        dir_started(f3, fs, ip, dir, phys),
        fs.wf(),
        f1.wf(),
        f3.wf(),
        ip < 64,
        dir < 64,
        ip != dir,
    ensures
        fs.inodes@[ip as int].i_nlink == 2,
{
    assert(f3.inodes@ == f2.inodes@);
    let s1 = f1.inodes@.update(
        ip as int,
        Inode { i_nlink: 2, i_dirt: true, ..f1.inodes@[ip as int] },
    );
}

// ---- the blocks of a directory ----

/// Writing the device out changes no block: no file system of it keeps a super block or
/// inodes in the layout that is written out.
pub open spec fn quiet(supers: Seq<SuperBlock>, inodes: Seq<Inode>, dev: u16) -> bool {
    &&& dev != 0
    &&& forall|x: int| 0 <= x < 4 && (#[trigger] supers[x]).s_dev == dev ==> supers[x].s_sbh == NIL
    &&& forall|k: int|
        0 <= k < 64 && (#[trigger] inodes[k]).i_dev == dev && inodes[k].i_sb != NIL ==> inodes[k].i_sb < 4
            && supers[inodes[k].i_sb as int].s_ninodes == 0
}

proof fn lemma_quiet(c: Blocks, supers: Seq<SuperBlock>, inodes: Seq<Inode>, dev: u16, k: int)
    requires
        quiet(supers, inodes, dev),
        supers.len() == 4,
        0 <= k <= 64,
    ensures
        supers_synced(c, supers, dev, 4) == c,
        synced_to(c, supers_settled(supers, dev), inodes, dev, k) == c,
    decreases k,
{
    reveal_with_fuel(supers_synced, 5);
    assert(supers[0].s_dev == dev ==> supers[0].s_sbh == NIL);
    assert(supers[1].s_dev == dev ==> supers[1].s_sbh == NIL);
    assert(supers[2].s_dev == dev ==> supers[2].s_sbh == NIL);
    assert(supers[3].s_dev == dev ==> supers[3].s_sbh == NIL);
    if k > 0 {
        lemma_quiet(c, supers, inodes, dev, k - 1);
        let i = inodes[k - 1];
        if i.in_use && i.i_dev == dev && i.i_sb != NIL {
            let s = supers_settled(supers, dev)[i.i_sb as int];
            assert(s.s_ninodes == 0);
        }
    }
}

/// A directory of blocks of one buffer, all of which are sound, and which says where its
/// blocks are in none of them.
#[verifier::opaque]
pub open spec fn dir_in_order(c: Blocks, supers: Seq<SuperBlock>, info: Seq<Ext4SbInfo>, i: Inode) -> bool {
    &&& i.i_sb != NIL
    &&& info[i.i_sb as int].fs_block_size == 1024
    &&& map_apart(c, supers, info, i)
    &&& forall|b: int|
        0 <= b < dir_blocks(info, i) && (#[trigger] dir_block(c, supers, info, i, b)) is Some ==> sound_from(
            dir_block(c, supers, info, i, b)->0,
            0,
        )
}

/// What is known of a directory in order without looking at its map.
proof fn lemma_in_order(c: Blocks, supers: Seq<SuperBlock>, info: Seq<Ext4SbInfo>, i: Inode)
    requires
        dir_in_order(c, supers, info, i),
    ensures
        i.i_sb != NIL,
        info[i.i_sb as int].fs_block_size == 1024,
        dir_blocks(info, i) == buffers(i),
        dir_blocks(info, i) <= max_buffers(),
        forall|key: (u16, u32)| #[trigger] c.dom().contains(key) ==> c[key].len() == 1024,
        forall|b: int|
            0 <= b < dir_blocks(info, i) && (#[trigger] dir_block(c, supers, info, i, b)) is Some ==> sound_from(
                dir_block(c, supers, info, i, b)->0,
                0,
            ),
{
    reveal(dir_in_order);
    assert(dir_blocks(info, i) == (i.i_size + 1023) / 1024);
}

proof fn lemma_dir_block(c: Blocks, supers: Seq<SuperBlock>, info: Seq<Ext4SbInfo>, i: Inode, b: int)
    requires
        info[i.i_sb as int].fs_block_size == 1024,
        forall|key: (u16, u32)| #[trigger] c.dom().contains(key) ==> c[key].len() == 1024,
        0 <= b < 0x1_0000_0000,
    ensures
        dir_block(c, supers, info, i, b) == (if has_buffer(c, supers, info, i, b) {
            Some(c[(supers[i.i_sb as int].s_dev, mapped(c, supers, info, i, b))])
        } else {
            None
        }),
{
    assert(info[i.i_sb as int].scale() == 1);
    assert(buffer_of(1, b, 0) == b);
    if has_buffer(c, supers, info, i, b) {
        let key = (supers[i.i_sb as int].s_dev, mapped(c, supers, info, i, b));
        assert forall|k: int| 0 <= k < 1 implies has_buffer(
            c,
            supers,
            info,
            i,
            #[trigger] buffer_of(1, b, k),
        ) by {
            assert(k == 0);
        }
        let d = dir_block(c, supers, info, i, b)->0;
        assert(c.dom().contains(key));
        assert forall|p: int| 0 <= p < 1024 implies d[p] == c[key][p] by {
            assert(p / 1024 == 0 && p % 1024 == p);
        }
        assert(d =~= c[key]);
    } else {
        assert(!has_buffer(c, supers, info, i, buffer_of(1, b, 0)));
    }
}

/// Changing one block of a directory changes that block and no other of it.
proof fn lemma_one_changed(
    c: Blocks,
    supers: Seq<SuperBlock>,
    info: Seq<Ext4SbInfo>,
    i: Inode,
    b: int,
    d: Seq<u8>,
)
    requires
        dir_in_order(c, supers, info, i),
        0 <= b < max_buffers(),
        has_buffer(c, supers, info, i, b),
        d.len() == 1024,
    ensures
        ({
            let c1 = c.insert((supers[i.i_sb as int].s_dev, mapped(c, supers, info, i, b)), d);
            &&& c1.dom() == c.dom()
            &&& forall|key: (u16, u32)| #[trigger] c1.dom().contains(key) ==> c1[key].len() == 1024
            &&& forall|x: int|
                0 <= x < max_buffers() ==> #[trigger] dir_block(c1, supers, info, i, x) == (if x == b {
                    Some(d)
                } else {
                    dir_block(c, supers, info, i, x)
                })
        }),
{
    reveal(dir_in_order);
    let dev = supers[i.i_sb as int].s_dev;
    let key = (dev, mapped(c, supers, info, i, b));
    let c1 = c.insert(key, d);
    assert(c1.dom() =~= c.dom());
    assert(is_own(c, supers, info, i, key));
    assert(agrees(c, c1, supers, info, i)) by {
        assert forall|y: (u16, u32)| #[trigger] is_own(c, supers, info, i, y) && c.dom().contains(y) implies c1[y].len()
            == 1024 by {}
    }
    assert forall|y: (u16, u32)| #[trigger] c1.dom().contains(y) implies c1[y].len() == 1024 by {
        assert(c.dom().contains(y));
    }
    assert forall|x: int| 0 <= x < max_buffers() implies #[trigger] dir_block(c1, supers, info, i, x) == (if x
        == b {
        Some(d)
    } else {
        dir_block(c, supers, info, i, x)
    }) by {
        lemma_dir_block(c, supers, info, i, x);
        lemma_dir_block(c1, supers, info, i, x);
        assert(mapped(c1, supers, info, i, x) == mapped(c, supers, info, i, x));
        if x != b && has_buffer(c, supers, info, i, x) {
            if x < b {
                assert(mapped(c, supers, info, i, x) != mapped(c, supers, info, i, b));
            } else {
                assert(mapped(c, supers, info, i, b) != mapped(c, supers, info, i, x));
            }
        }
    }
}

/// What is found where a name leads to the same in every block.
proof fn lemma_found_same(
    c: Blocks,
    c1: Blocks,
    supers: Seq<SuperBlock>,
    info: Seq<Ext4SbInfo>,
    i: Inode,
    name: Seq<u8>,
    from: int,
    n: int,
)
    requires
        0 <= from,
        forall|x: int|
            #![trigger dir_block(c1, supers, info, i, x)]
            from <= x < n ==> {
                let a = dir_block(c, supers, info, i, x);
                let b = dir_block(c1, supers, info, i, x);
                (a is Some <==> b is Some) && (a is Some ==> block_lookup(b->0, name) == block_lookup(
                    a->0,
                    name,
                ))
            },
    ensures
        found(c1, supers, info, i, name, from, n) == found(c, supers, info, i, name, from, n),
    decreases n - from,
{
    if from < n {
        let b = dir_block(c1, supers, info, i, from);
        lemma_found_same(c, c1, supers, info, i, name, from + 1, n);
    }
}

/// What is found where one block alone has the name.
proof fn lemma_found_at(
    c: Blocks,
    supers: Seq<SuperBlock>,
    info: Seq<Ext4SbInfo>,
    i: Inode,
    name: Seq<u8>,
    from: int,
    n: int,
    b: int,
    ino: u32,
)
    requires
        0 <= from <= b < n,
        dir_block(c, supers, info, i, b) is Some,
        block_lookup(dir_block(c, supers, info, i, b)->0, name) == Some(ino),
        forall|x: int|
            from <= x < b && (#[trigger] dir_block(c, supers, info, i, x)) is Some ==> block_lookup(
                dir_block(c, supers, info, i, x)->0,
                name,
            ) is None,
    ensures
        found(c, supers, info, i, name, from, n) == Some(ino),
    decreases b - from,
{
    if from < b {
        let d = dir_block(c, supers, info, i, from);
        lemma_found_at(c, supers, info, i, name, from + 1, n, b, ino);
    }
}

proof fn lemma_found_none(
    c: Blocks,
    supers: Seq<SuperBlock>,
    info: Seq<Ext4SbInfo>,
    i: Inode,
    name: Seq<u8>,
    from: int,
    n: int,
)
    requires
        0 <= from,
    ensures
        found(c, supers, info, i, name, from, n) is None <==> forall|x: int|
            from <= x < n && (#[trigger] dir_block(c, supers, info, i, x)) is Some ==> block_lookup(
                dir_block(c, supers, info, i, x)->0,
                name,
            ) is None,
    decreases n - from,
{
    if from < n {
        lemma_found_none(c, supers, info, i, name, from + 1, n);
        let d = dir_block(c, supers, info, i, from);
    }
}

proof fn lemma_placed(
    c: Blocks,
    supers: Seq<SuperBlock>,
    info: Seq<Ext4SbInfo>,
    i: Inode,
    need: int,
    from: int,
    n: int,
)
    requires
        0 <= from,
    ensures
        placed(c, supers, info, i, need, from, n) is Some ==> {
            let (b, place) = placed(c, supers, info, i, need, from, n)->0;
            &&& from <= b < n
            &&& dir_block(c, supers, info, i, b) is Some
            &&& place_in(dir_block(c, supers, info, i, b)->0, need, 0) == Some(place)
        },
    decreases n - from,
{
    if from < n {
        lemma_placed(c, supers, info, i, need, from + 1, n);
    }
}

/// The tables after the device was written out say of a directory what they said before.
proof fn lemma_named_settled(fs: &Fs, c: Blocks, supers: Seq<SuperBlock>, i: Inode, i1: Inode, dev: u16, name: Seq<u8>, from: int, n: int)
    requires
        i1.i_sb == i.i_sb,
        i1.i_ino == i.i_ino,
        i.i_sb < 4,
        supers.len() == 4,
        fs.ext4@[i.i_sb as int].fs_block_size == 1024,
    ensures
        found(c, supers_settled(supers, dev), fs.ext4@, i1, name, from, n) == found(
            c,
            supers,
            fs.ext4@,
            i,
            name,
            from,
            n,
        ),
    decreases n - from,
{
    if from < n {
        let s1 = supers_settled(supers, dev);
        let info = fs.ext4@;
        assert(s1[i.i_sb as int].s_dev == supers[i.i_sb as int].s_dev);
        assert forall|x: int| #[trigger] mapped(c, s1, info, i1, x) == mapped(c, supers, info, i, x) by {
            lemma_mapped_same(c, supers, info, i, s1, info, i1, x);
        }
        assert(info[i.i_sb as int].scale() == 1);
        let a = dir_block(c, supers, info, i, from);
        let b = dir_block(c, s1, info, i1, from);
        assert forall|k: int| has_buffer(c, s1, info, i1, #[trigger] buffer_of(1, from, k)) == has_buffer(
            c,
            supers,
            info,
            i,
            buffer_of(1, from, k),
        ) by {}
        assert(a is Some == b is Some) by {
            if a is None {
                let k = choose|k: int|
                    0 <= k < 1 && !has_buffer(c, supers, info, i, #[trigger] buffer_of(1, from, k));
                assert(!has_buffer(c, s1, info, i1, buffer_of(1, from, k)));
            }
            if b is None {
                let k = choose|k: int|
                    0 <= k < 1 && !has_buffer(c, s1, info, i1, #[trigger] buffer_of(1, from, k));
                assert(!has_buffer(c, supers, info, i, buffer_of(1, from, k)));
            }
        }
        if a is Some {
            assert(a->0 =~= b->0);
        }
        lemma_named_settled(fs, c, supers, i, i1, dev, name, from + 1, n);
    }
}

// ---- adding and taking away names ----

/// After an entry was put into a place that a directory had for it, its name leads to the
/// inode number that was entered, and every other name leads where it led.
#[verifier::spinoff_prover]
#[verifier::rlimit(60)]
pub proof fn lemma_entry_put(
    fs0: &Fs,
    fs: &Fs,
    dir: usize,
    ino: u32,
    name: Seq<u8>,
    ftype: u8,
    r: Result<(), i32>,
    other: Seq<u8>,
)
    requires
        entry_put(fs0, fs, dir, ino, name, ftype, r),
        fs0.wf(),
        dir < 64,
        ino != 0,
        0 < name.len() <= 255,
        other.len() <= 255,
        other != name,
        named_in(fs0, dir, name) is None,
        dir_in_order(fs0.blocks(), fs0.supers@, fs0.ext4@, fs0.inodes@[dir as int]),
        quiet(
            fs0.supers@,
            fs0.inodes@,
            fs0.supers@[fs0.inodes@[dir as int].i_sb as int].s_dev,
        ),
        placed(
            fs0.blocks(),
            fs0.supers@,
            fs0.ext4@,
            fs0.inodes@[dir as int],
            round_up4(8 + name.len() as int),
            0,
            dir_blocks(fs0.ext4@, fs0.inodes@[dir as int]),
        ) is Some,
    ensures
        named_in(fs, dir, name) == Some(ino),
        named_in(fs, dir, other) == named_in(fs0, dir, other),
{
    let c = fs0.blocks();
    let supers = fs0.supers@;
    let info = fs0.ext4@;
    let i = fs0.inodes@[dir as int];
    let n = dir_blocks(info, i);
    let need = round_up4(8 + name.len() as int);
    let dev = supers[i.i_sb as int].s_dev;
    assert(i.links_ok());
    lemma_in_order(c, supers, info, i);
    lemma_placed(c, supers, info, i, need, 0, n);
    let (b, place) = placed(c, supers, info, i, need, 0, n)->0;
    let d = dir_block(c, supers, info, i, b)->0;
    let d1 = entry_in(d, place, ino, name, ftype);
    let c1 = dir_block_put(c, supers, info, i, b, d1, 1);
    assert(info[i.i_sb as int].scale() == 1);
    lemma_put_in(c, supers, info, i, ino, name, ftype, other, b, place);
    lemma_quiet(c1, supers, fs0.inodes@, dev, 64);
    assert(fs.blocks() == c1);
    let i1 = fs.inodes@[dir as int];
    assert(i1.i_sb == i.i_sb && i1.i_ino == i.i_ino && i1.i_size == i.i_size);
    lemma_named_settled(fs0, c1, supers, i, i1, dev, name, 0, n);
    lemma_named_settled(fs0, c1, supers, i, i1, dev, other, 0, n);
}

proof fn lemma_place_bounds(d: Seq<u8>, need: int, from: int)
    requires
        0 <= from,
        need >= 8,
        place_in(d, need, from) is Some,
    ensures
        ({
            let (o, behind) = place_in(d, need, from)->0;
            let rec = le16(d, o + 4) as int;
            &&& 0 <= o && o + 8 <= d.len() && o + rec <= d.len()
            &&& !behind ==> rec >= need
            &&& behind ==> rec >= round_up4(8 + d[o + 6]) + need
        }),
    decreases d.len() - from,
{
    let rec = le16(d, from + 4) as int;
    if !(from + 8 > d.len() || rec == 0 || from + rec > d.len()) && !(le32(d, from) == 0 && rec >= need) && !(
    le32(d, from) != 0 && rec >= round_up4(8 + d[from + 6]) + need) {
        lemma_place_bounds(d, need, from + rec);
    }
}

proof fn lemma_entry_len(d: Seq<u8>, place: (int, bool), ino: u32, name: Seq<u8>, ftype: u8)
    requires
        place_in(d, round_up4(8 + name.len() as int), 0) == Some(place),
    ensures
        entry_in(d, place, ino, name, ftype).len() == d.len(),
{
    lemma_place_bounds(d, round_up4(8 + name.len() as int), 0);
    let (off, behind) = place;
    if behind {
        let used = round_up4(8 + d[off + 6]);
        let rec = le16(d, off + 4) as int;
        lemma_with_le16(d, off + 4, used as u16);
        let d1 = with_le16(d, off + 4, used as u16);
        lemma_with_le16(d1, off + used + 4, (rec - used) as u16);
        let d2 = with_le16(d1, off + used + 4, (rec - used) as u16);
        lemma_with_le32(d2, off + used, ino);
    } else {
        lemma_with_le32(d, off, ino);
    }
}

/// What is found after an entry was put into its place in block `b`.
#[verifier::spinoff_prover]
#[verifier::rlimit(60)]
proof fn lemma_put_in(
    c: Blocks,
    supers: Seq<SuperBlock>,
    info: Seq<Ext4SbInfo>,
    i: Inode,
    ino: u32,
    name: Seq<u8>,
    ftype: u8,
    other: Seq<u8>,
    b: int,
    place: (int, bool),
)
    requires
        dir_in_order(c, supers, info, i),
        ino != 0,
        0 < name.len() <= 255,
        other != name,
        found(c, supers, info, i, name, 0, dir_blocks(info, i)) is None,
        0 <= b < dir_blocks(info, i),
        dir_block(c, supers, info, i, b) is Some,
        place_in(dir_block(c, supers, info, i, b)->0, round_up4(8 + name.len() as int), 0) == Some(place),
    ensures
        ({
            let d1 = entry_in(dir_block(c, supers, info, i, b)->0, place, ino, name, ftype);
            let c1 = dir_block_put(c, supers, info, i, b, d1, 1);
            let n = dir_blocks(info, i);
            &&& found(c1, supers, info, i, name, 0, n) == Some(ino)
            &&& found(c1, supers, info, i, other, 0, n) == found(c, supers, info, i, other, 0, n)
        }),
{
    let n = dir_blocks(info, i);
    let dev = supers[i.i_sb as int].s_dev;
    lemma_in_order(c, supers, info, i);
    lemma_dir_block(c, supers, info, i, b);
    let d = dir_block(c, supers, info, i, b)->0;
    lemma_found_none(c, supers, info, i, name, 0, n);
    assert(block_lookup(d, name) is None);
    assert(sound_from(d, 0));
    assert(d.len() == 1024);
    lemma_add_then_find(d, ino, name, ftype, other);
    let d1 = entry_in(d, place, ino, name, ftype);
    lemma_entry_len(d, place, ino, name, ftype);
    assert(info[i.i_sb as int].scale() == 1);
    assert(buffer_of(1, b, 0) == b);
    let key = (dev, mapped(c, supers, info, i, b));
    let c1 = c.insert(key, d1);
    assert(d1.subrange(0, 1024) =~= d1);
    assert(dir_block_put(c, supers, info, i, b, d1, 1) == c1) by {
        assert(dir_block_put(c, supers, info, i, b, d1, 0) == c);
    }
    lemma_one_changed(c, supers, info, i, b, d1);
    lemma_found_at(c1, supers, info, i, name, 0, n, b, ino);
    lemma_found_same(c, c1, supers, info, i, other, 0, n);
}

/// A file that got one more name is what that name leads to, where the directory had a
/// place for it; every other name leads where it led, and the file has one link more.
pub proof fn lemma_link(fs0: &Fs, fs: &Fs, target: usize, dir: usize, name: Seq<u8>, other: Seq<u8>)
    requires
        link_did(fs0, fs, target, dir, name, 0),
        fs0.wf(),
        dir < 64,
        target < 64,
        target != dir,
        fs0.inodes@[target as int].i_ino != 0,
        0 < name.len() <= 255,
        other.len() <= 255,
        other != name,
        dir_in_order(fs0.blocks(), fs0.supers@, fs0.ext4@, fs0.inodes@[dir as int]),
        quiet(
            fs0.supers@,
            fs0.inodes@,
            fs0.supers@[fs0.inodes@[dir as int].i_sb as int].s_dev,
        ),
        placed(
            fs0.blocks(),
            fs0.supers@,
            fs0.ext4@,
            fs0.inodes@[dir as int],
            round_up4(8 + name.len() as int),
            0,
            dir_blocks(fs0.ext4@, fs0.inodes@[dir as int]),
        ) is Some,
    ensures
        named_in(fs, dir, name) == Some(fs0.inodes@[target as int].i_ino),
        named_in(fs, dir, other) == named_in(fs0, dir, other),
        fs.inodes@[target as int].i_nlink == fs0.inodes@[target as int].i_nlink + 1,
        fs.inodes@[target as int].i_ino == fs0.inodes@[target as int].i_ino,
{
    let t = fs0.inodes@[target as int];
    let (f1, f2, er) = choose|f1: Fs, f2: Fs, er: Result<(), i32>|
        {
            &&& f1 == (Fs { cache: f1.cache, ..*fs0 })
            &&& f1.blocks() == fs0.blocks()
            &&& #[trigger] entry_put(
                &f1,
                &f2,
                dir,
                t.i_ino,
                name,
                file_type::type_in(t.i_mode),
                er,
            )
            &&& match er {
                Err(e) => 0 == -e && *fs == f2,
                Ok(_) => {
                    let t2 = f2.inodes@[target as int];
                    &&& *fs == (Fs { inodes: fs.inodes, ..f2 })
                    &&& fs.inodes@ == f2.inodes@.update(
                        target as int,
                        Inode { i_nlink: (t2.i_nlink + 1) as u16, i_dirt: true, ..t2 },
                    )
                },
            }
        };
    assert(er is Ok) by {
        if er is Err {
            assert(er == Err::<(), i32>(crate::errno::ENOSPC));
        }
    }
    lemma_entry_put_at(fs0, &f1, &f2, dir, t.i_ino, name, file_type::type_in(t.i_mode), er, other);
    assert(f2.inodes@ == inodes_settled(
        fs0.inodes@,
        fs0.supers@[fs0.inodes@[dir as int].i_sb as int].s_dev,
    ));
    assert(fs.inodes@[dir as int] == f2.inodes@[dir as int]);
    assert(named_in(fs, dir, name) == named_in(&f2, dir, name));
    assert(named_in(fs, dir, other) == named_in(&f2, dir, other));
}

/// The same from a state that differs in what the cache has read.
proof fn lemma_entry_put_at(
    fs0: &Fs,
    f1: &Fs,
    fs: &Fs,
    dir: usize,
    ino: u32,
    name: Seq<u8>,
    ftype: u8,
    r: Result<(), i32>,
    other: Seq<u8>,
)
    requires
        *f1 == (Fs { cache: f1.cache, ..*fs0 }),
        f1.blocks() == fs0.blocks(),
        entry_put(f1, fs, dir, ino, name, ftype, r),
        fs0.wf(),
        dir < 64,
        ino != 0,
        0 < name.len() <= 255,
        other.len() <= 255,
        other != name,
        named_in(fs0, dir, name) is None,
        dir_in_order(fs0.blocks(), fs0.supers@, fs0.ext4@, fs0.inodes@[dir as int]),
        quiet(
            fs0.supers@,
            fs0.inodes@,
            fs0.supers@[fs0.inodes@[dir as int].i_sb as int].s_dev,
        ),
        placed(
            fs0.blocks(),
            fs0.supers@,
            fs0.ext4@,
            fs0.inodes@[dir as int],
            round_up4(8 + name.len() as int),
            0,
            dir_blocks(fs0.ext4@, fs0.inodes@[dir as int]),
        ) is Some,
    ensures
        named_in(fs, dir, name) == Some(ino),
        named_in(fs, dir, other) == named_in(fs0, dir, other),
        fs.inodes@ == inodes_settled(
            fs0.inodes@,
            fs0.supers@[fs0.inodes@[dir as int].i_sb as int].s_dev,
        ),
{
    assert(entry_put(fs0, fs, dir, ino, name, ftype, r));
    lemma_entry_put(fs0, fs, dir, ino, name, ftype, r, other);
}

proof fn lemma_entry_buffer(
    c: Blocks,
    supers: Seq<SuperBlock>,
    info: Seq<Ext4SbInfo>,
    i: Inode,
    name: Seq<u8>,
    from: int,
    n: int,
)
    requires
        dir_in_order(c, supers, info, i),
        0 <= from,
        n <= dir_blocks(info, i),
        n <= max_buffers(),
        entry_buffer(c, supers, info, i, name, from, n) is Some,
    ensures
        ({
            let (phys, o) = entry_buffer(c, supers, info, i, name, from, n)->0;
            exists|b: int|
                {
                    &&& from <= b < n
                    &&& #[trigger] mapped(c, supers, info, i, b) == phys
                    &&& has_buffer(c, supers, info, i, b)
                    &&& first_named(
                        dir_block(c, supers, info, i, b)->0,
                        entries_from(dir_block(c, supers, info, i, b)->0, 0, true),
                        name,
                    ) is Some
                    &&& o == first_named(
                        dir_block(c, supers, info, i, b)->0,
                        entries_from(dir_block(c, supers, info, i, b)->0, 0, true),
                        name,
                    )->0.name_off - 8
                }
        }),
    decreases n - from,
{
    if from < n {
        let x = mapped(c, supers, info, i, from);
        let key = (supers[i.i_sb as int].s_dev, x);
        lemma_in_order(c, supers, info, i);
        lemma_dir_block(c, supers, info, i, from);
        if x != 0 && c.dom().contains(key) && first_named(c[key], entries_from(c[key], 0, true), name) is Some {
            assert(has_buffer(c, supers, info, i, from));
        } else {
            lemma_entry_buffer(c, supers, info, i, name, from + 1, n);
        }
    }
}

/// After a name that a directory had once was taken out of it, the name leads nowhere, and
/// every other name leads where it led.
#[verifier::spinoff_prover]
#[verifier::rlimit(60)]
pub proof fn lemma_entry_removed(
    fs0: &Fs,
    fs: &Fs,
    dir: usize,
    name: Seq<u8>,
    r: Result<(), i32>,
    other: Seq<u8>,
)
    requires
        entry_removed(fs0, fs, dir, name, r),
        r is Ok,
        dir < 64,
        name.len() <= 255,
        other.len() <= 255,
        other != name,
        dir_in_order(fs0.blocks(), fs0.supers@, fs0.ext4@, fs0.inodes@[dir as int]),
        ({
            let c = fs0.blocks();
            let i = fs0.inodes@[dir as int];
            forall|x: int, y: int|
                #![trigger dir_block(c, fs0.supers@, fs0.ext4@, i, x), dir_block(c, fs0.supers@, fs0.ext4@, i, y)]
                0 <= x <= y < dir_blocks(fs0.ext4@, i) && dir_block(c, fs0.supers@, fs0.ext4@, i, x) is Some
                    && dir_block(c, fs0.supers@, fs0.ext4@, i, y) is Some ==> if x == y {
                    once(dir_block(c, fs0.supers@, fs0.ext4@, i, x)->0, 0, name)
                } else {
                    block_lookup(dir_block(c, fs0.supers@, fs0.ext4@, i, x)->0, name) is None || block_lookup(
                        dir_block(c, fs0.supers@, fs0.ext4@, i, y)->0,
                        name,
                    ) is None
                }
        }),
    ensures
        named_in(fs, dir, name) is None,
        named_in(fs, dir, other) == named_in(fs0, dir, other),
{
    let c = fs0.blocks();
    let supers = fs0.supers@;
    let info = fs0.ext4@;
    let i = fs0.inodes@[dir as int];
    let n = dir_blocks(info, i);
    let dev = supers[i.i_sb as int].s_dev;
    lemma_in_order(c, supers, info, i);
    lemma_entry_buffer(c, supers, info, i, name, 0, n);
    let (phys, o) = entry_buffer(c, supers, info, i, name, 0, n)->0;
    let b = choose|b: int|
        {
            &&& 0 <= b < n
            &&& #[trigger] mapped(c, supers, info, i, b) == phys
            &&& has_buffer(c, supers, info, i, b)
            &&& first_named(
                dir_block(c, supers, info, i, b)->0,
                entries_from(dir_block(c, supers, info, i, b)->0, 0, true),
                name,
            ) is Some
            &&& o == first_named(
                dir_block(c, supers, info, i, b)->0,
                entries_from(dir_block(c, supers, info, i, b)->0, 0, true),
                name,
            )->0.name_off - 8
        };
    lemma_dir_block(c, supers, info, i, b);
    assert forall|x: int|
        0 <= x < n && x != b && (#[trigger] dir_block(c, supers, info, i, x)) is Some implies block_lookup(
        dir_block(c, supers, info, i, x)->0,
        name,
    ) is None by {
        lemma_has(c, supers, info, i, b, name);
        let db = dir_block(c, supers, info, i, b);
    }
    assert(once(dir_block(c, supers, info, i, b)->0, 0, name));
    lemma_taken_from(c, supers, info, i, name, other, b, o);
}

proof fn lemma_has(c: Blocks, supers: Seq<SuperBlock>, info: Seq<Ext4SbInfo>, i: Inode, b: int, name: Seq<u8>)
    requires
        dir_in_order(c, supers, info, i),
        0 <= b < dir_blocks(info, i),
        dir_block(c, supers, info, i, b) is Some,
        first_named(
            dir_block(c, supers, info, i, b)->0,
            entries_from(dir_block(c, supers, info, i, b)->0, 0, true),
            name,
        ) is Some,
    ensures
        block_lookup(dir_block(c, supers, info, i, b)->0, name) is Some,
{
    lemma_in_order(c, supers, info, i);
    lemma_piece(dir_block(c, supers, info, i, b)->0, 0);
}

/// What is found after the entry of block `b` was taken out of use.
#[verifier::spinoff_prover]
#[verifier::rlimit(60)]
proof fn lemma_taken_from(
    c: Blocks,
    supers: Seq<SuperBlock>,
    info: Seq<Ext4SbInfo>,
    i: Inode,
    name: Seq<u8>,
    other: Seq<u8>,
    b: int,
    o: int,
)
    requires
        dir_in_order(c, supers, info, i),
        other != name,
        0 <= b < dir_blocks(info, i),
        has_buffer(c, supers, info, i, b),
        once(dir_block(c, supers, info, i, b)->0, 0, name),
        first_named(
            dir_block(c, supers, info, i, b)->0,
            entries_from(dir_block(c, supers, info, i, b)->0, 0, true),
            name,
        ) is Some,
        o == first_named(
            dir_block(c, supers, info, i, b)->0,
            entries_from(dir_block(c, supers, info, i, b)->0, 0, true),
            name,
        )->0.name_off - 8,
        forall|x: int|
            0 <= x < dir_blocks(info, i) && x != b && (#[trigger] dir_block(c, supers, info, i, x)) is Some
                ==> block_lookup(dir_block(c, supers, info, i, x)->0, name) is None,
    ensures
        ({
            let key = (supers[i.i_sb as int].s_dev, mapped(c, supers, info, i, b));
            let c1 = c.insert(key, with_le32(c[key], o, 0));
            let n = dir_blocks(info, i);
            &&& found(c1, supers, info, i, name, 0, n) is None
            &&& found(c1, supers, info, i, other, 0, n) == found(c, supers, info, i, other, 0, n)
        }),
{
    let n = dir_blocks(info, i);
    lemma_in_order(c, supers, info, i);
    lemma_dir_block(c, supers, info, i, b);
    let d = dir_block(c, supers, info, i, b)->0;
    let key = (supers[i.i_sb as int].s_dev, mapped(c, supers, info, i, b));
    assert(d == c[key] && d.len() == 1024);
    lemma_remove_then_find(d, name, other);
    let d1 = with_le32(d, o, 0);
    assert(d1.len() == 1024) by {
        crate::fs::ext4::dir::lemma_entries_fit(d, 0, true);
        crate::fs::ext4::dir::lemma_first_named(d, entries_from(d, 0, true), name);
        lemma_with_le32(d, o, 0);
    }
    let c1 = c.insert(key, d1);
    lemma_one_changed(c, supers, info, i, b, d1);
    lemma_found_none(c1, supers, info, i, name, 0, n);
    assert forall|x: int| 0 <= x < n && (#[trigger] dir_block(c1, supers, info, i, x)) is Some implies block_lookup(
        dir_block(c1, supers, info, i, x)->0,
        name,
    ) is None by {
        if x != b {
            let dx = dir_block(c, supers, info, i, x);
        }
    }
    lemma_found_same(c, c1, supers, info, i, other, 0, n);
}

// ---- blocks that are taken and given back ----

/// Block `b` of the first group is marked as taken.
pub open spec fn is_taken(c: Blocks, dev: u16, f: Ext4SbInfo, b: int) -> bool {
    let key = (dev, low32(f.ext4_gd.block_bitmap + b / 8192));
    c.dom().contains(key) && bitmap_bit(c[key], b % 8192)
}

/// A block that is asked for is one that was free. It is marked as taken then, and all other
/// marks are as before; there is one free block less.
pub proof fn lemma_block_alloc(c: Blocks, dev: u16, f: Ext4SbInfo, other: int)
    requires
        block_alloc(c, dev, f) is Some,
        forall|k: (u16, u32)| #[trigger] c.dom().contains(k) ==> c[k].len() == 1024,
        0 <= other,
        f.ext4_gd.block_bitmap + other / 8192 < 0x1_0000_0000,
        f.ext4_gd.block_bitmap + pieces(f.ext4_sb) < 0x1_0000_0000,
    ensures
        ({
            let (c1, f1, bit) = block_alloc(c, dev, f)->0;
            &&& bit > 0
            &&& !is_taken(c, dev, f, bit)
            &&& is_taken(c1, dev, f, bit)
            &&& other != bit ==> is_taken(c1, dev, f, other) == is_taken(c, dev, f, other)
            &&& f.ext4_gd.free_blocks_count > 0 ==> f1.ext4_gd.free_blocks_count
                == f.ext4_gd.free_blocks_count - 1
        }),
{
    let block = f.ext4_gd.block_bitmap as int;
    lemma_first_free(c, dev, block, pieces(f.ext4_sb), f.ext4_sb.s_blocks_per_group as int, 0);
    let (c1, f1, bit) = block_alloc(c, dev, f)->0;
    let key = (dev, low32(block + bit / 8192));
    assert(c[key].len() == 1024);
    lemma_bitmap_on(c[key], bit % 8192);
    if other != bit {
        let k2 = (dev, low32(block + other / 8192));
        if k2 == key {
            assert(other / 8192 == bit / 8192);
            assert(other % 8192 != bit % 8192);
        }
    }
}

proof fn lemma_released(c: Blocks, dev: u16, f: Ext4SbInfo, z: Seq<u16>, k: int)
    requires
        0 <= k <= 9,
        z.len() == 9,
        f.ext4_gd.block_bitmap != 0,
        f.ext4_gd.block_bitmap + 8 < 0x1_0000_0000,
        forall|y: (u16, u32)| #[trigger] c.dom().contains(y) ==> c[y].len() == 1024,
    ensures
        ({
            let (c1, f1, any) = numbers_released(c, dev, f, z, k);
            &&& c1.dom() == c.dom()
            &&& f1.ext4_gd.block_bitmap == f.ext4_gd.block_bitmap
            &&& forall|b: int|
                0 <= b < 65536 && #[trigger] is_taken(c1, dev, f, b) ==> is_taken(c, dev, f, b)
            &&& forall|j: int| k <= j < 9 && z[j] != 0 ==> !is_taken(c1, dev, f, #[trigger] z[j] as int)
        }),
    decreases 9 - k,
{
    if k < 9 {
        let b = z[k] as int;
        let block = f.ext4_gd.block_bitmap as int;
        if z[k] == 0 || block_release(c, dev, f, b) is None {
            lemma_released(c, dev, f, z, k + 1);
        } else {
            let (ca, fa) = block_release(c, dev, f, b)->0;
            let key = (dev, low32(block + b / 8192));
            assert(c[key].len() == 1024);
            lemma_bitmap_off(c[key], b % 8192);
            assert(ca.dom() =~= c.dom());
            assert forall|y: (u16, u32)| #[trigger] ca.dom().contains(y) implies ca[y].len() == 1024 by {
                assert(c.dom().contains(y));
            }
            lemma_released(ca, dev, fa, z, k + 1);
            let (c1, f1, any) = numbers_released(ca, dev, fa, z, k + 1);
            assert(!is_taken(ca, dev, f, b));
            assert forall|x: int| 0 <= x < 65536 && #[trigger] is_taken(c1, dev, f, x) implies is_taken(
                c,
                dev,
                f,
                x,
            ) && x != b by {
                assert(is_taken(c1, dev, fa, x));
                assert(is_taken(ca, dev, fa, x));
                assert(is_taken(ca, dev, f, x));
                let k2 = (dev, low32(block + x / 8192));
                if k2 == key && x != b {
                    assert(x / 8192 == b / 8192);
                    assert(x % 8192 != b % 8192);
                }
            }
            assert forall|j: int| k <= j < 9 && z[j] != 0 implies !is_taken(c1, dev, f, #[trigger] z[j] as int) by {
                if j > k {
                    assert(!is_taken(c1, dev, fa, z[j] as int));
                }
            }
        }
    }
}

/// A file that was emptied has no bytes and no numbers, and the blocks of the numbers that it
/// had are free.
pub proof fn lemma_emptied(fs0: &Fs, fs: &Fs, ip: usize, j: int)
    requires
        is_truncated(fs0, fs, ip),
        fs0.wf(),
        ip < 64,
        fs0.inodes@[ip as int].i_sb != NIL,
        ({
            let f = fs0.ext4@[fs0.inodes@[ip as int].i_sb as int];
            f.valid && f.ext4_gd.block_bitmap != 0 && f.ext4_gd.block_bitmap + 8 < 0x1_0000_0000
        }),
        forall|y: (u16, u32)| #[trigger] fs0.blocks().dom().contains(y) ==> fs0.blocks()[y].len() == 1024,
        0 <= j < 9,
        fs0.inodes@[ip as int].data@[j] != 0,
    ensures
        fs.inodes@[ip as int].i_size == 0,
        forall|k: int| 0 <= k < 9 ==> #[trigger] fs.inodes@[ip as int].data@[k] == 0,
        !is_taken(
            fs.blocks(),
            fs0.supers@[fs0.inodes@[ip as int].i_sb as int].s_dev,
            fs0.ext4@[fs0.inodes@[ip as int].i_sb as int],
            fs0.inodes@[ip as int].data@[j] as int,
        ),
{
    let i0 = fs0.inodes@[ip as int];
    let n = i0.i_sb as int;
    lemma_released(fs0.blocks(), fs0.supers@[n].s_dev, fs0.ext4@[n], i0.data@, 0);
    assert(i0.data@[j] != 0);
}

} // verus!
