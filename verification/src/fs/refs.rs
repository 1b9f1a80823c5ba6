//! Keeping books on references to inodes: how their counts move while names are
//! resolved, and what stays true of the tables meanwhile.

use crate::fs::buffer::BufferCache;
use crate::fs::inode::{
    counted, fetched, iget_did, iput_did, is_slot, lemma_first_slot, lemma_iget_nil, lemma_iget_ref,
    no_slot, FsType, Inode, NIL,
};
use crate::fs::minix::dir::sizes_ok;
use crate::fs::super_block::SuperBlock;
use crate::fs::Blocks;
use vstd::prelude::*;

verus! {

/// The references to inode `k` but for one to `a` and one to `b`.
pub open spec fn base_count(s: Seq<Inode>, k: int, a: usize, b: usize) -> int {
    s[k].i_count - (if k == a {
        1int
    } else {
        0
    }) - (if k == b {
        1int
    } else {
        0
    })
}

pub open spec fn one_if(c: bool) -> int {
    if c {
        1
    } else {
        0
    }
}

pub open spec fn at_least_one(n: int) -> int {
    if n < 1 {
        1
    } else {
        n
    }
}

/// References to `a` and to `b` are held, and `room` more could be taken of each
/// inode.
pub open spec fn book(s: Seq<Inode>, a: usize, b: usize, room: int) -> bool {
    &&& s.len() == 64
    &&& forall|k: int|
        0 <= k < 64 ==> {
            let i = #[trigger] s[k];
            &&& 0 <= base_count(s, k, a, b)
            &&& at_least_one(base_count(s, k, a, b)) + room <= u16::MAX
        }
}

/// References to `a` and to `b` were given back, and one to `c` was taken. An inode
/// that nothing links to and that cannot be freed keeps its last reference.
pub open spec fn swapped(s0: Seq<Inode>, s: Seq<Inode>, a: usize, b: usize, c: usize) -> bool {
    &&& s.len() == 64
    &&& forall|k: int|
        0 <= k < 64 ==> {
            let n = (#[trigger] s[k]).i_count;
            &&& base_count(s0, k, a, b) + one_if(k == c) <= n
            &&& n <= at_least_one(base_count(s0, k, a, b)) + one_if(k == c)
        }
}

/// What makes the tables fit together: where the minix file system reads a
/// directory, its entries have known sizes, and an inode of the extended file
/// system belongs to one that is mounted.
pub open spec fn tied(supers: Seq<SuperBlock>, s: Seq<Inode>) -> bool {
    &&& forall|n: int| 0 <= n < 4 ==> sizes_ok(#[trigger] supers[n]) || supers[n].s_ninodes == 0
    &&& forall|n: int| 0 <= n < 64 ==> node_tied(supers, #[trigger] s[n])
}

pub open spec fn node_tied(supers: Seq<SuperBlock>, i: Inode) -> bool {
    &&& i.i_op == FsType::Minix && i.i_sb != NIL ==> sizes_ok(supers[i.i_sb as int])
    &&& i.i_op == FsType::Ext2 ==> i.i_sb != NIL
}

// ---- books ----

pub proof fn lemma_book_less(s: Seq<Inode>, a: usize, b: usize, room: int, less: int)
    requires
        book(s, a, b, room),
        less <= room,
    ensures
        book(s, a, b, less),
{
    assert forall|k: int| 0 <= k < 64 implies {
        let i = #[trigger] s[k];
        &&& 0 <= base_count(s, k, a, b)
        &&& at_least_one(base_count(s, k, a, b)) + less <= u16::MAX
    } by {}
}

/// The references that are held need not be set apart, at the cost of room for
/// them.
pub proof fn lemma_book_all(s: Seq<Inode>, a: usize, b: usize, room: int)
    requires
        book(s, a, b, room + 2),
    ensures
        book(s, NIL, NIL, room),
{
    assert forall|k: int| 0 <= k < 64 implies {
        let i = #[trigger] s[k];
        &&& 0 <= base_count(s, k, NIL, NIL)
        &&& at_least_one(base_count(s, k, NIL, NIL)) + room <= u16::MAX
    } by {
        assert(0 <= base_count(s, k, a, b));
    }
}

pub proof fn lemma_book_swap(s0: Seq<Inode>, s: Seq<Inode>, a: usize, b: usize, c: usize, room: int)
    requires
        book(s0, a, b, room),
        swapped(s0, s, a, b, c),
    ensures
        book(s, c, NIL, room),
{
    assert forall|k: int| 0 <= k < 64 implies {
        let i = #[trigger] s[k];
        &&& 0 <= base_count(s, k, c, NIL)
        &&& at_least_one(base_count(s, k, c, NIL)) + room <= u16::MAX
    } by {
        let i0 = s0[k];
    }
}

/// A reference that was taken is held beside the one that was held before.
pub proof fn lemma_book_take(s0: Seq<Inode>, s: Seq<Inode>, a: usize, c: usize, room: int)
    requires
        book(s0, a, NIL, room),
        swapped(s0, s, NIL, NIL, c),
    ensures
        book(s, a, c, room),
{
    assert forall|k: int| 0 <= k < 64 implies {
        let i = #[trigger] s[k];
        &&& 0 <= base_count(s, k, a, c)
        &&& at_least_one(base_count(s, k, a, c)) + room <= u16::MAX
    } by {
        let i0 = s0[k];
    }
}

/// With room left, every count can go up.
pub proof fn lemma_book_room(s: Seq<Inode>, a: usize, b: usize, room: int)
    requires
        book(s, a, b, room),
        room >= 3,
    ensures
        forall|k: int| 0 <= k < 64 ==> (#[trigger] s[k]).i_count < u16::MAX,
        a < 64 ==> s[a as int].i_count > 0,
        b < 64 ==> s[b as int].i_count > 0,
{
    assert forall|k: int| 0 <= k < 64 implies (#[trigger] s[k]).i_count < u16::MAX by {
        assert(0 <= base_count(s, k, a, b));
    }
    if a < 64 {
        let i = s[a as int];
    }
    if b < 64 {
        let i = s[b as int];
    }
}

pub proof fn lemma_swap_none(s: Seq<Inode>)
    requires
        s.len() == 64,
    ensures
        swapped(s, s, NIL, NIL, NIL),
{
}

/// One swap after another.
pub proof fn lemma_swap_seq(s0: Seq<Inode>, s1: Seq<Inode>, s2: Seq<Inode>, a: usize, b: usize, c: usize, d: usize)
    requires
        swapped(s0, s1, a, b, c),
        swapped(s1, s2, c, NIL, d),
        book(s0, a, b, 0),
    ensures
        swapped(s0, s2, a, b, d),
{
    assert forall|k: int| 0 <= k < 64 implies {
        let n = (#[trigger] s2[k]).i_count;
        &&& base_count(s0, k, a, b) + one_if(k == d) <= n
        &&& n <= at_least_one(base_count(s0, k, a, b)) + one_if(k == d)
    } by {
        let i1 = s1[k];
        let i0 = s0[k];
    }
}

/// A reference is taken beside one that is held, and both are swapped for another.
pub proof fn lemma_swap_both(s0: Seq<Inode>, s1: Seq<Inode>, s2: Seq<Inode>, a: usize, c: usize, d: usize)
    requires
        swapped(s0, s1, NIL, NIL, c),
        swapped(s1, s2, a, c, d),
        book(s0, a, NIL, 0),
    ensures
        swapped(s0, s2, a, NIL, d),
{
    assert forall|k: int| 0 <= k < 64 implies {
        let n = (#[trigger] s2[k]).i_count;
        &&& base_count(s0, k, a, NIL) + one_if(k == d) <= n
        &&& n <= at_least_one(base_count(s0, k, a, NIL)) + one_if(k == d)
    } by {
        let i1 = s1[k];
        let i0 = s0[k];
    }
}

/// One of two references that are held is given back, the other one kept.
pub proof fn lemma_swap_keep(s0: Seq<Inode>, s: Seq<Inode>, a: usize, b: usize)
    requires
        swapped(s0, s, a, NIL, NIL),
        book(s0, a, b, 0),
    ensures
        swapped(s0, s, a, b, b),
{
    assert forall|k: int| 0 <= k < 64 implies {
        let n = (#[trigger] s[k]).i_count;
        &&& base_count(s0, k, a, b) + one_if(k == b) <= n
        &&& n <= at_least_one(base_count(s0, k, a, b)) + one_if(k == b)
    } by {
        let i0 = s0[k];
    }
}

/// With two references held, a third is taken; then those are given back one by
/// one.
pub proof fn lemma_swap_out(
    s0: Seq<Inode>,
    s1: Seq<Inode>,
    s2: Seq<Inode>,
    s3: Seq<Inode>,
    a: usize,
    b: usize,
    c: usize,
)
    requires
        swapped(s0, s1, NIL, NIL, c),
        swapped(s1, s2, a, NIL, NIL),
        swapped(s2, s3, b, NIL, NIL),
        book(s0, a, b, 0),
    ensures
        swapped(s0, s3, a, b, c),
{
    assert forall|k: int| 0 <= k < 64 implies {
        let n = (#[trigger] s3[k]).i_count;
        &&& base_count(s0, k, a, b) + one_if(k == c) <= n
        &&& n <= at_least_one(base_count(s0, k, a, b)) + one_if(k == c)
    } by {
        let i2 = s2[k];
        let i1 = s1[k];
        let i0 = s0[k];
    }
}

/// With two references held, one is given back, a third taken, and the other one
/// given back.
pub proof fn lemma_swap_around(
    s0: Seq<Inode>,
    s1: Seq<Inode>,
    s2: Seq<Inode>,
    s3: Seq<Inode>,
    a: usize,
    b: usize,
    c: usize,
)
    requires
        swapped(s0, s1, a, NIL, NIL),
        swapped(s1, s2, NIL, NIL, c),
        swapped(s2, s3, b, NIL, NIL),
        book(s0, a, b, 0),
    ensures
        swapped(s0, s3, a, b, c),
{
    assert forall|k: int| 0 <= k < 64 implies {
        let n = (#[trigger] s3[k]).i_count;
        &&& base_count(s0, k, a, b) + one_if(k == c) <= n
        &&& n <= at_least_one(base_count(s0, k, a, b)) + one_if(k == c)
    } by {
        let i2 = s2[k];
        let i1 = s1[k];
        let i0 = s0[k];
    }
}

// ---- taking and giving back ----

/// One reference more to inode `n`.
pub proof fn lemma_counted(supers: Seq<SuperBlock>, s0: Seq<Inode>, s: Seq<Inode>, n: usize)
    requires
        s0.len() == 64,
        n < 64,
        s0[n as int].i_count < u16::MAX,
        s == s0.update(n as int, counted(s0[n as int], 1)),
        tied(supers, s0),
    ensures
        swapped(s0, s, NIL, NIL, n),
        tied(supers, s),
{
    assert forall|k: int| 0 <= k < 64 implies node_tied(supers, #[trigger] s[k]) by {
        assert(node_tied(supers, s0[k]));
    }
}

/// What is taken from a file system fits into the tables.
proof fn lemma_got_tied(
    c0: Blocks,
    s0: Seq<Inode>,
    c: Blocks,
    s: Seq<Inode>,
    supers: Seq<SuperBlock>,
    sb_nr: usize,
    ino: u32,
    cross_mnt: bool,
    r: usize,
)
    requires
        s0.len() == 64,
        sb_nr < 4,
        r < 64,
        iget_did(c0, s0, c, s, supers, sb_nr, ino, cross_mnt, r),
        forall|n: int| 0 <= n < 64 ==> (#[trigger] s0[n]).links_ok(),
        tied(supers, s0),
    ensures
        node_tied(supers, s[r as int]),
{
    let dev = supers[sb_nr as int].s_dev;
    if no_slot(s0, dev, ino) {
        let x = choose|x: Inode| #[trigger] fetched(c, supers, sb_nr, ino, x, s[r as int]);
        assert(fetched(c, supers, sb_nr, ino, x, s[r as int]));
        assert(sizes_ok(supers[sb_nr as int]) || supers[sb_nr as int].s_ninodes == 0);
    } else {
        let n = choose|j: int|
            0 <= j < s0.len() && (#[trigger] s0[j]).in_use && s0[j].i_dev == dev && s0[j].i_ino == ino;
        let k = lemma_first_slot(s0, dev, ino, n);
        assert(is_slot(s0, dev, ino, k));
        assert(s0[k].links_ok());
        assert(node_tied(supers, s0[r as int]));
        assert(s[r as int] == counted(s0[r as int], 1));
    }
}

/// Taking a reference to an inode of a file system.
#[verifier::spinoff_prover]
#[verifier::rlimit(40)]
pub proof fn lemma_iget_swap(
    c0: Blocks,
    s0: Seq<Inode>,
    c: Blocks,
    s: Seq<Inode>,
    supers: Seq<SuperBlock>,
    sb_nr: usize,
    ino: u32,
    cross_mnt: bool,
    r: usize,
)
    requires
        s0.len() == 64,
        supers.len() == 4,
        sb_nr < 4,
        iget_did(c0, s0, c, s, supers, sb_nr, ino, cross_mnt, r),
        forall|n: int| 0 <= n < 64 ==> (#[trigger] s0[n]).i_count < u16::MAX,
        forall|n: int| 0 <= n < 64 ==> (#[trigger] s0[n]).links_ok(),
        tied(supers, s0),
    ensures
        swapped(s0, s, NIL, NIL, r),
        tied(supers, s),
        c.dom() == c0.dom(),
{
    if r == NIL {
        lemma_iget_nil(c0, s0, c, s, supers, sb_nr, ino, cross_mnt);
        return;
    }
    lemma_iget_ref(c0, s0, c, s, supers, sb_nr, ino, cross_mnt, r);
    let dev = supers[sb_nr as int].s_dev;
    assert forall|k: int| 0 <= k < 64 implies {
        let n = (#[trigger] s[k]).i_count;
        &&& base_count(s0, k, NIL, NIL) + one_if(k == r) <= n
        &&& n <= at_least_one(base_count(s0, k, NIL, NIL)) + one_if(k == r)
    } by {}
    lemma_got_tied(c0, s0, c, s, supers, sb_nr, ino, cross_mnt, r);
    assert forall|k: int| 0 <= k < 64 implies node_tied(supers, #[trigger] s[k]) by {
        if k != r {
            assert(node_tied(supers, s0[k]));
        }
    }
}

/// Giving a reference back.
pub proof fn lemma_iput_swap(
    c0: Blocks,
    s0: Seq<Inode>,
    k: &BufferCache,
    s: Seq<Inode>,
    supers: Seq<SuperBlock>,
    now: u32,
    n: usize,
)
    requires
        s0.len() == 64,
        n == NIL || n < 64,
        n < 64 ==> s0[n as int].i_count > 0,
        iput_did(c0, s0, k, s, supers, now, n),
        tied(supers, s0),
    ensures
        swapped(s0, s, n, NIL, NIL),
        tied(supers, s),
{
    if n < 64 {
        assert(node_tied(supers, s0[n as int]));
        assert forall|j: int| 0 <= j < 64 implies {
            let m = (#[trigger] s[j]).i_count;
            &&& base_count(s0, j, n, NIL) + one_if(j == NIL) <= m
            &&& m <= at_least_one(base_count(s0, j, n, NIL)) + one_if(j == NIL)
        } by {}
        assert forall|j: int| 0 <= j < 64 implies node_tied(supers, #[trigger] s[j]) by {
            if j != n {
                assert(node_tied(supers, s0[j]));
            }
        }
    }
}

} // verus!
