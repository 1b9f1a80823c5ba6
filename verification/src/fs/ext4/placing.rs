//! Where the blocks of a file are on the device.

use crate::bytes::{le16, le32};
use crate::fs::ext4::extent::{
    extent_at, header_of, idx_at, index_lookup, is_node, key_at, leaf_sorted, lemma_leaf_lookup,
    lemma_upper, upper,
};
use crate::fs::ext4::map::{classic_block, extent_block, leaf_block, low32, pointer, tree_block};
use crate::fs::ext4::ops::full::{
    file_byte, file_read_did, has_buffer, inode_bytes, inode_filled, mapped, readable, wanted, Ext4SbInfo,
};
use crate::fs::ext4::group_desc::group_desc_of;
use crate::fs::ext4::ops::mount::{full_did, info_of, root_bytes, scaled_desc};
use crate::fs::ext4::symlink::target_of;
use crate::fs::inode::{FsType, Inode, NIL};
use crate::fs::super_block::SuperBlock;
use crate::fs::{Blocks, Fs};
use vstd::arithmetic::power2::pow2;
use vstd::prelude::*;

verus! {

// ---- runs of blocks ----

/// The 60 bytes are a node with that many levels below it: the mark, how many entries
/// there are, how many there can be, and the level.
pub open spec fn is_sound(d: Seq<u8>, depth: nat) -> bool {
    &&& d.len() == 60
    &&& le16(d, 0) == 0xF30A
    &&& le16(d, 2) <= 4
    &&& le16(d, 2) <= le16(d, 4)
    &&& le16(d, 6) == depth
}

/// The first file block of entry `k`.
pub open spec fn first_of(d: Seq<u8>, k: int) -> int {
    le32(d, 12 + 12 * k) as int
}

/// How many blocks run `k` of a leaf has. Lengths above 32768 are those of runs that were
/// never written.
pub open spec fn run_len(d: Seq<u8>, k: int) -> int {
    let n = le16(d, 16 + 12 * k) as int;
    if n > 32768 {
        n - 32768
    } else {
        n
    }
}

/// The device block of the first block of run `k` of a leaf.
pub open spec fn run_start(d: Seq<u8>, k: int) -> int {
    le32(d, 20 + 12 * k) + 0x1_0000_0000 * le16(d, 18 + 12 * k)
}

/// The runs of a leaf have blocks, go up and do not overlap.
pub open spec fn runs_in_order(d: Seq<u8>) -> bool {
    &&& forall|k: int| 0 <= k < le16(d, 2) ==> #[trigger] run_len(d, k) > 0
    &&& forall|i: int, j: int|
        #![trigger first_of(d, i), first_of(d, j)]
        0 <= i < j < le16(d, 2) ==> first_of(d, i) + run_len(d, i) <= first_of(d, j)
}

/// Run `k` of a leaf has file block `l`.
pub open spec fn in_run(d: Seq<u8>, k: int, l: u32) -> bool {
    0 <= k < le16(d, 2) && first_of(d, k) <= l < first_of(d, k) + run_len(d, k)
}

proof fn lemma_sorted(d: Seq<u8>)
    requires
        is_sound(d, 0),
        runs_in_order(d),
    ensures
        is_node(d),
        header_of(d).eh_depth == 0,
        leaf_sorted(d),
        forall|k: int|
            0 <= k < le16(d, 2) ==> {
                let e = #[trigger] extent_at(d, 12 + 12 * k);
                &&& e.ee_block == first_of(d, k)
                &&& e.last_block() == first_of(d, k) + run_len(d, k) - 1
                &&& e.start() == run_start(d, k)
            },
{
    assert forall|k: int| 0 <= k < le16(d, 2) implies {
        let e = #[trigger] extent_at(d, 12 + 12 * k);
        &&& e.ee_block == first_of(d, k)
        &&& e.last_block() == first_of(d, k) + run_len(d, k) - 1
        &&& e.start() == run_start(d, k)
    } by {
        assert(run_len(d, k) > 0);
    }
    assert forall|i: int, j: int|
        #![trigger extent_at(d, 12 + 12 * i), extent_at(d, 12 + 12 * j)]
        0 <= i < j < header_of(d).eh_entries implies extent_at(d, 12 + 12 * i).last_block()
        < extent_at(d, 12 + 12 * j).ee_block by {
        assert(first_of(d, i) + run_len(d, i) <= first_of(d, j));
    }
}

/// A leaf gives a file block of a run the device block that is as far behind the start of
/// the run as the file block is behind its first one, and no block to a file block that
/// is in no run.
pub proof fn lemma_leaf_block(d: Seq<u8>, l: u32)
    requires
        is_sound(d, 0),
        runs_in_order(d),
    ensures
        forall|k: int|
            #[trigger] in_run(d, k, l) ==> leaf_block(d, l) == Some(
                run_start(d, k) + (l - first_of(d, k)),
            ),
        leaf_block(d, l) is Some <==> exists|k: int| #[trigger] in_run(d, k, l),
{
    lemma_sorted(d);
    lemma_leaf_lookup(d, l);
    assert forall|k: int| #[trigger] in_run(d, k, l) implies leaf_block(d, l) == Some(
        run_start(d, k) + (l - first_of(d, k)),
    ) by {
        assert(extent_at(d, 12 + 12 * k).ee_block <= l <= extent_at(d, 12 + 12 * k).last_block());
    }
    if leaf_block(d, l) is Some {
        let n = header_of(d).eh_entries as int;
        assert forall|i: int, j: int| 0 <= i < j < n implies key_at(d, i) <= key_at(d, j) by {
            assert(extent_at(d, 12 + 12 * i).last_block() < extent_at(d, 12 + 12 * j).ee_block);
        }
        lemma_upper(d, l, 0, n);
        let p = upper(d, l, 0, n);
        assert(key_at(d, p - 1) <= l);
        assert(extent_at(d, 12 + 12 * (p - 1)).ee_block == first_of(d, p - 1));
        assert(in_run(d, p - 1, l));
    }
}

/// Two file blocks of one run are as far apart on the device as they are in the file.
pub proof fn lemma_run_apart(d: Seq<u8>, k: int, a: u32, b: u32)
    requires
        is_sound(d, 0),
        runs_in_order(d),
        in_run(d, k, a),
        in_run(d, k, b),
    ensures
        leaf_block(d, a) is Some,
        leaf_block(d, b) is Some,
        leaf_block(d, b)->0 - leaf_block(d, a)->0 == b - a,
{
    lemma_leaf_block(d, a);
    lemma_leaf_block(d, b);
}

// ---- the tree above the runs ----

/// The device block of the node that entry `k` of an inner node leads to.
pub open spec fn child_of(d: Seq<u8>, k: int) -> int {
    le32(d, 16 + 12 * k) + 0x1_0000_0000 * le16(d, 20 + 12 * k)
}

/// The entries of an inner node go up.
pub open spec fn keys_in_order(d: Seq<u8>) -> bool {
    forall|i: int, j: int|
        #![trigger first_of(d, i), first_of(d, j)]
        0 <= i < j < le16(d, 2) ==> first_of(d, i) < first_of(d, j)
}

/// File block `l` is below entry `k` of an inner node: not before the first block of the
/// entry, and before that of the next.
pub open spec fn is_below(d: Seq<u8>, k: int, l: u32) -> bool {
    &&& 0 <= k < le16(d, 2)
    &&& first_of(d, k) <= l
    &&& k + 1 < le16(d, 2) ==> l < first_of(d, k + 1)
}

/// In the tree with root `node` there is a run with file block `l`, and its place in the
/// run is that of device block `b`.
pub open spec fn leads_to(c: Blocks, dev: u16, node: Seq<u8>, depth: nat, l: u32, b: int) -> bool
    decreases depth,
{
    &&& is_sound(node, depth)
    &&& if depth == 0 {
        runs_in_order(node) && exists|k: int|
            #[trigger] in_run(node, k, l) && b - run_start(node, k) == l - first_of(node, k)
    } else {
        keys_in_order(node) && exists|k: int|
            {
                &&& #[trigger] is_below(node, k, l)
                &&& child_of(node, k) < 0x1_0000_0000
                &&& c.dom().contains((dev, child_of(node, k) as u32))
                &&& leads_to(
                    c,
                    dev,
                    c[(dev, child_of(node, k) as u32)].subrange(0, 60),
                    (depth - 1) as nat,
                    l,
                    b,
                )
            }
    }
}

proof fn lemma_index(d: Seq<u8>, depth: nat, k: int, l: u32)
    requires
        is_sound(d, depth),
        depth > 0,
        keys_in_order(d),
        is_below(d, k, l),
    ensures
        is_node(d),
        index_lookup(d, l) == Some(child_of(d, k) as u64),
        0 <= child_of(d, k) <= u64::MAX,
{
    let n = le16(d, 2) as int;
    assert(header_of(d).eh_entries == n && header_of(d).eh_depth == depth);
    assert forall|i: int, j: int| 0 <= i < j < n implies key_at(d, i) <= key_at(d, j) by {
        assert(first_of(d, i) < first_of(d, j));
    }
    lemma_upper(d, l, 0, n);
    let p = upper(d, l, 0, n);
    assert(key_at(d, k) == first_of(d, k));
    if k + 1 < n {
        assert(key_at(d, k + 1) == first_of(d, k + 1));
    }
    assert(p == k + 1);
    assert(idx_at(d, 12 + 12 * k).child() == child_of(d, k));
}

proof fn lemma_tree(c: Blocks, dev: u16, node: Seq<u8>, depth: nat, l: u32, b: int, levels: nat)
    requires
        leads_to(c, dev, node, depth, l, b),
        0 < depth <= levels,
    ensures
        tree_block(c, dev, 1024, node, l, levels) == Some(b),
    decreases depth,
{
    let k = choose|k: int|
        {
            &&& #[trigger] is_below(node, k, l)
            &&& child_of(node, k) < 0x1_0000_0000
            &&& c.dom().contains((dev, child_of(node, k) as u32))
            &&& leads_to(
                c,
                dev,
                c[(dev, child_of(node, k) as u32)].subrange(0, 60),
                (depth - 1) as nat,
                l,
                b,
            )
        };
    lemma_index(node, depth, k, l);
    let child = c[(dev, child_of(node, k) as u32)].subrange(0, 60);
    assert(low32(child_of(node, k)) == child_of(node, k));
    assert(header_of(child).eh_depth == depth - 1);
    if depth == 1 {
        lemma_leaf_block(child, l);
        lemma_sorted(child);
    } else {
        lemma_tree(c, dev, child, (depth - 1) as nat, l, b, (levels - 1) as nat);
        lemma_sound_node(child, (depth - 1) as nat);
    }
}

/// What is sound is a node.
pub proof fn lemma_sound_node(d: Seq<u8>, depth: nat)
    requires
        is_sound(d, depth),
    ensures
        is_node(d),
{
}

/// A file block that is in a run of a tree has the device block that the run says,
/// however deep the tree is.
pub proof fn lemma_tree_block(c: Blocks, dev: u16, ib: Seq<u8>, depth: nat, l: u32, b: int)
    requires
        leads_to(c, dev, ib, depth, l, b),
        depth <= 5,
    ensures
        extent_block(c, dev, 1024, ib, l) == Some(b),
{
    lemma_sound_node(ib, depth);
    if depth == 0 {
        lemma_leaf_block(ib, l);
    } else {
        lemma_tree(c, dev, ib, depth, l, b, 5);
    }
}

// ---- lists of pointers ----

/// The `k`th pointer in a block of pointers is `b`.
pub open spec fn points_to(c: Blocks, dev: u16, block: int, k: int, b: int) -> bool {
    &&& 0 < block < 0x1_0000_0000
    &&& 0 <= k < 256
    &&& c.dom().contains((dev, block as u32))
    &&& le32(c[(dev, block as u32)], 4 * k) == b
}

/// The first twelve blocks of a file are those in the inode.
pub proof fn lemma_direct(c: Blocks, dev: u16, ib: Seq<u8>, l: int)
    requires
        0 <= l < 12,
    ensures
        classic_block(c, dev, 1024, ib, l) == le32(ib, 4 * l),
{
}

/// The next 256 are those in the block of the thirteenth pointer.
pub proof fn lemma_indirect(c: Blocks, dev: u16, ib: Seq<u8>, k: int, b: int)
    requires
        points_to(c, dev, le32(ib, 48) as int, k, b),
    ensures
        classic_block(c, dev, 1024, ib, 12 + k) == b,
{
}

/// Then come those in the blocks that the block of the fourteenth pointer leads to.
pub proof fn lemma_twice_indirect(c: Blocks, dev: u16, ib: Seq<u8>, j: int, mid: int, k: int, b: int)
    requires
        points_to(c, dev, le32(ib, 52) as int, j, mid),
        points_to(c, dev, mid, k, b),
    ensures
        classic_block(c, dev, 1024, ib, 12 + 256 + 256 * j + k) == b,
{
    let idx = 256 * j + k;
    assert(idx / 256 == j && idx % 256 == k);
}

/// At last those that are three steps away from the fifteenth pointer.
#[verifier::spinoff_prover]
#[verifier::rlimit(60)]
pub proof fn lemma_thrice_indirect(
    c: Blocks,
    dev: u16,
    ib: Seq<u8>,
    i: int,
    top: int,
    j: int,
    mid: int,
    k: int,
    b: int,
)
    requires
        points_to(c, dev, le32(ib, 56) as int, i, top),
        points_to(c, dev, top, j, mid),
        points_to(c, dev, mid, k, b),
    ensures
        classic_block(c, dev, 1024, ib, 12 + 256 + 65536 + 65536 * i + 256 * j + k) == b,
{
    let idx = 65536 * i + 256 * j + k;
    let l = 12 + 256 + 65536 + idx;
    assert(idx / 65536 == i && idx % 65536 == 256 * j + k && idx % 65536 / 256 == j && idx % 256 == k);
    assert(256int * 256 == 65536) by (nonlinear_arith);
    assert(l - 12 - 256 - 65536 == idx);
    assert(pointer(c, dev, 1024, le32(ib, 56) as int, i) == top);
    assert(pointer(c, dev, 1024, top, j) == mid);
    assert(pointer(c, dev, 1024, mid, k) == b);
}

// ---- reading ----

/// The bytes of inode number `ino` on the device: inodes lie one behind the other from the
/// block `table` on, each of `size` bytes.
pub open spec fn inode_lies_at(f: Ext4SbInfo, ino: int, block: int, o: int) -> bool {
    &&& 0 <= o < 1024
    &&& o + f.inode_size <= 1024
    &&& (ino - 1) * f.inode_size == 1024 * (block - f.ext4_gd.inode_table) + o
    &&& f.ext4_gd.inode_table <= block < 0x1_0000_0000
    &&& f.inode_size >= 128
}

proof fn lemma_inode_lies(c: Blocks, supers: Seq<SuperBlock>, info: Seq<Ext4SbInfo>, i: Inode, block: int, o: int)
    requires
        i.i_sb != NIL,
        info[i.i_sb as int].valid,
        i.i_ino > 0,
        inode_lies_at(info[i.i_sb as int], i.i_ino as int, block, o),
        c.dom().contains((supers[i.i_sb as int].s_dev, block as u32)),
        c[(supers[i.i_sb as int].s_dev, block as u32)].len() == 1024,
    ensures
        inode_bytes(c, supers, info, i) == Some(
            c[(supers[i.i_sb as int].s_dev, block as u32)].subrange(
                o,
                o + info[i.i_sb as int].inode_size,
            ),
        ),
{
    let f = info[i.i_sb as int];
    let n = (i.i_ino - 1) * f.inode_size;
    assert(n / 1024 == block - f.ext4_gd.inode_table && n % 1024 == o);
    assert(low32(block) == block as u32);
}

/// Device block `b` is that of file block `l` of the file whose inode lies at `o` in
/// `block`: it goes by runs, or by pointers.
pub open spec fn has_place(c: Blocks, dev: u16, block: int, o: int, l: u32, b: int) -> bool {
    let ib = c[(dev, block as u32)].subrange(o + 40, o + 100);
    if le16(ib, 0) == 0xF30A {
        exists|depth: nat| depth <= 5 && #[trigger] leads_to(c, dev, ib, depth, l, b)
    } else {
        ||| 0 <= l < 12 && b == le32(ib, 4 * l)
        ||| 12 <= l < 268 && points_to(c, dev, le32(ib, 48) as int, l - 12, b)
        ||| exists|j: int, k: int, mid: int|
            l == 268 + 256 * j + k && #[trigger] points_to(c, dev, le32(ib, 52) as int, j, mid)
                && #[trigger] points_to(c, dev, mid, k, b)
    }
}

#[verifier::spinoff_prover]
#[verifier::rlimit(60)]
proof fn lemma_place(
    c: Blocks,
    supers: Seq<SuperBlock>,
    info: Seq<Ext4SbInfo>,
    i: Inode,
    block: int,
    o: int,
    l: u32,
    b: int,
)
    requires
        i.i_sb != NIL,
        info[i.i_sb as int].valid,
        info[i.i_sb as int].fs_block_size == 1024,
        i.i_ino > 0,
        inode_lies_at(info[i.i_sb as int], i.i_ino as int, block, o),
        c.dom().contains((supers[i.i_sb as int].s_dev, block as u32)),
        c[(supers[i.i_sb as int].s_dev, block as u32)].len() == 1024,
        has_place(c, supers[i.i_sb as int].s_dev, block, o, l, b),
        0 < b < 0x1_0000_0000,
    ensures
        mapped(c, supers, info, i, l as int) == b,
{
    let dev = supers[i.i_sb as int].s_dev;
    lemma_inode_lies(c, supers, info, i, block, o);
    let d = inode_bytes(c, supers, info, i)->0;
    let ib = c[(dev, block as u32)].subrange(o + 40, o + 100);
    assert(d.subrange(40, 100) =~= ib);
    if le16(ib, 0) == 0xF30A {
        let depth = choose|depth: nat| depth <= 5 && #[trigger] leads_to(c, dev, ib, depth, l, b);
        lemma_tree_block(c, dev, ib, depth, l, b);
    } else if 0 <= l < 12 && b == le32(ib, 4 * l) {
        lemma_direct(c, dev, ib, l as int);
    } else if 12 <= l < 268 && points_to(c, dev, le32(ib, 48) as int, l - 12, b) {
        lemma_indirect(c, dev, ib, l - 12, b);
        assert(12 + (l - 12) == l);
    } else {
        let (j, k, mid) = choose|j: int, k: int, mid: int|
            l == 268 + 256 * j + k && #[trigger] points_to(c, dev, le32(ib, 52) as int, j, mid)
                && #[trigger] points_to(c, dev, mid, k, b);
        lemma_twice_indirect(c, dev, ib, j, mid, k, b);
        assert(12 + 256 + 256 * j + k == l);
    }
    lemma_mapped_is(c, supers, info, i, d, l, b);
}

/// The map of a file with blocks of one buffer is what the runs or the pointers give.
proof fn lemma_mapped_is(
    c: Blocks,
    supers: Seq<SuperBlock>,
    info: Seq<Ext4SbInfo>,
    i: Inode,
    d: Seq<u8>,
    l: u32,
    b: int,
)
    requires
        info[i.i_sb as int].fs_block_size == 1024,
        inode_bytes(c, supers, info, i) == Some(d),
        0 < b < 0x1_0000_0000,
        le16(d.subrange(40, 100), 0) == 0xF30A ==> extent_block(
            c,
            supers[i.i_sb as int].s_dev,
            1024,
            d.subrange(40, 100),
            l,
        ) == Some(b),
        le16(d.subrange(40, 100), 0) != 0xF30A ==> classic_block(
            c,
            supers[i.i_sb as int].s_dev,
            1024,
            d.subrange(40, 100),
            l as int,
        ) == b,
    ensures
        mapped(c, supers, info, i, l as int) == b,
{
    let f = info[i.i_sb as int];
    assert(f.scale32() == 1);
    assert(l as int / 1 == l && l as int % 1 == 0);
    assert(low32(b) == b);
    assert(low32(low32(b) * 1 + 0) == b);
    assert(low32(b * 1 + 0) == b);
}

/// Where a file has a block on the device.
pub open spec fn placed_block(c: Blocks, dev: u16, block: int, o: int, l: u32, b: int) -> bool {
    has_place(c, dev, block, o, l, b) && 0 < b < 0x1_0000_0000 && c.dom().contains((dev, b as u32))
}

/// Reading from a file whose blocks are on the device gives as many bytes as were asked
/// for, up to the end of the file: each is the byte of the device block that the runs
/// or the pointers of the file say.
#[verifier::spinoff_prover]
#[verifier::rlimit(60)]
pub proof fn lemma_read_bytes(
    fs0: &Fs,
    fs: &Fs,
    ip: usize,
    pos: u64,
    b0: Seq<u8>,
    b: Seq<u8>,
    r: i64,
    block: int,
    o: int,
    at: Seq<int>,
)
    requires
        file_read_did(fs0, fs, ip, pos, b0, b, r),
        ip < 64,
        ({
            let i = fs0.inodes@[ip as int];
            let f = fs0.ext4@[i.i_sb as int];
            let c = fs0.blocks();
            let dev = fs0.supers@[i.i_sb as int].s_dev;
            &&& i.i_sb != NIL
            &&& f.valid && f.fs_block_size == 1024
            &&& i.i_ino > 0
            &&& inode_lies_at(f, i.i_ino as int, block, o)
            &&& c.dom().contains((dev, block as u32)) && c[(dev, block as u32)].len() == 1024
            &&& at.len() <= 0x40_0000
            &&& i.i_size <= 1024 * at.len()
            &&& forall|l: int|
                0 <= l < at.len() ==> placed_block(c, dev, block, o, l as u32, #[trigger] at[l])
        }),
    ensures
        ({
            let i = fs0.inodes@[ip as int];
            let c = fs0.blocks();
            let dev = fs0.supers@[i.i_sb as int].s_dev;
            &&& pos >= i.i_size ==> r == 0
            &&& pos < i.i_size && pos + b0.len() <= i.i_size ==> r == b0.len()
            &&& pos < i.i_size < pos + b0.len() ==> r == i.i_size - pos
            &&& b.len() == b0.len()
            &&& forall|p: int|
                pos <= p < pos + r ==> #[trigger] b[p - pos] == c[(dev, at[p / 1024] as u32)][p % 1024]
            &&& forall|k: int| r <= k < b0.len() ==> #[trigger] b[k] == b0[k]
        }),
{
    let i = fs0.inodes@[ip as int];
    let c = fs0.blocks();
    let dev = fs0.supers@[i.i_sb as int].s_dev;
    assert forall|l: int| 0 <= l < at.len() implies #[trigger] mapped(c, fs0.supers@, fs0.ext4@, i, l)
        == at[l] && 0 < at[l] && c.dom().contains((dev, at[l] as u32)) by {
        assert(placed_block(c, dev, block, o, l as u32, at[l]));
        lemma_place(c, fs0.supers@, fs0.ext4@, i, block, o, l as u32, at[l]);
    }
    let w = wanted(i.i_size as int, pos as int, b0.len() as int);
    assert forall|l: int| 0 <= l < at.len() implies #[trigger] has_buffer(
        c,
        fs0.supers@,
        fs0.ext4@,
        i,
        l,
    ) by {
        assert(mapped(c, fs0.supers@, fs0.ext4@, i, l) == at[l]);
    }
    lemma_all_readable(c, fs0.supers@, fs0.ext4@, i, pos as int, w, at.len() as int);
    assert forall|p: int| pos <= p < pos + r implies #[trigger] b[p - pos] == c[(dev, at[p / 1024] as u32)][p
        % 1024] by {
        assert(0 <= p / 1024 < at.len());
        assert(b[p - pos] == file_byte(c, fs0.supers@, fs0.ext4@, i, pos + (p - pos)));
        assert(mapped(c, fs0.supers@, fs0.ext4@, i, p / 1024) == at[p / 1024]);
    }
}

proof fn lemma_all_readable(
    c: Blocks,
    supers: Seq<SuperBlock>,
    info: Seq<Ext4SbInfo>,
    i: Inode,
    off: int,
    len: int,
    n: int,
)
    requires
        0 <= off,
        0 <= len,
        len > 0 ==> off + len <= 1024 * n,
        forall|l: int| 0 <= l < n ==> #[trigger] has_buffer(c, supers, info, i, l),
    ensures
        readable(c, supers, info, i, off, len) == len,
    decreases len,
{
    if len > 0 {
        assert(has_buffer(c, supers, info, i, off / 1024));
        let m = if 1024 - off % 1024 < len {
            1024 - off % 1024
        } else {
            len
        };
        lemma_all_readable(c, supers, info, i, off + m, len - m, n);
    }
}

/// Of a file system with blocks of more than one buffer, a file block of a run is on the
/// device as many buffers behind the start of the run as it is behind its first one,
/// and its own buffers follow one another.
#[verifier::spinoff_prover]
#[verifier::rlimit(60)]
pub proof fn lemma_large_blocks(
    c: Blocks,
    supers: Seq<SuperBlock>,
    info: Seq<Ext4SbInfo>,
    i: Inode,
    block: int,
    o: int,
    k: int,
    l: u32,
    m: int,
)
    requires
        i.i_sb != NIL,
        info[i.i_sb as int].valid,
        info[i.i_sb as int].fs_block_size == 2048 || info[i.i_sb as int].fs_block_size == 4096,
        i.i_ino > 0,
        inode_lies_at(info[i.i_sb as int], i.i_ino as int, block, o),
        c.dom().contains((supers[i.i_sb as int].s_dev, block as u32)),
        c[(supers[i.i_sb as int].s_dev, block as u32)].len() == 1024,
        ({
            let ib = c[(supers[i.i_sb as int].s_dev, block as u32)].subrange(o + 40, o + 100);
            let s = info[i.i_sb as int].fs_block_size as int / 1024;
            &&& is_sound(ib, 0)
            &&& runs_in_order(ib)
            &&& in_run(ib, k, l)
            &&& 0 <= m < s
            &&& (run_start(ib, k) + (l - first_of(ib, k)) + 1) * s <= 0x1_0000_0000
        }),
    ensures
        ({
            let ib = c[(supers[i.i_sb as int].s_dev, block as u32)].subrange(o + 40, o + 100);
            let s = info[i.i_sb as int].fs_block_size as int / 1024;
            mapped(c, supers, info, i, l * s + m) == run_start(ib, k) * s + (l - first_of(ib, k)) * s + m
        }),
{
    let f = info[i.i_sb as int];
    let dev = supers[i.i_sb as int].s_dev;
    lemma_inode_lies(c, supers, info, i, block, o);
    let d = inode_bytes(c, supers, info, i)->0;
    let ib = c[(dev, block as u32)].subrange(o + 40, o + 100);
    assert(d.subrange(40, 100) =~= ib);
    lemma_leaf_block(ib, l);
    lemma_sorted(ib);
    let s = f.fs_block_size as int / 1024;
    assert(f.scale32() == s);
    let x = run_start(ib, k) + (l - first_of(ib, k));
    assert(leaf_block(ib, l) == Some(x));
    lemma_scaled(s, l as int, m, x);
    assert(run_start(ib, k) * s + (l - first_of(ib, k)) * s == x * s) by (nonlinear_arith)
        requires
            x == run_start(ib, k) + (l - first_of(ib, k)),
    ;
    assert(extent_block(c, dev, f.fs_block_size as int, ib, l) == Some(x));
    assert(mapped(c, supers, info, i, l * s + m) == low32(low32(x) * s + m));
}

proof fn lemma_scaled(s: int, l: int, m: int, x: int)
    requires
        s == 2 || s == 4,
        0 <= m < s,
        0 <= l,
        0 <= x,
        (x + 1) * s <= 0x1_0000_0000,
    ensures
        (l * s + m) / s == l,
        (l * s + m) % s == m,
        low32(low32(x) * s + m) == x * s + m,
{
    if s == 2 {
        assert((l * 2 + m) / 2 == l && (l * 2 + m) % 2 == m);
        assert(low32(x) == x);
    } else {
        assert((l * 4 + m) / 4 == l && (l * 4 + m) % 4 == m);
        assert(low32(x) == x);
    }
}

// ---- symbolic links ----

/// The target of a short link is in its inode, from where the places of other files' blocks
/// stand on; that of a long one is in its first block. Of a target of more than 256
/// bytes as many are read.
pub proof fn lemma_target(fs: &Fs, i: Inode, block: int, o: int, b: int)
    requires
        i.i_sb != NIL,
        fs.ext4@[i.i_sb as int].valid,
        i.i_ino > 0,
        inode_lies_at(fs.ext4@[i.i_sb as int], i.i_ino as int, block, o),
        fs.blocks().dom().contains((fs.supers@[i.i_sb as int].s_dev, block as u32)),
        fs.blocks()[(fs.supers@[i.i_sb as int].s_dev, block as u32)].len() == 1024,
    ensures
        i.i_size < 60 ==> target_of(fs, i) == Some(
            fs.blocks()[(fs.supers@[i.i_sb as int].s_dev, block as u32)].subrange(
                o + 40,
                o + 40 + i.i_size,
            ),
        ),
        i.i_size >= 60 && fs.ext4@[i.i_sb as int].fs_block_size == 1024 && placed_block(
            fs.blocks(),
            fs.supers@[i.i_sb as int].s_dev,
            block,
            o,
            0,
            b,
        ) ==> target_of(fs, i) == Some(
            fs.blocks()[(fs.supers@[i.i_sb as int].s_dev, b as u32)].subrange(
                0,
                if i.i_size < 256 {
                    i.i_size as int
                } else {
                    256
                },
            ),
        ),
{
    let c = fs.blocks();
    let dev = fs.supers@[i.i_sb as int].s_dev;
    lemma_inode_lies(c, fs.supers@, fs.ext4@, i, block, o);
    let d = inode_bytes(c, fs.supers@, fs.ext4@, i)->0;
    if i.i_size < 60 {
        assert(d.subrange(40, 100).subrange(0, i.i_size as int) =~= c[(dev, block as u32)].subrange(
            o + 40,
            o + 40 + i.i_size,
        ));
    } else if fs.ext4@[i.i_sb as int].fs_block_size == 1024 && placed_block(c, dev, block, o, 0, b) {
        lemma_place(c, fs.supers@, fs.ext4@, i, block, o, 0, b);
    }
}

// ---- the root directory ----

/// The root directory of a file system that was mounted is what its second inode on disk
/// says: its kind, size, owner and number of links.
#[verifier::spinoff_prover]
#[verifier::rlimit(60)]
pub proof fn lemma_root_taken(fs0: &Fs, fs: &Fs, n: usize, block: int, o: int)
    requires
        full_did(fs0, fs, n, true),
        n < 4,
        fs0.wf(),
        fs.wf(),
        inode_lies_at(fs.ext4@[n as int], 2, block, o),
        fs.blocks().dom().contains((fs0.supers@[n as int].s_dev, block as u32)),
        fs.blocks()[(fs0.supers@[n as int].s_dev, block as u32)].len() == 1024,
        fs.supers@[n as int].s_mounted < 64,
    ensures
        ({
            let d = fs.blocks()[(fs0.supers@[n as int].s_dev, block as u32)];
            let i = fs.inodes@[fs.supers@[n as int].s_mounted as int];
            &&& i.i_mode == le16(d, o)
            &&& i.i_size == le32(d, o + 4)
            &&& i.i_uid == le16(d, o + 2)
            &&& i.i_gid == le16(d, o + 24)
            &&& i.i_nlink == le16(d, o + 26)
            &&& i.i_op == FsType::Ext2
            &&& i.i_sb == n
        }),
{
    let dev = fs0.supers@[n as int].s_dev;
    let f = fs.ext4@[n as int];
    let d = fs.blocks()[(dev, block as u32)];
    let size = f.inode_size as int;
    assert(size / 1024 == block - f.ext4_gd.inode_table && size % 1024 == o);
    assert(low32(block) == block as u32);
    let r = root_bytes(fs.blocks(), dev, f);
    assert(r == Some(d.subrange(o, o + size)));
    let e = r->0;
    assert(le16(e, 0) == le16(d, o) && le32(e, 4) == le32(d, o + 4) && le16(e, 2) == le16(d, o + 2) && le16(
        e,
        24,
    ) == le16(d, o + 24) && le16(e, 26) == le16(d, o + 26));
}

/// What is kept of a file system that was mounted is what its super block `d` and the
/// descriptor `g` of its first group say: the sizes of blocks and inodes, and, counted in
/// buffers, where the bitmaps and the inode table are.
#[verifier::spinoff_prover]
#[verifier::rlimit(60)]
pub proof fn lemma_mount_numbers(d: Seq<u8>, g: Seq<u8>, f: Ext4SbInfo)
    requires
        info_of(d, g, f),
        d[24] <= 2,
        le32(d, 96) & 0x80 == 0,
    ensures
        d[24] == 0 ==> f.fs_block_size == 1024,
        d[24] == 1 ==> f.fs_block_size == 2048,
        d[24] == 2 ==> f.fs_block_size == 4096,
        le32(d, 76) == 0 || le16(d, 88) == 0 ==> f.inode_size == 128,
        le32(d, 76) > 0 && le16(d, 88) != 0 ==> f.inode_size == le16(d, 88),
        f.inodes_per_group == le32(d, 40),
        f.ext4_gd.block_bitmap == le32(g, 0) * (f.fs_block_size / 1024),
        f.ext4_gd.inode_bitmap == le32(g, 4) * (f.fs_block_size / 1024),
        f.ext4_gd.inode_table == le32(g, 8) * (f.fs_block_size / 1024),
        f.valid,
{
    assert(pow2(0) == 1 && pow2(1) == 2 && pow2(2) == 4) by {
        vstd::arithmetic::power2::lemma2_to64();
    }
    let s = pow2(d[24] as nat) as int;
    assert(s == 1 || s == 2 || s == 4);
    assert(s % 0x1_0000_0000 == s);
    assert(f.fs_block_size == 1024 * s);
    assert(f.fs_block_size as int / 1024 == s);
    let h = group_desc_of(g, false);
    assert(f.ext4_gd == scaled_desc(h, s));
    lemma_fits(le32(g, 0), s);
    lemma_fits(le32(g, 4), s);
    lemma_fits(le32(g, 8), s);
}

proof fn lemma_fits(x: u32, s: int)
    requires
        s == 1 || s == 2 || s == 4,
    ensures
        (x as u64 * s % 0x1_0000_0000_0000_0000) as u64 == x * s,
{
    if s == 1 {
    } else if s == 2 {
    } else {
        assert(s == 4);
    }
}

/// An inode that was read is what its bytes on disk say.
pub proof fn lemma_inode_fields(d: Seq<u8>, scale: int, i0: Inode, i: Inode)
    requires
        inode_filled(d, scale, i0, i),
    ensures
        i.i_mode == le16(d, 0),
        i.i_uid == le16(d, 2),
        i.i_size == le32(d, 4),
        i.i_atime == le32(d, 8),
        i.i_ctime == le32(d, 12),
        i.i_mtime == le32(d, 16),
        i.i_gid == le16(d, 24),
        i.i_nlink == le16(d, 26),
        i.i_ino == i0.i_ino,
        i.i_dev == i0.i_dev,
        i.i_sb == i0.i_sb,
        i.i_op == FsType::Ext2,
{
}

} // verus!
