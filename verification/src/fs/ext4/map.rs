//! From the blocks of a file to the blocks of the device: by a tree of extents,
//! or by lists of block pointers.

use crate::bytes::{copy_range, get_le32, le32};
use crate::fs::ext4::extent::{header_of, index_lookup, is_node, leaf_lookup, ExtentNode};
use crate::fs::{Blocks, Fs};
use vstd::prelude::*;

verus! {

/// A block number on the device as far as it fits in 32 bits.
pub open spec fn low32(b: int) -> u32 {
    (b % 0x1_0000_0000) as u32
}

/// Reads a block of that size. The cache has buffers of 1024 bytes only.
pub fn read_sized(fs: &mut Fs, dev: u16, block: u32, size: usize) -> (r: Option<Vec<u8>>)
    requires
        old(fs).wf(),
    ensures
        final(fs).wf(),
        *final(fs) == (Fs { cache: final(fs).cache, ..*old(fs) }),
        final(fs).blocks() == old(fs).blocks(),
        r is Some <==> size == 1024 && old(fs).blocks().dom().contains((dev, block)),
        r is Some ==> r->0@ == old(fs).blocks()[(dev, block)] && r->0@.len() == 1024,
{
    if size != 1024 {
        return None;
    }
    fs.cache.read_block(dev, block)
}

// ---- extents ----

/// The block that a leaf gives for file block `lblock`.
pub open spec fn leaf_block(node: Seq<u8>, lblock: u32) -> Option<int> {
    match leaf_lookup(node, lblock) {
        Some(e) => Some(e.start() + (lblock - e.ee_block)),
        None => None,
    }
}

/// The block that the tree below an inner node gives, at most `levels` levels
/// down. Of a node on disk the first 60 bytes count.
pub open spec fn tree_block(
    c: Blocks,
    dev: u16,
    fs_bs: int,
    node: Seq<u8>,
    lblock: u32,
    levels: nat,
) -> Option<int>
    decreases levels,
{
    if levels == 0 || !is_node(node) {
        None
    } else {
        match index_lookup(node, lblock) {
            None => None,
            Some(b) => {
                let key = (dev, low32(b as int));
                if fs_bs != 1024 || !c.dom().contains(key) {
                    None
                } else {
                    let child = c[key].subrange(0, 60);
                    if !is_node(child) {
                        None
                    } else if header_of(child).eh_depth == 0 {
                        leaf_block(child, lblock)
                    } else {
                        tree_block(c, dev, fs_bs, child, lblock, (levels - 1) as nat)
                    }
                }
            },
        }
    }
}

/// The block that the tree with root `ib` gives for file block `lblock`.
pub open spec fn extent_block(c: Blocks, dev: u16, fs_bs: int, ib: Seq<u8>, lblock: u32) -> Option<int> {
    if !is_node(ib) {
        None
    } else if header_of(ib).eh_depth == 0 {
        leaf_block(ib, lblock)
    } else {
        tree_block(c, dev, fs_bs, ib, lblock, 5)
    }
}

/// Looks a file block up in a leaf.
fn lookup_in_leaf(node: &ExtentNode, lblock: u32) -> (r: Option<u64>)
    ensures
        match leaf_block(node.bytes(), lblock) {
            None => r is None,
            Some(b) => r is Some && r->0 == b,
        },
{
    match node.lookup_leaf(lblock) {
        None => None,
        Some(e) => Some(e.ee_start() + (lblock - e.ee_block()) as u64),
    }
}

/// Looks a file block up in the tree of extents with root `ib`.
pub fn extent_lookup(fs: &mut Fs, ib: &[u8], lblock: u32, dev: u16, fs_bs: usize) -> (r: Option<u64>)
    requires
        old(fs).wf(),
        ib@.len() == 60,
    ensures
        final(fs).wf(),
        *final(fs) == (Fs { cache: final(fs).cache, ..*old(fs) }),
        final(fs).blocks() == old(fs).blocks(),
        match extent_block(old(fs).blocks(), dev, fs_bs as int, ib@, lblock) {
            None => r is None,
            Some(b) => r is Some && r->0 == b,
        },
{
    let ghost c = fs.blocks();
    match ExtentNode::parse(ib) {
        None => {
            return None;
        },
        Some(root) => {
            if root.header().is_leaf() {
                return lookup_in_leaf(&root, lblock);
            }
        },
    }
    let mut node: Vec<u8> = copy_range(ib, 0, 60);
    assert(node@ =~= ib@);
    let mut level: u32 = 0;
    while level < 5
        invariant
            fs.wf(),
            level <= 5,
            node@.len() == 60,
            *fs == (Fs { cache: fs.cache, ..*old(fs) }),
            fs.blocks() == c,
            c == old(fs).blocks(),
            extent_block(c, dev, fs_bs as int, ib@, lblock) == tree_block(
                c,
                dev,
                fs_bs as int,
                node@,
                lblock,
                (5 - level) as nat,
            ),
        decreases 5 - level,
    {
        let child_blk: u64 = match ExtentNode::parse(node.as_slice()) {
            None => {
                return None;
            },
            Some(n) => match n.lookup_index(lblock) {
                None => {
                    return None;
                },
                Some(b) => b,
            },
        };
        let data: Vec<u8> = match read_sized(
            fs,
            dev,
            (child_blk % 0x1_0000_0000) as u32,
            fs_bs,
        ) {
            None => {
                return None;
            },
            Some(d) => d,
        };
        node = copy_range(data.as_slice(), 0, 60);
        match ExtentNode::parse(node.as_slice()) {
            None => {
                return None;
            },
            Some(child) => {
                if child.header().is_leaf() {
                    return lookup_in_leaf(&child, lblock);
                }
            },
        }
        level = level + 1;
    }
    None
}

// ---- lists of block pointers ----

/// Pointer `idx` in a block of pointers, zero where there is none.
pub open spec fn pointer(c: Blocks, dev: u16, fs_bs: int, block: int, idx: int) -> int {
    if block == 0 || fs_bs != 1024 || !c.dom().contains((dev, block as u32)) || 4 * idx + 4 > 1024 {
        0
    } else {
        le32(c[(dev, block as u32)], 4 * idx) as int
    }
}

/// The block of file block `lblock`, zero where there is none: twelve pointers in
/// the inode, then those in one block, in blocks that one block leads to, and in
/// blocks that are two such steps away.
pub open spec fn classic_block(c: Blocks, dev: u16, fs_bs: int, ib: Seq<u8>, lblock: int) -> int {
    let n = fs_bs / 4;
    if lblock < 12 {
        le32(ib, 4 * lblock) as int
    } else if lblock - 12 < n {
        pointer(c, dev, fs_bs, le32(ib, 48) as int, lblock - 12)
    } else if lblock - 12 - n < n * n {
        let idx = lblock - 12 - n;
        pointer(
            c,
            dev,
            fs_bs,
            pointer(c, dev, fs_bs, le32(ib, 52) as int, idx / n),
            idx % n,
        )
    } else {
        let idx = lblock - 12 - n - n * n;
        pointer(
            c,
            dev,
            fs_bs,
            pointer(
                c,
                dev,
                fs_bs,
                pointer(c, dev, fs_bs, le32(ib, 56) as int, idx / (n * n)),
                idx % (n * n) / n,
            ),
            idx % n,
        )
    }
}

/// Reads pointer `idx` of a block of pointers.
pub fn read_indirect(fs: &mut Fs, dev: u16, ind: u32, idx: u64, fs_bs: usize) -> (r: u32)
    requires
        old(fs).wf(),
    ensures
        final(fs).wf(),
        *final(fs) == (Fs { cache: final(fs).cache, ..*old(fs) }),
        final(fs).blocks() == old(fs).blocks(),
        r == pointer(old(fs).blocks(), dev, fs_bs as int, ind as int, idx as int),
{
    if ind == 0 {
        return 0;
    }
    match read_sized(fs, dev, ind, fs_bs) {
        None => 0,
        Some(data) => {
            if idx < 256 {
                get_le32(data.as_slice(), 4 * idx as usize)
            } else {
                0
            }
        },
    }
}

/// Looks a file block up in the pointers `ib`; zero where it has no block.
pub fn classic_lookup(fs: &mut Fs, ib: &[u8], lblock: u32, dev: u16, fs_bs: usize) -> (r: u32)
    requires
        old(fs).wf(),
        ib@.len() == 60,
        1024 <= fs_bs,
    ensures
        final(fs).wf(),
        *final(fs) == (Fs { cache: final(fs).cache, ..*old(fs) }),
        final(fs).blocks() == old(fs).blocks(),
        r == classic_block(old(fs).blocks(), dev, fs_bs as int, ib@, lblock as int),
{
    let n: u64 = (fs_bs / 4) as u64;
    if lblock < 12 {
        return get_le32(ib, lblock as usize * 4);
    }
    let idx: u64 = lblock as u64 - 12;
    if idx < n {
        let ind: u32 = get_le32(ib, 48);
        return read_indirect(fs, dev, ind, idx, fs_bs);
    }
    let idx: u64 = idx - n;
    assert(n * n <= 0xFFFF_FFFF * 0xFFFF_FFFF) by (nonlinear_arith)
        requires
            n <= 0xFFFF_FFFF,
    ;
    assert(n * n > 0) by (nonlinear_arith)
        requires
            n > 0,
    ;
    let n2: u64 = n * n;
    if idx < n2 {
        let dind: u32 = get_le32(ib, 52);
        let ind: u32 = read_indirect(fs, dev, dind, idx / n, fs_bs);
        return read_indirect(fs, dev, ind, idx % n, fs_bs);
    }
    let idx: u64 = idx - n2;
    let tind: u32 = get_le32(ib, 56);
    let dind: u32 = read_indirect(fs, dev, tind, idx / n2, fs_bs);
    let ind: u32 = read_indirect(fs, dev, dind, idx % n2 / n, fs_bs);
    read_indirect(fs, dev, ind, idx % n, fs_bs)
}

} // verus!
