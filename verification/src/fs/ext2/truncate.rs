//! Dropping the blocks of a file.

use super::inode::{Ext2Inode, EXT2_NDIR_BLOCKS};
use vstd::prelude::*;

verus! {

/// The block pointers of an inode: the direct ones, then the three indirect ones.
pub open spec fn pointers(inode: Ext2Inode) -> Seq<u32> {
    inode.i_block@ + seq![inode.i_block_1ind, inode.i_block_2ind, inode.i_block_3ind]
}

/// Those of the pointers that lead to a block, in their order.
pub open spec fn blocks_in(p: Seq<u32>) -> Seq<u32>
    decreases p.len(),
{
    if p.len() == 0 {
        Seq::empty()
    } else if p.last() != 0 {
        blocks_in(p.drop_last()).push(p.last())
    } else {
        blocks_in(p.drop_last())
    }
}

/// Releases one block, if the pointer leads to one.
fn release(b: u32, free_block_fn: &impl Fn(u32), freed: &mut Vec<u32>)
    requires
        forall|x: u32| call_requires(*free_block_fn, (x,)),
    ensures
        b != 0 ==> call_ensures(*free_block_fn, (b,), ()),
        final(freed)@ == if b != 0 {
            old(freed)@.push(b)
        } else {
            old(freed)@
        },
{
    if b != 0 {
        free_block_fn(b);
        freed.push(b);
    }
}

/// Releases every block that the inode points to, each once with `free_block_fn`,
/// takes the pointers out and sets the size to zero; the rest of the inode stays.
/// Answers the blocks that were released, in their order.
pub fn ext2_truncate(inode: &mut Ext2Inode, blocksize: usize, free_block_fn: impl Fn(u32)) -> (freed: Vec<u32>)
    requires
        forall|b: u32| call_requires(free_block_fn, (b,)),
    ensures
        freed@ == blocks_in(pointers(*old(inode))),
        forall|i: int|
            0 <= i < freed@.len() ==> call_ensures(free_block_fn, (#[trigger] freed@[i],), ()),
        forall|i: int| 0 <= i < 12 ==> #[trigger] final(inode).i_block@[i] == 0,
        *final(inode) == (Ext2Inode {
            i_block: final(inode).i_block,
            i_block_1ind: 0,
            i_block_2ind: 0,
            i_block_3ind: 0,
            i_blocks: 0,
            i_size: 0,
            ..*old(inode)
        }),
{
    let mut freed: Vec<u32> = Vec::new();
    let ghost p = pointers(*inode);
    assert(p.take(0) =~= Seq::<u32>::empty());
    let mut i: usize = 0;
    while i < EXT2_NDIR_BLOCKS
        invariant
            i <= 12,
            p == pointers(*old(inode)),
            forall|b: u32| call_requires(free_block_fn, (b,)),
            freed@ == blocks_in(p.take(i as int)),
            forall|k: int|
                0 <= k < freed@.len() ==> call_ensures(free_block_fn, (#[trigger] freed@[k],), ()),
            forall|j: int| 0 <= j < i ==> #[trigger] inode.i_block@[j] == 0,
            forall|j: int| i <= j < 12 ==> #[trigger] inode.i_block@[j] == old(inode).i_block@[j],
            *inode == (Ext2Inode { i_block: inode.i_block, ..*old(inode) }),
        decreases 12 - i,
    {
        assert(p.take(i + 1).drop_last() =~= p.take(i as int));
        release(inode.i_block[i], &free_block_fn, &mut freed);
        inode.i_block[i] = 0;
        i = i + 1;
    }
    assert(p.take(13).drop_last() =~= p.take(12) && p.take(13).last() == inode.i_block_1ind);
    release(inode.i_block_1ind, &free_block_fn, &mut freed);
    assert(freed@ == blocks_in(p.take(13)));
    assert(p.take(14).drop_last() =~= p.take(13) && p.take(14).last() == inode.i_block_2ind);
    release(inode.i_block_2ind, &free_block_fn, &mut freed);
    assert(freed@ == blocks_in(p.take(14)));
    assert(p.take(15).drop_last() =~= p.take(14) && p.take(15).last() == inode.i_block_3ind);
    release(inode.i_block_3ind, &free_block_fn, &mut freed);
    assert(p.take(15) =~= p);
    inode.i_block_1ind = 0;
    inode.i_block_2ind = 0;
    inode.i_block_3ind = 0;
    inode.i_blocks = 0;
    inode.i_size = 0;
    freed
}

} // verus!
