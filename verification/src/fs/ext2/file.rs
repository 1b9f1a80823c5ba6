//! From file blocks to disk blocks.

use super::inode::Ext2Inode;
use vstd::prelude::*;

verus! {

/// The disk block of the file's block `block`, where it is one of the twelve
/// direct blocks and is not a hole.
pub fn inode_get_block(inode: &Ext2Inode, block: u32, blocksize: usize) -> (r: Option<u32>)
    ensures
        r == (if block < 12 && inode.i_block@[block as int] != 0 {
            Some(inode.i_block@[block as int])
        } else {
            None
        }),
{
    if block < 12 {
        let b: u32 = inode.i_block[block as usize];
        if b == 0 {
            None
        } else {
            Some(b)
        }
    } else {
        None
    }
}

} // verus!
