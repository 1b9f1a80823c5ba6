//! Inodes of the second extended file system in the inode table. They are never
//! read or written: those of a dirty inode are only marked as clean.

use crate::fs::inode::{FsType, Inode};
use crate::fs::Fs;
use vstd::prelude::*;

verus! {

/// The longest name in a directory.
pub const EXT2_NAME_LEN: usize = 255;

/// Marks an inode as clean, if it is of this file system.
pub fn write_inode(fs: &mut Fs, n: usize)
    requires
        old(fs).wf(),
        n < 64,
    ensures
        final(fs).wf(),
        *final(fs) == (Fs { inodes: final(fs).inodes, ..*old(fs) }),
        final(fs).inodes@ == if old(fs).inodes@[n as int].i_op == FsType::Ext2 {
            old(fs).inodes@.update(n as int, Inode { i_dirt: false, ..old(fs).inodes@[n as int] })
        } else {
            old(fs).inodes@
        },
{
    if fs.inodes[n].i_op != FsType::Ext2 {
        return;
    }
    if fs.inodes[n].i_dirt {
        fs.inodes[n].i_dirt = false;
    }
    assert(fs.inodes@ =~= old(fs).inodes@.update(
        n as int,
        Inode { i_dirt: false, ..old(fs).inodes@[n as int] },
    ));
}

} // verus!
