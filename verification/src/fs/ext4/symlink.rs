//! Symbolic links. A short target stands in the inode itself, a long one in the
//! first block of the file.

use super::ops::full::{bmap, has_buffer, inode_bytes, mapped, read_inode_iblock};
use crate::bytes::{copy_range, least};
use crate::fs::inode::{Inode, NIL};
use crate::fs::Fs;
use vstd::prelude::*;

verus! {

/// The shortest target that does not fit into the inode.
pub const LONG_TARGET: u32 = 60;
/// The longest target that is read.
pub const MAX_TARGET: usize = 256;

/// Where the link of inode `i` leads to, where that can be read.
pub open spec fn target_of(fs: &Fs, i: Inode) -> Option<Seq<u8>> {
    let c = fs.blocks();
    if i.i_sb == NIL {
        None
    } else if i.i_size < LONG_TARGET {
        match inode_bytes(c, fs.supers@, fs.ext4@, i) {
            None => None,
            Some(d) => Some(d.subrange(40, 100).subrange(0, i.i_size as int)),
        }
    } else if !has_buffer(c, fs.supers@, fs.ext4@, i, 0) {
        None
    } else {
        let key = (fs.supers@[i.i_sb as int].s_dev, mapped(c, fs.supers@, fs.ext4@, i, 0));
        Some(c[key].subrange(0, least(i.i_size as int, MAX_TARGET as int)))
    }
}

/// Reads where a link leads to.
pub fn read_symlink(fs: &mut Fs, ip: usize) -> (r: Option<Vec<u8>>)
    requires
        old(fs).wf(),
        ip < 64,
    ensures
        final(fs).wf(),
        *final(fs) == (Fs { cache: final(fs).cache, ..*old(fs) }),
        final(fs).blocks() == old(fs).blocks(),
        match target_of(old(fs), old(fs).inodes@[ip as int]) {
            None => r is None,
            Some(t) => r is Some && r->0@ == t,
        },
{
    let sb_nr: usize = fs.inodes[ip].i_sb;
    if sb_nr == NIL {
        return None;
    }
    let size: u32 = fs.inodes[ip].i_size;
    if size < LONG_TARGET {
        return match read_inode_iblock(fs, ip) {
            None => None,
            Some(ib) => {
                Some(copy_range(ib.as_slice(), 0, size as usize))
            },
        };
    }
    let b: u32 = bmap(fs, ip, 0, false);
    if b == 0 {
        return None;
    }
    let dev: u16 = fs.supers[sb_nr].s_dev;
    match fs.cache.read_block(dev, b) {
        None => None,
        Some(data) => {
            let n: usize = if (size as usize) < MAX_TARGET {
                size as usize
            } else {
                MAX_TARGET
            };
            Some(copy_range(data.as_slice(), 0, n))
        },
    }
}

} // verus!
