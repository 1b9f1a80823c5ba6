//! Writing a device out: super blocks, inodes and blocks.

use crate::fs::buffer::failed;
use crate::fs::inode::{sync_inodes, synced_to, Inode};
use crate::fs::super_block::{supers_settled, supers_synced, sync_supers, SuperBlock};
use crate::fs::{Blocks, Fs};
use vstd::prelude::*;

verus! {

/// The inode table after the inodes of a device (of all devices, where `dev` is
/// zero) were written out.
pub open spec fn inodes_settled(s: Seq<Inode>, dev: u16) -> Seq<Inode> {
    Seq::new(
        64,
        |n: int|
            if s[n].in_use && (dev == 0 || s[n].i_dev == dev) {
                Inode { i_dirt: false, ..s[n] }
            } else {
                s[n]
            },
    )
}

/// The blocks after the super blocks and inodes of a device were written out.
pub open spec fn dev_synced(c: Blocks, supers: Seq<SuperBlock>, inodes: Seq<Inode>, dev: u16) -> Blocks {
    synced_to(
        supers_synced(c, supers, dev, 4),
        supers_settled(supers, dev),
        inodes,
        dev,
        64,
    )
}

/// Everything of the device that reads give is what the device holds.
pub open spec fn is_flushed(fs: &Fs, dev: u16) -> bool {
    forall|k: (u16, u32)|
        (dev == 0 || k.0 == dev) && #[trigger] fs.blocks().dom().contains(k)
            ==> fs.cache.stored()[k] == fs.blocks()[k]
}

/// The state of `fs` is that of `fs0`, with the blocks `c`, after device `dev` was
/// written out.
pub open spec fn synced_from(fs0: &Fs, c: Blocks, fs: &Fs, dev: u16) -> bool {
    &&& *fs == (Fs { cache: fs.cache, inodes: fs.inodes, supers: fs.supers, ..*fs0 })
    &&& fs.blocks() == dev_synced(c, fs0.supers@, fs0.inodes@, dev)
    &&& fs.supers@ == supers_settled(fs0.supers@, dev)
    &&& fs.inodes@ == inodes_settled(fs0.inodes@, dev)
    &&& is_flushed(fs, dev)
}

/// The state of `fs` is that of `fs0` after device `dev` was written out.
pub open spec fn is_synced(fs0: &Fs, fs: &Fs, dev: u16) -> bool {
    synced_from(fs0, fs0.blocks(), fs, dev)
}

/// Writes a device out (all devices, where `dev` is zero).
pub fn sync_dev(fs: &mut Fs, dev: u16)
    requires
        old(fs).wf(),
    ensures
        final(fs).wf(),
        is_synced(old(fs), final(fs), dev),
{
    let e1: bool = fs.cache.flush(dev, false);
    sync_supers(fs, dev);
    sync_inodes(fs, dev);
    let e2: bool = fs.cache.flush(dev, false);
    assert(fs.inodes@ =~= inodes_settled(old(fs).inodes@, dev));
}

/// Writes a device out and answers whether a transfer failed.
pub fn fsync_dev(fs: &mut Fs, dev: u16) -> (r: bool)
    requires
        old(fs).wf(),
    ensures
        final(fs).wf(),
        is_synced(old(fs), final(fs), dev),
        r == exists|i: int| 0 <= i < 64 && failed(#[trigger] final(fs).cache.bufs()[i], dev),
{
    let e1: bool = fs.cache.flush(dev, false);
    sync_supers(fs, dev);
    sync_inodes(fs, dev);
    let err: bool = fs.cache.flush(dev, true);
    assert(fs.inodes@ =~= inodes_settled(old(fs).inodes@, dev));
    err
}

} // verus!
