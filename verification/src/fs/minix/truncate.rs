//! Giving back the blocks past the end of a file.

use super::bitmap::{block_freed, free_block};
use super::inode_ops::block_number;
use crate::bytes::{get_le16, least, put_le16, with_le16};
use crate::fs::buffer::{only_read, wrote_back, BufferCache};
use crate::fs::inode::{Inode, NIL};
use crate::fs::super_block::SuperBlock;
use crate::fs::{Blocks, Fs};
use vstd::prelude::*;

verus! {

/// From the cache `k0` to the cache `k` the blocks of the inode's own numbers `z` from
/// `n` on are given back, and the numbers are `z1`.
pub open spec fn trunc_direct_did(
    k0: &BufferCache,
    k: &BufferCache,
    s: SuperBlock,
    z: Seq<u16>,
    z1: Seq<u16>,
    n: int,
) -> bool
    decreases 7 - n,
{
    if n >= 7 {
        *k == *k0 && z1 == z
    } else if z[n] == 0 {
        trunc_direct_did(k0, k, s, z, z1, n + 1)
    } else {
        exists|m: BufferCache|
            {
                &&& #[trigger] block_freed(k0, &m, s, z[n] as int)
                &&& trunc_direct_did(&m, k, s, z.update(n, 0u16), z1, n + 1)
            }
    }
}

/// The blocks with number `nr` of the block of numbers `ind` set to zero.
pub open spec fn entry_cleared(c: Blocks, dev: u16, ind: int, nr: int) -> Blocks {
    let key = (dev, ind as u32);
    c.insert(key, with_le16(c[key], 2 * nr, 0u16))
}

/// From the cache `k0` to the cache `k` number `nr` of the block of numbers `ind` is set
/// to zero, where there is that block.
pub open spec fn entry_zeroed(k0: &BufferCache, k: &BufferCache, dev: u16, ind: int, nr: int) -> bool {
    &&& k.content() == (if k0.content().dom().contains((dev, ind as u32)) {
        entry_cleared(k0.content(), dev, ind, nr)
    } else {
        k0.content()
    })
    &&& wrote_back(k0, k)
}

/// From the cache `k0` to the cache `k` number `nr` of the block of numbers `ind` is set
/// to zero, and the block `x` that it gave is given back.
pub open spec fn entry_freed(
    k0: &BufferCache,
    k: &BufferCache,
    s: SuperBlock,
    dev: u16,
    ind: int,
    nr: int,
    x: int,
) -> bool {
    exists|m: BufferCache|
        #[trigger] entry_zeroed(k0, &m, dev, ind, nr) && block_freed(&m, k, s, x)
}

/// From the cache `k0` to the cache `k` the block of number `nr` in the block `ind` is
/// given back, where there is one.
pub open spec fn entry_done(
    k0: &BufferCache,
    k: &BufferCache,
    s: SuperBlock,
    dev: u16,
    ind: int,
    nr: int,
) -> bool {
    let x = block_number(k0.content(), dev, ind, nr);
    exists|m: BufferCache|
        {
            &&& #[trigger] only_read(k0, &m)
            &&& if x == 0 {
                *k == m
            } else {
                entry_freed(&m, k, s, dev, ind, nr, x)
            }
        }
}

/// From the cache `k0` to the cache `k` the blocks of the numbers in the block `ind` from
/// `n` on are given back.
pub open spec fn trunc_entries_did(
    k0: &BufferCache,
    k: &BufferCache,
    s: SuperBlock,
    dev: u16,
    ind: int,
    n: int,
) -> bool
    decreases 512 - n,
{
    if n >= 512 {
        *k == *k0
    } else {
        exists|m: BufferCache|
            {
                &&& #[trigger] entry_done(k0, &m, s, dev, ind, n)
                &&& trunc_entries_did(&m, k, s, dev, ind, n + 1)
            }
    }
}

/// No number is left in the block `ind`.
pub open spec fn no_entries(c: Blocks, dev: u16, ind: int) -> bool {
    forall|k: int| 0 <= k < 512 ==> #[trigger] block_number(c, dev, ind, k) == 0
}

/// From the cache `k0` to the cache `k` what is past number `first` in the block of
/// numbers `ind` is given back; `free` says whether that block is no longer needed. One
/// that cannot be read is left alone.
pub open spec fn trunc_indirect_did(
    k0: &BufferCache,
    k: &BufferCache,
    s: SuperBlock,
    dev: u16,
    first: int,
    ind: int,
    free: bool,
) -> bool {
    if !k0.content().dom().contains((dev, ind as u32)) {
        !free && only_read(k0, k)
    } else {
        exists|a: BufferCache, b: BufferCache|
            {
                &&& #[trigger] only_read(k0, &a)
                &&& #[trigger] trunc_entries_did(
                    &a,
                    &b,
                    s,
                    dev,
                    ind,
                    least(first, 512),
                )
                &&& only_read(&b, k)
                &&& free == no_entries(b.content(), dev, ind)
            }
    }
}

/// From the cache `k0` to the cache `k` what is past number `inner` in the block of
/// number `n` of the block `dind` is given back, and that block too where it is no
/// longer needed.
pub open spec fn mid_done(
    k0: &BufferCache,
    k: &BufferCache,
    s: SuperBlock,
    dev: u16,
    dind: int,
    n: int,
    inner: int,
) -> bool {
    let mid = block_number(k0.content(), dev, dind, n);
    exists|a: BufferCache|
        {
            &&& #[trigger] only_read(k0, &a)
            &&& if mid == 0 {
                *k == a
            } else {
                exists|b: BufferCache, free: bool|
                    {
                        &&& #[trigger] trunc_indirect_did(&a, &b, s, dev, inner, mid, free)
                        &&& if free {
                            entry_freed(&b, k, s, dev, dind, n, mid)
                        } else {
                            *k == b
                        }
                    }
            }
        }
}

/// From the cache `k0` to the cache `k` what is behind the numbers in the block `dind`
/// from `n` on is given back, in the first of them from its number `inner` on.
pub open spec fn trunc_mids_did(
    k0: &BufferCache,
    k: &BufferCache,
    s: SuperBlock,
    dev: u16,
    dind: int,
    n: int,
    inner: int,
) -> bool
    decreases 512 - n,
{
    if n >= 512 {
        *k == *k0
    } else {
        exists|m: BufferCache|
            {
                &&& #[trigger] mid_done(k0, &m, s, dev, dind, n, inner)
                &&& trunc_mids_did(&m, k, s, dev, dind, n + 1, 0)
            }
    }
}

/// From the cache `k0` to the cache `k` what is past block `first` of the part of a file
/// that is reached over two blocks of numbers is given back. The inode's own numbers were
/// `z` and are `z1`.
pub open spec fn trunc_dindirect_did(
    k0: &BufferCache,
    k: &BufferCache,
    s: SuperBlock,
    dev: u16,
    z: Seq<u16>,
    z1: Seq<u16>,
    first: int,
) -> bool {
    let dind = z[8] as int;
    if dind == 0 {
        *k == *k0 && z1 == z
    } else if !k0.content().dom().contains((dev, dind as u32)) {
        only_read(k0, k) && z1 == z
    } else {
        exists|a: BufferCache, b: BufferCache, e: BufferCache|
            {
                &&& #[trigger] only_read(k0, &a)
                &&& #[trigger] trunc_mids_did(&a, &b, s, dev, dind, first / 512, first % 512)
                &&& #[trigger] only_read(&b, &e)
                &&& if no_entries(b.content(), dev, dind) {
                    block_freed(&e, k, s, dind) && z1 == z.update(8, 0u16)
                } else {
                    *k == e && z1 == z
                }
            }
    }
}

/// From the cache `k0` to the cache `k` what is past block `first` of the part of a file
/// that is reached over one block of numbers is given back. The inode's own numbers were
/// `z` and are `z1`.
pub open spec fn trunc_single_did(
    k0: &BufferCache,
    k: &BufferCache,
    s: SuperBlock,
    dev: u16,
    z: Seq<u16>,
    z1: Seq<u16>,
    first: int,
) -> bool {
    if z[7] == 0 {
        *k == *k0 && z1 == z
    } else {
        exists|a: BufferCache, free: bool|
            {
                &&& #[trigger] trunc_indirect_did(k0, &a, s, dev, first, z[7] as int, free)
                &&& if free {
                    block_freed(&a, k, s, z[7] as int) && z1 == z.update(7, 0u16)
                } else {
                    *k == a && z1 == z
                }
            }
    }
}

/// How many of `keep` blocks lie past the first `n`.
pub open spec fn past(keep: int, n: int) -> int {
    if keep < n {
        0
    } else {
        keep - n
    }
}

/// From the cache `k0` to the cache `k` all blocks of a file from `keep` on are given
/// back. The inode's own numbers were `z` and are `z1`.
pub open spec fn trunc_did(
    k0: &BufferCache,
    k: &BufferCache,
    s: SuperBlock,
    dev: u16,
    z: Seq<u16>,
    z1: Seq<u16>,
    keep: int,
) -> bool {
    exists|a: BufferCache, za: Seq<u16>, b: BufferCache, zb: Seq<u16>|
        {
            &&& #[trigger] trunc_direct_did(
                k0,
                &a,
                s,
                z,
                za,
                least(keep, 7),
            )
            &&& #[trigger] trunc_single_did(
                &a,
                &b,
                s,
                dev,
                za,
                zb,
                past(keep, 7),
            )
            &&& trunc_dindirect_did(
                &b,
                k,
                s,
                dev,
                zb,
                z1,
                past(keep, 519),
            )
        }
}

/// How many blocks a file of that size has.
pub open spec fn blocks_for(size: int) -> int {
    (size + 1023) / 1024
}

/// Inode `i` is `i0` cut to its size: it has the numbers `z`, and was changed
/// now.
pub open spec fn truncated(i0: Inode, i: Inode, z: Seq<u16>, now: u32) -> bool {
    i == (Inode { data: i.data, i_mtime: now, i_ctime: now, i_dirt: true, ..i0 }) && i.data@ == z
}

fn trunc_direct(fs: &mut Fs, n: usize, first: u32)
    requires
        old(fs).wf(),
        n < 64,
        old(fs).inodes@[n as int].i_sb != NIL,
    ensures
        final(fs).wf(),
        *final(fs) == (Fs { cache: final(fs).cache, inodes: final(fs).inodes, ..*old(fs) }),
        final(fs).inodes@ == old(fs).inodes@.update(n as int, final(fs).inodes@[n as int]),
        ({
            let i0 = old(fs).inodes@[n as int];
            let i = final(fs).inodes@[n as int];
            &&& trunc_direct_did(
                &old(fs).cache,
                &final(fs).cache,
                old(fs).supers@[i0.i_sb as int],
                i0.data@,
                i.data@,
                least(first as int, 7),
            )
            &&& i == (Inode { data: i.data, i_dirt: i.i_dirt, ..i0 })
        }),
{
    let sb_nr: usize = fs.inodes[n].i_sb;
    let ghost i0 = fs.inodes@[n as int];
    let ghost s = fs.supers@[sb_nr as int];
    let start: usize = if first < 7 {
        first as usize
    } else {
        7
    };
    let mut k: usize = start;
    while k < 7
        invariant
            fs.wf(),
            n < 64,
            start <= k <= 7,
            sb_nr == i0.i_sb,
            sb_nr != NIL,
            i0.links_ok(),
            i0 == old(fs).inodes@[n as int],
            old(fs).inodes@.len() == 64,
            s == fs.supers@[sb_nr as int],
            *fs == (Fs { cache: fs.cache, inodes: fs.inodes, ..*old(fs) }),
            fs.inodes@ == old(fs).inodes@.update(n as int, fs.inodes@[n as int]),
            fs.inodes@[n as int] == (Inode {
                data: fs.inodes@[n as int].data,
                i_dirt: fs.inodes@[n as int].i_dirt,
                ..i0
            }),
            forall|b: BufferCache, zb: Seq<u16>|
                #[trigger] trunc_direct_did(
                    &fs.cache,
                    &b,
                    s,
                    fs.inodes@[n as int].data@,
                    zb,
                    k as int,
                ) ==> trunc_direct_did(&old(fs).cache, &b, s, i0.data@, zb, start as int),
        decreases 7 - k,
    {
        let ghost k0 = fs.cache;
        let ghost z0 = fs.inodes@[n as int].data@;
        let z: u16 = fs.inodes[n].data[k];
        if z != 0 {
            fs.inodes[n].data[k] = 0;
            assert(fs.inodes@[n as int].data@ =~= z0.update(k as int, 0u16));
            free_block(fs, sb_nr, z as u32);
            fs.inodes[n].i_dirt = true;
            assert(fs.inodes@ =~= old(fs).inodes@.update(n as int, fs.inodes@[n as int]));
            assert(block_freed(&k0, &fs.cache, s, z0[k as int] as int));
        }
        proof {
            assert forall|b: BufferCache, zb: Seq<u16>|
                #[trigger] trunc_direct_did(
                    &fs.cache,
                    &b,
                    s,
                    fs.inodes@[n as int].data@,
                    zb,
                    k + 1,
                ) implies trunc_direct_did(&old(fs).cache, &b, s, i0.data@, zb, start as int) by {
                assert(trunc_direct_did(&k0, &b, s, z0, zb, k as int));
            }
        }
        k = k + 1;
    }
    assert(trunc_direct_did(
        &fs.cache,
        &fs.cache,
        s,
        fs.inodes@[n as int].data@,
        fs.inodes@[n as int].data@,
        7,
    ));
    assert(fs.inodes@ =~= old(fs).inodes@.update(n as int, fs.inodes@[n as int]));
}

/// Sets a number in a block of numbers to zero.
fn clear_entry(fs: &mut Fs, dev: u16, ind: u32, nr: u32)
    requires
        old(fs).wf(),
        nr < 512,
    ensures
        final(fs).wf(),
        *final(fs) == (Fs { cache: final(fs).cache, ..*old(fs) }),
        entry_zeroed(&old(fs).cache, &final(fs).cache, dev, ind as int, nr as int),
{
    match fs.cache.read_block(dev, ind) {
        None => {},
        Some(mut data) => {
            put_le16(&mut data, nr as usize * 2, 0);
            let ok: bool = fs.cache.write_block(dev, ind, data.as_slice());
        },
    }
}

/// Whether no number is left in a block of numbers.
fn all_zero(fs: &mut Fs, dev: u16, ind: u32) -> (r: bool)
    requires
        old(fs).wf(),
    ensures
        final(fs).wf(),
        *final(fs) == (Fs { cache: final(fs).cache, ..*old(fs) }),
        only_read(&old(fs).cache, &final(fs).cache),
        r == no_entries(old(fs).blocks(), dev, ind as int),
{
    if ind == 0 {
        return true;
    }
    match fs.cache.read_block(dev, ind) {
        None => true,
        Some(data) => {
            for k in 0..512usize
                invariant
                    data@.len() == 1024,
                    ind != 0,
                    fs.blocks().dom().contains((dev, ind)),
                    data@ == fs.blocks()[(dev, ind)],
                    forall|j: int|
                        0 <= j < k ==> #[trigger] block_number(fs.blocks(), dev, ind as int, j) == 0,
                    fs.wf(),
                    only_read(&old(fs).cache, &fs.cache),
                    *fs == (Fs { cache: fs.cache, ..*old(fs) }),
            {
                if get_le16(data.as_slice(), 2 * k) != 0 {
                    assert(block_number(fs.blocks(), dev, ind as int, k as int) != 0);
                    return false;
                }
            }
            true
        },
    }
}

fn trunc_indirect(fs: &mut Fs, n: usize, first: u32, ind: u32) -> (free: bool)
    requires
        old(fs).wf(),
        n < 64,
        ind != 0,
        old(fs).inodes@[n as int].i_sb != NIL,
    ensures
        final(fs).wf(),
        *final(fs) == (Fs { cache: final(fs).cache, ..*old(fs) }),
        ({
            let i0 = old(fs).inodes@[n as int];
            trunc_indirect_did(
                &old(fs).cache,
                &final(fs).cache,
                old(fs).supers@[i0.i_sb as int],
                i0.i_dev,
                first as int,
                ind as int,
                free,
            )
        }),
{
    let sb_nr: usize = fs.inodes[n].i_sb;
    let dev: u16 = fs.inodes[n].i_dev;
    let ghost s = fs.supers@[sb_nr as int];
    match fs.cache.read_block(dev, ind) {
        None => {
            return false;
        },
        Some(data) => {},
    }
    let ghost ka = fs.cache;
    assert(only_read(&old(fs).cache, &ka));
    let start: u32 = if first < 512 {
        first
    } else {
        512
    };
    let mut k: u32 = start;
    while k < 512
        invariant
            fs.wf(),
            start <= k <= 512,
            ind != 0,
            sb_nr < 4,
            s == fs.supers@[sb_nr as int],
            *fs == (Fs { cache: fs.cache, ..*old(fs) }),
            forall|b: BufferCache|
                #[trigger] trunc_entries_did(&fs.cache, &b, s, dev, ind as int, k as int)
                    ==> trunc_entries_did(&ka, &b, s, dev, ind as int, start as int),
        decreases 512 - k,
    {
        let ghost k0 = fs.cache;
        let z: u32 = super::inode_ops::block_bmap(fs, dev, ind, k);
        let ghost k1 = fs.cache;
        assert(only_read(&k0, &k1));
        if z != 0 {
            clear_entry(fs, dev, ind, k);
            let ghost k2 = fs.cache;
            free_block(fs, sb_nr, z);
            assert(entry_zeroed(&k1, &k2, dev, ind as int, k as int));
            assert(entry_freed(&k1, &fs.cache, s, dev, ind as int, k as int, z as int));
        }
        proof {
            assert(entry_done(&k0, &fs.cache, s, dev, ind as int, k as int));
            assert forall|b: BufferCache|
                #[trigger] trunc_entries_did(&fs.cache, &b, s, dev, ind as int, k + 1)
                implies trunc_entries_did(&ka, &b, s, dev, ind as int, start as int) by {
                assert(trunc_entries_did(&k0, &b, s, dev, ind as int, k as int));
            }
        }
        k = k + 1;
    }
    let ghost kb = fs.cache;
    assert(trunc_entries_did(&kb, &kb, s, dev, ind as int, 512));
    assert(trunc_entries_did(&ka, &kb, s, dev, ind as int, start as int));
    let free: bool = all_zero(fs, dev, ind);
    assert(only_read(&kb, &fs.cache));
    assert(start == least(first as int, 512));
    free
}

fn trunc_dindirect(fs: &mut Fs, n: usize, first: u32)
    requires
        old(fs).wf(),
        n < 64,
        old(fs).inodes@[n as int].i_sb != NIL,
    ensures
        final(fs).wf(),
        *final(fs) == (Fs { cache: final(fs).cache, inodes: final(fs).inodes, ..*old(fs) }),
        final(fs).inodes@ == old(fs).inodes@.update(n as int, final(fs).inodes@[n as int]),
        ({
            let i0 = old(fs).inodes@[n as int];
            let i = final(fs).inodes@[n as int];
            &&& trunc_dindirect_did(
                &old(fs).cache,
                &final(fs).cache,
                old(fs).supers@[i0.i_sb as int],
                i0.i_dev,
                i0.data@,
                i.data@,
                first as int,
            )
            &&& i == (Inode { data: i.data, i_dirt: i.i_dirt, ..i0 })
        }),
{
    let dind: u32 = fs.inodes[n].data[8] as u32;
    let ghost i0 = fs.inodes@[n as int];
    if dind == 0 {
        assert(fs.inodes@ =~= old(fs).inodes@.update(n as int, fs.inodes@[n as int]));
        return;
    }
    let sb_nr: usize = fs.inodes[n].i_sb;
    let dev: u16 = fs.inodes[n].i_dev;
    let ghost s = fs.supers@[sb_nr as int];
    match fs.cache.read_block(dev, dind) {
        None => {
            assert(fs.inodes@ =~= old(fs).inodes@.update(n as int, fs.inodes@[n as int]));
            return;
        },
        Some(data) => {},
    }
    let ghost ka = fs.cache;
    assert(only_read(&old(fs).cache, &ka));
    let start: u32 = first / 512;
    let mut k: u32 = start;
    let mut inner: u32 = first % 512;
    while k < 512
        invariant
            fs.wf(),
            n < 64,
            start <= k,
            start == first / 512,
            dind != 0,
            sb_nr < 4,
            i0 == fs.inodes@[n as int],
            i0.i_sb == sb_nr,
            i0.i_dev == dev,
            s == fs.supers@[sb_nr as int],
            *fs == (Fs { cache: fs.cache, ..*old(fs) }),
            forall|b: BufferCache|
                #[trigger] trunc_mids_did(
                    &fs.cache,
                    &b,
                    s,
                    dev,
                    dind as int,
                    k as int,
                    inner as int,
                ) ==> trunc_mids_did(
                    &ka,
                    &b,
                    s,
                    dev,
                    dind as int,
                    first as int / 512,
                    first as int % 512,
                ),
        decreases 512 - k,
    {
        let ghost k0 = fs.cache;
        let mid: u32 = super::inode_ops::block_bmap(fs, dev, dind, k);
        let ghost k1 = fs.cache;
        assert(only_read(&k0, &k1));
        if mid != 0 {
            let free: bool = trunc_indirect(fs, n, inner, mid);
            let ghost k2 = fs.cache;
            assert(trunc_indirect_did(&k1, &k2, s, dev, inner as int, mid as int, free));
            if free {
                clear_entry(fs, dev, dind, k);
                let ghost k3 = fs.cache;
                free_block(fs, sb_nr, mid);
                assert(entry_zeroed(&k2, &k3, dev, dind as int, k as int));
                assert(entry_freed(&k2, &fs.cache, s, dev, dind as int, k as int, mid as int));
            }
        }
        proof {
            assert(mid_done(&k0, &fs.cache, s, dev, dind as int, k as int, inner as int));
            assert forall|b: BufferCache|
                #[trigger] trunc_mids_did(&fs.cache, &b, s, dev, dind as int, k + 1, 0)
                implies trunc_mids_did(
                &ka,
                &b,
                s,
                dev,
                dind as int,
                first as int / 512,
                first as int % 512,
            ) by {
                assert(trunc_mids_did(&k0, &b, s, dev, dind as int, k as int, inner as int));
            }
        }
        k = k + 1;
        inner = 0;
    }
    let ghost kb = fs.cache;
    proof {
        assert(trunc_mids_did(&kb, &kb, s, dev, dind as int, k as int, inner as int));
        assert(trunc_mids_did(
            &ka,
            &kb,
            s,
            dev,
            dind as int,
            first as int / 512,
            first as int % 512,
        ));
    }
    let empty: bool = all_zero(fs, dev, dind);
    assert(only_read(&kb, &fs.cache));
    if empty {
        fs.inodes[n].data[8] = 0;
        assert(fs.inodes@[n as int].data@ =~= i0.data@.update(8, 0u16));
        free_block(fs, sb_nr, dind);
        fs.inodes[n].i_dirt = true;
    }
    assert(fs.inodes@ =~= old(fs).inodes@.update(n as int, fs.inodes@[n as int]));
}

/// Cuts inode `n` to its size: gives back every block past the end.
pub fn truncate(fs: &mut Fs, n: usize)
    requires
        old(fs).wf(),
        n < 64,
        old(fs).inodes@[n as int].i_sb != NIL,
    ensures
        final(fs).wf(),
        *final(fs) == (Fs { cache: final(fs).cache, inodes: final(fs).inodes, ..*old(fs) }),
        final(fs).inodes@ == old(fs).inodes@.update(n as int, final(fs).inodes@[n as int]),
        ({
            let i0 = old(fs).inodes@[n as int];
            let z1 = final(fs).inodes@[n as int].data@;
            &&& trunc_did(
                &old(fs).cache,
                &final(fs).cache,
                old(fs).supers@[i0.i_sb as int],
                i0.i_dev,
                i0.data@,
                z1,
                blocks_for(i0.i_size as int),
            )
            &&& truncated(i0, final(fs).inodes@[n as int], z1, old(fs).now)
        }),
{
    let size: u64 = fs.inodes[n].i_size as u64;
    let keep: u32 = ((size + 1023) / 1024) as u32;
    let sb_nr: usize = fs.inodes[n].i_sb;
    let ghost s = fs.supers@[sb_nr as int];
    let ghost dev = fs.inodes@[n as int].i_dev;
    trunc_direct(fs, n, keep);
    let ghost ka = fs.cache;
    let ghost za = fs.inodes@[n as int].data@;
    let ind_first: u32 = if keep < 7 {
        0
    } else {
        keep - 7
    };
    let ind: u16 = fs.inodes[n].data[7];
    if ind != 0 {
        let free: bool = trunc_indirect(fs, n, ind_first, ind as u32);
        assert(trunc_indirect_did(&ka, &fs.cache, s, dev, ind_first as int, ind as int, free));
        if free {
            fs.inodes[n].data[7] = 0;
            assert(fs.inodes@[n as int].data@ =~= za.update(7, 0u16));
            free_block(fs, sb_nr, ind as u32);
            fs.inodes[n].i_dirt = true;
        }
    }
    assert(fs.inodes@ =~= old(fs).inodes@.update(n as int, fs.inodes@[n as int]));
    let ghost kb = fs.cache;
    let ghost zb = fs.inodes@[n as int].data@;
    assert(keep as int == blocks_for(size as int) && ind_first == past(keep as int, 7));
    assert(trunc_direct_did(&old(fs).cache, &ka, s, old(fs).inodes@[n as int].data@, za, least(keep as int, 7)));
    assert(trunc_single_did(&ka, &kb, s, dev, za, zb, ind_first as int));
    let dind_first: u32 = if keep < 519 {
        0
    } else {
        keep - 519
    };
    trunc_dindirect(fs, n, dind_first);
    assert(trunc_dindirect_did(
        &kb,
        &fs.cache,
        s,
        dev,
        zb,
        fs.inodes@[n as int].data@,
        dind_first as int,
    ));
    let now: u32 = fs.now;
    fs.inodes[n].i_mtime = now;
    fs.inodes[n].i_ctime = now;
    fs.inodes[n].i_dirt = true;
    assert(fs.inodes@ =~= old(fs).inodes@.update(n as int, fs.inodes@[n as int]));
}

} // verus!
