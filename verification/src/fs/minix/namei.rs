//! Names in directories.

use super::dir::{entry_ino, lemma_entry_in_block, sizes_ok};
use super::file::file_byte;
use super::inode_ops::{get_block, got, lemma_got_is_mapped, mapped, minix_bread, renumbered};
use crate::bytes::{get_le16, le16, overlay, padded, put_le16, with_le16};
use crate::errno::{EEXIST, EIO, ENAMETOOLONG, ENOENT, ENOSPC};
use crate::fs::inode::{Inode, NIL};
use crate::fs::super_block::SuperBlock;
use crate::fs::{Blocks, Fs};
use vstd::prelude::*;

verus! {

// ---- looking names up ----

/// The name in the entry that starts at `o` in a block is `name`: these bytes,
/// and it ends there.
pub open spec fn name_at(d: Seq<u8>, o: int, name: Seq<u8>, max: int) -> bool {
    &&& name.len() <= max
    &&& forall|i: int| 0 <= i < name.len() ==> d[o + 2 + i] == #[trigger] name[i]
    &&& name.len() == max || d[o + 2 + name.len()] == 0
}

/// Whether the name of an entry, without its inode number, is `name`.
pub fn namecompare(name: &[u8], entry: &[u8], maxlen: usize) -> (r: bool)
    ensures
        r == {
            &&& name@.len() <= maxlen
            &&& name@.len() <= entry@.len()
            &&& forall|i: int| 0 <= i < name@.len() ==> entry@[i] == #[trigger] name@[i]
            &&& name@.len() == maxlen || name@.len() >= entry@.len() || entry@[name@.len() as int]
                == 0
        },
{
    let len: usize = name.len();
    if len > maxlen {
        return false;
    }
    if entry.len() < len {
        return false;
    }
    let mut i: usize = 0;
    while i < len
        invariant
            i <= len == name@.len(),
            len <= entry@.len(),
            forall|k: int| 0 <= k < i ==> entry@[k] == #[trigger] name@[k],
        decreases len - i,
    {
        if entry[i] != name[i] {
            assert(entry@[i as int] != name@[i as int]);
            return false;
        }
        i = i + 1;
    }
    len == maxlen || len >= entry.len() || entry[len] == 0
}

/// Whether the name in the entry that starts at `o` in a block is `name`.
fn name_here(data: &Vec<u8>, o: usize, name: &[u8], max: usize) -> (r: bool)
    requires
        data@.len() == 1024,
        o + 2 + max <= 1024,
    ensures
        r == name_at(data@, o as int, name@, max as int),
{
    let entry: &[u8] = &data.as_slice()[o + 2..o + 2 + max];
    proof {
        assert forall|i: int| 0 <= i < max implies #[trigger] entry@[i] == data@[o + 2 + i] by {}
    }
    namecompare(name, entry, max)
}

/// The entry at `off` has that name. No name at all stands for the directory
/// itself.
pub open spec fn has_name(c: Blocks, dev: u16, z: Seq<u16>, off: int, name: Seq<u8>, max: int) -> bool {
    if name.len() == 0 {
        file_byte(c, dev, z, off + 2) == 46 && file_byte(c, dev, z, off + 3) == 0
    } else {
        &&& name.len() <= max
        &&& forall|i: int|
            0 <= i < name.len() ==> file_byte(c, dev, z, off + 2 + i) == #[trigger] name[i]
        &&& name.len() == max || file_byte(c, dev, z, off + 2 + name.len()) == 0
    }
}

/// The entry at `off` is in use and has that name.
pub open spec fn is_hit(c: Blocks, dev: u16, z: Seq<u16>, off: int, name: Seq<u8>, max: int) -> bool {
    entry_ino(c, dev, z, off) != 0 && has_name(c, dev, z, off, name, max)
}

/// Where the first entry with that name from `off` on stands.
pub open spec fn found(
    c: Blocks,
    dev: u16,
    z: Seq<u16>,
    size: int,
    max: int,
    name: Seq<u8>,
    off: int,
) -> Option<int>
    decreases
            if off < size {
                size - off
            } else {
                0
            },
    when 0 <= max
{
    if off >= size {
        None
    } else if is_hit(c, dev, z, off, name, max) {
        Some(off)
    } else {
        found(c, dev, z, size, max, name, off + max + 2)
    }
}

/// What `found` finds is there, and none before it.
pub proof fn lemma_found(
    c: Blocks,
    dev: u16,
    z: Seq<u16>,
    size: int,
    max: int,
    name: Seq<u8>,
    off: int,
)
    requires
        0 <= max,
        0 <= off,
    ensures
        match found(c, dev, z, size, max, name, off) {
            Some(o) => {
                &&& off <= o < size
                &&& exists|k: int| 0 <= k && o == off + #[trigger] (k * (max + 2))
                &&& is_hit(c, dev, z, o, name, max)
                &&& forall|k: int|
                    0 <= k && off + #[trigger] (k * (max + 2)) < o ==> !is_hit(
                        c,
                        dev,
                        z,
                        off + k * (max + 2),
                        name,
                        max,
                    )
            },
            None => forall|k: int|
                0 <= k && off + #[trigger] (k * (max + 2)) < size ==> !is_hit(
                    c,
                    dev,
                    z,
                    off + k * (max + 2),
                    name,
                    max,
                ),
        },
    decreases
            if off < size {
                size - off
            } else {
                0
            },
{
    let ds = max + 2;
    assert(0 * ds == 0);
    if off < size {
        let n = off + ds;
        if is_hit(c, dev, z, off, name, max) {
            assert(off == off + 0 * ds);
            assert forall|k: int| 0 <= k && off + #[trigger] (k * ds) < off implies !is_hit(
                c,
                dev,
                z,
                off + k * ds,
                name,
                max,
            ) by {
                assert(k * ds >= 0) by (nonlinear_arith)
                    requires
                        k >= 0,
                        ds >= 0,
                ;
            }
        } else {
            lemma_found(c, dev, z, size, max, name, n);
            let r = found(c, dev, z, size, max, name, n);
            let lim = if r is Some {
                r->0
            } else {
                size
            };
            assert forall|k: int| 0 <= k && off + #[trigger] (k * ds) < lim implies !is_hit(
                c,
                dev,
                z,
                off + k * ds,
                name,
                max,
            ) by {
                if k > 0 {
                    assert((k - 1) * ds + ds == k * ds) by (nonlinear_arith);
                    assert(n + (k - 1) * ds == off + k * ds);
                }
            }
            if r is Some {
                let k = choose|k: int| 0 <= k && r->0 == n + #[trigger] (k * ds);
                assert((k + 1) * ds == k * ds + ds) by (nonlinear_arith);
                assert(r->0 == off + (k + 1) * ds);
            }
        }
    } else {
        assert forall|k: int| 0 <= k && off + #[trigger] (k * ds) < size implies !is_hit(
            c,
            dev,
            z,
            off + k * ds,
            name,
            max,
        ) by {
            assert(k * ds >= 0) by (nonlinear_arith)
                requires
                    k >= 0,
                    ds >= 0,
            ;
        }
    }
}

/// An entry can start at `off`.
pub open spec fn aligned(off: int, max: int) -> bool {
    if max == 14 {
        off % 16 == 0
    } else {
        off % 32 == 0
    }
}

/// The entries of a block that a file does not have are not in use.
proof fn lemma_found_skips_hole(
    c: Blocks,
    dev: u16,
    z: Seq<u16>,
    size: int,
    max: int,
    name: Seq<u8>,
    off: int,
)
    requires
        0 <= off,
        max == 14 || max == 30,
        aligned(off, max),
        ({
            let b = mapped(c, dev, z, off / 1024);
            b == 0 || !c.dom().contains((dev, b as u32))
        }),
    ensures
        found(c, dev, z, size, max, name, off) == found(
            c,
            dev,
            z,
            size,
            max,
            name,
            1024 * (off / 1024 + 1),
        ),
    decreases 1024 * (off / 1024 + 1) - off,
{
    let end = 1024 * (off / 1024 + 1);
    if off < size {
        let n = off + max + 2;
        assert((off + 1) / 1024 == off / 1024);
        assert(entry_ino(c, dev, z, off) == 0);
        if n < end {
            assert(n / 1024 == off / 1024);
            lemma_found_skips_hole(c, dev, z, size, max, name, n);
        }
    }
}

/// In a block of the file, an entry is a hit as its bytes say.
pub proof fn lemma_hit_in_block(c: Blocks, dev: u16, z: Seq<u16>, off: int, name: Seq<u8>, max: int)
    requires
        0 <= off,
        2 <= max,
        off % 1024 + max + 2 <= 1024,
        ({
            let b = mapped(c, dev, z, off / 1024);
            b != 0 && c.dom().contains((dev, b as u32))
        }),
    ensures
        ({
            let d = c[(dev, mapped(c, dev, z, off / 1024) as u32)];
            let o = off % 1024;
            &&& entry_ino(c, dev, z, off) == le16(d, o)
            &&& is_hit(c, dev, z, off, name, max) == (le16(d, o) != 0 && (if name.len() == 0 {
                d[o + 2] == 46 && d[o + 3] == 0
            } else {
                name_at(d, o, name, max)
            }))
        }),
{
    let d = c[(dev, mapped(c, dev, z, off / 1024) as u32)];
    let o = off % 1024;
    lemma_entry_in_block(c, dev, z, off, 0);
    lemma_entry_in_block(c, dev, z, off, 1);
    lemma_entry_in_block(c, dev, z, off, 2);
    lemma_entry_in_block(c, dev, z, off, 3);
    assert forall|i: int| 0 <= i < max implies file_byte(c, dev, z, off + 2 + i) == #[trigger] d[o + 2
        + i] by {
        lemma_entry_in_block(c, dev, z, off, 2 + i);
    }
    if name.len() > 0 && name.len() <= max {
        if has_name(c, dev, z, off, name, max) {
            assert forall|i: int| 0 <= i < name.len() implies d[o + 2 + i] == #[trigger] name[i] by {
                assert(file_byte(c, dev, z, off + 2 + i) == d[o + 2 + i]);
            }
        }
        if name_at(d, o, name, max) {
            assert forall|i: int| 0 <= i < name.len() implies file_byte(c, dev, z, off + 2 + i)
                == #[trigger] name[i] by {
                assert(file_byte(c, dev, z, off + 2 + i) == d[o + 2 + i]);
            }
        }
        if name.len() < max {
            assert(file_byte(c, dev, z, off + 2 + name.len()) == d[o + 2 + name.len() as int]);
        }
    }
}

/// A name as it is looked up: names that are too long are cut.
pub open spec fn cut_name(name: Seq<u8>, max: int) -> Seq<u8> {
    if name.len() > max {
        name.subrange(0, max)
    } else {
        name
    }
}

/// Where inode `i` has an entry of that name.
pub open spec fn found_in(c: Blocks, s: SuperBlock, i: Inode, name: Seq<u8>) -> Option<int> {
    if i.i_sb == NIL {
        None
    } else {
        found(
            c,
            i.i_dev,
            i.data@,
            i.i_size as int,
            s.s_namelen as int,
            cut_name(name, s.s_namelen as int),
            0,
        )
    }
}

/// The sizes of entries in the file system of inode `i` are in order.
pub open spec fn dir_ok(supers: Seq<SuperBlock>, i: Inode) -> bool {
    i.i_sb != NIL ==> sizes_ok(supers[i.i_sb as int])
}

/// Finds the entry of that name in directory `dir`: the device block that it is
/// in, and where it starts there.
#[verifier::spinoff_prover]
#[verifier::rlimit(60)]
pub fn find_entry(fs: &mut Fs, dir: usize, name: &[u8]) -> (r: Option<(u32, usize)>)
    requires
        old(fs).wf(),
        dir < 64,
        dir_ok(old(fs).supers@, old(fs).inodes@[dir as int]),
    ensures
        final(fs).wf(),
        final(fs).blocks() == old(fs).blocks(),
        final(fs).inodes@ == old(fs).inodes@,
        *final(fs) == (Fs { cache: final(fs).cache, inodes: final(fs).inodes, ..*old(fs) }),
        ({
            let i = old(fs).inodes@[dir as int];
            let c = old(fs).blocks();
            match found_in(c, old(fs).supers@[i.i_sb as int], i, name@) {
                None => r is None,
                Some(off) => {
                    &&& r is Some
                    &&& 0 <= off < i.i_size
                    &&& (r->0).0 == mapped(c, i.i_dev, i.data@, off / 1024)
                    &&& (r->0).0 != 0
                    &&& (r->0).1 == off % 1024
                    &&& (r->0).1 + 16 <= 1024
                    &&& c.dom().contains((i.i_dev, (r->0).0))
                    &&& c[(i.i_dev, (r->0).0)].len() == 1024
                    &&& le16(c[(i.i_dev, (r->0).0)], (r->0).1 as int) == entry_ino(
                        c,
                        i.i_dev,
                        i.data@,
                        off,
                    )
                    &&& entry_ino(c, i.i_dev, i.data@, off) != 0
                },
            }
        }),
{
    let ghost i0 = fs.inodes@[dir as int];
    let ghost c = fs.blocks();
    let sb_nr: usize = fs.inodes[dir].i_sb;
    if sb_nr == NIL {
        return None;
    }
    let ds: usize = fs.supers[sb_nr].s_dirsize;
    let max: usize = fs.supers[sb_nr].s_namelen;
    let key: &[u8] = if name.len() > max {
        &name[0..max]
    } else {
        name
    };
    let size: u64 = fs.inodes[dir].i_size as u64;
    let ghost z = i0.data@;
    let ghost dev = i0.i_dev;
    let mut off: u64 = 0;
    while off < size
        invariant
            fs.wf(),
            dir < 64,
            ds == max + 2,
            ds == 16 || ds == 32,
            aligned(off as int, max as int),
            size == i0.i_size,
            key@ == cut_name(name@, max as int),
            i0.i_sb != NIL,
            i0.i_sb == sb_nr,
            ds == fs.supers@[i0.i_sb as int].s_dirsize,
            max == fs.supers@[i0.i_sb as int].s_namelen,
            z == i0.data@,
            dev == i0.i_dev,
            *fs == (Fs { cache: fs.cache, inodes: fs.inodes, ..*old(fs) }),
            fs.inodes@ == old(fs).inodes@,
            fs.blocks() == c,
            c == old(fs).blocks(),
            i0 == fs.inodes@[dir as int],
            found(c, dev, z, size as int, max as int, key@, 0) == found(
                c,
                dev,
                z,
                size as int,
                max as int,
                key@,
                off as int,
            ),
        decreases size + 1024 - off,
    {
        let block: u32 = (off / 1024) as u32;
        proof {
            lemma_got_is_mapped(c, fs.supers@[i0.i_sb as int], dev, z, block as int);
        }
        let got: Option<(u32, Vec<u8>)> = minix_bread(fs, dir, block, false);
        assert(fs.inodes@ =~= old(fs).inodes@);
        match got {
            None => {
                proof {
                    lemma_found_skips_hole(c, dev, z, size as int, max as int, key@, off as int);
                }
                off = (block as u64 + 1) * 1024;
            },
            Some((b, data)) => {
                let mut in_block: usize = (off % 1024) as usize;
                while in_block + ds <= 1024 && off < size
                    invariant
                        off <= size + 32,
                        size <= u32::MAX,
                        off == 1024 * block + in_block,
                        in_block <= 1024,
                        aligned(in_block as int, max as int),
                        ds == max + 2,
                        ds == 16 || ds == 32,
                        aligned(off as int, max as int),
                        data@.len() == 1024,
                        b != 0,
                        b == mapped(c, dev, z, block as int),
                        c.dom().contains((dev, b)),
                        data@ == c[(dev, b)],
                        fs.wf(),
                        size == i0.i_size,
            key@ == cut_name(name@, max as int),
                        i0.i_sb != NIL,
                        i0.i_sb == sb_nr,
                        ds == fs.supers@[i0.i_sb as int].s_dirsize,
                        max == fs.supers@[i0.i_sb as int].s_namelen,
                        z == i0.data@,
                        dev == i0.i_dev,
                        *fs == (Fs { cache: fs.cache, inodes: fs.inodes, ..*old(fs) }),
                        fs.inodes@ == old(fs).inodes@,
                        fs.blocks() == c,
                        c == old(fs).blocks(),
                        i0 == fs.inodes@[dir as int],
                        found(c, dev, z, size as int, max as int, key@, 0) == found(
                            c,
                            dev,
                            z,
                            size as int,
                            max as int,
                            key@,
                            off as int,
                        ),
                    decreases 1024 - in_block,
                {
                    assert(off / 1024 == block && off % 1024 == in_block);
                    proof {
                        lemma_hit_in_block(c, dev, z, off as int, key@, max as int);
                    }
                    let ino: u16 = get_le16(data.as_slice(), in_block);
                    if ino != 0 {
                        let hit: bool = if key.len() == 0 {
                            data[in_block + 2] == 46 && data[in_block + 3] == 0
                        } else {
                            name_here(&data, in_block, key, max)
                        };
                        if hit {
                            return Some((b, in_block));
                        }
                    }
                    in_block = in_block + ds;
                    off = off + ds as u64;
                }
                if in_block + ds > 1024 {
                    off = (block as u64 + 1) * 1024;
                }
            },
        }
    }
    None
}

// ---- adding names ----

/// How the search for a place for a new entry ended.
#[derive(Debug, Clone, Copy, PartialEq, Eq, Structural)]
pub enum AddEnd {
    /// It was put in.
    Put,
    /// The name is there already.
    Exists,
    /// A block could not be had.
    NoSpace,
    /// A block could not be read.
    Unreadable,
}

/// The first entry from `k` on in the block `d`, which starts at `base` in the
/// directory, that is free or has the name; and whether it is free. Entries past
/// the size of the directory are.
pub open spec fn slot_in(d: Seq<u8>, base: int, size: int, max: int, name: Seq<u8>, k: int) -> Option<
    (int, bool),
>
    decreases 1024 - k,
    when 0 <= k && 0 <= max
{
    if k + max + 2 > 1024 {
        None
    } else if base + k + max + 2 > size || le16(d, k) == 0 {
        Some((k, true))
    } else if name_at(d, k, name, max) {
        Some((k, false))
    } else {
        slot_in(d, base, size, max, name, k + max + 2)
    }
}

/// The block `d` with an unused entry of that name at `k`.
pub open spec fn named(d: Seq<u8>, k: int, name: Seq<u8>, max: int) -> Seq<u8> {
    overlay(with_le16(d, k, 0u16), k + 2, padded(name, max as nat))
}

/// Puts an unused entry of that name into the first place for it from file block
/// `block` on: the blocks and the numbers of the directory afterwards, how it
/// ended, and where: the device block and the offset in the directory.
pub open spec fn added(
    c: Blocks,
    s: SuperBlock,
    dev: u16,
    z: Seq<u16>,
    size: int,
    name: Seq<u8>,
    block: int,
) -> (Blocks, Seq<u16>, AddEnd, int, int)
    decreases 262663 - block,
{
    let max = s.s_namelen as int;
    let (c1, z1, b) = got(c, s, dev, z, block, true);
    let key = (dev, b as u32);
    if block >= 262663 || b == 0 {
        (c1, z1, AddEnd::NoSpace, 0, 0)
    } else if !c1.dom().contains(key) {
        (c1, z1, AddEnd::Unreadable, 0, 0)
    } else {
        match slot_in(c1[key], 1024 * block, size, max, name, 0) {
            Some((k, true)) => (
                c1.insert(key, named(c1[key], k, name, max)),
                z1,
                AddEnd::Put,
                b,
                1024 * block + k,
            ),
            Some((k, false)) => (c1, z1, AddEnd::Exists, 0, 0),
            None => added(c1, s, dev, z1, size, name, block + 1),
        }
    }
}

/// Inode `i` is the directory `i0` after an entry was added.
pub open spec fn entry_added(
    i0: Inode,
    i: Inode,
    z: Seq<u16>,
    end: AddEnd,
    off: int,
    max: int,
    now: u32,
) -> bool {
    if end == AddEnd::Put {
        &&& i == (Inode {
            data: i.data,
            i_size: if off + max + 2 > i0.i_size {
                (off + max + 2) as u32
            } else {
                i0.i_size
            },
            i_mtime: now,
            i_ctime: now,
            i_dirt: true,
            ..i0
        })
        &&& i.data@ == z
    } else {
        renumbered(i0, i, z, now)
    }
}

/// Looking a block up with `create` keeps the numbers that are there.
pub proof fn lemma_got_keeps(c: Blocks, s: SuperBlock, dev: u16, z: Seq<u16>, block: int)
    requires
        z.len() == 9,
        0 <= block,
    ensures
        ({
            let (c1, z1, b) = got(c, s, dev, z, block, true);
            &&& z1.len() == 9
            &&& forall|k: int| 0 <= k < 9 && z[k] != 0 ==> #[trigger] z1[k] == z[k]
        }),
{
    reveal(got);
}

/// Numbers that are added in two steps are added.
proof fn lemma_renumbered_trans(i0: Inode, i1: Inode, i2: Inode, now: u32)
    requires
        renumbered(i0, i1, i1.data@, now),
        renumbered(i1, i2, i2.data@, now),
        forall|k: int| 0 <= k < 9 && i0.data@[k] != 0 ==> #[trigger] i1.data@[k] == i0.data@[k],
        forall|k: int| 0 <= k < 9 && i1.data@[k] != 0 ==> #[trigger] i2.data@[k] == i1.data@[k],
    ensures
        renumbered(i0, i2, i2.data@, now),
{
    if i2.data@ == i0.data@ {
        assert forall|k: int| 0 <= k < 9 implies i1.data@[k] == i0.data@[k] by {
            if i0.data@[k] == 0 {
                assert(i2.data@[k] == 0);
            }
        }
        assert(i1.data@ =~= i0.data@);
    }
}

/// Searches a block for the first entry that is free or has the name.
fn find_slot_in(data: &Vec<u8>, base: u64, size: u64, max: usize, name: &[u8]) -> (r: Option<
    (usize, bool),
>)
    requires
        data@.len() == 1024,
        max == 14 || max == 30,
        base <= 0xFFFF_FFFF,
    ensures
        match slot_in(data@, base as int, size as int, max as int, name@, 0) {
            None => r is None,
            Some((k, free)) => r is Some && (r->0).0 == k && (r->0).1 == free && k + max + 2
                <= 1024,
        },
{
    let ds: usize = max + 2;
    let mut k: usize = 0;
    while k + ds <= 1024
        invariant
            data@.len() == 1024,
            max == 14 || max == 30,
            ds == max + 2,
            base <= 0xFFFF_FFFF,
            k <= 1024,
            slot_in(data@, base as int, size as int, max as int, name@, 0) == slot_in(
                data@,
                base as int,
                size as int,
                max as int,
                name@,
                k as int,
            ),
        decreases 1024 - k,
    {
        let ino: u16 = get_le16(data.as_slice(), k);
        if base + (k + ds) as u64 > size || ino == 0 {
            return Some((k, true));
        }
        if name_here(data, k, name, max) {
            return Some((k, false));
        }
        k = k + ds;
    }
    None
}

/// Writes an unused entry of that name at `k`.
fn write_name(data: &mut Vec<u8>, k: usize, name: &[u8], max: usize)
    requires
        old(data)@.len() == 1024,
        k + max + 2 <= 1024,
        name@.len() <= max,
    ensures
        final(data)@ == named(old(data)@, k as int, name@, max as int),
        final(data)@.len() == 1024,
{
    let ghost d0 = data@;
    put_le16(data, k, 0);
    let ghost d1 = data@;
    let mut i: usize = 0;
    while i < max
        invariant
            i <= max,
            data@.len() == 1024 == d1.len(),
            k + max + 2 <= 1024,
            name@.len() <= max,
            forall|p: int|
                0 <= p < 1024 ==> #[trigger] data@[p] == (if k + 2 <= p < k + 2 + i {
                    padded(name@, max as nat)[p - k - 2]
                } else {
                    d1[p]
                }),
        decreases max - i,
    {
        data[k + 2 + i] = if i < name.len() {
            name[i]
        } else {
            0
        };
        i = i + 1;
    }
    assert(data@ =~= named(d0, k as int, name@, max as int));
}

/// The error that a search for a place ends in.
pub open spec fn add_error(end: AddEnd) -> i32 {
    match end {
        AddEnd::Exists => EEXIST,
        AddEnd::Unreadable => EIO,
        _ => ENOSPC,
    }
}

/// Puts an unused entry of that name into directory `dir`: the device block that
/// it is in, and where it starts there.
pub fn add_entry(fs: &mut Fs, dir: usize, name: &[u8]) -> (r: Result<(u32, usize), i32>)
    requires
        old(fs).wf(),
        dir < 64,
        dir_ok(old(fs).supers@, old(fs).inodes@[dir as int]),
    ensures
        final(fs).wf(),
        *final(fs) == (Fs { cache: final(fs).cache, inodes: final(fs).inodes, ..*old(fs) }),
        final(fs).inodes@ == old(fs).inodes@.update(dir as int, final(fs).inodes@[dir as int]),
        ({
            let i0 = old(fs).inodes@[dir as int];
            let i = final(fs).inodes@[dir as int];
            let s = old(fs).supers@[i0.i_sb as int];
            if i0.i_sb == NIL || name@.len() == 0 {
                r == Err::<(u32, usize), i32>(ENOENT) && i == i0 && final(fs).blocks() == old(
                    fs,
                ).blocks()
            } else if name@.len() > s.s_namelen {
                r == Err::<(u32, usize), i32>(ENAMETOOLONG) && i == i0 && final(fs).blocks() == old(
                    fs,
                ).blocks()
            } else {
                let (c, z, end, b, off) = added(
                    old(fs).blocks(),
                    s,
                    i0.i_dev,
                    i0.data@,
                    i0.i_size as int,
                    name@,
                    0,
                );
                &&& final(fs).blocks() == c
                &&& entry_added(i0, i, z, end, off, s.s_namelen as int, old(fs).now)
                &&& r == (if end == AddEnd::Put {
                    Ok((b as u32, (off % 1024) as usize))
                } else {
                    Err(add_error(end))
                })
                &&& r is Ok ==> {
                    &&& 0 < b <= 0xFFFF && 0 <= off && off % 1024 + s.s_dirsize <= 1024
                    &&& c.dom().contains((i0.i_dev, b as u32))
                }
            }
        }),
{
    let sb_nr: usize = fs.inodes[dir].i_sb;
    if sb_nr == NIL {
        assert(fs.inodes@ =~= old(fs).inodes@.update(dir as int, fs.inodes@[dir as int]));
        return Err(ENOENT);
    }
    let max: usize = fs.supers[sb_nr].s_namelen;
    if name.len() == 0 {
        assert(fs.inodes@ =~= old(fs).inodes@.update(dir as int, fs.inodes@[dir as int]));
        return Err(ENOENT);
    }
    if name.len() > max {
        assert(fs.inodes@ =~= old(fs).inodes@.update(dir as int, fs.inodes@[dir as int]));
        return Err(ENAMETOOLONG);
    }
    let dev: u16 = fs.inodes[dir].i_dev;
    let size: u32 = fs.inodes[dir].i_size;
    let ghost i0 = fs.inodes@[dir as int];
    let ghost s = fs.supers@[sb_nr as int];
    let mut block: u32 = 0;
    assert(fs.inodes@ =~= old(fs).inodes@.update(dir as int, fs.inodes@[dir as int]));
    loop
        invariant
            fs.wf(),
            dir < 64,
            max == 14 || max == 30,
            max == s.s_namelen,
            s.s_dirsize == max + 2,
            0 < name@.len() <= max,
            block <= 262663,
            dev == i0.i_dev,
            size == i0.i_size,
            sb_nr == i0.i_sb,
            sb_nr != NIL,
            i0 == old(fs).inodes@[dir as int],
            old(fs).inodes@.len() == 64,
            s == old(fs).supers@[i0.i_sb as int],
            *fs == (Fs { cache: fs.cache, inodes: fs.inodes, ..*old(fs) }),
            fs.inodes@ == old(fs).inodes@.update(dir as int, fs.inodes@[dir as int]),
            renumbered(
                i0,
                fs.inodes@[dir as int],
                fs.inodes@[dir as int].data@,
                old(fs).now,
            ),
            forall|k: int|
                0 <= k < 9 && i0.data@[k] != 0 ==> #[trigger] fs.inodes@[dir as int].data@[k]
                    == i0.data@[k],
            added(old(fs).blocks(), s, dev, i0.data@, size as int, name@, 0) == added(
                fs.blocks(),
                s,
                dev,
                fs.inodes@[dir as int].data@,
                size as int,
                name@,
                block as int,
            ),
        decreases 262664 - block,
    {
        let ghost i1 = fs.inodes@[dir as int];
        let ghost c0 = fs.blocks();
        let b: u32 = get_block(fs, dir, block, true);
        let ghost i2 = fs.inodes@[dir as int];
        proof {
            lemma_got_keeps(c0, s, dev, i1.data@, block as int);
            lemma_renumbered_trans(i0, i1, i2, old(fs).now);
            assert(fs.inodes@ =~= old(fs).inodes@.update(dir as int, fs.inodes@[dir as int]));
            if block >= 262663 {
                reveal(got);
            }
            assert forall|k: int| 0 <= k < 9 && i0.data@[k] != 0 implies #[trigger] i2.data@[k]
                == i0.data@[k] by {
                assert(i1.data@[k] == i0.data@[k]);
            }
        }
        if b == 0 {
            return Err(ENOSPC);
        }
        match fs.cache.read_block(dev, b) {
            None => {
                return Err(EIO);
            },
            Some(mut data) => {
                match find_slot_in(&data, block as u64 * 1024, size as u64, max, name) {
                    Some((k, true)) => {
                        let end: u32 = block * 1024 + (k + max + 2) as u32;
                        write_name(&mut data, k, name, max);
                        let ok: bool = fs.cache.write_block(dev, b, data.as_slice());
                        let now: u32 = fs.now;
                        if end > size {
                            fs.inodes[dir].i_size = end;
                        }
                        fs.inodes[dir].i_mtime = now;
                        fs.inodes[dir].i_ctime = now;
                        fs.inodes[dir].i_dirt = true;
                        assert(fs.inodes@ =~= old(fs).inodes@.update(
                            dir as int,
                            fs.inodes@[dir as int],
                        ));
                        assert((1024 * block + k) % 1024 == k);
                        return Ok((b, k));
                    },
                    Some((k, false)) => {
                        return Err(EEXIST);
                    },
                    None => {},
                }
            },
        }
        block = block + 1;
    }
}

} // verus!
