//! A name that was put into a directory is found there, and the others still are.

use super::dir::{entry_ino, sizes_ok};
use super::file::{chunk_written, file_byte};
use super::inode_ops::{got, mapped};
use super::namei::{
    added, aligned, found, has_name, is_hit, lemma_hit_in_block, name_at, named, slot_in, AddEnd,
};
use super::nodes::with_ino;
use super::tree::{
    lemma_chunk, lemma_data_insert, lemma_extends_bytes, lemma_got, lemma_got_spared,
    lemma_insert_spared, lemma_mapped, lemma_spared_trans, num, owns, place, spared, tree_ok,
};
use crate::bytes::{le16, overlay, padded, with_le16};
use crate::fs::super_block::SuperBlock;
use crate::fs::Blocks;
use vstd::prelude::*;

verus! {

/// An entry is a hit or not by the bytes in it.
pub proof fn lemma_hit_by_bytes(
    c: Blocks,
    z: Seq<u16>,
    c1: Blocks,
    z1: Seq<u16>,
    dev: u16,
    off: int,
    name: Seq<u8>,
    max: int,
)
    requires
        2 <= max,
        forall|i: int|
            0 <= i < max + 2 ==> #[trigger] file_byte(c1, dev, z1, off + i) == file_byte(
                c,
                dev,
                z,
                off + i,
            ),
    ensures
        is_hit(c1, dev, z1, off, name, max) == is_hit(c, dev, z, off, name, max),
        entry_ino(c1, dev, z1, off) == entry_ino(c, dev, z, off),
{
    assert(file_byte(c1, dev, z1, off + 0) == file_byte(c, dev, z, off + 0));
    assert(file_byte(c1, dev, z1, off + 1) == file_byte(c, dev, z, off + 1));
    assert(file_byte(c1, dev, z1, off + 2) == file_byte(c, dev, z, off + 2));
    assert(file_byte(c1, dev, z1, off + 3) == file_byte(c, dev, z, off + 3));
    assert forall|i: int| 0 <= i < max implies file_byte(c1, dev, z1, off + 2 + i) == #[trigger] file_byte(
        c,
        dev,
        z,
        off + 2 + i,
    ) by {
        assert(file_byte(c1, dev, z1, off + (2 + i)) == file_byte(c, dev, z, off + (2 + i)));
    }
    assert(has_name(c1, dev, z1, off, name, max) == has_name(c, dev, z, off, name, max)) by {
        if name.len() > 0 && name.len() <= max {
            if has_name(c, dev, z, off, name, max) {
                assert forall|i: int| 0 <= i < name.len() implies file_byte(
                    c1,
                    dev,
                    z1,
                    off + 2 + i,
                ) == #[trigger] name[i] by {
                    assert(file_byte(c, dev, z, off + 2 + i) == name[i]);
                }
            }
            if has_name(c1, dev, z1, off, name, max) {
                assert forall|i: int| 0 <= i < name.len() implies file_byte(c, dev, z, off + 2 + i)
                    == #[trigger] name[i] by {
                    assert(file_byte(c1, dev, z1, off + 2 + i) == name[i]);
                }
            }
            if name.len() < max {
                assert(file_byte(c, dev, z, off + 2 + name.len() as int) == file_byte(
                    c1,
                    dev,
                    z1,
                    off + 2 + name.len() as int,
                ));
            }
        }
    }
}

/// The next entry starts where one can, and no entry starts in between.
pub proof fn lemma_next_aligned(off: int, max: int)
    requires
        max == 14 || max == 30,
        aligned(off, max),
    ensures
        aligned(off + max + 2, max),
        forall|q: int| off < q && #[trigger] aligned(q, max) ==> off + max + 2 <= q,
{
    if max == 14 {
        assert forall|q: int| off < q && #[trigger] aligned(q, max) implies off + max + 2 <= q by {
            assert(q % 16 == 0 && off % 16 == 0);
        }
    } else {
        assert forall|q: int| off < q && #[trigger] aligned(q, max) implies off + max + 2 <= q by {
            assert(q % 32 == 0 && off % 32 == 0);
        }
    }
}

/// Where a search finds nothing, no entry is a hit.
pub proof fn lemma_none(
    c: Blocks,
    dev: u16,
    z: Seq<u16>,
    size: int,
    max: int,
    name: Seq<u8>,
    from: int,
    o: int,
)
    requires
        max == 14 || max == 30,
        aligned(from, max),
        aligned(o, max),
        0 <= from <= o < size,
        found(c, dev, z, size, max, name, from) is None,
    ensures
        !is_hit(c, dev, z, o, name, max),
    decreases o - from,
{
    if from < o {
        lemma_next_aligned(from, max);
        lemma_none(c, dev, z, size, max, name, from + max + 2, o);
    }
}

/// The first hit is what a search finds.
pub proof fn lemma_first(
    c: Blocks,
    dev: u16,
    z: Seq<u16>,
    size: int,
    max: int,
    name: Seq<u8>,
    from: int,
    o: int,
)
    requires
        max == 14 || max == 30,
        aligned(from, max),
        aligned(o, max),
        0 <= from <= o < size,
        is_hit(c, dev, z, o, name, max),
        forall|q: int| from <= q < o && aligned(q, max) ==> !#[trigger] is_hit(c, dev, z, q, name, max),
    ensures
        found(c, dev, z, size, max, name, from) == Some(o),
    decreases o - from,
{
    if from < o {
        lemma_next_aligned(from, max);
        assert(!is_hit(c, dev, z, from, name, max));
        lemma_first(c, dev, z, size, max, name, from + max + 2, o);
    }
}

/// Looking up a block that a file has changes nothing.
pub proof fn lemma_got_there(c: Blocks, s: SuperBlock, dev: u16, z: Seq<u16>, block: int)
    requires
        z.len() == 9,
        0 <= block,
        mapped(c, dev, z, block) != 0,
    ensures
        got(c, s, dev, z, block, true) == (c, z, mapped(c, dev, z, block)),
{
    reveal(got);
}

/// What a search for a place in one block comes to.
proof fn lemma_slot(d: Seq<u8>, base: int, size: int, max: int, name: Seq<u8>, k: int)
    requires
        max == 14 || max == 30,
        0 <= k,
        aligned(k, max),
        base % 1024 == 0,
        aligned(size, max),
        base + k <= size,
    ensures
        match slot_in(d, base, size, max, name, k) {
            None => base + 1024 <= size || k > 1024,
            Some((j, free)) => {
                &&& k <= j && j + max + 2 <= 1024 && aligned(j, max)
                &&& base + j <= size
                &&& free ==> base + j + max + 2 > size || le16(d, j) == 0
                &&& !free ==> base + j + max + 2 <= size && le16(d, j) != 0 && name_at(
                    d,
                    j,
                    name,
                    max,
                )
            },
        },
    decreases 1024 - k,
{
    if k + max + 2 <= 1024 && !(base + k + max + 2 > size || le16(d, k) == 0) && !name_at(
        d,
        k,
        name,
        max,
    ) {
        lemma_slot(d, base, size, max, name, k + max + 2);
    }
}

/// The bytes of an unused entry of that name.
pub open spec fn blank_entry(name: Seq<u8>, max: int) -> Seq<u8> {
    seq![0u8, 0u8] + padded(name, max as nat)
}

/// Putting a name into a directory puts an unused entry into a place that was
/// free, at the end at the latest, and changes no other byte. It says that the
/// name is there only where it is.
pub proof fn lemma_added(
    c: Blocks,
    s: SuperBlock,
    dev: u16,
    z: Seq<u16>,
    size: int,
    name: Seq<u8>,
    block: int,
)
    requires
        tree_ok(c, s, dev, z),
        sizes_ok(s),
        0 < name.len() <= s.s_namelen,
        0 <= 1024 * block <= size,
        aligned(size, s.s_namelen as int),
    ensures
        ({
            let max = s.s_namelen as int;
            let (c1, z1, end, b, off) = added(c, s, dev, z, size, name, block);
            &&& tree_ok(c1, s, dev, z1)
            &&& end == AddEnd::Put ==> {
                &&& 1024 * block <= off <= size
                &&& aligned(off, max)
                &&& off + max + 2 > size || entry_ino(c, dev, z, off) == 0
                &&& b == mapped(c1, dev, z1, off / 1024)
                &&& b != 0
                &&& forall|p: int|
                    0 <= p ==> #[trigger] file_byte(c1, dev, z1, p) == (if off <= p < off + max + 2 {
                        blank_entry(name, max)[p - off]
                    } else {
                        file_byte(c, dev, z, p)
                    })
            }
            &&& end == AddEnd::Exists ==> exists|o: int|
                0 <= o < size && aligned(o, max) && #[trigger] is_hit(c, dev, z, o, name, max)
            &&& end != AddEnd::Put ==> forall|p: int|
                0 <= p ==> #[trigger] file_byte(c1, dev, z1, p) == file_byte(c, dev, z, p)
        }),
    decreases 262663 - block,
{
    let max = s.s_namelen as int;
    lemma_got(c, s, dev, z, block);
    let (ca, za, b) = got(c, s, dev, z, block, true);
    assert forall|p: int| 0 <= p implies #[trigger] file_byte(ca, dev, za, p) == file_byte(
        c,
        dev,
        z,
        p,
    ) by {
        lemma_extends_bytes(c, z, ca, za, s, dev, p);
    }
    if block < 262663 && b != 0 {
        lemma_mapped(ca, dev, za, block);
        assert(num(ca, dev, za, place(block)) == b);
        let key = (dev, b as u32);
        assert(ca.dom().contains(key));
        let d = ca[key];
        assert(d.len() == 1024);
        lemma_slot(d, 1024 * block, size, max, name, 0);
        match slot_in(d, 1024 * block, size, max, name, 0) {
            Some((k, free)) => {
                let off = 1024 * block + k;
                assert(off / 1024 == block && off % 1024 == k);
                lemma_hit_in_block(ca, dev, za, off, name, max);
                assert forall|i: int| 0 <= i < max + 2 implies #[trigger] file_byte(
                    ca,
                    dev,
                    za,
                    off + i,
                ) == file_byte(c, dev, z, off + i) by {}
                lemma_hit_by_bytes(c, z, ca, za, dev, off, name, max);
                if free {
                    let piece = blank_entry(name, max);
                    assert(named(d, k, name, max) =~= overlay(d, k, piece));
                    lemma_chunk(c, s, dev, z, off, piece);
                    let c1 = ca.insert(key, named(d, k, name, max));
                    assert(chunk_written(c, s, dev, z, off, piece).0 == c1);
                    lemma_mapped(c1, dev, za, block);
                    assert(mapped(c1, dev, za, block) == b) by {
                        reveal(got);
                        lemma_inserted_keeps(ca, s, dev, za, block, named(d, k, name, max));
                    }
                } else {
                    assert(is_hit(c, dev, z, off, name, max));
                }
            },
            None => {
                lemma_added(ca, s, dev, za, size, name, block + 1);
                let (c1, z1, end, b1, off1) = added(ca, s, dev, za, size, name, block + 1);
                if end == AddEnd::Put {
                    lemma_hit_by_bytes(c, z, ca, za, dev, off1, name, max);
                    assert forall|p: int| 0 <= p implies #[trigger] file_byte(c1, dev, z1, p) == (if off1
                        <= p < off1 + max + 2 {
                        blank_entry(name, max)[p - off1]
                    } else {
                        file_byte(c, dev, z, p)
                    }) by {
                        assert(file_byte(ca, dev, za, p) == file_byte(c, dev, z, p));
                    }
                }
                if end == AddEnd::Exists {
                    let o = choose|o: int|
                        0 <= o < size && aligned(o, max) && #[trigger] is_hit(
                            ca,
                            dev,
                            za,
                            o,
                            name,
                            max,
                        );
                    lemma_hit_by_bytes(c, z, ca, za, dev, o, name, max);
                    assert(is_hit(c, dev, z, o, name, max));
                }
                if end != AddEnd::Put {
                    assert forall|p: int| 0 <= p implies #[trigger] file_byte(c1, dev, z1, p)
                        == file_byte(c, dev, z, p) by {
                        assert(file_byte(ca, dev, za, p) == file_byte(c, dev, z, p));
                    }
                }
            },
        }
    }
}

/// Changing the bytes of a data block keeps the map of the file.
proof fn lemma_inserted_keeps(
    c: Blocks,
    s: SuperBlock,
    dev: u16,
    z: Seq<u16>,
    block: int,
    d: Seq<u8>,
)
    requires
        tree_ok(c, s, dev, z),
        0 <= block < 262663,
        mapped(c, dev, z, block) != 0,
    ensures
        ({
            let b = mapped(c, dev, z, block);
            mapped(c.insert((dev, b as u32), d), dev, z, block) == b
        }),
{
    let b = mapped(c, dev, z, block);
    lemma_mapped(c, dev, z, block);
    let w = place(block);
    assert(num(c, dev, z, w) == b);
    assert(num(c, dev, z, 7) == z[7] && num(c, dev, z, 8) == z[8]);
    if block >= 7 && block < 519 {
        assert(num(c, dev, z, 7) != num(c, dev, z, w));
    } else if block >= 519 {
        assert(num(c, dev, z, 8) != num(c, dev, z, w));
        let m = 521 + (block - 519) / 512;
        assert(num(c, dev, z, m) != num(c, dev, z, w));
    }
}

/// Setting the inode number of an entry changes the first two bytes of it.
pub proof fn lemma_ino_set(c: Blocks, s: SuperBlock, dev: u16, z: Seq<u16>, off: int, ino: u16)
    requires
        tree_ok(c, s, dev, z),
        0 <= off,
        off % 1024 + 2 <= 1024,
        mapped(c, dev, z, off / 1024) != 0,
    ensures
        ({
            let b = mapped(c, dev, z, off / 1024) as u32;
            let c1 = with_ino(c, dev, b, off % 1024, ino);
            &&& tree_ok(c1, s, dev, z)
            &&& forall|p: int|
                0 <= p ==> #[trigger] file_byte(c1, dev, z, p) == (if p == off {
                    (ino % 256) as u8
                } else if p == off + 1 {
                    (ino / 256) as u8
                } else {
                    file_byte(c, dev, z, p)
                })
        }),
{
    let blk = off / 1024;
    let b = mapped(c, dev, z, blk);
    lemma_mapped(c, dev, z, blk);
    assert(num(c, dev, z, place(blk)) == b);
    let key = (dev, b as u32);
    assert(c.dom().contains(key));
    let k = off % 1024;
    let piece = seq![(ino % 256) as u8, (ino / 256) as u8];
    lemma_got_there(c, s, dev, z, blk);
    lemma_chunk(c, s, dev, z, off, piece);
    let c1 = with_ino(c, dev, b as u32, k, ino);
    assert(with_le16(c[key], k, ino) =~= overlay(c[key], k, piece));
    assert(chunk_written(c, s, dev, z, off, piece).0 == c1);
}

/// A directory whose bytes differ from those of another one, in which the name is
/// not found, in an entry of that name only: the entry is what is found.
#[verifier::spinoff_prover]
#[verifier::rlimit(80)]
proof fn lemma_found_after(
    c: Blocks,
    z: Seq<u16>,
    c2: Blocks,
    z2: Seq<u16>,
    dev: u16,
    size: int,
    size2: int,
    max: int,
    name: Seq<u8>,
    off: int,
    ino: u16,
)
    requires
        max == 14 || max == 30,
        0 < name.len() <= max,
        0 <= off <= size,
        off < size2,
        aligned(off, max),
        aligned(size, max),
        ino != 0,
        found(c, dev, z, size, max, name, 0) is None,
        forall|p: int|
            0 <= p ==> #[trigger] file_byte(c2, dev, z2, p) == (if p == off {
                (ino % 256) as u8
            } else if p == off + 1 {
                (ino / 256) as u8
            } else if off <= p < off + max + 2 {
                blank_entry(name, max)[p - off]
            } else {
                file_byte(c, dev, z, p)
            }),
    ensures
        found(c2, dev, z2, size2, max, name, 0) == Some(off),
        entry_ino(c2, dev, z2, off) == ino,
{
    assert(entry_ino(c2, dev, z2, off) == ino);
    assert(has_name(c2, dev, z2, off, name, max)) by {
        assert forall|i: int| 0 <= i < name.len() implies file_byte(c2, dev, z2, off + 2 + i)
            == #[trigger] name[i] by {
            assert(blank_entry(name, max)[2 + i] == name[i]);
        }
        if name.len() < max {
            assert(blank_entry(name, max)[2 + name.len() as int] == 0);
        }
    }
    assert forall|q: int| 0 <= q < off && aligned(q, max) implies !#[trigger] is_hit(
        c2,
        dev,
        z2,
        q,
        name,
        max,
    ) by {
        assert(q + max + 2 <= off);
        lemma_none(c, dev, z, size, max, name, 0, q);
        lemma_hit_by_bytes(c, z, c2, z2, dev, q, name, max);
    }
    lemma_first(c2, dev, z2, size2, max, name, 0, off);
}

/// A name that was not in a directory and was put there is found, with the inode
/// number that it was given; the other bytes of the directory are as before.
#[verifier::spinoff_prover]
#[verifier::rlimit(40)]
pub proof fn lemma_add_then_find(
    c: Blocks,
    s: SuperBlock,
    dev: u16,
    z: Seq<u16>,
    size: int,
    name: Seq<u8>,
    ino: u16,
)
    requires
        tree_ok(c, s, dev, z),
        sizes_ok(s),
        0 < name.len() <= s.s_namelen,
        0 <= size,
        aligned(size, s.s_namelen as int),
        found(c, dev, z, size, s.s_namelen as int, name, 0) is None,
        ino != 0,
    ensures
        ({
            let max = s.s_namelen as int;
            let (c1, z1, end, b, off) = added(c, s, dev, z, size, name, 0);
            let c2 = with_ino(c1, dev, b as u32, off % 1024, ino);
            let size1 = if off + max + 2 > size {
                off + max + 2
            } else {
                size
            };
            &&& end != AddEnd::Exists
            &&& end == AddEnd::Put ==> {
                &&& tree_ok(c2, s, dev, z1)
                &&& aligned(size1, max)
                &&& found(c2, dev, z1, size1, max, name, 0) == Some(off)
                &&& entry_ino(c2, dev, z1, off) == ino
                &&& forall|p: int|
                    0 <= p && !(off <= p < off + max + 2) ==> #[trigger] file_byte(c2, dev, z1, p)
                        == file_byte(c, dev, z, p)
            }
        }),
{
    let max = s.s_namelen as int;
    lemma_added(c, s, dev, z, size, name, 0);
    let (c1, z1, end, b, off) = added(c, s, dev, z, size, name, 0);
    if end == AddEnd::Exists {
        let o = choose|o: int|
            0 <= o < size && aligned(o, max) && #[trigger] is_hit(c, dev, z, o, name, max);
        lemma_none(c, dev, z, size, max, name, 0, o);
    }
    if end == AddEnd::Put {
        let k = off % 1024;
        assert(k + max + 2 <= 1024);
        lemma_ino_set(c1, s, dev, z1, off, ino);
        let c2 = with_ino(c1, dev, b as u32, k, ino);
        assert forall|p: int| 0 <= p implies #[trigger] file_byte(c2, dev, z1, p) == (if p == off {
            (ino % 256) as u8
        } else if p == off + 1 {
            (ino / 256) as u8
        } else if off <= p < off + max + 2 {
            blank_entry(name, max)[p - off]
        } else {
            file_byte(c, dev, z, p)
        }) by {
            assert(file_byte(c1, dev, z1, p) == file_byte(c1, dev, z1, p));
        }
        let size1 = if off + max + 2 > size {
            off + max + 2
        } else {
            size
        };
        lemma_found_after(c, z, c2, z1, dev, size, size1, max, name, off, ino);
    }
}

/// Where no entry is a hit, a search finds nothing.
pub proof fn lemma_no_hit(
    c: Blocks,
    dev: u16,
    z: Seq<u16>,
    size: int,
    max: int,
    name: Seq<u8>,
    from: int,
)
    requires
        max == 14 || max == 30,
        aligned(from, max),
        0 <= from,
        forall|q: int| 0 <= q < size && aligned(q, max) ==> !#[trigger] is_hit(c, dev, z, q, name, max),
    ensures
        found(c, dev, z, size, max, name, from) is None,
    decreases
            if from < size {
                size - from
            } else {
                0
            },
{
    if from < size {
        lemma_next_aligned(from, max);
        assert(!is_hit(c, dev, z, from, name, max));
        lemma_no_hit(c, dev, z, size, max, name, from + max + 2);
    }
}

/// A name whose only entry was taken out of use is not found any more; the other
/// entries are as before.
pub proof fn lemma_remove_then_find(
    c: Blocks,
    s: SuperBlock,
    dev: u16,
    z: Seq<u16>,
    size: int,
    name: Seq<u8>,
    off: int,
)
    requires
        tree_ok(c, s, dev, z),
        sizes_ok(s),
        0 < name.len() <= s.s_namelen,
        0 <= off < size,
        aligned(off, s.s_namelen as int),
        is_hit(c, dev, z, off, name, s.s_namelen as int),
        forall|q: int|
            0 <= q < size && q != off && aligned(q, s.s_namelen as int) ==> !#[trigger] is_hit(
                c,
                dev,
                z,
                q,
                name,
                s.s_namelen as int,
            ),
    ensures
        ({
            let max = s.s_namelen as int;
            let c1 = with_ino(c, dev, mapped(c, dev, z, off / 1024) as u32, off % 1024, 0);
            &&& tree_ok(c1, s, dev, z)
            &&& found(c1, dev, z, size, max, name, 0) is None
            &&& forall|p: int|
                0 <= p && p != off && p != off + 1 ==> #[trigger] file_byte(c1, dev, z, p)
                    == file_byte(c, dev, z, p)
        }),
{
    let max = s.s_namelen as int;
    assert(off % 1024 + max + 2 <= 1024);
    assert(mapped(c, dev, z, off / 1024) != 0) by {
        if mapped(c, dev, z, off / 1024) == 0 {
            assert((off + 1) / 1024 == off / 1024);
            assert(entry_ino(c, dev, z, off) == 0);
        }
    }
    lemma_ino_set(c, s, dev, z, off, 0);
    let c1 = with_ino(c, dev, mapped(c, dev, z, off / 1024) as u32, off % 1024, 0);
    assert forall|q: int| 0 <= q < size && aligned(q, max) implies !#[trigger] is_hit(
        c1,
        dev,
        z,
        q,
        name,
        max,
    ) by {
        if q == off {
            assert(entry_ino(c1, dev, z, off) == 0);
        } else {
            assert(q + max + 2 <= off || off + max + 2 <= q);
            lemma_hit_by_bytes(c, z, c1, z, dev, q, name, max);
        }
    }
    lemma_no_hit(c1, dev, z, size, max, name, 0);
}

/// What a search finds is a hit, and the first one.
pub proof fn lemma_found_first(
    c: Blocks,
    dev: u16,
    z: Seq<u16>,
    size: int,
    max: int,
    name: Seq<u8>,
    from: int,
)
    requires
        max == 14 || max == 30,
        aligned(from, max),
        0 <= from,
        found(c, dev, z, size, max, name, from) is Some,
    ensures
        ({
            let o = found(c, dev, z, size, max, name, from)->0;
            &&& from <= o < size && aligned(o, max)
            &&& is_hit(c, dev, z, o, name, max)
            &&& forall|q: int|
                from <= q < o && aligned(q, max) ==> !#[trigger] is_hit(c, dev, z, q, name, max)
        }),
    decreases
            if from < size {
                size - from
            } else {
                0
            },
{
    if from < size && !is_hit(c, dev, z, from, name, max) {
        lemma_next_aligned(from, max);
        lemma_found_first(c, dev, z, size, max, name, from + max + 2);
    }
}

/// Where the bytes of a directory are the same, so is what is found in it.
pub proof fn lemma_found_same(
    c: Blocks,
    z: Seq<u16>,
    c1: Blocks,
    z1: Seq<u16>,
    dev: u16,
    size: int,
    max: int,
    name: Seq<u8>,
    from: int,
)
    requires
        max == 14 || max == 30,
        0 <= from,
        forall|p: int| 0 <= p ==> #[trigger] file_byte(c1, dev, z1, p) == file_byte(c, dev, z, p),
    ensures
        found(c1, dev, z1, size, max, name, from) == found(c, dev, z, size, max, name, from),
        forall|o: int| 0 <= o ==> #[trigger] entry_ino(c1, dev, z1, o) == entry_ino(c, dev, z, o),
    decreases
            if from < size {
                size - from
            } else {
                0
            },
{
    assert forall|o: int| 0 <= o implies #[trigger] entry_ino(c1, dev, z1, o) == entry_ino(c, dev, z, o) by {
        assert(file_byte(c1, dev, z1, o + 1) == file_byte(c, dev, z, o + 1));
        assert(file_byte(c1, dev, z1, o) == file_byte(c, dev, z, o));
    }
    if from < size {
        assert forall|i: int| 0 <= i < max + 2 implies #[trigger] file_byte(c1, dev, z1, from + i)
            == file_byte(c, dev, z, from + i) by {
            assert(file_byte(c1, dev, z1, from + i) == file_byte(c, dev, z, from + i));
        }
        lemma_hit_by_bytes(c, z, c1, z1, dev, from, name, max);
        lemma_found_same(c, z, c1, z1, dev, size, max, name, from + max + 2);
    }
}

/// A name as directories hold it: not empty, not too long, and without a zero byte.
pub open spec fn is_name(name: Seq<u8>, max: int) -> bool {
    0 < name.len() <= max && forall|i: int| 0 <= i < name.len() ==> #[trigger] name[i] != 0
}

/// Two names that one entry has are the same.
pub proof fn lemma_one_name(
    c: Blocks,
    dev: u16,
    z: Seq<u16>,
    off: int,
    a: Seq<u8>,
    b: Seq<u8>,
    max: int,
)
    requires
        is_name(a, max),
        is_name(b, max),
        has_name(c, dev, z, off, a, max),
        has_name(c, dev, z, off, b, max),
    ensures
        a == b,
{
    if a.len() < b.len() {
        assert(b[a.len() as int] != 0);
        assert(file_byte(c, dev, z, off + 2 + a.len()) == b[a.len() as int]);
    } else if b.len() < a.len() {
        assert(a[b.len() as int] != 0);
        assert(file_byte(c, dev, z, off + 2 + b.len()) == a[b.len() as int]);
    } else {
        assert forall|i: int| 0 <= i < a.len() implies a[i] == b[i] by {
            assert(file_byte(c, dev, z, off + 2 + i) == a[i]);
            assert(file_byte(c, dev, z, off + 2 + i) == b[i]);
        }
        assert(a =~= b);
    }
}

/// Where only the entry at `off` has changed, which was not in use and now has another
/// name, or has it still and is not in use any more, a name is found as before.
#[verifier::spinoff_prover]
#[verifier::rlimit(40)]
pub proof fn lemma_found_other(
    c: Blocks,
    z: Seq<u16>,
    c2: Blocks,
    z2: Seq<u16>,
    dev: u16,
    size: int,
    size2: int,
    max: int,
    off: int,
    other: Seq<u8>,
)
    requires
        max == 14 || max == 30,
        is_name(other, max),
        0 <= off <= size,
        aligned(off, max),
        aligned(size, max),
        size2 == (if off + max + 2 > size {
            off + max + 2
        } else {
            size
        }),
        off < size ==> !is_hit(c, dev, z, off, other, max),
        !is_hit(c2, dev, z2, off, other, max),
        forall|p: int|
            0 <= p && !(off <= p < off + max + 2) ==> #[trigger] file_byte(c2, dev, z2, p) == file_byte(
                c,
                dev,
                z,
                p,
            ),
    ensures
        found(c2, dev, z2, size2, max, other, 0) == found(c, dev, z, size, max, other, 0),
        forall|o: int|
            0 <= o && aligned(o, max) && o != off ==> #[trigger] entry_ino(c2, dev, z2, o) == entry_ino(
                c,
                dev,
                z,
                o,
            ),
{
    assert forall|q: int| 0 <= q && aligned(q, max) && q != off implies #[trigger] is_hit(
        c2,
        dev,
        z2,
        q,
        other,
        max,
    ) == is_hit(c, dev, z, q, other, max) && entry_ino(c2, dev, z2, q) == entry_ino(c, dev, z, q) by {
        assert(q + max + 2 <= off || off + max + 2 <= q);
        lemma_hit_by_bytes(c, z, c2, z2, dev, q, other, max);
    }
    assert forall|o: int| 0 <= o && aligned(o, max) && o != off implies #[trigger] entry_ino(
        c2,
        dev,
        z2,
        o,
    ) == entry_ino(c, dev, z, o) by {
        let h = is_hit(c2, dev, z2, o, other, max);
    }
    match found(c, dev, z, size, max, other, 0) {
        Some(o) => {
            lemma_found_first(c, dev, z, size, max, other, 0);
            assert(is_hit(c2, dev, z2, o, other, max));
            lemma_first(c2, dev, z2, size2, max, other, 0, o);
        },
        None => {
            assert forall|q: int| 0 <= q < size2 && aligned(q, max) implies !#[trigger] is_hit(
                c2,
                dev,
                z2,
                q,
                other,
                max,
            ) by {
                if q != off {
                    assert(q < size);
                    lemma_none(c, dev, z, size, max, other, 0, q);
                }
            }
            lemma_no_hit(c2, dev, z2, size2, max, other, 0);
        },
    }
}

/// Putting a name into a directory leaves the blocks of other files alone.
#[verifier::spinoff_prover]
#[verifier::rlimit(40)]
pub proof fn lemma_added_spared(
    c: Blocks,
    s: SuperBlock,
    dev: u16,
    z: Seq<u16>,
    size: int,
    name: Seq<u8>,
    block: int,
)
    requires
        tree_ok(c, s, dev, z),
        sizes_ok(s),
        0 < name.len() <= s.s_namelen,
        0 <= 1024 * block <= size,
        aligned(size, s.s_namelen as int),
    ensures
        ({
            let (c1, z1, end, b, off) = added(c, s, dev, z, size, name, block);
            spared(c, z, c1, z1, s, dev)
        }),
    decreases 262663 - block,
{
    let max = s.s_namelen as int;
    lemma_got(c, s, dev, z, block);
    lemma_got_spared(c, s, dev, z, block);
    let (ca, za, b) = got(c, s, dev, z, block, true);
    if block < 262663 && b != 0 {
        lemma_mapped(ca, dev, za, block);
        assert(num(ca, dev, za, place(block)) == b);
        let key = (dev, b as u32);
        assert(ca.dom().contains(key));
        let d = ca[key];
        lemma_slot(d, 1024 * block, size, max, name, 0);
        match slot_in(d, 1024 * block, size, max, name, 0) {
            Some((k, free)) => {
                if free {
                    let e = named(d, k, name, max);
                    lemma_data_insert(ca, s, dev, za, place(block), e);
                    assert(owns(ca, dev, za, b));
                    lemma_insert_spared(ca, s, dev, za, b, e);
                    lemma_spared_trans(c, z, ca, za, ca.insert(key, e), za, s, dev);
                }
            },
            None => {
                lemma_added_spared(ca, s, dev, za, size, name, block + 1);
                let (c1, z1, end, b1, off1) = added(ca, s, dev, za, size, name, block + 1);
                lemma_spared_trans(c, z, ca, za, c1, z1, s, dev);
            },
        }
    }
}

} // verus!
