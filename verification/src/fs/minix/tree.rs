//! The blocks of a file as a tree of numbers.
//!
//! Places 0 to 8 are the numbers in the inode. Places 9 to 520 are those in the
//! block of number 7, places 521 to 1032 those in the block of number 8, and the
//! 512 places from 1033 + 512 * k on those in the block of place 521 + k.
//!
//! As long as every block in use is marked in the bitmap and none is used twice,
//! what a write puts into a file is what a read gets out of it.

use super::bitmap::{
    first_free, first_zero, is_first_zero, lemma_first_zero, map_bytes, new_block_spec, zone_bit,
};
use super::file::{chunk_len, chunk_written, file_byte, written, WriteEnd};
use super::inode_ops::{block_number, entry_got, got, mapped, zone_got};
use crate::bits::{bitmap_bit, bitmap_on, lemma_bitmap_on};
use crate::bytes::{le16, lemma_with_le16, overlay, with_le16, zeros};
use crate::fs::inode::NIL;
use crate::fs::super_block::SuperBlock;
use crate::fs::Blocks;
use vstd::prelude::*;

verus! {

/// The number of places.
pub open spec fn places() -> int {
    263177
}

/// The number at place `p`.
pub open spec fn num(c: Blocks, dev: u16, z: Seq<u16>, p: int) -> int {
    if p < 9 {
        z[p] as int
    } else if p < 521 {
        block_number(c, dev, z[7] as int, p - 9)
    } else if p < 1033 {
        block_number(c, dev, z[8] as int, p - 521)
    } else {
        block_number(
            c,
            dev,
            block_number(c, dev, z[8] as int, (p - 1033) / 512),
            (p - 1033) % 512,
        )
    }
}

/// The place of file block `b`.
pub open spec fn place(b: int) -> int {
    if b < 7 {
        b
    } else if b < 519 {
        b + 2
    } else {
        b + 514
    }
}

/// The number at the place leads to a block of numbers.
pub open spec fn inner(p: int) -> bool {
    p == 7 || p == 8 || 521 <= p < 1033
}

/// The file system is laid out so that the blocks of its zone bitmap lie before
/// the data area and are different, and the device has every block of the data
/// area.
pub open spec fn layout_ok(c: Blocks, s: SuperBlock, dev: u16) -> bool {
    &&& dev == s.s_dev
    &&& s.s_firstdatazone >= 1
    &&& s.s_zmap@.len() == 8
    &&& forall|i: int|
        0 <= i < 8 ==> #[trigger] s.s_zmap@[i] == NIL || s.s_zmap@[i] < s.s_firstdatazone
    &&& forall|i: int, j: int|
        0 <= i < j < 8 && #[trigger] s.s_zmap@[i] != NIL ==> s.s_zmap@[i] != #[trigger] s.s_zmap@[j]
    &&& forall|b: u32|
        s.s_firstdatazone <= b < s.s_nzones ==> #[trigger] c.dom().contains((dev, b))
    &&& forall|k: (u16, u32)| #[trigger] c.dom().contains(k) ==> c[k].len() == 1024
}

/// The block is marked as taken in the zone bitmap.
pub open spec fn marked(c: Blocks, s: SuperBlock, b: int) -> bool {
    let slot = s.s_zmap@[zone_bit(s, b) / 8192];
    &&& slot != NIL
    &&& c.dom().contains((s.s_dev, slot as u32))
    &&& bitmap_bit(c[(s.s_dev, slot as u32)], zone_bit(s, b) % 8192)
}

/// Every number of the file is that of a block of the data area that is marked
/// as taken, and none occurs twice.
pub open spec fn tree_ok(c: Blocks, s: SuperBlock, dev: u16, z: Seq<u16>) -> bool {
    &&& z.len() == 9
    &&& layout_ok(c, s, dev)
    &&& forall|p: int|
        0 <= p < places() && #[trigger] num(c, dev, z, p) != 0 ==> s.s_firstdatazone <= num(
            c,
            dev,
            z,
            p,
        ) < s.s_nzones && marked(c, s, num(c, dev, z, p))
    &&& forall|p: int, q: int|
        #![trigger num(c, dev, z, p), num(c, dev, z, q)]
        0 <= p < q < places() && num(c, dev, z, p) != 0 ==> num(c, dev, z, p) != num(c, dev, z, q)
}

/// The map of a file gives the number at the block's place.
pub proof fn lemma_mapped(c: Blocks, dev: u16, z: Seq<u16>, b: int)
    requires
        0 <= b < 262663,
    ensures
        mapped(c, dev, z, b) == num(c, dev, z, place(b)),
        0 <= place(b) < places(),
        !inner(place(b)),
{
}

/// What changed from `c` to `c1` is blocks of the zone bitmap, in which bits
/// were set, and maybe the block `b` of the data area.
pub open spec fn only_marked(c: Blocks, c1: Blocks, s: SuperBlock, dev: u16, b: int) -> bool {
    &&& c1.dom() == c.dom()
    &&& layout_ok(c1, s, dev)
    &&& forall|y: u32| s.s_firstdatazone <= y && y != b ==> #[trigger] c1[(dev, y)] == c[(dev, y)]
    &&& forall|x: int|
        s.s_firstdatazone <= x < s.s_nzones && #[trigger] marked(c, s, x) ==> marked(c1, s, x)
}

/// What a search for a clear bit finds is clear, in a block of the bitmap.
pub proof fn lemma_first_free(c: Blocks, dev: u16, slots: Seq<usize>, i: int)
    requires
        0 <= i,
        forall|k: (u16, u32)| #[trigger] c.dom().contains(k) ==> c[k].len() == 1024,
    ensures
        match first_free(c, dev, slots, i) {
            None => true,
            Some((a, j)) => {
                &&& i <= a < 8
                &&& slots[a] != NIL
                &&& c.dom().contains((dev, slots[a] as u32))
                &&& 0 <= j < 8192
                &&& !bitmap_bit(c[(dev, slots[a] as u32)], j)
            },
        },
    decreases 8 - i,
{
    if i < 8 {
        match map_bytes(c, dev, slots[i]) {
            None => {
                lemma_first_free(c, dev, slots, i + 1);
            },
            Some(d) => {
                lemma_has_first_zero(d);
                if first_zero(d) >= 8192 {
                    lemma_first_free(c, dev, slots, i + 1);
                }
            },
        }
    }
}

/// Every bitmap block has a first clear bit, or none.
proof fn lemma_has_first_zero(d: Seq<u8>)
    ensures
        is_first_zero(d, first_zero(d)),
{
    let m = lemma_search(d, 0);
    lemma_first_zero(d, m);
}

proof fn lemma_search(d: Seq<u8>, k: int) -> (m: int)
    requires
        0 <= k <= 8 * d.len(),
        forall|i: int| 0 <= i < k ==> #[trigger] bitmap_bit(d, i),
    ensures
        is_first_zero(d, m),
    decreases 8 * d.len() - k,
{
    if k == 8 * d.len() || !bitmap_bit(d, k) {
        k
    } else {
        lemma_search(d, k + 1)
    }
}

/// Taking a block gives one that was not marked and now is, and is zero; the
/// marks of other blocks and the bytes of the data area stay.
pub proof fn lemma_new_block(c: Blocks, s: SuperBlock, dev: u16)
    requires
        layout_ok(c, s, dev),
    ensures
        ({
            let (c1, b) = new_block_spec(c, s);
            &&& only_marked(c, c1, s, dev, b)
            &&& b != 0 ==> {
                &&& s.s_firstdatazone <= b < s.s_nzones
                &&& !marked(c, s, b)
                &&& marked(c1, s, b)
                &&& c1[(dev, b as u32)] == zeros(1024)
            }
        }),
{
    lemma_first_free(c, s.s_dev, s.s_zmap@, 0);
    match first_free(c, s.s_dev, s.s_zmap@, 0) {
        None => {},
        Some((i, j)) => {
            let slot = s.s_zmap@[i];
            let key = (dev, slot as u32);
            let d = c[key];
            assert(d.len() == 1024);
            lemma_bitmap_on(d, j);
            let c1 = c.insert(key, bitmap_on(d, j));
            let block = j + 8192 * i + s.s_firstdatazone - 1;
            assert(slot < s.s_firstdatazone);
            assert(c1.dom() =~= c.dom());
            assert(zone_bit(s, block) == j + 8192 * i);
            assert((j + 8192 * i) / 8192 == i && (j + 8192 * i) % 8192 == j);
            assert forall|x: int|
                s.s_firstdatazone <= x < s.s_nzones && #[trigger] marked(c, s, x) implies marked(
                c1,
                s,
                x,
            ) by {
                let a = zone_bit(s, x) / 8192;
                assert(0 <= a < 8);
                if a != i {
                    assert(s.s_zmap@[a] != s.s_zmap@[i]) by {
                        if a < i {
                            assert(s.s_zmap@[a] != NIL);
                        } else {
                            assert(s.s_zmap@[i] != NIL);
                        }
                    }
                    assert(s.s_zmap@[a] < s.s_firstdatazone);
                    assert((s.s_dev, s.s_zmap@[a] as u32) != key);
                } else {
                    assert(bitmap_bit(c1[key], zone_bit(s, x) % 8192));
                }
            }
            if s.s_firstdatazone <= block < s.s_nzones {
                let c2 = c1.insert((dev, block as u32), zeros(1024));
                assert(c.dom().contains((dev, block as u32)));
                assert(c1.dom().contains((dev, block as u32)));
                assert(c2.dom() =~= c.dom());
                assert(bitmap_bit(c1[key], j));
                assert(marked(c1, s, block));
                assert forall|x: int|
                    s.s_firstdatazone <= x < s.s_nzones && #[trigger] marked(c1, s, x) implies marked(
                    c2,
                    s,
                    x,
                ) by {
                    let a = zone_bit(s, x) / 8192;
                    assert(0 <= a < 8);
                    assert(s.s_zmap@[a] < s.s_firstdatazone);
                }
                assert(!marked(c, s, block));
            }
        },
    }
}

/// Two blocks that are taken one after the other are different.
pub proof fn lemma_new_blocks_differ(c: Blocks, s: SuperBlock, dev: u16)
    requires
        layout_ok(c, s, dev),
    ensures
        ({
            let (c1, a) = new_block_spec(c, s);
            let (c2, b) = new_block_spec(c1, s);
            a != 0 ==> a != b
        }),
{
    lemma_new_block(c, s, dev);
    let (c1, a) = new_block_spec(c, s);
    lemma_new_block(c1, s, dev);
}

/// The numbers do not depend on anything but the blocks of numbers.
pub proof fn lemma_nums_same(c: Blocks, c1: Blocks, dev: u16, z: Seq<u16>)
    requires
        c1.dom() == c.dom(),
        forall|q: int|
            0 <= q < places() && inner(q) && #[trigger] num(c, dev, z, q) != 0 ==> c1[(
                dev,
                num(c, dev, z, q) as u32,
            )] == c[(dev, num(c, dev, z, q) as u32)],
    ensures
        forall|p: int| 0 <= p < places() ==> #[trigger] num(c1, dev, z, p) == num(c, dev, z, p),
{
    assert(num(c, dev, z, 7) == z[7]);
    assert(num(c, dev, z, 8) == z[8]);
    assert forall|p: int| 0 <= p < 1033 implies #[trigger] num(c1, dev, z, p) == num(c, dev, z, p) by {}
    assert forall|p: int| 1033 <= p < places() implies #[trigger] num(c1, dev, z, p) == num(
        c,
        dev,
        z,
        p,
    ) by {
        let q = 521 + (p - 1033) / 512;
        assert(num(c1, dev, z, q) == num(c, dev, z, q));
        assert(inner(q));
    }
}

/// Setting a number in a block of numbers sets that one alone.
pub proof fn lemma_entry_set(d: Seq<u8>, k: int, v: u16)
    requires
        d.len() == 1024,
        0 <= k < 512,
    ensures
        forall|j: int|
            0 <= j < 512 ==> #[trigger] le16(with_le16(d, 2 * k, v), 2 * j) == (if j == k {
                v
            } else {
                le16(d, 2 * j)
            }),
        with_le16(d, 2 * k, v).len() == 1024,
{
    lemma_with_le16(d, 2 * k, v);
    let e = with_le16(d, 2 * k, v);
    assert forall|j: int| 0 <= j < 512 implies #[trigger] le16(e, 2 * j) == (if j == k {
        v
    } else {
        le16(d, 2 * j)
    }) by {
        if j != k {
            assert(e[2 * j] == d[2 * j]);
            assert(e[2 * j + 1] == d[2 * j + 1]);
        }
    }
}

/// A block of zeros holds no numbers.
proof fn lemma_zero_entries(c: Blocks, dev: u16, b: int, k: int)
    requires
        0 <= k < 512,
        c.dom().contains((dev, b as u32)) ==> c[(dev, b as u32)] == zeros(1024),
    ensures
        block_number(c, dev, b, k) == 0,
{
}

/// From `(c, z)` to `(c1, z1)` the file has kept its numbers and the bytes of
/// its data, and the data blocks that are new are zero.
pub open spec fn extends(
    c: Blocks,
    z: Seq<u16>,
    c1: Blocks,
    z1: Seq<u16>,
    s: SuperBlock,
    dev: u16,
) -> bool {
    &&& tree_ok(c1, s, dev, z1)
    &&& c1.dom() == c.dom()
    &&& forall|p: int|
        0 <= p < places() && num(c, dev, z, p) != 0 ==> #[trigger] num(c1, dev, z1, p) == num(
            c,
            dev,
            z,
            p,
        )
    &&& forall|p: int|
        0 <= p < places() && !inner(p) && #[trigger] num(c1, dev, z1, p) != 0 ==> c1[(
            dev,
            num(c1, dev, z1, p) as u32,
        )] == (if num(c, dev, z, p) != 0 {
            c[(dev, num(c, dev, z, p) as u32)]
        } else {
            zeros(1024)
        })
}

/// Marking blocks leaves a file as it is.
pub proof fn lemma_marked_extends(c: Blocks, c1: Blocks, s: SuperBlock, dev: u16, z: Seq<u16>, b: int)
    requires
        tree_ok(c, s, dev, z),
        only_marked(c, c1, s, dev, b),
        b == 0 || !marked(c, s, b),
    ensures
        extends(c, z, c1, z, s, dev),
        forall|p: int| 0 <= p < places() ==> #[trigger] num(c1, dev, z, p) == num(c, dev, z, p),
        forall|p: int| 0 <= p < places() && b != 0 ==> #[trigger] num(c1, dev, z, p) != b,
{
    assert forall|q: int| 0 <= q < places() && #[trigger] num(c, dev, z, q) != 0 implies c1[(
        dev,
        num(c, dev, z, q) as u32,
    )] == c[(dev, num(c, dev, z, q) as u32)] by {
        let x = num(c, dev, z, q);
        assert(marked(c, s, x));
        assert(x <= 0xFFFF);
        let y = x as u32;
        assert(c1[(dev, y)] == c[(dev, y)]);
    }
    lemma_nums_same(c, c1, dev, z);
    assert forall|p: int| 0 <= p < places() && #[trigger] num(c1, dev, z, p) != 0 implies
        s.s_firstdatazone <= num(c1, dev, z, p) < s.s_nzones && marked(c1, s, num(c1, dev, z, p)) by {
        assert(num(c, dev, z, p) != 0);
        assert(marked(c, s, num(c, dev, z, p)));
    }
    assert forall|p: int, q: int|
        #![trigger num(c1, dev, z, p), num(c1, dev, z, q)]
        0 <= p < q < places() && num(c1, dev, z, p) != 0 implies num(c1, dev, z, p) != num(
        c1,
        dev,
        z,
        q,
    ) by {
        assert(num(c, dev, z, p) != num(c, dev, z, q));
    }
    assert forall|p: int| 0 <= p < places() && b != 0 implies #[trigger] num(c1, dev, z, p) != b by {
        if num(c1, dev, z, p) == b {
            assert(num(c, dev, z, p) == b);
            assert(marked(c, s, b));
        }
    }
}

/// Extending twice is extending.
proof fn lemma_extends_trans(
    c: Blocks,
    z: Seq<u16>,
    c1: Blocks,
    z1: Seq<u16>,
    c2: Blocks,
    z2: Seq<u16>,
    s: SuperBlock,
    dev: u16,
)
    requires
        tree_ok(c, s, dev, z),
        extends(c, z, c1, z1, s, dev),
        extends(c1, z1, c2, z2, s, dev),
    ensures
        extends(c, z, c2, z2, s, dev),
{
    assert forall|p: int| 0 <= p < places() && num(c, dev, z, p) != 0 implies #[trigger] num(
        c2,
        dev,
        z2,
        p,
    ) == num(c, dev, z, p) by {
        assert(num(c1, dev, z1, p) == num(c, dev, z, p));
    }
    assert forall|p: int|
        0 <= p < places() && !inner(p) && #[trigger] num(c2, dev, z2, p) != 0 implies c2[(
        dev,
        num(c2, dev, z2, p) as u32,
    )] == (if num(c, dev, z, p) != 0 {
        c[(dev, num(c, dev, z, p) as u32)]
    } else {
        zeros(1024)
    }) by {
        assert(num(c1, dev, z1, p) != 0 ==> num(c2, dev, z2, p) == num(c1, dev, z1, p));
        assert(num(c, dev, z, p) != 0 ==> num(c1, dev, z1, p) == num(c, dev, z, p));
    }
}

/// Giving place `p`, which has none, the number of a fresh zero block leaves all
/// other places as they are.
proof fn lemma_number_set(
    c: Blocks,
    z: Seq<u16>,
    c1: Blocks,
    z1: Seq<u16>,
    s: SuperBlock,
    dev: u16,
    p: int,
    b: int,
)
    requires
        tree_ok(c, s, dev, z),
        layout_ok(c1, s, dev),
        c1.dom() == c.dom(),
        z1.len() == 9,
        0 <= p < places(),
        num(c, dev, z, p) == 0,
        s.s_firstdatazone <= b < s.s_nzones,
        forall|q: int| 0 <= q < places() ==> #[trigger] num(c, dev, z, q) != b,
        marked(c1, s, b),
        c[(dev, b as u32)] == zeros(1024),
        forall|x: int|
            s.s_firstdatazone <= x < s.s_nzones && #[trigger] marked(c, s, x) ==> marked(c1, s, x),
        forall|q: int|
            0 <= q < places() ==> #[trigger] num(c1, dev, z1, q) == (if q == p {
                b
            } else {
                num(c, dev, z, q)
            }),
        forall|q: int|
            0 <= q < places() && !inner(q) && #[trigger] num(c, dev, z, q) != 0 ==> c1[(
                dev,
                num(c, dev, z, q) as u32,
            )] == c[(dev, num(c, dev, z, q) as u32)],
        c1[(dev, b as u32)] == c[(dev, b as u32)],
    ensures
        extends(c, z, c1, z1, s, dev),
{
    assert forall|q: int| 0 <= q < places() && #[trigger] num(c1, dev, z1, q) != 0 implies
        s.s_firstdatazone <= num(c1, dev, z1, q) < s.s_nzones && marked(c1, s, num(c1, dev, z1, q)) by {
        if q != p {
            assert(num(c, dev, z, q) != 0);
            assert(marked(c, s, num(c, dev, z, q)));
        }
    }
    assert forall|a: int, q: int|
        #![trigger num(c1, dev, z1, a), num(c1, dev, z1, q)]
        0 <= a < q < places() && num(c1, dev, z1, a) != 0 implies num(c1, dev, z1, a) != num(
        c1,
        dev,
        z1,
        q,
    ) by {
        assert(num(c, dev, z, a) != b && num(c, dev, z, q) != b);
        if a != p && q != p {
            assert(num(c, dev, z, a) != num(c, dev, z, q));
        }
    }
}

/// Looking one of the inode's own numbers up, with a new block where there is
/// none, extends the file, and the answer is the number afterwards.
proof fn lemma_zone_got(c: Blocks, s: SuperBlock, dev: u16, z: Seq<u16>, nr: int)
    requires
        tree_ok(c, s, dev, z),
        0 <= nr < 9,
    ensures
        ({
            let (c1, z1, b) = zone_got(c, s, z, nr, true);
            &&& extends(c, z, c1, z1, s, dev)
            &&& b == num(c1, dev, z1, nr)
            &&& z1.len() == 9
            &&& forall|q: int|
                0 <= q < places() && q != nr ==> #[trigger] num(c1, dev, z1, q) == num(
                    c,
                    dev,
                    z,
                    q,
                )
        }),
{
    assert(num(c, dev, z, nr) == z[nr]);
    lemma_new_block(c, s, dev);
    let (ca, b) = new_block_spec(c, s);
    lemma_marked_extends(c, ca, s, dev, z, b);
    if z[nr] == 0 && b != 0 {
        let z1 = z.update(nr, b as u16);
        assert forall|q: int| 0 <= q < places() implies #[trigger] num(ca, dev, z1, q) == (if q == nr {
            b
        } else {
            num(ca, dev, z, q)
        }) by {
            if q >= 9 && q < 521 {
                if nr == 7 {
                    lemma_zero_entries(ca, dev, b, q - 9);
                }
            } else if q >= 521 && q < 1033 {
                if nr == 8 {
                    lemma_zero_entries(ca, dev, b, q - 521);
                }
            } else if q >= 1033 {
                if nr == 8 {
                    lemma_zero_entries(ca, dev, b, (q - 1033) / 512);
                }
            }
        }
        lemma_number_set(ca, z, ca, z1, s, dev, nr, b);
        lemma_extends_trans(c, z, ca, z, ca, z1, s, dev);
    } else if z[nr] != 0 {
        assert(extends(c, z, c, z, s, dev));
    }
}

/// Looking number `k` of the block of place `q0` up, with a new block where there
/// is none, extends the file, and the answer is the number afterwards.
proof fn lemma_entry_got(c: Blocks, s: SuperBlock, dev: u16, z: Seq<u16>, q0: int, k: int, p: int)
    requires
        tree_ok(c, s, dev, z),
        0 <= k < 512,
        q0 == 7 && p == 9 + k || q0 == 8 && p == 521 + k || 521 <= q0 < 1033 && p == 1033 + 512 * (
        q0 - 521) + k,
    ensures
        ({
            let (c1, b) = entry_got(c, s, dev, num(c, dev, z, q0), k, true);
            &&& extends(c, z, c1, z, s, dev)
            &&& b == num(c1, dev, z, p)
            &&& forall|q: int|
                0 <= q < places() && q != p ==> #[trigger] num(c1, dev, z, q) == num(c, dev, z, q)
        }),
{
    let ind = num(c, dev, z, q0);
    assert(0 <= p < places() && 0 <= q0 < places() && inner(q0));
    assert(num(c, dev, z, 7) == z[7]);
    assert(num(c, dev, z, 8) == z[8]);
    assert(q0 >= 521 ==> (p - 1033) / 512 == q0 - 521 && (p - 1033) % 512 == k);
    assert(num(c, dev, z, p) == block_number(c, dev, ind, k));
    assert(ind <= 0xFFFF);
    let b0 = block_number(c, dev, ind, k);
    if b0 != 0 || ind == 0 {
        assert(extends(c, z, c, z, s, dev));
    } else {
        assert(c.dom().contains((dev, ind as u32)));
        lemma_new_block(c, s, dev);
        let (ca, b) = new_block_spec(c, s);
        lemma_marked_extends(c, ca, s, dev, z, b);
        assert(num(ca, dev, z, q0) == ind);
        assert(num(ca, dev, z, p) == 0);
        if b != 0 {
            let key = (dev, ind as u32);
            assert(ca.dom().contains(key));
            let c1 = ca.insert(key, with_le16(ca[key], 2 * k, b as u16));
            lemma_entry_set(ca[key], k, b as u16);
            assert(c1.dom() =~= ca.dom());
            assert(ind != b);
            assert forall|j: int| 0 <= j < 512 implies #[trigger] block_number(c1, dev, ind, j) == (if j
                == k {
                b
            } else {
                block_number(ca, dev, ind, j)
            }) by {
                assert(le16(c1[key], 2 * j) == (if j == k {
                    b as u16
                } else {
                    le16(ca[key], 2 * j)
                }));
            }
            assert forall|x: int, j: int| x != ind && 0 <= x <= 0xFFFF implies #[trigger] block_number(
                c1,
                dev,
                x,
                j,
            ) == block_number(ca, dev, x, j) by {
                assert(x as u32 != ind as u32);
            }
            assert(num(ca, dev, z, 7) == z[7] && num(ca, dev, z, 8) == z[8]);
            assert forall|q: int| 0 <= q < places() implies #[trigger] num(c1, dev, z, q) == (if q == p {
                b
            } else {
                num(ca, dev, z, q)
            }) by {
                if q < 9 {
                } else if q < 521 {
                    if q0 != 7 {
                        if z[7] != 0 {
                            assert(num(ca, dev, z, 7) != num(ca, dev, z, q0));
                        }
                        assert(z[7] != ind);
                    }
                } else if q < 1033 {
                    if q0 != 8 {
                        if z[8] != 0 {
                            if q0 < 8 {
                                assert(num(ca, dev, z, q0) != num(ca, dev, z, 8));
                            } else {
                                assert(num(ca, dev, z, 8) != num(ca, dev, z, q0));
                            }
                        }
                        assert(z[8] != ind);
                    }
                } else {
                    let a = (q - 1033) / 512;
                    let j = (q - 1033) % 512;
                    let m = 521 + a;
                    let x = num(ca, dev, z, m);
                    assert(x == block_number(ca, dev, z[8] as int, a));
                    let x1 = block_number(c1, dev, z[8] as int, a);
                    if q0 != 8 && z[8] != 0 {
                        if q0 < 8 {
                            assert(num(ca, dev, z, q0) != num(ca, dev, z, 8));
                        } else {
                            assert(num(ca, dev, z, 8) != num(ca, dev, z, q0));
                        }
                    }
                    if q0 == 8 && a == k {
                        assert(x1 == b);
                        assert(x == 0);
                        lemma_zero_entries(c1, dev, b, j);
                    } else {
                        assert(x1 == x);
                        if m != q0 {
                            if x != 0 {
                                if m < q0 {
                                    assert(num(ca, dev, z, m) != num(ca, dev, z, q0));
                                } else {
                                    assert(num(ca, dev, z, q0) != num(ca, dev, z, m));
                                }
                            }
                            assert(x != ind);
                        }
                    }
                }
            }
            assert forall|q: int| 0 <= q < places() && !inner(q) && #[trigger] num(ca, dev, z, q) != 0 implies c1[(
                dev,
                num(ca, dev, z, q) as u32,
            )] == ca[(dev, num(ca, dev, z, q) as u32)] by {
                if q < q0 {
                    assert(num(ca, dev, z, q) != num(ca, dev, z, q0));
                } else {
                    assert(num(ca, dev, z, q0) != num(ca, dev, z, q));
                }
            }
            assert forall|x: int|
                s.s_firstdatazone <= x < s.s_nzones && #[trigger] marked(ca, s, x) implies marked(
                c1,
                s,
                x,
            ) by {
                let a = zone_bit(s, x) / 8192;
                assert(0 <= a < 8);
                assert(s.s_zmap@[a] < s.s_firstdatazone);
                assert(marked(ca, s, num(ca, dev, z, q0)));
            }
            lemma_number_set(ca, z, c1, z, s, dev, p, b);
            lemma_extends_trans(c, z, ca, z, c1, z, s, dev);
        }
    }
}

/// Looking a file block up, with new blocks where there are none, extends the
/// file, and the answer is what the map gives afterwards.
pub proof fn lemma_got(c: Blocks, s: SuperBlock, dev: u16, z: Seq<u16>, block: int)
    requires
        tree_ok(c, s, dev, z),
        0 <= block,
    ensures
        ({
            let (c1, z1, b) = got(c, s, dev, z, block, true);
            &&& extends(c, z, c1, z1, s, dev)
            &&& b == mapped(c1, dev, z1, block)
        }),
{
    reveal(got);
    if block >= 262663 {
        assert(extends(c, z, c, z, s, dev));
    } else if block < 7 {
        lemma_zone_got(c, s, dev, z, block);
    } else if block < 519 {
        lemma_zone_got(c, s, dev, z, 7);
        let (c1, z1, ind) = zone_got(c, s, z, 7, true);
        lemma_entry_got(c1, s, dev, z1, 7, block - 7, block + 2);
        let (c2, b) = entry_got(c1, s, dev, ind, block - 7, true);
        lemma_extends_trans(c, z, c1, z1, c2, z1, s, dev);
    } else {
        let a = (block - 519) / 512;
        let j = (block - 519) % 512;
        lemma_zone_got(c, s, dev, z, 8);
        let (c1, z1, dind) = zone_got(c, s, z, 8, true);
        lemma_entry_got(c1, s, dev, z1, 8, a, 521 + a);
        let (c2, mid) = entry_got(c1, s, dev, dind, a, true);
        lemma_extends_trans(c, z, c1, z1, c2, z1, s, dev);
        assert(mid == num(c2, dev, z1, 521 + a));
        lemma_entry_got(c2, s, dev, z1, 521 + a, j, 1033 + 512 * a + j);
        let (c3, b) = entry_got(c2, s, dev, mid, j, true);
        lemma_extends_trans(c, z, c2, z1, c3, z1, s, dev);
        assert((1033 + 512 * a + j - 1033) / 512 == a && (1033 + 512 * a + j - 1033) % 512 == j);
    }
}

/// Extending a file does not change its bytes.
pub proof fn lemma_extends_bytes(
    c: Blocks,
    z: Seq<u16>,
    c1: Blocks,
    z1: Seq<u16>,
    s: SuperBlock,
    dev: u16,
    p: int,
)
    requires
        tree_ok(c, s, dev, z),
        extends(c, z, c1, z1, s, dev),
        0 <= p,
    ensures
        file_byte(c1, dev, z1, p) == file_byte(c, dev, z, p),
{
    let blk = p / 1024;
    if blk < 262663 {
        lemma_mapped(c, dev, z, blk);
        lemma_mapped(c1, dev, z1, blk);
        let q = place(blk);
        assert(num(c1, dev, z1, q) == num(c1, dev, z1, q));
        if num(c, dev, z, q) != 0 {
            assert(num(c1, dev, z1, q) == num(c, dev, z, q));
        }
    }
}

/// Writing a piece within one block puts its bytes into the file and changes no
/// others. A piece that cannot be written changes none.
pub proof fn lemma_chunk(c: Blocks, s: SuperBlock, dev: u16, z: Seq<u16>, off: int, piece: Seq<u8>)
    requires
        tree_ok(c, s, dev, z),
        0 <= off,
        off % 1024 + piece.len() <= 1024,
    ensures
        ({
            let (c1, z1, end) = chunk_written(c, s, dev, z, off, piece);
            &&& tree_ok(c1, s, dev, z1)
            &&& forall|p: int|
                0 <= p ==> #[trigger] file_byte(c1, dev, z1, p) == (if end == WriteEnd::Done && off
                    <= p < off + piece.len() {
                    piece[p - off]
                } else {
                    file_byte(c, dev, z, p)
                })
        }),
{
    let blk = off / 1024;
    lemma_got(c, s, dev, z, blk);
    let (ca, za, b) = got(c, s, dev, z, blk, true);
    assert forall|p: int| 0 <= p implies #[trigger] file_byte(ca, dev, za, p) == file_byte(
        c,
        dev,
        z,
        p,
    ) by {
        lemma_extends_bytes(c, z, ca, za, s, dev, p);
    }
    if b != 0 {
        assert(blk < 262663);
        lemma_mapped(ca, dev, za, blk);
        let w = place(blk);
        assert(num(ca, dev, za, w) == b);
        assert(marked(ca, s, b));
        let key = (dev, b as u32);
        assert(ca.dom().contains(key));
        let c1 = ca.insert(key, overlay(ca[key], off % 1024, piece));
        assert(c1.dom() =~= ca.dom());
        assert forall|q: int| 0 <= q < places() && inner(q) && #[trigger] num(ca, dev, za, q) != 0 implies c1[(
            dev,
            num(ca, dev, za, q) as u32,
        )] == ca[(dev, num(ca, dev, za, q) as u32)] by {
            if q < w {
                assert(num(ca, dev, za, q) != num(ca, dev, za, w));
            } else {
                assert(num(ca, dev, za, w) != num(ca, dev, za, q));
            }
        }
        lemma_nums_same(ca, c1, dev, za);
        assert forall|x: int|
            s.s_firstdatazone <= x < s.s_nzones && #[trigger] marked(ca, s, x) implies marked(c1, s, x) by {
            let a = zone_bit(s, x) / 8192;
            assert(0 <= a < 8);
            assert(s.s_zmap@[a] < s.s_firstdatazone);
        }
        assert(tree_ok(c1, s, dev, za)) by {
            assert forall|p: int| 0 <= p < places() && #[trigger] num(c1, dev, za, p) != 0 implies
                s.s_firstdatazone <= num(c1, dev, za, p) < s.s_nzones && marked(
                c1,
                s,
                num(c1, dev, za, p),
            ) by {
                assert(num(ca, dev, za, p) != 0);
                assert(marked(ca, s, num(ca, dev, za, p)));
            }
            assert forall|p: int, q: int|
                #![trigger num(c1, dev, za, p), num(c1, dev, za, q)]
                0 <= p < q < places() && num(c1, dev, za, p) != 0 implies num(c1, dev, za, p) != num(
                c1,
                dev,
                za,
                q,
            ) by {
                assert(num(ca, dev, za, p) != num(ca, dev, za, q));
            }
        }
        assert forall|p: int| 0 <= p implies #[trigger] file_byte(c1, dev, za, p) == (if off <= p < off
            + piece.len() {
            piece[p - off]
        } else {
            file_byte(ca, dev, za, p)
        }) by {
            let pb = p / 1024;
            if pb < 262663 {
                lemma_mapped(ca, dev, za, pb);
                lemma_mapped(c1, dev, za, pb);
                let q = place(pb);
                assert(num(c1, dev, za, q) == num(ca, dev, za, q));
                if pb == blk {
                    assert(p == 1024 * blk + p % 1024 && off == 1024 * blk + off % 1024);
                } else if num(ca, dev, za, q) != 0 {
                    if q < w {
                        assert(num(ca, dev, za, q) != num(ca, dev, za, w));
                    } else {
                        assert(num(ca, dev, za, w) != num(ca, dev, za, q));
                    }
                    assert(!(off <= p < off + piece.len()));
                }
                if pb != blk {
                    assert(!(off <= p < off + piece.len()));
                }
            }
        }
    }
}

/// The rest of a write of which `done` bytes stand in the file already.
proof fn lemma_write_from(
    c: Blocks,
    s: SuperBlock,
    dev: u16,
    z: Seq<u16>,
    pos: int,
    data: Seq<u8>,
    done: int,
)
    requires
        tree_ok(c, s, dev, z),
        0 <= pos,
        0 <= done <= data.len(),
        forall|p: int| pos <= p < pos + done ==> #[trigger] file_byte(c, dev, z, p) == data[p - pos],
    ensures
        ({
            let (c1, z1, n, end) = written(c, s, dev, z, pos, data, done);
            &&& tree_ok(c1, s, dev, z1)
            &&& done <= n <= data.len()
            &&& end == WriteEnd::Done <==> n == data.len()
            &&& forall|p: int|
                0 <= p ==> #[trigger] file_byte(c1, dev, z1, p) == (if pos <= p < pos + n {
                    data[p - pos]
                } else {
                    file_byte(c, dev, z, p)
                })
        }),
    decreases data.len() - done,
{
    if done < data.len() {
        let off = pos + done;
        let len = chunk_len(off, data.len() - done);
        let piece = data.subrange(done, done + len);
        lemma_chunk(c, s, dev, z, off, piece);
        let (ca, za, end) = chunk_written(c, s, dev, z, off, piece);
        if end == WriteEnd::Done {
            assert forall|p: int| pos <= p < pos + (done + len) implies #[trigger] file_byte(
                ca,
                dev,
                za,
                p,
            ) == data[p - pos] by {
                if p < off {
                    assert(file_byte(c, dev, z, p) == data[p - pos]);
                }
            }
            lemma_write_from(ca, s, dev, za, pos, data, done + len);
        }
    }
}

/// What a read gives back of a write: afterwards the bytes that were written
/// stand in the file where they were written, all others are as before, and the
/// file is in order again.
pub proof fn lemma_write_read(
    c: Blocks,
    s: SuperBlock,
    dev: u16,
    z: Seq<u16>,
    pos: int,
    data: Seq<u8>,
)
    requires
        tree_ok(c, s, dev, z),
        0 <= pos,
    ensures
        ({
            let (c1, z1, n, end) = written(c, s, dev, z, pos, data, 0);
            &&& tree_ok(c1, s, dev, z1)
            &&& 0 <= n <= data.len()
            &&& end == WriteEnd::Done <==> n == data.len()
            &&& forall|p: int|
                0 <= p ==> #[trigger] file_byte(c1, dev, z1, p) == (if pos <= p < pos + n {
                    data[p - pos]
                } else {
                    file_byte(c, dev, z, p)
                })
        }),
{
    lemma_write_from(c, s, dev, z, pos, data, 0);
}

// ---- one file beside another ----

/// Number `y` is one of the file's.
pub open spec fn owns(c: Blocks, dev: u16, z: Seq<u16>, y: int) -> bool {
    exists|p: int| 0 <= p < places() && #[trigger] num(c, dev, z, p) == y
}

/// From `(c, z)` to `(c1, z1)` the blocks of the data area that are taken, but not by the
/// file, are as before and still not the file's.
pub open spec fn spared(c: Blocks, z: Seq<u16>, c1: Blocks, z1: Seq<u16>, s: SuperBlock, dev: u16) -> bool {
    &&& c1.dom() == c.dom()
    &&& forall|y: int|
        s.s_firstdatazone <= y < s.s_nzones && #[trigger] marked(c, s, y) && !owns(c, dev, z, y)
            ==> c1[(dev, y as u32)] == c[(dev, y as u32)] && marked(c1, s, y) && !owns(c1, dev, z1, y)
}

/// Two files have no number in common.
pub open spec fn disjoint(c: Blocks, dev: u16, z: Seq<u16>, w: Seq<u16>) -> bool {
    forall|p: int|
        0 <= p < places() && #[trigger] num(c, dev, w, p) != 0 ==> !owns(c, dev, z, num(c, dev, w, p))
}

/// What is spared twice is spared.
pub proof fn lemma_spared_trans(
    c: Blocks,
    z: Seq<u16>,
    c1: Blocks,
    z1: Seq<u16>,
    c2: Blocks,
    z2: Seq<u16>,
    s: SuperBlock,
    dev: u16,
)
    requires
        spared(c, z, c1, z1, s, dev),
        spared(c1, z1, c2, z2, s, dev),
    ensures
        spared(c, z, c2, z2, s, dev),
{
    assert forall|y: int|
        s.s_firstdatazone <= y < s.s_nzones && #[trigger] marked(c, s, y) && !owns(c, dev, z, y) implies c2[(
        dev,
        y as u32,
    )] == c[(dev, y as u32)] && marked(c2, s, y) && !owns(c2, dev, z2, y) by {
        assert(marked(c1, s, y));
    }
}

proof fn lemma_zone_spared(c: Blocks, s: SuperBlock, dev: u16, z: Seq<u16>, nr: int)
    requires
        tree_ok(c, s, dev, z),
        0 <= nr < 9,
    ensures
        ({
            let (c1, z1, b) = zone_got(c, s, z, nr, true);
            spared(c, z, c1, z1, s, dev)
        }),
{
    lemma_zone_got(c, s, dev, z, nr);
    lemma_new_block(c, s, dev);
    let (c1, z1, b) = zone_got(c, s, z, nr, true);
    assert(num(c, dev, z, nr) == z[nr]);
    assert forall|y: int|
        s.s_firstdatazone <= y < s.s_nzones && #[trigger] marked(c, s, y) && !owns(c, dev, z, y) implies c1[(
        dev,
        y as u32,
    )] == c[(dev, y as u32)] && marked(c1, s, y) && !owns(c1, dev, z1, y) by {
        assert(num(c, dev, z, nr) != y);
        assert(s.s_firstdatazone <= y as u32 && y as u32 == y);
        if owns(c1, dev, z1, y) {
            let p = choose|p: int| 0 <= p < places() && #[trigger] num(c1, dev, z1, p) == y;
            if p != nr {
                assert(num(c1, dev, z1, p) == num(c, dev, z, p));
            }
        }
    }
}

proof fn lemma_entry_spared(c: Blocks, s: SuperBlock, dev: u16, z: Seq<u16>, q0: int, k: int, p: int)
    requires
        tree_ok(c, s, dev, z),
        0 <= k < 512,
        q0 == 7 && p == 9 + k || q0 == 8 && p == 521 + k || 521 <= q0 < 1033 && p == 1033 + 512 * (
        q0 - 521) + k,
    ensures
        ({
            let (c1, b) = entry_got(c, s, dev, num(c, dev, z, q0), k, true);
            spared(c, z, c1, z, s, dev)
        }),
{
    lemma_entry_got(c, s, dev, z, q0, k, p);
    lemma_new_block(c, s, dev);
    let ind = num(c, dev, z, q0);
    let (c1, b) = entry_got(c, s, dev, ind, k, true);
    let (ca, nb) = new_block_spec(c, s);
    assert(num(c, dev, z, 7) == z[7] && num(c, dev, z, 8) == z[8]);
    assert(q0 >= 521 ==> (p - 1033) / 512 == q0 - 521 && (p - 1033) % 512 == k);
    assert(num(c, dev, z, p) == block_number(c, dev, ind, k));
    assert(0 <= ind <= 0xFFFF);
    assert forall|y: int|
        s.s_firstdatazone <= y < s.s_nzones && #[trigger] marked(c, s, y) && !owns(c, dev, z, y) implies c1[(
        dev,
        y as u32,
    )] == c[(dev, y as u32)] && marked(c1, s, y) && !owns(c1, dev, z, y) by {
        assert(num(c, dev, z, q0) != y);
        assert(num(c, dev, z, p) != y);
        assert(s.s_firstdatazone <= y as u32 && y as u32 == y);
        assert(ca[(dev, y as u32)] == c[(dev, y as u32)] || y == nb);
        assert(y != nb);
        assert(marked(ca, s, y));
        let a = zone_bit(s, y) / 8192;
        assert(0 <= a < 8);
        assert(s.s_zmap@[a] < s.s_firstdatazone);
        if owns(c1, dev, z, y) {
            let q = choose|q: int| 0 <= q < places() && #[trigger] num(c1, dev, z, q) == y;
            if q != p {
                assert(num(c1, dev, z, q) == num(c, dev, z, q));
            }
        }
        if ind != 0 {
            assert(s.s_firstdatazone <= ind);
        }
    }
}

/// Looking a file block up, with new blocks where there are none, leaves the blocks of
/// other files alone.
pub proof fn lemma_got_spared(c: Blocks, s: SuperBlock, dev: u16, z: Seq<u16>, block: int)
    requires
        tree_ok(c, s, dev, z),
        0 <= block,
    ensures
        ({
            let (c1, z1, b) = got(c, s, dev, z, block, true);
            spared(c, z, c1, z1, s, dev)
        }),
{
    reveal(got);
    if block >= 262663 {
    } else if block < 7 {
        lemma_zone_spared(c, s, dev, z, block);
    } else if block < 519 {
        lemma_zone_got(c, s, dev, z, 7);
        lemma_zone_spared(c, s, dev, z, 7);
        let (c1, z1, ind) = zone_got(c, s, z, 7, true);
        lemma_entry_spared(c1, s, dev, z1, 7, block - 7, block + 2);
        let (c2, b) = entry_got(c1, s, dev, ind, block - 7, true);
        lemma_spared_trans(c, z, c1, z1, c2, z1, s, dev);
    } else {
        let a = (block - 519) / 512;
        let j = (block - 519) % 512;
        lemma_zone_got(c, s, dev, z, 8);
        lemma_zone_spared(c, s, dev, z, 8);
        let (c1, z1, dind) = zone_got(c, s, z, 8, true);
        lemma_entry_got(c1, s, dev, z1, 8, a, 521 + a);
        lemma_entry_spared(c1, s, dev, z1, 8, a, 521 + a);
        let (c2, mid) = entry_got(c1, s, dev, dind, a, true);
        lemma_spared_trans(c, z, c1, z1, c2, z1, s, dev);
        assert(mid == num(c2, dev, z1, 521 + a));
        lemma_entry_spared(c2, s, dev, z1, 521 + a, j, 1033 + 512 * a + j);
        let (c3, b) = entry_got(c2, s, dev, mid, j, true);
        lemma_spared_trans(c, z, c2, z1, c3, z1, s, dev);
    }
}

/// Changing a block of the file leaves those of other files alone.
pub proof fn lemma_insert_spared(c: Blocks, s: SuperBlock, dev: u16, z: Seq<u16>, b: int, d: Seq<u8>)
    requires
        tree_ok(c, s, dev, z),
        owns(c, dev, z, b),
        b != 0,
        forall|p: int|
            0 <= p < places() ==> #[trigger] num(c.insert((dev, b as u32), d), dev, z, p) == num(
                c,
                dev,
                z,
                p,
            ),
    ensures
        spared(c, z, c.insert((dev, b as u32), d), z, s, dev),
{
    let c1 = c.insert((dev, b as u32), d);
    let q = choose|q: int| 0 <= q < places() && #[trigger] num(c, dev, z, q) == b;
    assert(s.s_firstdatazone <= b < s.s_nzones);
    assert(c.dom().contains((dev, b as u32)));
    assert(c1.dom() =~= c.dom());
    assert forall|y: int|
        s.s_firstdatazone <= y < s.s_nzones && #[trigger] marked(c, s, y) && !owns(c, dev, z, y) implies c1[(
        dev,
        y as u32,
    )] == c[(dev, y as u32)] && marked(c1, s, y) && !owns(c1, dev, z, y) by {
        assert(y != b);
        let a = zone_bit(s, y) / 8192;
        assert(0 <= a < 8);
        assert(s.s_zmap@[a] < s.s_firstdatazone);
        if owns(c1, dev, z, y) {
            let p = choose|p: int| 0 <= p < places() && #[trigger] num(c1, dev, z, p) == y;
            assert(num(c, dev, z, p) == y);
        }
    }
}

/// What is spared keeps its numbers and its bytes.
pub proof fn lemma_beside(
    c: Blocks,
    z: Seq<u16>,
    c1: Blocks,
    z1: Seq<u16>,
    s: SuperBlock,
    dev: u16,
    w: Seq<u16>,
)
    requires
        tree_ok(c, s, dev, w),
        layout_ok(c1, s, dev),
        spared(c, z, c1, z1, s, dev),
        disjoint(c, dev, z, w),
    ensures
        tree_ok(c1, s, dev, w),
        disjoint(c1, dev, z1, w),
        forall|p: int| 0 <= p < places() ==> #[trigger] num(c1, dev, w, p) == num(c, dev, w, p),
        forall|p: int| 0 <= p ==> #[trigger] file_byte(c1, dev, w, p) == file_byte(c, dev, w, p),
{
    assert forall|q: int| 0 <= q < places() && #[trigger] num(c, dev, w, q) != 0 implies c1[(
        dev,
        num(c, dev, w, q) as u32,
    )] == c[(dev, num(c, dev, w, q) as u32)] && marked(c1, s, num(c, dev, w, q)) && !owns(
        c1,
        dev,
        z1,
        num(c, dev, w, q),
    ) by {
        assert(marked(c, s, num(c, dev, w, q)));
    }
    lemma_nums_same(c, c1, dev, w);
    assert forall|p: int| 0 <= p < places() && #[trigger] num(c1, dev, w, p) != 0 implies
        s.s_firstdatazone <= num(c1, dev, w, p) < s.s_nzones && marked(c1, s, num(c1, dev, w, p)) by {
        assert(num(c, dev, w, p) != 0);
    }
    assert forall|p: int, q: int|
        #![trigger num(c1, dev, w, p), num(c1, dev, w, q)]
        0 <= p < q < places() && num(c1, dev, w, p) != 0 implies num(c1, dev, w, p) != num(
        c1,
        dev,
        w,
        q,
    ) by {
        assert(num(c, dev, w, p) != num(c, dev, w, q));
    }
    assert forall|p: int| 0 <= p implies #[trigger] file_byte(c1, dev, w, p) == file_byte(c, dev, w, p) by {
        let blk = p / 1024;
        if blk < 262663 {
            lemma_mapped(c, dev, w, blk);
            lemma_mapped(c1, dev, w, blk);
            let q = place(blk);
            assert(num(c1, dev, w, q) == num(c, dev, w, q));
        }
    }
    assert forall|p: int| 0 <= p < places() && #[trigger] num(c1, dev, w, p) != 0 implies !owns(
        c1,
        dev,
        z1,
        num(c1, dev, w, p),
    ) by {
        assert(num(c, dev, w, p) != 0);
    }
}

/// Changing the bytes of a data block changes no number, and leaves the file in order.
pub proof fn lemma_data_insert(c: Blocks, s: SuperBlock, dev: u16, z: Seq<u16>, p: int, d: Seq<u8>)
    requires
        tree_ok(c, s, dev, z),
        0 <= p < places(),
        !inner(p),
        num(c, dev, z, p) != 0,
    ensures
        ({
            let c1 = c.insert((dev, num(c, dev, z, p) as u32), d);
            &&& c1.dom() == c.dom()
            &&& forall|q: int| 0 <= q < places() ==> #[trigger] num(c1, dev, z, q) == num(c, dev, z, q)
            &&& d.len() == 1024 ==> tree_ok(c1, s, dev, z)
        }),
{
    let b = num(c, dev, z, p);
    let c1 = c.insert((dev, b as u32), d);
    assert(s.s_firstdatazone <= b < s.s_nzones);
    assert(c.dom().contains((dev, b as u32)));
    assert(c1.dom() =~= c.dom());
    assert forall|q: int| 0 <= q < places() && inner(q) && #[trigger] num(c, dev, z, q) != 0 implies c1[(
        dev,
        num(c, dev, z, q) as u32,
    )] == c[(dev, num(c, dev, z, q) as u32)] by {
        if q < p {
            assert(num(c, dev, z, q) != num(c, dev, z, p));
        } else {
            assert(num(c, dev, z, p) != num(c, dev, z, q));
        }
    }
    lemma_nums_same(c, c1, dev, z);
    if d.len() == 1024 {
        assert forall|y: u32| s.s_firstdatazone <= y < s.s_nzones implies #[trigger] c1.dom().contains(
            (dev, y),
        ) by {
            assert(c.dom().contains((dev, y)));
        }
        assert forall|k: (u16, u32)| #[trigger] c1.dom().contains(k) implies c1[k].len() == 1024 by {
            assert(c.dom().contains(k));
        }
        assert forall|q: int| 0 <= q < places() && #[trigger] num(c1, dev, z, q) != 0 implies
            s.s_firstdatazone <= num(c1, dev, z, q) < s.s_nzones && marked(c1, s, num(c1, dev, z, q)) by {
            let y = num(c, dev, z, q);
            assert(y != 0);
            assert(marked(c, s, y));
            let a = zone_bit(s, y) / 8192;
            assert(0 <= a < 8);
            assert(s.s_zmap@[a] < s.s_firstdatazone);
        }
        assert forall|i: int, q: int|
            #![trigger num(c1, dev, z, i), num(c1, dev, z, q)]
            0 <= i < q < places() && num(c1, dev, z, i) != 0 implies num(c1, dev, z, i) != num(
            c1,
            dev,
            z,
            q,
        ) by {
            assert(num(c, dev, z, i) != num(c, dev, z, q));
        }
    }
}

} // verus!
