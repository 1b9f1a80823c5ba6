//! What cutting a file leaves of it: the bytes before the cut, and none after.

use super::bitmap::{block_freed, free_block_spec, zone_bit};
use super::file::file_byte;
use super::inode_ops::block_number;
use super::tree::{
    inner, layout_ok, lemma_entry_set, lemma_mapped, lemma_spared_trans, marked, num, owns, place,
    places, spared, tree_ok,
};
use super::truncate::{
    entry_cleared, entry_done, entry_freed, entry_zeroed, mid_done, no_entries, past, trunc_did,
    trunc_dindirect_did, trunc_direct_did, trunc_entries_did, trunc_indirect_did, trunc_mids_did,
    trunc_single_did,
};
use crate::bits::{bitmap_bit, bitmap_off, lemma_bitmap_off};
use crate::bytes::{le16, least};
use crate::fs::buffer::{forgotten, only_read, stored_whole, BufferCache};
use crate::fs::inode::NIL;
use crate::fs::super_block::SuperBlock;
use crate::fs::Blocks;
use vstd::prelude::*;

verus! {

/// The number at place `q` stands in the block of place `p`.
pub open spec fn below(p: int, q: int) -> bool {
    ||| p == 7 && 9 <= q < 521
    ||| p == 8 && 521 <= q < 1033
    ||| 521 <= p < 1033 && 1033 <= q < places() && (q - 1033) / 512 == p - 521
}

/// From `(c, z)` to `(c1, z1)` the file has lost numbers and nothing else. The blocks that
/// it has lost are no longer marked as taken; those of other files are as before.
pub open spec fn cut(
    c: Blocks,
    z: Seq<u16>,
    c1: Blocks,
    z1: Seq<u16>,
    s: SuperBlock,
    dev: u16,
) -> bool {
    &&& tree_ok(c1, s, dev, z1)
    &&& c1.dom() == c.dom()
    &&& spared(c, z, c1, z1, s, dev)
    &&& forall|y: int|
        s.s_firstdatazone <= y < s.s_nzones && #[trigger] marked(c1, s, y) ==> marked(c, s, y)
    &&& forall|y: int|
        s.s_firstdatazone <= y < s.s_nzones && #[trigger] owns(c, dev, z, y) && !owns(c1, dev, z1, y)
            ==> !marked(c1, s, y)
    &&& forall|q: int|
        0 <= q < places() ==> #[trigger] num(c1, dev, z1, q) == num(c, dev, z, q) || num(
            c1,
            dev,
            z1,
            q,
        ) == 0
    &&& forall|q: int|
        0 <= q < places() && !inner(q) && #[trigger] num(c1, dev, z1, q) != 0 ==> c1[(
            dev,
            num(c1, dev, z1, q) as u32,
        )] == c[(dev, num(c, dev, z, q) as u32)]
}

/// Cutting twice is cutting.
proof fn lemma_cut_trans(
    c: Blocks,
    z: Seq<u16>,
    c1: Blocks,
    z1: Seq<u16>,
    c2: Blocks,
    z2: Seq<u16>,
    s: SuperBlock,
    dev: u16,
)
    requires
        cut(c, z, c1, z1, s, dev),
        cut(c1, z1, c2, z2, s, dev),
    ensures
        cut(c, z, c2, z2, s, dev),
{
    lemma_spared_trans(c, z, c1, z1, c2, z2, s, dev);
    assert forall|y: int|
        s.s_firstdatazone <= y < s.s_nzones && #[trigger] owns(c, dev, z, y) && !owns(c2, dev, z2, y)
        implies !marked(c2, s, y) by {
        if owns(c1, dev, z1, y) {
        } else if marked(c2, s, y) {
            assert(marked(c1, s, y));
        }
    }
    assert forall|q: int| 0 <= q < places() implies #[trigger] num(c2, dev, z2, q) == num(
        c,
        dev,
        z,
        q,
    ) || num(c2, dev, z2, q) == 0 by {
        assert(num(c1, dev, z1, q) == num(c, dev, z, q) || num(c1, dev, z1, q) == 0);
    }
    assert forall|q: int|
        0 <= q < places() && !inner(q) && #[trigger] num(c2, dev, z2, q) != 0 implies c2[(
        dev,
        num(c2, dev, z2, q) as u32,
    )] == c[(dev, num(c, dev, z, q) as u32)] by {
        assert(num(c1, dev, z1, q) == num(c, dev, z, q) || num(c1, dev, z1, q) == 0);
    }
}

/// Giving a block back takes its mark away and changes no other block of the data area.
pub proof fn lemma_free_block(ka: &BufferCache, kb: &BufferCache, s: SuperBlock, dev: u16, x: int)
    requires
        layout_ok(ka.content(), s, dev),
        stored_whole(ka),
        s.s_firstdatazone <= x < s.s_nzones,
        marked(ka.content(), s, x),
        block_freed(ka, kb, s, x),
    ensures
        ({
            let c = ka.content();
            let c1 = kb.content();
            &&& layout_ok(c1, s, dev)
            &&& c1.dom() == c.dom()
            &&& !marked(c1, s, x)
            &&& forall|y: u32|
                s.s_firstdatazone <= y && y != x ==> #[trigger] c1[(dev, y)] == c[(dev, y)]
            &&& forall|y: int|
                s.s_firstdatazone <= y < s.s_nzones && y != x ==> #[trigger] marked(c1, s, y)
                    == marked(c, s, y)
            &&& stored_whole(kb)
        }),
{
    let c0 = ka.content();
    let c = forgotten(c0, ka.stored(), (dev, x as u32));
    assert(c0.dom().contains((dev, x as u32)));
    assert(c.dom() =~= c0.dom());
    let i = zone_bit(s, x) / 8192;
    let j = zone_bit(s, x) % 8192;
    let slot = s.s_zmap@[i];
    let key = (dev, slot as u32);
    assert(0 <= i < 8);
    assert(slot < s.s_firstdatazone);
    let d = c[key];
    assert(c.dom().contains(key));
    lemma_bitmap_off(d, j);
    let c1 = c.insert(key, bitmap_off(d, j));
    assert(key != (dev, x as u32));
    assert(c1 == free_block_spec(c0, ka.stored(), s, x));
    assert(c1.dom() =~= c.dom());
    assert(!bitmap_bit(c1[key], j));
    assert forall|y: int| s.s_firstdatazone <= y < s.s_nzones && y != x implies #[trigger] marked(
        c1,
        s,
        y,
    ) == marked(c0, s, y) by {
        let a = zone_bit(s, y) / 8192;
        let b = zone_bit(s, y) % 8192;
        assert(0 <= a < 8);
        assert(s.s_zmap@[a] == NIL || s.s_zmap@[a] < s.s_firstdatazone);
        assert(zone_bit(s, y) == 8192 * a + b && zone_bit(s, x) == 8192 * i + j);
        if a == i {
            assert(b != j);
            assert(bitmap_bit(c1[key], b) == bitmap_bit(d, b));
        } else if s.s_zmap@[a] != NIL {
            assert(s.s_zmap@[a] != s.s_zmap@[i]) by {
                if a < i {
                    assert(s.s_zmap@[a] != NIL);
                } else {
                    assert(s.s_zmap@[i] != NIL);
                }
            }
            assert(s.s_zmap@[a] < s.s_firstdatazone);
            assert((s.s_dev, s.s_zmap@[a] as u32) != key);
        }
    }
}

/// Taking away the number of place `p` and the mark of its block is a cut.
proof fn lemma_released(
    c: Blocks,
    z: Seq<u16>,
    c1: Blocks,
    z1: Seq<u16>,
    s: SuperBlock,
    dev: u16,
    p: int,
)
    requires
        tree_ok(c, s, dev, z),
        layout_ok(c1, s, dev),
        c1.dom() == c.dom(),
        z1.len() == 9,
        0 <= p < places(),
        num(c, dev, z, p) != 0,
        forall|q: int|
            0 <= q < places() ==> #[trigger] num(c1, dev, z1, q) == (if q == p {
                0
            } else {
                num(c, dev, z, q)
            }),
        forall|y: int|
            s.s_firstdatazone <= y < s.s_nzones && y != num(c, dev, z, p) && #[trigger] marked(
                c,
                s,
                y,
            ) ==> marked(c1, s, y),
        forall|q: int|
            0 <= q < places() && q != p && !inner(q) && #[trigger] num(c, dev, z, q) != 0 ==> c1[(
                dev,
                num(c, dev, z, q) as u32,
            )] == c[(dev, num(c, dev, z, q) as u32)],
        forall|y: int|
            s.s_firstdatazone <= y < s.s_nzones && #[trigger] marked(c, s, y) && !owns(c, dev, z, y)
                ==> c1[(dev, y as u32)] == c[(dev, y as u32)],
        forall|y: int|
            s.s_firstdatazone <= y < s.s_nzones && #[trigger] marked(c1, s, y) ==> marked(c, s, y),
        !marked(c1, s, num(c, dev, z, p)),
    ensures
        cut(c, z, c1, z1, s, dev),
{
    assert forall|y: int|
        s.s_firstdatazone <= y < s.s_nzones && #[trigger] owns(c, dev, z, y) && !owns(c1, dev, z1, y)
        implies !marked(c1, s, y) by {
        let q = choose|q: int| 0 <= q < places() && #[trigger] num(c, dev, z, q) == y;
        if q != p {
            assert(num(c1, dev, z1, q) == y);
        }
    }
    assert forall|y: int|
        s.s_firstdatazone <= y < s.s_nzones && #[trigger] marked(c, s, y) && !owns(c, dev, z, y) implies c1[(
        dev,
        y as u32,
    )] == c[(dev, y as u32)] && marked(c1, s, y) && !owns(c1, dev, z1, y) by {
        assert(y != num(c, dev, z, p));
        if owns(c1, dev, z1, y) {
            let q = choose|q: int| 0 <= q < places() && #[trigger] num(c1, dev, z1, q) == y;
            assert(num(c, dev, z, q) == y);
        }
    }
    assert forall|q: int| 0 <= q < places() && #[trigger] num(c1, dev, z1, q) != 0 implies
        s.s_firstdatazone <= num(c1, dev, z1, q) < s.s_nzones && marked(c1, s, num(c1, dev, z1, q)) by {
        assert(num(c, dev, z, q) != 0);
        assert(marked(c, s, num(c, dev, z, q)));
        if q < p {
            assert(num(c, dev, z, q) != num(c, dev, z, p));
        } else {
            assert(num(c, dev, z, p) != num(c, dev, z, q));
        }
    }
    assert forall|a: int, q: int|
        #![trigger num(c1, dev, z1, a), num(c1, dev, z1, q)]
        0 <= a < q < places() && num(c1, dev, z1, a) != 0 implies num(c1, dev, z1, a) != num(
        c1,
        dev,
        z1,
        q,
    ) by {
        assert(num(c, dev, z, a) != num(c, dev, z, q));
    }
}

/// Two places of a file do not lead to one block.
proof fn lemma_distinct(c: Blocks, s: SuperBlock, dev: u16, z: Seq<u16>, p: int, q: int)
    requires
        tree_ok(c, s, dev, z),
        0 <= p < places(),
        0 <= q < places(),
        p != q,
        num(c, dev, z, p) != 0,
        num(c, dev, z, q) != 0,
    ensures
        num(c, dev, z, p) != num(c, dev, z, q),
        s.s_firstdatazone <= num(c, dev, z, q) < s.s_nzones,
        s.s_firstdatazone <= num(c, dev, z, p) < s.s_nzones,
{
    if q < p {
        assert(num(c, dev, z, q) != num(c, dev, z, p));
    }
}

/// Giving back the block of one of the inode's own numbers, behind which there
/// are no others.
proof fn lemma_release_zone(
    ka: &BufferCache,
    kb: &BufferCache,
    s: SuperBlock,
    dev: u16,
    z: Seq<u16>,
    k: int,
)
    requires
        tree_ok(ka.content(), s, dev, z),
        stored_whole(ka),
        0 <= k < 9,
        z[k] != 0,
        forall|q: int| #[trigger] below(k, q) ==> num(ka.content(), dev, z, q) == 0,
        block_freed(ka, kb, s, z[k] as int),
    ensures
        ({
            let c = ka.content();
            let c1 = kb.content();
            let z1 = z.update(k, 0u16);
            &&& cut(c, z, c1, z1, s, dev)
            &&& forall|q: int|
                0 <= q < places() ==> #[trigger] num(c1, dev, z1, q) == (if q == k {
                    0
                } else {
                    num(c, dev, z, q)
                })
            &&& stored_whole(kb)
        }),
{
    let c = ka.content();
    let c1 = kb.content();
    let x = z[k] as int;
    assert(num(c, dev, z, k) == x);
    assert(marked(c, s, num(c, dev, z, k)));
    lemma_free_block(ka, kb, s, dev, x);
    let z1 = z.update(k, 0u16);
    assert(num(c, dev, z, 7) == z[7] && num(c, dev, z, 8) == z[8]);
    assert forall|b: int, j: int|
        b == 0 || s.s_firstdatazone <= b <= 0xFFFF && b != x implies #[trigger] block_number(
        c1,
        dev,
        b,
        j,
    ) == block_number(c, dev, b, j) by {
        let y = b as u32;
        assert(b != 0 ==> c1[(dev, y)] == c[(dev, y)]);
    }
    assert forall|q: int| 0 <= q < places() implies #[trigger] num(c1, dev, z1, q) == (if q == k {
        0
    } else {
        num(c, dev, z, q)
    }) by {
        if q < 9 {
        } else if q < 521 {
            if k == 7 {
                assert(below(7, q));
            } else if z[7] != 0 {
                lemma_distinct(c, s, dev, z, k, 7);
            }
        } else {
            if k != 8 && z[8] != 0 {
                lemma_distinct(c, s, dev, z, k, 8);
            }
            if q < 1033 {
                if k == 8 {
                    assert(below(8, q));
                }
            } else {
                let m = 521 + (q - 1033) / 512;
                assert(num(c, dev, z, m) == block_number(c, dev, z[8] as int, m - 521));
                if k == 8 {
                    assert(below(8, m));
                } else if num(c, dev, z, m) != 0 {
                    lemma_distinct(c, s, dev, z, k, m);
                }
            }
        }
    }
    assert forall|q: int|
        0 <= q < places() && q != k && !inner(q) && #[trigger] num(c, dev, z, q) != 0 implies c1[(
        dev,
        num(c, dev, z, q) as u32,
    )] == c[(dev, num(c, dev, z, q) as u32)] by {
        lemma_distinct(c, s, dev, z, k, q);
        let y = num(c, dev, z, q) as u32;
        assert(c1[(dev, y)] == c[(dev, y)]);
    }
    assert forall|y: int|
        s.s_firstdatazone <= y < s.s_nzones && #[trigger] marked(c, s, y) && !owns(c, dev, z, y) implies c1[(
        dev,
        y as u32,
    )] == c[(dev, y as u32)] by {
        assert(num(c, dev, z, k) != y);
        let w = y as u32;
        assert(c1[(dev, w)] == c[(dev, w)]);
    }
    lemma_released(c, z, c1, z1, s, dev, k);
}

/// Giving back the block of number `k` in the block of place `q0`, behind which
/// there are no others.
proof fn lemma_release_entry(
    ka: &BufferCache,
    kb: &BufferCache,
    s: SuperBlock,
    dev: u16,
    z: Seq<u16>,
    q0: int,
    k: int,
    p: int,
)
    requires
        tree_ok(ka.content(), s, dev, z),
        stored_whole(ka),
        0 <= k < 512,
        q0 == 7 && p == 9 + k || q0 == 8 && p == 521 + k || 521 <= q0 < 1033 && p == 1033 + 512 * (
        q0 - 521) + k,
        num(ka.content(), dev, z, p) != 0,
        forall|q: int| #[trigger] below(p, q) ==> num(ka.content(), dev, z, q) == 0,
        entry_freed(
            ka,
            kb,
            s,
            dev,
            num(ka.content(), dev, z, q0),
            k,
            num(ka.content(), dev, z, p),
        ),
    ensures
        ({
            let c = ka.content();
            let c1 = kb.content();
            &&& cut(c, z, c1, z, s, dev)
            &&& forall|q: int|
                0 <= q < places() ==> #[trigger] num(c1, dev, z, q) == (if q == p {
                    0
                } else {
                    num(c, dev, z, q)
                })
            &&& stored_whole(kb)
        }),
{
    let c = ka.content();
    let c1 = kb.content();
    let ind = num(c, dev, z, q0);
    let x = num(c, dev, z, p);
    assert(0 <= p < places() && 0 <= q0 < places() && inner(q0));
    assert(num(c, dev, z, 7) == z[7] && num(c, dev, z, 8) == z[8]);
    assert(q0 >= 521 ==> (p - 1033) / 512 == q0 - 521 && (p - 1033) % 512 == k);
    assert(x == block_number(c, dev, ind, k));
    assert(ind != 0 && ind <= 0xFFFF);
    let key = (dev, ind as u32);
    assert(c.dom().contains(key));
    assert(q0 != p);
    assert(ind != x) by {
        if q0 < p {
            assert(num(c, dev, z, q0) != num(c, dev, z, p));
        } else {
            assert(num(c, dev, z, p) != num(c, dev, z, q0));
        }
    }
    let km = choose|m: BufferCache|
        #[trigger] entry_zeroed(ka, &m, dev, ind, k) && block_freed(&m, kb, s, x);
    let ca = entry_cleared(c, dev, ind, k);
    assert(km.content() == ca);
    lemma_entry_set(c[key], k, 0u16);
    assert(ca.dom() =~= c.dom());
    assert forall|y: int| s.s_firstdatazone <= y < s.s_nzones implies #[trigger] marked(ca, s, y)
        == marked(c, s, y) by {
        let a = zone_bit(s, y) / 8192;
        assert(0 <= a < 8);
        assert(s.s_zmap@[a] == NIL || s.s_zmap@[a] < s.s_firstdatazone);
        assert(marked(c, s, num(c, dev, z, q0)));
    }
    assert(marked(c, s, x));
    assert(marked(ca, s, x));
    assert(layout_ok(ca, s, dev));
    assert(stored_whole(&km));
    lemma_free_block(&km, kb, s, dev, x);
    assert forall|b: int, j: int|
        (b == 0 || s.s_firstdatazone <= b <= 0xFFFF && b != x) && 0 <= j < 512 implies #[trigger] block_number(
        c1,
        dev,
        b,
        j,
    ) == (if b == ind && j == k {
        0
    } else {
        block_number(c, dev, b, j)
    }) by {
        if b != 0 {
            let y = b as u32;
            assert(c1[(dev, y)] == ca[(dev, y)]);
            if b == ind {
                assert(le16(ca[key], 2 * j) == (if j == k {
                    0u16
                } else {
                    le16(c[key], 2 * j)
                }));
            }
        }
    }
    assert forall|q: int| 0 <= q < places() implies #[trigger] num(c1, dev, z, q) == (if q == p {
        0
    } else {
        num(c, dev, z, q)
    }) by {
        if z[7] != 0 {
            lemma_distinct(c, s, dev, z, p, 7);
        }
        if z[8] != 0 {
            lemma_distinct(c, s, dev, z, p, 8);
        }
        if q < 9 {
        } else if q < 521 {
            if q0 != 7 && z[7] != 0 {
                lemma_distinct(c, s, dev, z, q0, 7);
            }
        } else if q < 1033 {
            if q0 != 8 && z[8] != 0 {
                lemma_distinct(c, s, dev, z, q0, 8);
            }
        } else {
            let a = (q - 1033) / 512;
            let j = (q - 1033) % 512;
            let m = 521 + a;
            let xm = num(c, dev, z, m);
            assert(xm == block_number(c, dev, z[8] as int, a));
            if q0 != 8 && z[8] != 0 {
                lemma_distinct(c, s, dev, z, q0, 8);
            }
            if q0 == 8 && a == k {
                assert(m == p);
                assert(below(p, q));
            } else {
                assert(block_number(c1, dev, z[8] as int, a) == xm);
                if m != p && xm != 0 {
                    lemma_distinct(c, s, dev, z, p, m);
                }
                if m != q0 && xm != 0 {
                    lemma_distinct(c, s, dev, z, q0, m);
                }
            }
        }
    }
    assert forall|q: int|
        0 <= q < places() && q != p && !inner(q) && #[trigger] num(c, dev, z, q) != 0 implies c1[(
        dev,
        num(c, dev, z, q) as u32,
    )] == c[(dev, num(c, dev, z, q) as u32)] by {
        lemma_distinct(c, s, dev, z, p, q);
        lemma_distinct(c, s, dev, z, q0, q);
        let y = num(c, dev, z, q) as u32;
        assert(c1[(dev, y)] == ca[(dev, y)]);
    }
    assert forall|y: int|
        s.s_firstdatazone <= y < s.s_nzones && #[trigger] marked(c, s, y) && !owns(c, dev, z, y) implies c1[(
        dev,
        y as u32,
    )] == c[(dev, y as u32)] by {
        assert(num(c, dev, z, p) != y && num(c, dev, z, q0) != y);
        let w = y as u32;
        assert(c1[(dev, w)] == ca[(dev, w)]);
    }
    lemma_released(c, z, c1, z, s, dev, p);
}

proof fn lemma_cut_refl(c: Blocks, s: SuperBlock, dev: u16, z: Seq<u16>)
    requires
        tree_ok(c, s, dev, z),
    ensures
        cut(c, z, c, z, s, dev),
{
}

/// Reading changes nothing that a cut speaks of.
proof fn lemma_read_cut(ka: &BufferCache, kb: &BufferCache, s: SuperBlock, dev: u16, z: Seq<u16>)
    requires
        tree_ok(ka.content(), s, dev, z),
        stored_whole(ka),
        only_read(ka, kb),
    ensures
        cut(ka.content(), z, kb.content(), z, s, dev),
        stored_whole(kb),
{
    lemma_cut_refl(ka.content(), s, dev, z);
}

proof fn lemma_trunc_direct(
    ka: &BufferCache,
    kb: &BufferCache,
    s: SuperBlock,
    dev: u16,
    z: Seq<u16>,
    z1: Seq<u16>,
    k: int,
)
    requires
        tree_ok(ka.content(), s, dev, z),
        stored_whole(ka),
        0 <= k <= 7,
        trunc_direct_did(ka, kb, s, z, z1, k),
    ensures
        cut(ka.content(), z, kb.content(), z1, s, dev),
        forall|q: int|
            0 <= q < places() ==> #[trigger] num(kb.content(), dev, z1, q) == (if k <= q < 7 {
                0
            } else {
                num(ka.content(), dev, z, q)
            }),
        stored_whole(kb),
    decreases 7 - k,
{
    let c = ka.content();
    let c1 = kb.content();
    if k >= 7 {
        lemma_cut_refl(c, s, dev, z);
    } else if z[k] == 0 {
        assert(num(c, dev, z, k) == 0);
        lemma_trunc_direct(ka, kb, s, dev, z, z1, k + 1);
    } else {
        let za = z.update(k, 0u16);
        let km = choose|m: BufferCache|
            {
                &&& #[trigger] block_freed(ka, &m, s, z[k] as int)
                &&& trunc_direct_did(&m, kb, s, za, z1, k + 1)
            };
        lemma_release_zone(ka, &km, s, dev, z, k);
        let ca = km.content();
        lemma_trunc_direct(&km, kb, s, dev, za, z1, k + 1);
        lemma_cut_trans(c, z, ca, za, c1, z1, s, dev);
        assert forall|q: int| 0 <= q < places() implies #[trigger] num(c1, dev, z1, q) == (if k <= q
            < 7 {
            0
        } else {
            num(c, dev, z, q)
        }) by {
            assert(num(ca, dev, za, q) == num(ca, dev, za, q));
        }
    }
}

/// The first place of the numbers in the block of place `q0`.
spec fn base(q0: int) -> int {
    if q0 == 7 {
        9
    } else {
        1033 + 512 * (q0 - 521)
    }
}

proof fn lemma_trunc_entries(
    ka: &BufferCache,
    kb: &BufferCache,
    s: SuperBlock,
    dev: u16,
    z: Seq<u16>,
    q0: int,
    k: int,
)
    requires
        tree_ok(ka.content(), s, dev, z),
        stored_whole(ka),
        0 <= k <= 512,
        q0 == 7 || 521 <= q0 < 1033,
        trunc_entries_did(ka, kb, s, dev, num(ka.content(), dev, z, q0), k),
    ensures
        cut(ka.content(), z, kb.content(), z, s, dev),
        forall|q: int|
            0 <= q < places() ==> #[trigger] num(kb.content(), dev, z, q) == (if base(q0) + k <= q
                < base(q0) + 512 {
                0
            } else {
                num(ka.content(), dev, z, q)
            }),
        stored_whole(kb),
    decreases 512 - k,
{
    let c = ka.content();
    let c1 = kb.content();
    let ind = num(c, dev, z, q0);
    if k >= 512 {
        lemma_cut_refl(c, s, dev, z);
    } else {
        let p = base(q0) + k;
        assert(q0 >= 521 ==> (p - 1033) / 512 == q0 - 521 && (p - 1033) % 512 == k);
        assert(num(c, dev, z, 7) == z[7]);
        assert(num(c, dev, z, p) == block_number(c, dev, ind, k));
        let x = block_number(c, dev, ind, k);
        let km = choose|m: BufferCache|
            {
                &&& #[trigger] entry_done(ka, &m, s, dev, ind, k)
                &&& trunc_entries_did(&m, kb, s, dev, ind, k + 1)
            };
        let kr = choose|m: BufferCache|
            {
                &&& #[trigger] only_read(ka, &m)
                &&& if x == 0 {
                    km == m
                } else {
                    entry_freed(&m, &km, s, dev, ind, k, x)
                }
            };
        let ca = km.content();
        lemma_read_cut(ka, &kr, s, dev, z);
        if x == 0 {
            lemma_trunc_entries(&km, kb, s, dev, z, q0, k + 1);
        } else {
            assert forall|q: int| #[trigger] below(p, q) implies num(c, dev, z, q) == 0 by {}
            lemma_release_entry(&kr, &km, s, dev, z, q0, k, p);
            assert(num(ca, dev, z, q0) == ind);
            lemma_trunc_entries(&km, kb, s, dev, z, q0, k + 1);
            lemma_cut_trans(c, z, ca, z, c1, z, s, dev);
            assert forall|q: int| 0 <= q < places() implies #[trigger] num(c1, dev, z, q) == (if p
                <= q < base(q0) + 512 {
                0
            } else {
                num(c, dev, z, q)
            }) by {
                assert(num(ca, dev, z, q) == num(ca, dev, z, q));
            }
        }
    }
}

proof fn lemma_trunc_indirect(
    ka: &BufferCache,
    kb: &BufferCache,
    s: SuperBlock,
    dev: u16,
    z: Seq<u16>,
    q0: int,
    first: int,
    free: bool,
)
    requires
        tree_ok(ka.content(), s, dev, z),
        stored_whole(ka),
        0 <= first,
        q0 == 7 || 521 <= q0 < 1033,
        num(ka.content(), dev, z, q0) != 0,
        trunc_indirect_did(ka, kb, s, dev, first, num(ka.content(), dev, z, q0), free),
    ensures
        cut(ka.content(), z, kb.content(), z, s, dev),
        forall|q: int|
            0 <= q < places() ==> #[trigger] num(kb.content(), dev, z, q) == (if base(q0) + first <= q
                < base(q0) + 512 {
                0
            } else {
                num(ka.content(), dev, z, q)
            }),
        free ==> forall|q: int| #[trigger] below(q0, q) ==> num(kb.content(), dev, z, q) == 0,
        first == 0 ==> free,
        stored_whole(kb),
{
    let c = ka.content();
    let c1 = kb.content();
    let ind = num(c, dev, z, q0);
    assert(c.dom().contains((dev, ind as u32)));
    let k = least(first, 512);
    let (kr, km) = choose|a: BufferCache, b: BufferCache|
        {
            &&& #[trigger] only_read(ka, &a)
            &&& #[trigger] trunc_entries_did(
                &a,
                &b,
                s,
                dev,
                ind,
                least(first, 512),
            )
            &&& only_read(&b, kb)
            &&& free == no_entries(b.content(), dev, ind)
        };
    lemma_read_cut(ka, &kr, s, dev, z);
    lemma_trunc_entries(&kr, &km, s, dev, z, q0, k);
    lemma_read_cut(&km, kb, s, dev, z);
    assert(num(c1, dev, z, q0) == ind);
    assert(num(c, dev, z, 7) == z[7]);
    assert forall|j: int| 0 <= j < 512 implies #[trigger] block_number(c1, dev, ind, j) == num(
        c1,
        dev,
        z,
        base(q0) + j,
    ) by {
        let p = base(q0) + j;
        assert(q0 >= 521 ==> (p - 1033) / 512 == q0 - 521 && (p - 1033) % 512 == j);
        assert(num(c1, dev, z, 7) == z[7]);
        assert(q0 >= 521 ==> num(c1, dev, z, q0) == block_number(c1, dev, z[8] as int, q0 - 521));
    }
    if no_entries(c1, dev, ind) {
        assert forall|q: int| #[trigger] below(q0, q) implies num(c1, dev, z, q) == 0 by {
            let j = q - base(q0);
            assert(0 <= j < 512);
            assert(block_number(c1, dev, ind, j) == 0);
        }
    }
    if first == 0 {
        assert(no_entries(c1, dev, ind)) by {
            assert forall|j: int| 0 <= j < 512 implies #[trigger] block_number(c1, dev, ind, j) == 0 by {
                assert(num(c1, dev, z, base(q0) + j) == 0);
            }
        }
    }
}

/// One number of the block of numbers `z[8]`.
#[verifier::spinoff_prover]
#[verifier::rlimit(40)]
proof fn lemma_mid_done(
    ka: &BufferCache,
    kb: &BufferCache,
    s: SuperBlock,
    dev: u16,
    z: Seq<u16>,
    k: int,
    first: int,
)
    requires
        tree_ok(ka.content(), s, dev, z),
        stored_whole(ka),
        z[8] != 0,
        0 <= k < 512,
        0 <= first < 512,
        mid_done(ka, kb, s, dev, z[8] as int, k, first),
    ensures
        cut(ka.content(), z, kb.content(), z, s, dev),
        forall|q: int|
            0 <= q < places() && !inner(q) ==> #[trigger] num(kb.content(), dev, z, q) == (if 1033
                + 512 * k + first <= q < 1033 + 512 * (k + 1) {
                0
            } else {
                num(ka.content(), dev, z, q)
            }),
        first == 0 ==> num(kb.content(), dev, z, 521 + k) == 0,
        stored_whole(kb),
{
    let c = ka.content();
    let c1 = kb.content();
    let dind = z[8] as int;
    assert(num(c, dev, z, 8) == dind);
    let p = 521 + k;
    let mid = block_number(c, dev, dind, k);
    assert(num(c, dev, z, p) == mid);
    let kr = choose|a: BufferCache|
        {
            &&& #[trigger] only_read(ka, &a)
            &&& if mid == 0 {
                *kb == a
            } else {
                exists|b: BufferCache, free: bool|
                    {
                        &&& #[trigger] trunc_indirect_did(&a, &b, s, dev, first, mid, free)
                        &&& if free {
                            entry_freed(&b, kb, s, dev, dind, k, mid)
                        } else {
                            *kb == b
                        }
                    }
            }
        };
    lemma_read_cut(ka, &kr, s, dev, z);
    if mid == 0 {
        assert forall|q: int| 0 <= q < places() && !inner(q) implies #[trigger] num(c1, dev, z, q) == (
        if 1033 + 512 * k + first <= q < 1033 + 512 * (k + 1) {
            0
        } else {
            num(c, dev, z, q)
        }) by {
            if 1033 + 512 * k <= q < 1033 + 512 * (k + 1) {
                assert((q - 1033) / 512 == k);
                assert(num(c, dev, z, q) == 0);
            }
        }
    } else {
        let (km, free) = choose|b: BufferCache, free: bool|
            {
                &&& #[trigger] trunc_indirect_did(&kr, &b, s, dev, first, mid, free)
                &&& if free {
                    entry_freed(&b, kb, s, dev, dind, k, mid)
                } else {
                    *kb == b
                }
            };
        let ca = km.content();
        lemma_trunc_indirect(&kr, &km, s, dev, z, p, first, free);
        assert(num(ca, dev, z, 8) == dind);
        assert(num(ca, dev, z, p) == mid);
        if free {
            lemma_release_entry(&km, kb, s, dev, z, 8, k, p);
            lemma_cut_trans(c, z, ca, z, c1, z, s, dev);
        }
        assert forall|q: int| 0 <= q < places() && !inner(q) implies #[trigger] num(c1, dev, z, q) == (
        if 1033 + 512 * k + first <= q < 1033 + 512 * (k + 1) {
            0
        } else {
            num(c, dev, z, q)
        }) by {
            assert(num(ca, dev, z, q) == num(ca, dev, z, q));
        }
    }
}

#[verifier::spinoff_prover]
#[verifier::rlimit(40)]
proof fn lemma_trunc_mids(
    ka: &BufferCache,
    kb: &BufferCache,
    s: SuperBlock,
    dev: u16,
    z: Seq<u16>,
    k: int,
    first: int,
)
    requires
        tree_ok(ka.content(), s, dev, z),
        stored_whole(ka),
        z[8] != 0,
        0 <= k <= 512,
        0 <= first < 512,
        trunc_mids_did(ka, kb, s, dev, z[8] as int, k, first),
    ensures
        cut(ka.content(), z, kb.content(), z, s, dev),
        forall|q: int|
            0 <= q < places() && !inner(q) ==> #[trigger] num(kb.content(), dev, z, q) == (if q
                >= 1033 + 512 * k + first {
                0
            } else {
                num(ka.content(), dev, z, q)
            }),
        forall|q: int|
            521 + k <= q < 1033 && (first == 0 || q > 521 + k) ==> #[trigger] num(
                kb.content(),
                dev,
                z,
                q,
            ) == 0,
        stored_whole(kb),
    decreases 512 - k,
{
    let c = ka.content();
    let c1 = kb.content();
    let dind = z[8] as int;
    if k >= 512 {
        lemma_cut_refl(c, s, dev, z);
    } else {
        let p = 521 + k;
        let km = choose|m: BufferCache|
            {
                &&& #[trigger] mid_done(ka, &m, s, dev, dind, k, first)
                &&& trunc_mids_did(&m, kb, s, dev, dind, k + 1, 0)
            };
        let cb = km.content();
        lemma_mid_done(ka, &km, s, dev, z, k, first);
        lemma_trunc_mids(&km, kb, s, dev, z, k + 1, 0);
        lemma_cut_trans(c, z, cb, z, c1, z, s, dev);
        assert forall|q: int| 0 <= q < places() && !inner(q) implies #[trigger] num(c1, dev, z, q) == (
        if q >= 1033 + 512 * k + first {
            0
        } else {
            num(c, dev, z, q)
        }) by {
            assert(num(cb, dev, z, q) == num(cb, dev, z, q));
        }
        if first == 0 {
            assert(num(cb, dev, z, p) == 0);
            assert(num(c1, dev, z, p) == num(cb, dev, z, p) || num(c1, dev, z, p) == 0);
        }
    }
}

proof fn lemma_trunc_dindirect(
    ka: &BufferCache,
    kb: &BufferCache,
    s: SuperBlock,
    dev: u16,
    z: Seq<u16>,
    z1: Seq<u16>,
    first: int,
)
    requires
        tree_ok(ka.content(), s, dev, z),
        stored_whole(ka),
        0 <= first,
        trunc_dindirect_did(ka, kb, s, dev, z, z1, first),
    ensures
        cut(ka.content(), z, kb.content(), z1, s, dev),
        forall|q: int|
            0 <= q < places() && !inner(q) ==> #[trigger] num(kb.content(), dev, z1, q) == (if q
                >= 1033 + first {
                0
            } else {
                num(ka.content(), dev, z, q)
            }),
        first == 0 ==> forall|q: int|
            q == 8 || 521 <= q < 1033 ==> #[trigger] num(kb.content(), dev, z1, q) == 0,
{
    let c = ka.content();
    let c1 = kb.content();
    let dind = z[8] as int;
    assert(num(c, dev, z, 8) == dind);
    if dind == 0 {
        lemma_cut_refl(c, s, dev, z);
    } else {
        assert(c.dom().contains((dev, dind as u32)));
        let k = first / 512;
        let r = first % 512;
        assert(first == 512 * k + r);
        let (kr, km, ke) = choose|a: BufferCache, b: BufferCache, e: BufferCache|
            {
                &&& #[trigger] only_read(ka, &a)
                &&& #[trigger] trunc_mids_did(&a, &b, s, dev, dind, first / 512, first % 512)
                &&& #[trigger] only_read(&b, &e)
                &&& if no_entries(b.content(), dev, dind) {
                    block_freed(&e, kb, s, dind) && z1 == z.update(8, 0u16)
                } else {
                    *kb == e && z1 == z
                }
            };
        lemma_read_cut(ka, &kr, s, dev, z);
        let ca = km.content();
        if k <= 512 {
            lemma_trunc_mids(&kr, &km, s, dev, z, k, r);
        } else {
            lemma_cut_refl(c, s, dev, z);
            assert(km == kr);
        }
        assert(cut(c, z, ca, z, s, dev));
        lemma_read_cut(&km, &ke, s, dev, z);
        assert(num(ca, dev, z, 8) == dind);
        if no_entries(ca, dev, dind) {
            assert forall|q: int| #[trigger] below(8, q) implies num(ca, dev, z, q) == 0 by {
                assert(block_number(ca, dev, dind, q - 521) == 0);
            }
            lemma_release_zone(&ke, kb, s, dev, z, 8);
            lemma_cut_trans(c, z, ca, z, c1, z1, s, dev);
        }
        assert forall|q: int| 0 <= q < places() && !inner(q) implies #[trigger] num(c1, dev, z1, q)
            == (if q >= 1033 + first {
            0
        } else {
            num(c, dev, z, q)
        }) by {
            assert(num(ca, dev, z, q) == num(ca, dev, z, q));
        }
        if first == 0 {
            assert forall|j: int| 0 <= j < 512 implies #[trigger] block_number(ca, dev, dind, j) == 0 by {
                assert(num(ca, dev, z, 521 + j) == 0);
            }
            assert forall|q: int| q == 8 || 521 <= q < 1033 implies #[trigger] num(c1, dev, z1, q) == 0 by {
                assert(num(ca, dev, z, q) == num(ca, dev, z, q));
            }
        }
    }
}

proof fn lemma_trunc_single(
    ka: &BufferCache,
    kb: &BufferCache,
    s: SuperBlock,
    dev: u16,
    z: Seq<u16>,
    z1: Seq<u16>,
    first: int,
)
    requires
        tree_ok(ka.content(), s, dev, z),
        stored_whole(ka),
        0 <= first,
        trunc_single_did(ka, kb, s, dev, z, z1, first),
    ensures
        cut(ka.content(), z, kb.content(), z1, s, dev),
        forall|q: int|
            0 <= q < places() && q != 7 ==> #[trigger] num(kb.content(), dev, z1, q) == (if 9 + first
                <= q < 521 {
                0
            } else {
                num(ka.content(), dev, z, q)
            }),
        first == 0 ==> z1[7] == 0,
        stored_whole(kb),
{
    let c = ka.content();
    let c1 = kb.content();
    assert(num(c, dev, z, 7) == z[7]);
    if z[7] == 0 {
        lemma_cut_refl(c, s, dev, z);
    } else {
        let (km, free) = choose|a: BufferCache, free: bool|
            {
                &&& #[trigger] trunc_indirect_did(ka, &a, s, dev, first, z[7] as int, free)
                &&& if free {
                    block_freed(&a, kb, s, z[7] as int) && z1 == z.update(7, 0u16)
                } else {
                    *kb == a && z1 == z
                }
            };
        let ci = km.content();
        lemma_trunc_indirect(ka, &km, s, dev, z, 7, first, free);
        if free {
            assert(num(ci, dev, z, 7) == z[7]);
            lemma_release_zone(&km, kb, s, dev, z, 7);
            lemma_cut_trans(c, z, ci, z, c1, z1, s, dev);
        }
        assert forall|q: int| 0 <= q < places() && q != 7 implies #[trigger] num(c1, dev, z1, q) == (
        if 9 + first <= q < 521 {
            0
        } else {
            num(c, dev, z, q)
        }) by {
            assert(num(ci, dev, z, q) == num(ci, dev, z, q));
        }
    }
}

/// Cutting a file to `keep` blocks leaves it in order: the bytes of those blocks
/// are as before, and all others are gone. Cutting it to none leaves no number. The
/// blocks of other files are as before, and those that the file has lost are free.
pub proof fn lemma_truncate(
    ka: &BufferCache,
    kb: &BufferCache,
    s: SuperBlock,
    dev: u16,
    z: Seq<u16>,
    z1: Seq<u16>,
    keep: int,
)
    requires
        ka.wf(),
        tree_ok(ka.content(), s, dev, z),
        0 <= keep,
        trunc_did(ka, kb, s, dev, z, z1, keep),
    ensures
        tree_ok(kb.content(), s, dev, z1),
        spared(ka.content(), z, kb.content(), z1, s, dev),
        forall|y: int|
            s.s_firstdatazone <= y < s.s_nzones && #[trigger] owns(ka.content(), dev, z, y) && !owns(
                kb.content(),
                dev,
                z1,
                y,
            ) ==> !marked(kb.content(), s, y),
        forall|p: int|
            0 <= p ==> #[trigger] file_byte(kb.content(), dev, z1, p) == (if p / 1024 < keep {
                file_byte(ka.content(), dev, z, p)
            } else {
                0
            }),
        keep == 0 ==> forall|q: int|
            0 <= q < places() ==> #[trigger] num(kb.content(), dev, z1, q) == 0,
{
    let c = ka.content();
    let c1 = kb.content();
    let k1 = least(keep, 7);
    let k2 = past(keep, 7);
    let k3 = past(keep, 519);
    let (km, za, kn, zb) = choose|a: BufferCache, za: Seq<u16>, b: BufferCache, zb: Seq<u16>|
        {
            &&& #[trigger] trunc_direct_did(
                ka,
                &a,
                s,
                z,
                za,
                least(keep, 7),
            )
            &&& #[trigger] trunc_single_did(
                &a,
                &b,
                s,
                dev,
                za,
                zb,
                past(keep, 7),
            )
            &&& trunc_dindirect_did(
                &b,
                kb,
                s,
                dev,
                zb,
                z1,
                past(keep, 519),
            )
        };
    let ca = km.content();
    let cb = kn.content();
    ka.lemma_stored_whole();
    lemma_trunc_direct(ka, &km, s, dev, z, za, k1);
    lemma_trunc_single(&km, &kn, s, dev, za, zb, k2);
    lemma_cut_trans(c, z, ca, za, cb, zb, s, dev);
    lemma_trunc_dindirect(&kn, kb, s, dev, zb, z1, k3);
    lemma_cut_trans(c, z, cb, zb, c1, z1, s, dev);
    assert forall|q: int| 0 <= q < places() && !inner(q) implies #[trigger] num(c1, dev, z1, q) == (if q
        >= place(keep) {
        0
    } else {
        num(c, dev, z, q)
    }) by {
        assert(num(cb, dev, zb, q) == (if 9 + k2 <= q < 521 {
            0
        } else {
            num(ca, dev, za, q)
        }));
        assert(num(ca, dev, za, q) == (if k1 <= q < 7 {
            0
        } else {
            num(c, dev, z, q)
        }));
    }
    assert forall|p: int| 0 <= p implies #[trigger] file_byte(c1, dev, z1, p) == (if p / 1024 < keep {
        file_byte(c, dev, z, p)
    } else {
        0
    }) by {
        let blk = p / 1024;
        if blk < 262663 {
            lemma_mapped(c, dev, z, blk);
            lemma_mapped(c1, dev, z1, blk);
            assert(num(c1, dev, z1, place(blk)) == num(c1, dev, z1, place(blk)));
        }
    }
    if keep == 0 {
        assert forall|q: int| 0 <= q < places() implies #[trigger] num(c1, dev, z1, q) == 0 by {
            if q == 7 {
                assert(num(cb, dev, zb, 7) == zb[7]);
                assert(num(c1, dev, z1, 7) == num(cb, dev, zb, 7) || num(c1, dev, z1, 7) == 0);
            }
        }
    }
}

/// A file that was emptied has given back every block that it had.
pub proof fn lemma_all_freed(
    ka: &BufferCache,
    kb: &BufferCache,
    s: SuperBlock,
    dev: u16,
    z: Seq<u16>,
    z1: Seq<u16>,
    p: int,
)
    requires
        ka.wf(),
        tree_ok(ka.content(), s, dev, z),
        trunc_did(ka, kb, s, dev, z, z1, 0),
        0 <= p < places(),
        num(ka.content(), dev, z, p) != 0,
    ensures
        marked(ka.content(), s, num(ka.content(), dev, z, p)),
        !marked(kb.content(), s, num(ka.content(), dev, z, p)),
{
    lemma_truncate(ka, kb, s, dev, z, z1, 0);
    let y = num(ka.content(), dev, z, p);
    assert(owns(ka.content(), dev, z, y));
    if owns(kb.content(), dev, z1, y) {
        let q = choose|q: int| 0 <= q < places() && #[trigger] num(kb.content(), dev, z1, q) == y;
        assert(num(kb.content(), dev, z1, q) == 0);
    }
}

} // verus!
