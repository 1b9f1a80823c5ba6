//! Which I/O ports are taken.

use crate::bits::{
    bitmap_bit, bitmap_get, bitmap_turn_off, bitmap_turn_on, lemma_bitmap_ext, lemma_bitmap_off,
    lemma_bitmap_on, lemma_zero_bits,
};
use vstd::prelude::*;

verus! {

/// How many bytes the map of all ports has.
pub const IO_BITMAP_SIZE: usize = 8192;
/// How many ports there are.
pub const NR_PORTS: u32 = 65536;

/// How far a task may use I/O ports.
#[derive(Debug, Clone, Copy, PartialEq, Eq, Structural)]
pub enum IoPrivilegeLevel {
    /// Not at all.
    Level0,
    /// The ports up to 0x3FF.
    Level1,
    /// The ports up to 0xFFFF.
    Level2,
    /// All ports.
    Level3,
}

/// The ports that are taken, a bit for each.
pub struct IoPorts {
    pub taken: Vec<u8>,
}

/// Whether `i` is one of `extent` numbers from `base` on.
pub open spec fn within(i: int, base: int, extent: int) -> bool {
    base <= i < base + extent
}

/// The bitmap `t` is `s` with the bits of a range all set to one value.
pub open spec fn is_filled(s: Seq<u8>, t: Seq<u8>, base: int, extent: int, value: bool) -> bool {
    &&& t.len() == s.len()
    &&& forall|i: int|
        0 <= i < 8 * s.len() ==> #[trigger] bitmap_bit(t, i) == if within(i, base, extent) {
            value
        } else {
            bitmap_bit(s, i)
        }
}

/// Whether any bit of a range is set.
pub open spec fn any_set(s: Seq<u8>, base: int, extent: int) -> bool {
    exists|i: int| within(i, base, extent) && #[trigger] bitmap_bit(s, i)
}

/// Taking ports that are free and releasing them again gives the map back as
/// it was, and a check of the range tells the two apart.
pub proof fn lemma_snarf_release(s: Seq<u8>, t: Seq<u8>, u: Seq<u8>, base: int, extent: int)
    requires
        0 <= base,
        0 < extent,
        base + extent <= 8 * s.len(),
        !any_set(s, base, extent),
        is_filled(s, t, base, extent, true),
        is_filled(t, u, base, extent, false),
    ensures
        any_set(t, base, extent),
        !any_set(u, base, extent),
        u == s,
{
    assert(within(base, base, extent) && bitmap_bit(t, base));
    assert forall|i: int| 0 <= i < 8 * s.len() implies #[trigger] bitmap_bit(u, i) == bitmap_bit(s, i) by {
        assert(bitmap_bit(t, i) == if within(i, base, extent) {
            true
        } else {
            bitmap_bit(s, i)
        });
    }
    lemma_bitmap_ext(u, s);
}

/// Taking or releasing ports does not touch those outside the range.
pub proof fn lemma_disjoint(s: Seq<u8>, t: Seq<u8>, base: int, extent: int, value: bool, base2: int, extent2: int)
    requires
        is_filled(s, t, base, extent, value),
        0 <= base2,
        base2 + extent2 <= 8 * s.len(),
        base + extent <= base2 || base2 + extent2 <= base,
    ensures
        any_set(t, base2, extent2) == any_set(s, base2, extent2),
{
    if any_set(t, base2, extent2) {
        let i = choose|i: int| within(i, base2, extent2) && #[trigger] bitmap_bit(t, i);
        assert(bitmap_bit(s, i));
    }
    if any_set(s, base2, extent2) {
        let i = choose|i: int| within(i, base2, extent2) && #[trigger] bitmap_bit(s, i);
        assert(bitmap_bit(t, i));
    }
}

/// Sets the bits of a range of a bitmap to `new_value`.
pub fn set_bitmap(bitmap: &mut Vec<u8>, base: u32, extent: u32, new_value: bool)
    requires
        base + extent <= u32::MAX,
        base + extent <= 8 * old(bitmap)@.len(),
    ensures
        is_filled(old(bitmap)@, final(bitmap)@, base as int, extent as int, new_value),
{
    for i in 0..extent
        invariant
            base + extent <= u32::MAX,
            base + extent <= 8 * bitmap@.len(),
            is_filled(old(bitmap)@, bitmap@, base as int, i as int, new_value),
    {
        let at: usize = (base + i) as usize;
        let ghost before = bitmap@;
        if new_value {
            proof {
                lemma_bitmap_on(bitmap@, at as int);
            }
            bitmap_turn_on(bitmap, at);
        } else {
            proof {
                lemma_bitmap_off(bitmap@, at as int);
            }
            bitmap_turn_off(bitmap, at);
        }
        assert forall|j: int| 0 <= j < 8 * bitmap@.len() implies #[trigger] bitmap_bit(bitmap@, j)
            == if within(j, base as int, i + 1) {
            new_value
        } else {
            bitmap_bit(old(bitmap)@, j)
        } by {
            assert(bitmap_bit(before, j) == if within(j, base as int, i as int) {
                new_value
            } else {
                bitmap_bit(old(bitmap)@, j)
            });
        }
    }
}

/// Whether any bit of a range of a bitmap is set.
pub fn check_bitmap(bitmap: &[u8], base: u32, extent: u32) -> (r: bool)
    requires
        base + extent <= u32::MAX,
        base + extent <= 8 * bitmap@.len(),
    ensures
        r == any_set(bitmap@, base as int, extent as int),
{
    for i in 0..extent
        invariant
            base + extent <= u32::MAX,
            base + extent <= 8 * bitmap@.len(),
            !any_set(bitmap@, base as int, i as int),
    {
        if bitmap_get(bitmap, (base + i) as usize) {
            assert(within(base + i, base as int, extent as int) && bitmap_bit(bitmap@, base + i));
            return true;
        }
        assert forall|j: int| within(j, base as int, i + 1) implies !#[trigger] bitmap_bit(bitmap@, j) by {
            if j < base + i {
                assert(within(j, base as int, i as int));
            }
        }
    }
    false
}

/// Whether port `i` is one of those that a machine always uses.
pub open spec fn is_standard(i: int) -> bool {
    ||| within(i, 0x40, 4)
    ||| within(i, 0x70, 2)
    ||| within(i, 0x60, 5)
    ||| within(i, 0x00, 16)
    ||| within(i, 0x20, 8)
    ||| within(i, 0xA0, 8)
    ||| within(i, 0x3F8, 8)
    ||| within(i, 0x2F8, 8)
    ||| within(i, 0x378, 4)
}

impl IoPorts {
    pub open spec fn wf(&self) -> bool {
        self.taken@.len() == IO_BITMAP_SIZE
    }

    /// Whether port `i` is taken.
    pub open spec fn is_taken(&self, i: int) -> bool {
        bitmap_bit(self.taken@, i)
    }

    /// No port is taken.
    pub fn new() -> (r: IoPorts)
        ensures
            r.wf(),
            forall|i: int| 0 <= i < NR_PORTS ==> !#[trigger] r.is_taken(i),
    {
        let taken: Vec<u8> = vec![0u8; IO_BITMAP_SIZE];
        let r = IoPorts { taken };
        assert forall|i: int| 0 <= i < NR_PORTS implies !#[trigger] r.is_taken(i) by {
            lemma_zero_bits(r.taken@, i);
        }
        r
    }

    /// Whether any port of a range is taken; of a range that leads beyond the
    /// last port, none is.
    pub fn check_port(&self, from: u32, num: u32) -> (r: bool)
        requires
            self.wf(),
            from + num <= u32::MAX,
        ensures
            r == (from + num <= NR_PORTS && any_set(self.taken@, from as int, num as int)),
    {
        if from + num > NR_PORTS {
            return false;
        }
        check_bitmap(self.taken.as_slice(), from, num)
    }

    /// Takes the ports of a range; one that leads beyond the last port is left
    /// alone.
    pub fn snarf_region(&mut self, from: u32, num: u32)
        requires
            old(self).wf(),
            from + num <= u32::MAX,
        ensures
            final(self).wf(),
            from + num > NR_PORTS ==> final(self).taken@ == old(self).taken@,
            from + num <= NR_PORTS ==> is_filled(
                old(self).taken@,
                final(self).taken@,
                from as int,
                num as int,
                true,
            ),
    {
        if from + num > NR_PORTS {
            return;
        }
        set_bitmap(&mut self.taken, from, num, true);
    }

    /// Releases the ports of a range; one that leads beyond the last port is
    /// left alone.
    pub fn release_region(&mut self, from: u32, num: u32)
        requires
            old(self).wf(),
            from + num <= u32::MAX,
        ensures
            final(self).wf(),
            from + num > NR_PORTS ==> final(self).taken@ == old(self).taken@,
            from + num <= NR_PORTS ==> is_filled(
                old(self).taken@,
                final(self).taken@,
                from as int,
                num as int,
                false,
            ),
    {
        if from + num > NR_PORTS {
            return;
        }
        set_bitmap(&mut self.taken, from, num, false);
    }

    /// Takes the ports that a machine always uses: timer, clock, keyboard, DMA,
    /// interrupt controllers, serial and parallel lines.
    pub fn init(&mut self)
        requires
            old(self).wf(),
        ensures
            final(self).wf(),
            forall|i: int|
                0 <= i < NR_PORTS ==> #[trigger] final(self).is_taken(i) == (is_standard(i)
                    || old(self).is_taken(i)),
    {
        let ghost s0 = self.taken@;
        self.snarf_region(0x40, 4);
        let ghost s1 = self.taken@;
        self.snarf_region(0x70, 2);
        let ghost s2 = self.taken@;
        self.snarf_region(0x60, 5);
        let ghost s3 = self.taken@;
        self.snarf_region(0x00, 16);
        let ghost s4 = self.taken@;
        self.snarf_region(0x20, 8);
        let ghost s5 = self.taken@;
        self.snarf_region(0xA0, 8);
        let ghost s6 = self.taken@;
        self.snarf_region(0x3F8, 8);
        let ghost s7 = self.taken@;
        self.snarf_region(0x2F8, 8);
        let ghost s8 = self.taken@;
        self.snarf_region(0x378, 4);
        assert forall|i: int| 0 <= i < NR_PORTS implies #[trigger] self.is_taken(i) == (is_standard(i)
            || old(self).is_taken(i)) by {
            assert(bitmap_bit(s1, i) == (within(i, 0x40, 4) || bitmap_bit(s0, i)));
            assert(bitmap_bit(s2, i) == (within(i, 0x70, 2) || bitmap_bit(s1, i)));
            assert(bitmap_bit(s3, i) == (within(i, 0x60, 5) || bitmap_bit(s2, i)));
            assert(bitmap_bit(s4, i) == (within(i, 0x00, 16) || bitmap_bit(s3, i)));
            assert(bitmap_bit(s5, i) == (within(i, 0x20, 8) || bitmap_bit(s4, i)));
            assert(bitmap_bit(s6, i) == (within(i, 0xA0, 8) || bitmap_bit(s5, i)));
            assert(bitmap_bit(s7, i) == (within(i, 0x3F8, 8) || bitmap_bit(s6, i)));
            assert(bitmap_bit(s8, i) == (within(i, 0x2F8, 8) || bitmap_bit(s7, i)));
        }
    }

    /// Takes some ports, checks them and their neighbour, and releases them;
    /// whether all was as it should be, which it is unless the neighbour was
    /// taken before.
    pub fn selftest(&mut self) -> (r: bool)
        requires
            old(self).wf(),
        ensures
            final(self).wf(),
            r == !old(self).is_taken(0x110),
            is_filled(old(self).taken@, final(self).taken@, 0x100, 16, false),
    {
        let ghost s0 = self.taken@;
        self.snarf_region(0x100, 16);
        let ghost s1 = self.taken@;
        let a: bool = self.check_port(0x100, 1);
        let b: bool = self.check_port(0x10F, 1);
        let c: bool = self.check_port(0x110, 1);
        proof {
            assert(bitmap_bit(s1, 0x100) && bitmap_bit(s1, 0x10F));
            assert(bitmap_bit(s1, 0x110) == bitmap_bit(s0, 0x110));
            assert(within(0x100, 0x100, 1) && within(0x10F, 0x10F, 1) && within(0x110, 0x110, 1));
        }
        self.release_region(0x100, 16);
        let d: bool = self.check_port(0x100, 1);
        proof {
            assert(!bitmap_bit(self.taken@, 0x100));
            assert forall|i: int| 0 <= i < 8 * s0.len() implies #[trigger] bitmap_bit(self.taken@, i) == if within(
                i,
                0x100,
                16,
            ) {
                false
            } else {
                bitmap_bit(s0, i)
            } by {
                assert(within(i, 0x100, 16) || bitmap_bit(s1, i) == bitmap_bit(s0, i));
            }
        }
        a && b && !c && !d
    }
}

} // verus!
