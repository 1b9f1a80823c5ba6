//! Single bits of bytes, and bitmaps made of bytes: bit `i` of a bitmap is bit
//! `i % 8` of byte `i / 8`.

use vstd::prelude::*;

verus! {

/// Bit `k` of the byte `b`.
pub open spec fn bit8(b: u8, k: int) -> bool {
    b & (1u8 << (k as u8)) != 0
}

/// Bit `i` of the bitmap `s`.
pub open spec fn bitmap_bit(s: Seq<u8>, i: int) -> bool {
    bit8(s[i / 8], i % 8)
}

/// The bitmap `s` with bit `i` turned on.
pub open spec fn bitmap_on(s: Seq<u8>, i: int) -> Seq<u8> {
    s.update(i / 8, s[i / 8] | (1u8 << ((i % 8) as u8)))
}

/// The bitmap `s` with bit `i` turned off.
pub open spec fn bitmap_off(s: Seq<u8>, i: int) -> Seq<u8> {
    s.update(i / 8, s[i / 8] & !(1u8 << ((i % 8) as u8)))
}

pub proof fn lemma_bit8_on(b: u8, k: u8, j: u8)
    by (bit_vector)
    requires
        k < 8,
        j < 8,
    ensures
        ((b | (1u8 << k)) & (1u8 << j) != 0) == (j == k || b & (1u8 << j) != 0),
{
}

pub proof fn lemma_bit8_off(b: u8, k: u8, j: u8)
    by (bit_vector)
    requires
        k < 8,
        j < 8,
    ensures
        ((b & !(1u8 << k)) & (1u8 << j) != 0) == (j != k && b & (1u8 << j) != 0),
{
}

/// A byte that is zero has no bit set.
pub proof fn lemma_zero_bits(s: Seq<u8>, i: int)
    requires
        0 <= i,
        s[i / 8] == 0,
    ensures
        !bitmap_bit(s, i),
{
    let k = (i % 8) as u8;
    assert(0u8 & (1u8 << k) == 0) by (bit_vector);
}

/// A byte is determined by its eight bits.
pub proof fn lemma_byte_of_bits(a: u8, b: u8)
    requires
        forall|k: int| 0 <= k < 8 ==> bit8(a, k) == bit8(b, k),
    ensures
        a == b,
{
    assert(bit8(a, 0) == bit8(b, 0) && bit8(a, 1) == bit8(b, 1) && bit8(a, 2) == bit8(b, 2) && bit8(
        a,
        3,
    ) == bit8(b, 3) && bit8(a, 4) == bit8(b, 4) && bit8(a, 5) == bit8(b, 5) && bit8(a, 6) == bit8(
        b,
        6,
    ) && bit8(a, 7) == bit8(b, 7));
    assert(a == b) by (bit_vector)
        requires
            (a & (1u8 << 0u8) != 0) == (b & (1u8 << 0u8) != 0),
            (a & (1u8 << 1u8) != 0) == (b & (1u8 << 1u8) != 0),
            (a & (1u8 << 2u8) != 0) == (b & (1u8 << 2u8) != 0),
            (a & (1u8 << 3u8) != 0) == (b & (1u8 << 3u8) != 0),
            (a & (1u8 << 4u8) != 0) == (b & (1u8 << 4u8) != 0),
            (a & (1u8 << 5u8) != 0) == (b & (1u8 << 5u8) != 0),
            (a & (1u8 << 6u8) != 0) == (b & (1u8 << 6u8) != 0),
            (a & (1u8 << 7u8) != 0) == (b & (1u8 << 7u8) != 0),
    ;
}

/// Turning bit `i` on makes it read as set and leaves every other bit alone.
pub proof fn lemma_bitmap_on(s: Seq<u8>, i: int)
    requires
        0 <= i < 8 * s.len(),
    ensures
        bitmap_on(s, i).len() == s.len(),
        forall|j: int|
            0 <= j < 8 * s.len() ==> #[trigger] bitmap_bit(bitmap_on(s, i), j) == (j == i
                || bitmap_bit(s, j)),
{
    assert forall|j: int| 0 <= j < 8 * s.len() implies #[trigger] bitmap_bit(bitmap_on(s, i), j)
        == (j == i || bitmap_bit(s, j)) by {
        lemma_bit8_on(s[i / 8], (i % 8) as u8, (j % 8) as u8);
    }
}

/// Turning bit `i` off makes it read as clear and leaves every other bit alone.
pub proof fn lemma_bitmap_off(s: Seq<u8>, i: int)
    requires
        0 <= i < 8 * s.len(),
    ensures
        bitmap_off(s, i).len() == s.len(),
        forall|j: int|
            0 <= j < 8 * s.len() ==> #[trigger] bitmap_bit(bitmap_off(s, i), j) == (j != i
                && bitmap_bit(s, j)),
{
    assert forall|j: int| 0 <= j < 8 * s.len() implies #[trigger] bitmap_bit(bitmap_off(s, i), j)
        == (j != i && bitmap_bit(s, j)) by {
        lemma_bit8_off(s[i / 8], (i % 8) as u8, (j % 8) as u8);
    }
}

/// Two bitmaps of one length with the same bits are the same bytes.
pub proof fn lemma_bitmap_ext(s: Seq<u8>, t: Seq<u8>)
    requires
        s.len() == t.len(),
        forall|j: int| 0 <= j < 8 * s.len() ==> #[trigger] bitmap_bit(s, j) == bitmap_bit(t, j),
    ensures
        s == t,
{
    assert forall|n: int| 0 <= n < s.len() implies s[n] == t[n] by {
        assert forall|k: int| 0 <= k < 8 implies bit8(s[n], k) == bit8(t[n], k) by {
            assert(bitmap_bit(s, 8 * n + k) == bitmap_bit(t, 8 * n + k));
            assert((8 * n + k) / 8 == n && (8 * n + k) % 8 == k);
        }
        lemma_byte_of_bits(s[n], t[n]);
    }
    assert(s =~= t);
}

/// Turning a clear bit on and off again gives the bitmap back.
pub proof fn lemma_bitmap_on_off(s: Seq<u8>, i: int)
    requires
        0 <= i < 8 * s.len(),
        !bitmap_bit(s, i),
    ensures
        bitmap_off(bitmap_on(s, i), i) == s,
{
    let t = bitmap_on(s, i);
    lemma_bitmap_on(s, i);
    lemma_bitmap_off(t, i);
    assert forall|j: int| 0 <= j < 8 * s.len() implies #[trigger] bitmap_bit(bitmap_off(t, i), j)
        == bitmap_bit(s, j) by {
        assert(bitmap_bit(t, j) == (j == i || bitmap_bit(s, j)));
    }
    lemma_bitmap_ext(bitmap_off(t, i), s);
}

/// Reads bit `i` of the bitmap.
pub fn bitmap_get(s: &[u8], i: usize) -> (r: bool)
    requires
        i < 8 * s@.len(),
    ensures
        r == bitmap_bit(s@, i as int),
{
    let k: u8 = (i % 8) as u8;
    s[i / 8] & (1u8 << k) != 0
}

/// Turns bit `i` of the bitmap on.
pub fn bitmap_turn_on(s: &mut Vec<u8>, i: usize)
    requires
        i < 8 * old(s)@.len(),
    ensures
        final(s)@ == bitmap_on(old(s)@, i as int),
{
    let k: u8 = (i % 8) as u8;
    let b: u8 = s[i / 8];
    s[i / 8] = b | (1u8 << k);
}

/// Turns bit `i` of the bitmap off.
pub fn bitmap_turn_off(s: &mut Vec<u8>, i: usize)
    requires
        i < 8 * old(s)@.len(),
    ensures
        final(s)@ == bitmap_off(old(s)@, i as int),
{
    let k: u8 = (i % 8) as u8;
    let b: u8 = s[i / 8];
    s[i / 8] = b & !(1u8 << k);
}

} // verus!
