//! Integers in byte order: little endian for the disk formats, big endian for
//! the journal.

use vstd::prelude::*;

verus! {

/// The little-endian 16-bit number at offset `o`.
pub open spec fn le16(s: Seq<u8>, o: int) -> u16 {
    (s[o] + 256 * s[o + 1]) as u16
}

/// The little-endian 32-bit number at offset `o`.
pub open spec fn le32(s: Seq<u8>, o: int) -> u32 {
    (s[o] + 256 * s[o + 1] + 65536 * s[o + 2] + 16777216 * s[o + 3]) as u32
}

/// The little-endian 64-bit number at offset `o`.
pub open spec fn le64(s: Seq<u8>, o: int) -> u64 {
    (le32(s, o) + 0x1_0000_0000 * le32(s, o + 4)) as u64
}

/// The big-endian 16-bit number at offset `o`.
pub open spec fn be16(s: Seq<u8>, o: int) -> u16 {
    (256 * s[o] + s[o + 1]) as u16
}

/// The big-endian 32-bit number at offset `o`.
pub open spec fn be32(s: Seq<u8>, o: int) -> u32 {
    (16777216 * s[o] + 65536 * s[o + 1] + 256 * s[o + 2] + s[o + 3]) as u32
}

/// `le16`, or zero where the bytes end before it does.
pub open spec fn le16_or_zero(s: Seq<u8>, o: int) -> u16 {
    if o + 2 <= s.len() {
        le16(s, o)
    } else {
        0
    }
}

/// `le32`, or zero where the bytes end before it does.
pub open spec fn le32_or_zero(s: Seq<u8>, o: int) -> u32 {
    if o + 4 <= s.len() {
        le32(s, o)
    } else {
        0
    }
}

/// `s` with the bytes of `v`, low byte first, at offset `o`.
pub open spec fn with_le16(s: Seq<u8>, o: int, v: u16) -> Seq<u8> {
    s.update(o, (v % 256) as u8).update(o + 1, (v / 256) as u8)
}

/// `s` with the bytes of `v`, low byte first, at offset `o`.
pub open spec fn with_le32(s: Seq<u8>, o: int, v: u32) -> Seq<u8> {
    s.update(o, (v % 256) as u8).update(o + 1, (v / 256 % 256) as u8).update(
        o + 2,
        (v / 65536 % 256) as u8,
    ).update(o + 3, (v / 16777216) as u8)
}

/// `s` with the bytes of `v`, low byte first, at offset `o`.
pub open spec fn with_le64(s: Seq<u8>, o: int, v: u64) -> Seq<u8> {
    with_le32(
        with_le32(s, o, (v % 0x1_0000_0000) as u32),
        o + 4,
        (v / 0x1_0000_0000) as u32,
    )
}

/// `s` with `t` laid over it at offset `o`.
pub open spec fn overlay(s: Seq<u8>, o: int, t: Seq<u8>) -> Seq<u8> {
    Seq::new(s.len(), |i: int| if o <= i < o + t.len() { t[i - o] } else { s[i] })
}

/// `n` zero bytes.
pub open spec fn zeros(n: nat) -> Seq<u8> {
    Seq::new(n, |i: int| 0u8)
}

/// `s` cut, or filled up with zero bytes, to length `n`.
pub open spec fn padded(s: Seq<u8>, n: nat) -> Seq<u8> {
    Seq::new(n, |i: int| if i < s.len() { s[i] } else { 0u8 })
}

pub open spec fn least(a: int, b: int) -> int {
    if a <= b {
        a
    } else {
        b
    }
}

/// The bytes up to the first zero byte.
pub open spec fn cut_at_zero(s: Seq<u8>) -> Seq<u8>
    decreases s.len(),
{
    if s.len() == 0 || s[0] == 0 {
        Seq::empty()
    } else {
        seq![s[0]] + cut_at_zero(s.skip(1))
    }
}

/// Where no byte before `n` is zero, the first zero byte is at `n` or later.
pub proof fn lemma_cut_at(s: Seq<u8>, n: int)
    requires
        0 <= n <= s.len(),
        forall|i: int| 0 <= i < n ==> s[i] != 0,
    ensures
        n < s.len() && s[n] == 0 ==> cut_at_zero(s) == s.take(n),
        n == s.len() ==> cut_at_zero(s) == s,
        cut_at_zero(s).len() >= n,
    decreases n,
{
    if n == 0 {
        assert(s.take(0) =~= Seq::<u8>::empty());
        if s.len() == 0 {
            assert(s =~= Seq::<u8>::empty());
        }
    } else {
        let t = s.skip(1);
        assert forall|i: int| 0 <= i < n - 1 implies t[i] != 0 by {
            assert(t[i] == s[i + 1]);
        }
        lemma_cut_at(t, n - 1);
        assert(t.len() == s.len() - 1);
        if n < s.len() && s[n] == 0 {
            assert(t[n - 1] == 0);
            assert(seq![s[0]] + t.take(n - 1) =~= s.take(n));
        }
        if n == s.len() {
            assert(seq![s[0]] + t =~= s);
        }
    }
}

/// The place of the first zero byte, or the length.
pub fn zero_at(d: &[u8]) -> (r: usize)
    ensures
        r <= d@.len(),
        cut_at_zero(d@) == d@.take(r as int),
        r < d@.len() ==> d@[r as int] == 0,
        forall|i: int| 0 <= i < r ==> d@[i] != 0,
{
    let mut n: usize = 0;
    while n < d.len() && d[n] != 0
        invariant
            n <= d@.len(),
            forall|i: int| 0 <= i < n ==> d@[i] != 0,
        decreases d@.len() - n,
    {
        n = n + 1;
    }
    proof {
        lemma_cut_at(d@, n as int);
        if n == d@.len() {
            assert(d@.take(n as int) =~= d@);
        }
    }
    n
}

/// What `with_le16` writes, `le16` reads; numbers that lie elsewhere are kept.
pub proof fn lemma_with_le16(s: Seq<u8>, o: int, v: u16)
    requires
        0 <= o,
        o + 2 <= s.len(),
    ensures
        with_le16(s, o, v).len() == s.len(),
        le16(with_le16(s, o, v), o) == v,
        forall|p: int| 0 <= p < s.len() && !(o <= p < o + 2) ==> #[trigger] with_le16(s, o, v)[p] == s[p],
{
}

/// What `with_le32` writes, `le32` reads; numbers that lie elsewhere are kept.
pub proof fn lemma_with_le32(s: Seq<u8>, o: int, v: u32)
    requires
        0 <= o,
        o + 4 <= s.len(),
    ensures
        with_le32(s, o, v).len() == s.len(),
        le32(with_le32(s, o, v), o) == v,
        forall|p: int| 0 <= p < s.len() && !(o <= p < o + 4) ==> #[trigger] with_le32(s, o, v)[p] == s[p],
{
    let t = with_le32(s, o, v);
    assert(t[o] == v % 256 && t[o + 1] == v / 256 % 256 && t[o + 2] == v / 65536 % 256 && t[o + 3]
        == v / 16777216);
    assert(v == v % 256 + 256 * (v / 256 % 256) + 65536 * (v / 65536 % 256) + 16777216 * (v
        / 16777216));
}

/// What `with_le64` writes, `le64` reads; numbers that lie elsewhere are kept.
pub proof fn lemma_with_le64(s: Seq<u8>, o: int, v: u64)
    requires
        0 <= o,
        o + 8 <= s.len(),
    ensures
        with_le64(s, o, v).len() == s.len(),
        le64(with_le64(s, o, v), o) == v,
        forall|p: int| 0 <= p < s.len() && !(o <= p < o + 8) ==> #[trigger] with_le64(s, o, v)[p] == s[p],
{
    let lo = (v % 0x1_0000_0000) as u32;
    let hi = (v / 0x1_0000_0000) as u32;
    let t = with_le32(s, o, lo);
    lemma_with_le32(s, o, lo);
    lemma_with_le32(t, o + 4, hi);
    let u = with_le32(t, o + 4, hi);
    assert(u[o] == t[o] && u[o + 1] == t[o + 1] && u[o + 2] == t[o + 2] && u[o + 3] == t[o + 3]);
}

pub fn get_le16(d: &[u8], o: usize) -> (r: u16)
    requires
        o + 2 <= d@.len(),
    ensures
        r == le16(d@, o as int),
{
    d[o] as u16 + d[o + 1] as u16 * 256
}

pub fn get_le32(d: &[u8], o: usize) -> (r: u32)
    requires
        o + 4 <= d@.len(),
    ensures
        r == le32(d@, o as int),
{
    d[o] as u32 + d[o + 1] as u32 * 256 + d[o + 2] as u32 * 65536 + d[o + 3] as u32 * 16777216
}

pub fn get_be16(d: &[u8], o: usize) -> (r: u16)
    requires
        o + 2 <= d@.len(),
    ensures
        r == be16(d@, o as int),
{
    d[o] as u16 * 256 + d[o + 1] as u16
}

pub fn get_be32(d: &[u8], o: usize) -> (r: u32)
    requires
        o + 4 <= d@.len(),
    ensures
        r == be32(d@, o as int),
{
    d[o] as u32 * 16777216 + d[o + 1] as u32 * 65536 + d[o + 2] as u32 * 256 + d[o + 3] as u32
}

pub fn get_le16_or_zero(d: &[u8], o: usize) -> (r: u16)
    requires
        o <= 0xFFFF,
    ensures
        r == le16_or_zero(d@, o as int),
{
    if o + 2 <= d.len() {
        get_le16(d, o)
    } else {
        0
    }
}

pub fn get_le32_or_zero(d: &[u8], o: usize) -> (r: u32)
    requires
        o <= 0xFFFF,
    ensures
        r == le32_or_zero(d@, o as int),
{
    if o + 4 <= d.len() {
        get_le32(d, o)
    } else {
        0
    }
}

pub fn put_le16(d: &mut Vec<u8>, o: usize, v: u16)
    requires
        o + 2 <= old(d)@.len(),
    ensures
        final(d)@ == with_le16(old(d)@, o as int, v),
{
    let n: usize = d.len();
    d[o] = (v % 256) as u8;
    d[o + 1] = (v / 256) as u8;
}

pub fn put_le32(d: &mut Vec<u8>, o: usize, v: u32)
    requires
        o + 4 <= old(d)@.len(),
    ensures
        final(d)@ == with_le32(old(d)@, o as int, v),
{
    let n: usize = d.len();
    d[o] = (v % 256) as u8;
    d[o + 1] = (v / 256 % 256) as u8;
    d[o + 2] = (v / 65536 % 256) as u8;
    d[o + 3] = (v / 16777216) as u8;
}

pub fn put_le64(d: &mut Vec<u8>, o: usize, v: u64)
    requires
        o + 8 <= old(d)@.len(),
    ensures
        final(d)@ == with_le64(old(d)@, o as int, v),
{
    let n: usize = d.len();
    put_le32(d, o, (v % 0x1_0000_0000) as u32);
    put_le32(d, o + 4, (v / 0x1_0000_0000) as u32);
}

/// Copies `src` over the bytes of `d` from offset `o` on.
pub fn put_bytes(d: &mut Vec<u8>, o: usize, src: &[u8])
    requires
        o + src@.len() <= old(d)@.len(),
    ensures
        final(d)@ == overlay(old(d)@, o as int, src@),
{
    let n: usize = d.len();
    for i in 0..src.len()
        invariant
            o + src@.len() <= d@.len(),
            n == d@.len(),
            d@.len() == old(d)@.len(),
            forall|j: int|
                0 <= j < d@.len() ==> d@[j] == (if o <= j < o + i {
                    src@[j - o]
                } else {
                    old(d)@[j]
                }),
    {
        d[o + i] = src[i];
    }
    assert(d@ =~= overlay(old(d)@, o as int, src@));
}

/// The bytes `a..b` of `d` as a vector of their own.
pub fn copy_range(d: &[u8], a: usize, b: usize) -> (r: Vec<u8>)
    requires
        a <= b <= d@.len(),
    ensures
        r@ == d@.subrange(a as int, b as int),
{
    let mut r: Vec<u8> = Vec::new();
    for i in a..b
        invariant
            a <= b <= d@.len(),
            r@ == d@.subrange(a as int, i as int),
    {
        r.push(d[i]);
    }
    r
}

pub fn zeroed(n: usize) -> (r: Vec<u8>)
    ensures
        r@ == zeros(n as nat),
{
    let r: Vec<u8> = vec![0u8; n];
    assert(r@ =~= zeros(n as nat));
    r
}

/// Whether two byte strings are the same.
pub fn same_bytes(a: &[u8], b: &[u8]) -> (r: bool)
    ensures
        r == (a@ == b@),
{
    if a.len() != b.len() {
        return false;
    }
    for i in 0..a.len()
        invariant
            a@.len() == b@.len(),
            forall|j: int| 0 <= j < i ==> a@[j] == b@[j],
    {
        if a[i] != b[i] {
            return false;
        }
    }
    assert(a@ =~= b@);
    true
}

pub fn take12(d: &[u8], o: usize) -> (r: [u8; 12])
    requires
        o + 12 <= d@.len(),
    ensures
        r@ == d@.subrange(o as int, o + 12),
{
    let n: usize = d.len();
    let mut r: [u8; 12] = [0u8;12];
    for i in 0..12usize
        invariant
            o + 12 <= d@.len(),
            n == d@.len(),
            forall|j: int| 0 <= j < i ==> r@[j] == d@[o + j],
    {
        r[i] = d[o + i];
    }
    assert(r@ =~= d@.subrange(o as int, o + 12));
    r
}

pub fn take16(d: &[u8], o: usize) -> (r: [u8; 16])
    requires
        o + 16 <= d@.len(),
    ensures
        r@ == d@.subrange(o as int, o + 16),
{
    let n: usize = d.len();
    let mut r: [u8; 16] = [0u8;16];
    for i in 0..16usize
        invariant
            o + 16 <= d@.len(),
            n == d@.len(),
            forall|j: int| 0 <= j < i ==> r@[j] == d@[o + j],
    {
        r[i] = d[o + i];
    }
    assert(r@ =~= d@.subrange(o as int, o + 16));
    r
}

pub fn take64(d: &[u8], o: usize) -> (r: [u8; 64])
    requires
        o + 64 <= d@.len(),
    ensures
        r@ == d@.subrange(o as int, o + 64),
{
    let n: usize = d.len();
    let mut r: [u8; 64] = [0u8;64];
    for i in 0..64usize
        invariant
            o + 64 <= d@.len(),
            n == d@.len(),
            forall|j: int| 0 <= j < i ==> r@[j] == d@[o + j],
    {
        r[i] = d[o + i];
    }
    assert(r@ =~= d@.subrange(o as int, o + 64));
    r
}

/// The words of `r` are the little-endian words of `s` from offset `o` on.
pub open spec fn words_at(r: Seq<u32>, s: Seq<u8>, o: int) -> bool {
    forall|i: int| 0 <= i < r.len() ==> #[trigger] r[i] == le32(s, o + 4 * i)
}

pub fn words3(d: &[u8], o: usize) -> (r: [u32; 3])
    requires
        o + 12 <= d@.len(),
    ensures
        words_at(r@, d@, o as int),
{
    let n: usize = d.len();
    let mut r: [u32; 3] = [0u32;3];
    for i in 0..3usize
        invariant
            o + 12 <= d@.len(),
            n == d@.len(),
            forall|j: int| 0 <= j < i ==> #[trigger] r@[j] == le32(d@, o + 4 * j),
    {
        r[i] = get_le32(d, o + 4 * i);
    }
    r
}

pub fn words4(d: &[u8], o: usize) -> (r: [u32; 4])
    requires
        o + 16 <= d@.len(),
    ensures
        words_at(r@, d@, o as int),
{
    let n: usize = d.len();
    let mut r: [u32; 4] = [0u32;4];
    for i in 0..4usize
        invariant
            o + 16 <= d@.len(),
            n == d@.len(),
            forall|j: int| 0 <= j < i ==> #[trigger] r@[j] == le32(d@, o + 4 * j),
    {
        r[i] = get_le32(d, o + 4 * i);
    }
    r
}

pub fn words12(d: &[u8], o: usize) -> (r: [u32; 12])
    requires
        o + 48 <= d@.len(),
    ensures
        words_at(r@, d@, o as int),
{
    let n: usize = d.len();
    let mut r: [u32; 12] = [0u32;12];
    for i in 0..12usize
        invariant
            o + 48 <= d@.len(),
            n == d@.len(),
            forall|j: int| 0 <= j < i ==> #[trigger] r@[j] == le32(d@, o + 4 * j),
    {
        r[i] = get_le32(d, o + 4 * i);
    }
    r
}

pub fn words190(d: &[u8], o: usize) -> (r: [u32; 190])
    requires
        o + 760 <= d@.len(),
    ensures
        words_at(r@, d@, o as int),
{
    let n: usize = d.len();
    let mut r: [u32; 190] = [0u32;190];
    for i in 0..190usize
        invariant
            o + 760 <= d@.len(),
            n == d@.len(),
            forall|j: int| 0 <= j < i ==> #[trigger] r@[j] == le32(d@, o + 4 * j),
    {
        r[i] = get_le32(d, o + 4 * i);
    }
    r
}

/// The 64-bit number with high half `hi` and low half `lo`.
pub fn join64(hi: u32, lo: u32) -> (r: u64)
    ensures
        r == hi * 0x1_0000_0000 + lo,
{
    assert((((hi as u64) << 32) | (lo as u64)) == hi * 0x1_0000_0000 + lo) by (bit_vector);
    ((hi as u64) << 32) | (lo as u64)
}

/// The 32-bit number with high half `hi` and low half `lo`.
pub fn join32(hi: u16, lo: u16) -> (r: u32)
    ensures
        r == hi * 0x1_0000 + lo,
{
    assert((((hi as u32) << 16) | (lo as u32)) == hi * 0x1_0000 + lo) by (bit_vector);
    ((hi as u32) << 16) | (lo as u32)
}


pub fn get_le64(d: &[u8], o: usize) -> (r: u64)
    requires
        o + 8 <= d@.len(),
    ensures
        r == le64(d@, o as int),
{
    let len: usize = d.len();
    assert(o + 8 <= len);
    let lo: u32 = get_le32(d, o);
    let hi: u32 = get_le32(d, o + 4);
    lo as u64 + 0x1_0000_0000 * (hi as u64)
}

} // verus!
