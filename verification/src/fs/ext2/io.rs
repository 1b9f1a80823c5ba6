//! Reading the super block, and a check sum.

use vstd::prelude::*;

verus! {

/// Where the super block lies, in bytes.
pub const EXT2_SUPERBLOCK_OFFSET: u64 = 1024;

/// Reading from a block device is not available at this level: nothing is read
/// and the answer is always `false`.
pub fn read_superblock(dev: u32, sb_out: &mut [u8; 1024], read_fn: impl Fn(u32, u64) -> bool) -> (r:
    bool)
    ensures
        !r,
        final(sb_out)@ == old(sb_out)@,
{
    false
}

/// One step of the check sum: add the byte, then rotate left by one bit.
pub open spec fn crc16_step(crc: int, byte: u8) -> int {
    let x = (crc + byte) % 65536;
    2 * x % 65536 + x / 32768
}

/// The check sum of `data`, started at `seed`.
pub open spec fn crc16(seed: int, data: Seq<u8>) -> int
    decreases data.len(),
{
    if data.len() == 0 {
        seed
    } else {
        crc16_step(crc16(seed, data.drop_last()), data.last())
    }
}

/// The check sum of two runs of bytes is that of the second, started at that of
/// the first.
pub proof fn lemma_crc16_concat(seed: int, a: Seq<u8>, b: Seq<u8>)
    ensures
        crc16(seed, a + b) == crc16(crc16(seed, a), b),
    decreases b.len(),
{
    if b.len() == 0 {
        assert(a + b =~= a);
    } else {
        assert((a + b).drop_last() =~= a + b.drop_last());
        lemma_crc16_concat(seed, a, b.drop_last());
    }
}

pub fn ext2_crc16(seed: u16, data: &[u8]) -> (r: u16)
    ensures
        r == crc16(seed as int, data@),
{
    let mut crc: u16 = seed;
    for i in 0..data.len()
        invariant
            crc == crc16(seed as int, data@.subrange(0, i as int)),
    {
        proof {
            let pre = data@.subrange(0, i + 1);
            assert(pre.drop_last() =~= data@.subrange(0, i as int));
        }
        crc = crc.wrapping_add(data[i] as u16);
        proof {
            let c = crc;
            assert(((c << 1) | (c >> 15)) == 2 * c % 65536 + c / 32768) by (bit_vector);
        }
        crc = (crc << 1) | (crc >> 15);
    }
    assert(data@.subrange(0, data@.len() as int) =~= data@);
    crc
}

} // verus!
