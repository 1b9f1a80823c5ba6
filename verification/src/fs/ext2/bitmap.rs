//! Block and inode bitmaps.

use crate::bits::{bitmap_bit, bitmap_get};
use vstd::prelude::*;

verus! {

/// Bits that one bitmap block holds.
pub const BITS_PER_BLOCK: usize = 32768;

/// A bitmap over the blocks of a group.
pub struct BlockBitmap<'a> {
    data: &'a [u8],
    bits: usize,
}

impl<'a> BlockBitmap<'a> {
    /// The bytes that hold the bits.
    pub closed spec fn bytes(&self) -> Seq<u8> {
        self.data@
    }

    /// How many bits count.
    pub closed spec fn size(&self) -> nat {
        self.bits as nat
    }

    #[verifier::type_invariant]
    closed spec fn wf(&self) -> bool {
        self.bits <= 8 * self.data@.len()
    }

    pub fn new(data: &'a [u8], bits: usize) -> (r: Self)
        requires
            bits <= 8 * data@.len(),
        ensures
            r.bytes() == data@,
            r.size() == bits,
    {
        Self { data, bits }
    }

    /// Whether `bit` is set; a bit past the end reads as clear.
    pub fn test_bit(&self, bit: usize) -> (r: bool)
        ensures
            r == (bit < self.size() && bitmap_bit(self.bytes(), bit as int)),
    {
        proof {
            use_type_invariant(self);
        }
        if bit >= self.bits {
            return false;
        }
        bitmap_get(self.data, bit)
    }
}

/// A bitmap over the inodes of a group.
pub struct InodeBitmap<'a> {
    data: &'a [u8],
    bits: usize,
}

impl<'a> InodeBitmap<'a> {
    /// The bytes that hold the bits.
    pub closed spec fn bytes(&self) -> Seq<u8> {
        self.data@
    }

    /// How many bits count.
    pub closed spec fn size(&self) -> nat {
        self.bits as nat
    }

    #[verifier::type_invariant]
    closed spec fn wf(&self) -> bool {
        self.bits <= 8 * self.data@.len()
    }

    pub fn new(data: &'a [u8], bits: usize) -> (r: Self)
        requires
            bits <= 8 * data@.len(),
        ensures
            r.bytes() == data@,
            r.size() == bits,
    {
        Self { data, bits }
    }

    /// Whether `bit` is set; a bit past the end reads as clear.
    pub fn test_bit(&self, bit: usize) -> (r: bool)
        ensures
            r == (bit < self.size() && bitmap_bit(self.bytes(), bit as int)),
    {
        proof {
            use_type_invariant(self);
        }
        if bit >= self.bits {
            return false;
        }
        bitmap_get(self.data, bit)
    }
}

} // verus!
