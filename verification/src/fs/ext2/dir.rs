//! Directory records.

use vstd::prelude::*;

verus! {

pub const EXT2_DIR_ENTRY_MIN_SIZE: usize = 8;

/// `n` rounded up to a multiple of four.
pub open spec fn round_up4(n: int) -> int {
    (n + 3) / 4 * 4
}

/// Clearing the two low bits rounds down to a multiple of four.
pub proof fn lemma_mask4(x: u16)
    ensures
        x & !3u16 == x / 4 * 4,
{
    assert(x & !3u16 == x / 4 * 4) by (bit_vector);
}

/// The room that a record with a name of `name_len` bytes takes.
pub fn ext2_rec_len(name_len: u16) -> (r: u16)
    requires
        name_len <= 65524,
    ensures
        r == round_up4(8 + name_len),
{
    let raw: u16 = 8 + name_len;
    proof {
        lemma_mask4((raw + 3) as u16);
    }
    (raw + 3) & !3u16
}

} // verus!
