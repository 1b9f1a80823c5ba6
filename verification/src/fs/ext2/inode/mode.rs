//! The type and permission bits of a mode.

use vstd::prelude::*;

verus! {

pub const FIFO: u16 = 0x1000;
pub const CHARACTER_DEVICE: u16 = 0x2000;
pub const DIRECTORY: u16 = 0x4000;
pub const BLOCK_DEVICE: u16 = 0x6000;
pub const REGULAR: u16 = 0x8000;
pub const SYMBOLIC_LINK: u16 = 0xA000;
pub const SOCKET: u16 = 0xC000;

pub const OWNER_READ: u16 = 0x0100;
pub const OWNER_WRITE: u16 = 0x0080;
pub const OWNER_EXEC: u16 = 0x0040;
pub const GROUP_READ: u16 = 0x0020;
pub const GROUP_WRITE: u16 = 0x0010;
pub const GROUP_EXEC: u16 = 0x0008;
pub const OTHER_READ: u16 = 0x0004;
pub const OTHER_WRITE: u16 = 0x0002;
pub const OTHER_EXEC: u16 = 0x0001;

/// The type of a mode: its four high bits, the others zero.
pub open spec fn type_bits(mode: u16) -> u16 {
    (mode / 0x1000 * 0x1000) as u16
}

pub fn file_type(mode: u16) -> (r: u16)
    ensures
        r == type_bits(mode),
{
    assert(mode & 0xF000 == mode / 0x1000 * 0x1000) by (bit_vector);
    mode & 0xF000
}

pub fn is_dir(mode: u16) -> (r: bool)
    ensures
        r == (type_bits(mode) == DIRECTORY),
{
    file_type(mode) == DIRECTORY
}

pub fn is_reg(mode: u16) -> (r: bool)
    ensures
        r == (type_bits(mode) == REGULAR),
{
    file_type(mode) == REGULAR
}

pub fn is_lnk(mode: u16) -> (r: bool)
    ensures
        r == (type_bits(mode) == SYMBOLIC_LINK),
{
    file_type(mode) == SYMBOLIC_LINK
}

} // verus!
