//! The type bits of a mode.

use crate::fs::ext2::inode::mode::type_bits;
use vstd::prelude::*;

verus! {

pub const TYPE_MASK: u16 = 0xF000;
pub const S_IFMT: u16 = 0xF000;
pub const S_IFSOCK: u16 = 0xC000;
pub const S_IFLNK: u16 = 0xA000;
pub const S_IFREG: u16 = 0x8000;
pub const S_IFBLK: u16 = 0x6000;
pub const S_IFDIR: u16 = 0x4000;
pub const S_IFCHR: u16 = 0x2000;
pub const S_IFIFO: u16 = 0x1000;

pub fn file_type(mode: u16) -> (r: u16)
    ensures
        r == type_bits(mode),
{
    assert(mode & 0xF000 == mode / 0x1000 * 0x1000) by (bit_vector);
    mode & TYPE_MASK
}

pub fn is_reg(mode: u16) -> (r: bool)
    ensures
        r == (type_bits(mode) == S_IFREG),
{
    file_type(mode) == S_IFREG
}

pub fn is_dir(mode: u16) -> (r: bool)
    ensures
        r == (type_bits(mode) == S_IFDIR),
{
    file_type(mode) == S_IFDIR
}

pub fn is_chr(mode: u16) -> (r: bool)
    ensures
        r == (type_bits(mode) == S_IFCHR),
{
    file_type(mode) == S_IFCHR
}

pub fn is_blk(mode: u16) -> (r: bool)
    ensures
        r == (type_bits(mode) == S_IFBLK),
{
    file_type(mode) == S_IFBLK
}

pub fn is_sock(mode: u16) -> (r: bool)
    ensures
        r == (type_bits(mode) == S_IFSOCK),
{
    file_type(mode) == S_IFSOCK
}

pub fn is_lnk(mode: u16) -> (r: bool)
    ensures
        r == (type_bits(mode) == S_IFLNK),
{
    file_type(mode) == S_IFLNK
}

pub fn is_fifo(mode: u16) -> (r: bool)
    ensures
        r == (type_bits(mode) == S_IFIFO),
{
    file_type(mode) == S_IFIFO
}

} // verus!
