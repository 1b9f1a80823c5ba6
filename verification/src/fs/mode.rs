//! File types and permission bits.

use crate::fs::ext2::inode::mode::type_bits;
use vstd::prelude::*;

verus! {

pub const S_IFMT: u16 = 0o170000;
pub const S_IFLNK: u16 = 0o120000;
pub const S_IFREG: u16 = 0o100000;
pub const S_IFBLK: u16 = 0o060000;
pub const S_IFDIR: u16 = 0o040000;
pub const S_IFCHR: u16 = 0o020000;
pub const S_IFIFO: u16 = 0o010000;
pub const S_ISUID: u16 = 0o004000;
pub const S_ISGID: u16 = 0o002000;
pub const S_ISVTX: u16 = 0o001000;
pub const S_IRWXU: u16 = 0o0700;
pub const S_IRUSR: u16 = 0o0400;
pub const S_IWUSR: u16 = 0o0200;
pub const S_IXUSR: u16 = 0o0100;
pub const S_IRWXG: u16 = 0o0070;
pub const S_IRWXO: u16 = 0o0007;

/// Masking a mode leaves its type.
pub proof fn lemma_type(m: u16)
    ensures
        m & 0o170000 == type_bits(m),
{
    assert(m & 0o170000 == m / 0x1000 * 0x1000) by (bit_vector);
}

pub fn is_lnk(m: u16) -> (r: bool)
    ensures
        r == (type_bits(m) == S_IFLNK),
{
    proof {
        lemma_type(m);
    }
    m & S_IFMT == S_IFLNK
}

pub fn is_reg(m: u16) -> (r: bool)
    ensures
        r == (type_bits(m) == S_IFREG),
{
    proof {
        lemma_type(m);
    }
    m & S_IFMT == S_IFREG
}

pub fn is_dir(m: u16) -> (r: bool)
    ensures
        r == (type_bits(m) == S_IFDIR),
{
    proof {
        lemma_type(m);
    }
    m & S_IFMT == S_IFDIR
}

pub fn is_chr(m: u16) -> (r: bool)
    ensures
        r == (type_bits(m) == S_IFCHR),
{
    proof {
        lemma_type(m);
    }
    m & S_IFMT == S_IFCHR
}

pub fn is_blk(m: u16) -> (r: bool)
    ensures
        r == (type_bits(m) == S_IFBLK),
{
    proof {
        lemma_type(m);
    }
    m & S_IFMT == S_IFBLK
}

pub fn is_fifo(m: u16) -> (r: bool)
    ensures
        r == (type_bits(m) == S_IFIFO),
{
    proof {
        lemma_type(m);
    }
    m & S_IFMT == S_IFIFO
}

} // verus!
