//! File types as a directory entry holds them.

use super::inode::mode;
use crate::fs::ext2::inode::mode::type_bits;
use vstd::prelude::*;

verus! {

pub const EXT4_FT_UNKNOWN: u8 = 0;
pub const EXT4_FT_REG_FILE: u8 = 1;
pub const EXT4_FT_DIR: u8 = 2;
pub const EXT4_FT_CHRDEV: u8 = 3;
pub const EXT4_FT_BLKDEV: u8 = 4;
pub const EXT4_FT_FIFO: u8 = 5;
pub const EXT4_FT_SOCK: u8 = 6;
pub const EXT4_FT_SYMLINK: u8 = 7;

/// The file type of a mode.
pub open spec fn type_in(m: u16) -> u8 {
    let t = type_bits(m);
    if t == mode::S_IFREG {
        EXT4_FT_REG_FILE
    } else if t == mode::S_IFDIR {
        EXT4_FT_DIR
    } else if t == mode::S_IFCHR {
        EXT4_FT_CHRDEV
    } else if t == mode::S_IFBLK {
        EXT4_FT_BLKDEV
    } else if t == mode::S_IFIFO {
        EXT4_FT_FIFO
    } else if t == mode::S_IFSOCK {
        EXT4_FT_SOCK
    } else if t == mode::S_IFLNK {
        EXT4_FT_SYMLINK
    } else {
        EXT4_FT_UNKNOWN
    }
}

/// The file type of a mode, as a directory entry holds it.
pub fn from_mode(mode: u16) -> (r: u8)
    ensures
        r == type_in(mode),
{
    let t: u16 = mode::file_type(mode);
    if t == mode::S_IFREG {
        EXT4_FT_REG_FILE
    } else if t == mode::S_IFDIR {
        EXT4_FT_DIR
    } else if t == mode::S_IFCHR {
        EXT4_FT_CHRDEV
    } else if t == mode::S_IFBLK {
        EXT4_FT_BLKDEV
    } else if t == mode::S_IFIFO {
        EXT4_FT_FIFO
    } else if t == mode::S_IFSOCK {
        EXT4_FT_SOCK
    } else if t == mode::S_IFLNK {
        EXT4_FT_SYMLINK
    } else {
        EXT4_FT_UNKNOWN
    }
}

/// The name of a file type.
pub open spec fn name_spec(t: u8) -> Seq<char> {
    if t == EXT4_FT_REG_FILE {
        "regular"@
    } else if t == EXT4_FT_DIR {
        "directory"@
    } else if t == EXT4_FT_CHRDEV {
        "char"@
    } else if t == EXT4_FT_BLKDEV {
        "block"@
    } else if t == EXT4_FT_FIFO {
        "fifo"@
    } else if t == EXT4_FT_SOCK {
        "socket"@
    } else if t == EXT4_FT_SYMLINK {
        "symlink"@
    } else {
        "unknown"@
    }
}

pub fn name(t: u8) -> (r: &'static str)
    ensures
        r@ == name_spec(t),
{
    match t {
        EXT4_FT_UNKNOWN => "unknown",
        EXT4_FT_REG_FILE => "regular",
        EXT4_FT_DIR => "directory",
        EXT4_FT_CHRDEV => "char",
        EXT4_FT_BLKDEV => "block",
        EXT4_FT_FIFO => "fifo",
        EXT4_FT_SOCK => "socket",
        EXT4_FT_SYMLINK => "symlink",
        _ => "unknown",
    }
}

} // verus!
