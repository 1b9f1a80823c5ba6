//! Flags of an open file.

use vstd::prelude::*;

verus! {

pub const O_ACCMODE: u32 = 0o003;
pub const O_RDONLY: u32 = 0o0;
pub const O_WRONLY: u32 = 0o1;
pub const O_RDWR: u32 = 0o2;
pub const O_CREAT: u32 = 0o100;
pub const O_EXCL: u32 = 0o200;
pub const O_NOCTTY: u32 = 0o400;
pub const O_TRUNC: u32 = 0o1000;
pub const O_APPEND: u32 = 0o2000;
pub const O_NONBLOCK: u32 = 0o4000;
/// A symbolic link at the end of the path is not followed.
pub const O_NOFOLLOW: u32 = 0o400000;

} // verus!
