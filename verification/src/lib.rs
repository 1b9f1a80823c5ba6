//! A verified file system core: on-disk formats, block cache, inode and file
//! tables, and the small kernel registries that sit beside them.

pub mod bits;
pub mod bytes;
pub mod errno;
pub mod fs;
pub mod info;
pub mod ioport;
pub mod irq;
