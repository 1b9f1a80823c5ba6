//! On-disk structures of the second extended file system.

pub mod bitmap;
pub mod dir;
pub mod file;
pub mod inode;
pub mod io;
pub mod ops;
pub mod super_block;
pub mod truncate;

pub use inode::{Ext2DirEntry, Ext2Inode};
pub use super_block::{Ext2GroupDesc, Ext2SuperBlock, EXT2_SUPER_MAGIC};
