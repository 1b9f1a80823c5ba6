//! The fourth extended file system, which is also the second and the third:
//! the on-disk formats are supersets of one another.

pub mod bitmap;
pub mod dir;
pub mod extent;
pub mod extent_status;
pub mod feature;
pub mod file_type;
pub mod group_desc;
pub mod inode;
pub mod inode_flags;
pub mod journal;
pub mod making;
pub mod map;
pub mod mkfs;
pub mod namei;
pub mod names;
pub mod nodes;
pub mod ops;
pub mod placing;
pub mod readdir;
pub mod recovery;
pub mod selftest;
pub mod super_block;
pub mod symlink;

pub use dir::{DirIter, Ext4DirEntry};
pub use extent::{Extent, ExtentHeader, ExtentIdx, ExtentNode};
pub use feature::Ext4Features;
pub use group_desc::Ext4GroupDesc;
pub use inode::Ext4Inode;
pub use super_block::{Ext4FeatureFlags, Ext4SuperBlock};
