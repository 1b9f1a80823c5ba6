//! File systems and the tables they share.

pub mod access;
pub mod aio;
pub mod buffer;
pub mod devices;
pub mod event;
pub mod ext2;
pub mod ext4;
pub mod file_table;
pub mod inode;
pub mod minix;
pub mod mode;
pub mod mqueue;
pub mod namei;
pub mod naming;
pub mod oflags;
pub mod open;
pub mod paths;
pub mod pipe;
pub mod proc;
pub mod read_write;
pub mod refs;
pub mod stat;
pub mod super_block;
pub mod sync;
pub mod tmpfs;
pub mod using;
pub mod waiting;

use crate::fs::buffer::BufferCache;
use crate::fs::devices::Devices;
use crate::fs::ext4::ops::full::Ext4SbInfo;
use crate::fs::file_table::File;
use crate::fs::inode::{Inode, NIL};
use crate::fs::proc::ProcFs;
use crate::fs::super_block::SuperBlock;
use crate::fs::tmpfs::Tmpfs;
use vstd::prelude::*;

verus! {

pub const NR_OPEN: usize = 16;
pub const NR_INODE: usize = 64;
pub const NR_FILE: usize = 32;
pub const NR_SUPER: usize = 4;

pub const MAY_EXEC: u16 = 1;
pub const MAY_WRITE: u16 = 2;
pub const MAY_READ: u16 = 4;

pub const READ: i32 = 0;
pub const WRITE: i32 = 1;
pub const READA: i32 = 2;
pub const WRITEA: i32 = 3;

pub const MS_RDONLY: u64 = 1;
pub const MS_NOSUID: u64 = 2;
pub const MS_NODEV: u64 = 4;
pub const MS_NOEXEC: u64 = 8;
pub const MS_SYNC: u64 = 16;
pub const MS_REMOUNT: u64 = 32;

pub const SEEK_SET: u32 = 0;
pub const SEEK_CUR: u32 = 1;
pub const SEEK_END: u32 = 2;

/// The major number of a device: its high byte.
pub fn major(dev: u16) -> (r: u32)
    ensures
        r == dev / 256,
{
    assert(dev >> 8 == dev / 256) by (bit_vector);
    (dev >> 8) as u32
}

/// The minor number of a device: its low byte.
pub fn minor(dev: u16) -> (r: u32)
    ensures
        r == dev % 256,
{
    assert(dev & 0xFF == dev % 256) by (bit_vector);
    (dev & 0xFF) as u32
}

/// The device with those numbers, of which the low bytes count.
pub open spec fn dev_of(ma: u32, mi: u32) -> int {
    (ma % 256) * 256 + mi % 256
}

pub fn mkdev(ma: u32, mi: u32) -> (r: u16)
    ensures
        r == dev_of(ma, mi),
{
    assert((((ma & 0xFF) << 8) | (mi & 0xFF)) == (ma % 256) * 256 + mi % 256) by (bit_vector);
    (((ma & 0xFF) << 8) | (mi & 0xFF)) as u16
}

/// Taking a device number apart and putting it together again gives it back.
pub proof fn lemma_mkdev(dev: u16)
    ensures
        dev_of((dev / 256) as u32, (dev % 256) as u32) == dev,
{
}

/// Putting a device number together and taking it apart gives the parts.
pub proof fn lemma_major_minor(ma: u32, mi: u32)
    requires
        ma < 256,
        mi < 256,
    ensures
        dev_of(ma, mi) / 256 == ma,
        dev_of(ma, mi) % 256 == mi,
{
}

/// A directory entry as it is handed to a reader of a directory.
#[derive(Debug, Clone, Copy)]
pub struct Dirent {
    pub d_ino: u64,
    pub d_off: i64,
    pub d_reclen: u16,
    pub d_type: u8,
    pub d_name: [u8; 32],
}

/// The size of a directory entry in memory.
pub const DIRENT_SIZE: u16 = 56;

/// The bytes of the blocks of all devices.
pub type Blocks = Map<(u16, u32), Seq<u8>>;

/// The block cache and the tables above it.
pub struct Fs {
    pub cache: BufferCache,
    pub inodes: Vec<Inode>,
    pub supers: Vec<SuperBlock>,
    pub ext4: Vec<Ext4SbInfo>,
    /// The time, in seconds.
    pub now: u32,
    /// The user that the running task acts for; zero may do nearly all.
    pub euid: u16,
    /// The group that the running task acts for.
    pub egid: u16,
    pub root_dev: u16,
    pub root_mountflags: u64,
    pub root_inode: usize,
    pub pwd_inode: usize,
}

impl Fs {
    /// The bytes of the blocks.
    pub open spec fn blocks(&self) -> Blocks {
        self.cache.content()
    }

    /// The root and the working directory are the same.
    pub open spec fn same_roots(&self, o: &Fs) -> bool {
        self.root_inode == o.root_inode && self.pwd_inode == o.pwd_inode
    }

    /// The tables have their sizes and their indices lead into them; the cache
    /// is at rest.
    pub open spec fn wf(&self) -> bool {
        &&& self.cache.ready()
        &&& self.inodes@.len() == 64
        &&& self.supers@.len() == 4
        &&& self.ext4@.len() == 4
        &&& forall|n: int| 0 <= n < 64 ==> (#[trigger] self.inodes@[n]).links_ok()
        &&& forall|s: int| 0 <= s < 4 ==> (#[trigger] self.supers@[s]).links_ok()
        &&& forall|s: int| 0 <= s < 4 ==> (#[trigger] self.ext4@[s]).sizes_ok()
    }

    /// Empty tables, and a cache without devices.
    pub fn new() -> (r: Fs)
        ensures
            r.wf(),
            r.cache.devices().len() == 0,
            forall|n: int| 0 <= n < 64 ==> (#[trigger] r.inodes@[n]).is_clear(),
            forall|s: int| 0 <= s < 4 ==> (#[trigger] r.supers@[s]).is_clear(),
            forall|s: int| 0 <= s < 4 ==> (#[trigger] r.ext4@[s]).is_empty(),
            r.now == 0,
            r.euid == 0 && r.egid == 0,
            r.root_dev == 0,
            r.root_mountflags == 0,
            r.root_inode == NIL,
            r.pwd_inode == NIL,
    {
        let mut inodes: Vec<Inode> = Vec::new();
        for n in 0..NR_INODE
            invariant
                inodes@.len() == n,
                forall|k: int| 0 <= k < n ==> (#[trigger] inodes@[k]).is_clear(),
        {
            inodes.push(Inode::new());
        }
        let mut supers: Vec<SuperBlock> = Vec::new();
        let mut ext4: Vec<Ext4SbInfo> = Vec::new();
        for s in 0..NR_SUPER
            invariant
                supers@.len() == s,
                ext4@.len() == s,
                forall|k: int| 0 <= k < s ==> (#[trigger] supers@[k]).is_clear() && supers@[k].links_ok(),
                forall|k: int| 0 <= k < s ==> (#[trigger] ext4@[k]).is_empty() && ext4@[k].sizes_ok(),
        {
            supers.push(SuperBlock::new());
            ext4.push(Ext4SbInfo::empty());
        }
        Fs {
            cache: BufferCache::new(),
            inodes,
            supers,
            ext4,
            now: 0,
            euid: 0,
            egid: 0,
            root_dev: 0,
            root_mountflags: 0,
            root_inode: NIL,
            pwd_inode: NIL,
        }
    }
}

/// The file systems, with the tables of devices and open files.
pub struct Vfs {
    pub fs: Fs,
    pub devices: Devices,
    pub tmpfs: Tmpfs,
    pub proc: ProcFs,
    pub files: Vec<File>,
    /// The open file of each descriptor of each task.
    pub fds: Vec<[usize; 16]>,
    /// The task that is running.
    pub current: usize,
}

/// How many tasks there can be.
pub const NR_TASKS: usize = 64;

impl Vfs {
    /// The tables have their sizes and their indices lead into them.
    pub open spec fn wf(&self) -> bool {
        &&& self.fs.wf()
        &&& self.fs.root_inode == NIL || self.fs.root_inode < 64
        &&& self.fs.pwd_inode == NIL || self.fs.pwd_inode < 64
        &&& self.tmpfs.wf()
        &&& self.files@.len() == 32
        &&& forall|f: int| 0 <= f < 32 ==> (#[trigger] self.files@[f]).links_ok()
        &&& self.fds@.len() == 64
        &&& forall|t: int, fd: int|
            0 <= t < 64 && 0 <= fd < 16 ==> {
                let f = #[trigger] self.fds@[t]@[fd];
                f == NIL || f < 32
            }
        &&& self.current < 64
    }

    /// Nothing mounted and nothing open.
    pub fn new() -> (r: Vfs)
        ensures
            r.wf(),
            r.fs.cache.devices().len() == 0,
            forall|n: int| 0 <= n < 64 ==> (#[trigger] r.fs.inodes@[n]).is_clear(),
            forall|s: int| 0 <= s < 4 ==> (#[trigger] r.fs.supers@[s]).is_clear(),
            r.fs.root_inode == NIL,
            r.fs.pwd_inode == NIL,
            forall|f: int| 0 <= f < 32 ==> (#[trigger] r.files@[f]) == crate::fs::file_table::no_file(),
            forall|t: int, fd: int| 0 <= t < 64 && 0 <= fd < 16 ==> #[trigger] r.fds@[t]@[fd] == NIL,
            r.current == 0,
    {
        let mut fds: Vec<[usize; 16]> = Vec::new();
        for t in 0..NR_TASKS
            invariant
                fds@.len() == t,
                forall|k: int, fd: int| 0 <= k < t && 0 <= fd < 16 ==> #[trigger] fds@[k]@[fd] == NIL,
        {
            fds.push([NIL; 16]);
        }
        Vfs {
            fs: Fs::new(),
            devices: Devices::init(),
            tmpfs: Tmpfs::new(),
            proc: ProcFs::new(),
            files: crate::fs::file_table::init(),
            fds,
            current: 0,
        }
    }
}

} // verus!
