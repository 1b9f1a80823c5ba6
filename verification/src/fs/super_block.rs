//! The table of mounted file systems.

use crate::errno::{EBUSY, EINVAL, ENODEV, ENOENT, ENOTBLK, ENOTDIR, EPERM};
use crate::fs::buffer::NIL;
use crate::fs::ext2::inode::mode::type_bits;
use crate::fs::inode::{at_most_one_more, counted, iput, iput_fs, Inode};
use crate::fs::minix::mount::{given_up, marked_clean, state_restored, write_super};
use crate::fs::mode;
use crate::fs::sync::{fsync_dev, is_synced};
use crate::fs::{ext4, major, minix, Blocks, Fs, Vfs, MS_RDONLY, NR_SUPER};
use vstd::prelude::*;

verus! {

pub const MINIX_I_MAP_SLOTS: usize = 8;
pub const MINIX_Z_MAP_SLOTS: usize = 8;

/// A mounted file system.
#[derive(Debug, Clone, Copy)]
pub struct SuperBlock {
    /// Zero where the slot is free.
    pub s_dev: u16,
    pub s_blocksize: u32,
    pub s_blocksize_bits: u8,
    pub s_lock: bool,
    pub s_rd_only: bool,
    pub s_dirt: bool,
    pub s_flags: u64,
    pub s_magic: u32,
    pub s_time: u32,
    /// The directory that this file system is mounted on.
    pub s_covered: usize,
    /// The root of this file system.
    pub s_mounted: usize,
    pub s_ninodes: u16,
    pub s_nzones: u16,
    pub s_imap_blocks: u16,
    pub s_zmap_blocks: u16,
    pub s_firstdatazone: u16,
    pub s_log_zone_size: u16,
    pub s_max_size: u32,
    pub s_dirsize: usize,
    pub s_namelen: usize,
    pub s_mount_state: u16,
    /// The block of the super block on disk.
    pub s_sbh: usize,
    /// The blocks of the inode bitmap.
    pub s_imap: [usize; 8],
    /// The blocks of the zone bitmap.
    pub s_zmap: [usize; 8],
}

impl SuperBlock {
    /// The indices lead into the inode table, the block numbers are such.
    pub open spec fn links_ok(&self) -> bool {
        &&& self.s_covered == NIL || self.s_covered < 64
        &&& self.s_mounted == NIL || self.s_mounted < 64
        &&& self.s_sbh == NIL || self.s_sbh <= u32::MAX
        &&& forall|i: int| 0 <= i < 8 ==> #[trigger] self.s_imap@[i] == NIL || self.s_imap@[i] <= u32::MAX
        &&& forall|i: int| 0 <= i < 8 ==> #[trigger] self.s_zmap@[i] == NIL || self.s_zmap@[i] <= u32::MAX
    }

    /// A free slot with nothing in it.
    pub open spec fn is_clear(&self) -> bool {
        &&& self.s_dev == 0 && self.s_blocksize == 0 && self.s_blocksize_bits == 0
        &&& !self.s_lock && !self.s_rd_only && !self.s_dirt
        &&& self.s_flags == 0 && self.s_magic == 0 && self.s_time == 0
        &&& self.s_covered == NIL && self.s_mounted == NIL
        &&& self.s_ninodes == 0 && self.s_nzones == 0
        &&& self.s_imap_blocks == 0 && self.s_zmap_blocks == 0
        &&& self.s_firstdatazone == 0 && self.s_log_zone_size == 0 && self.s_max_size == 0
        &&& self.s_dirsize == 0 && self.s_namelen == 0 && self.s_mount_state == 0
        &&& self.s_sbh == NIL
        &&& self.s_imap@ == Seq::new(8, |i: int| NIL)
        &&& self.s_zmap@ == Seq::new(8, |i: int| NIL)
    }

    pub fn new() -> (r: Self)
        ensures
            r.is_clear(),
            r.links_ok(),
    {
        let r = SuperBlock {
            s_dev: 0,
            s_blocksize: 0,
            s_blocksize_bits: 0,
            s_lock: false,
            s_rd_only: false,
            s_dirt: false,
            s_flags: 0,
            s_magic: 0,
            s_time: 0,
            s_covered: NIL,
            s_mounted: NIL,
            s_ninodes: 0,
            s_nzones: 0,
            s_imap_blocks: 0,
            s_zmap_blocks: 0,
            s_firstdatazone: 0,
            s_log_zone_size: 0,
            s_max_size: 0,
            s_dirsize: 0,
            s_namelen: 0,
            s_mount_state: 0,
            s_sbh: NIL,
            s_imap: [NIL;8],
            s_zmap: [NIL;8],
        };
        assert(r.s_imap@ =~= Seq::new(8, |i: int| NIL));
        assert(r.s_zmap@ =~= Seq::new(8, |i: int| NIL));
        r
    }
}

/// The first slot at `k` or after it with that device, or the number of slots.
pub open spec fn slot_from(s: Seq<SuperBlock>, dev: u16, k: int) -> int
    decreases s.len() - k,
{
    if k >= s.len() {
        s.len() as int
    } else if s[k].s_dev == dev {
        k
    } else {
        slot_from(s, dev, k + 1)
    }
}

/// The slot that is found has the device.
pub proof fn lemma_slot(s: Seq<SuperBlock>, dev: u16, k: int)
    requires
        0 <= k <= s.len(),
    ensures
        k <= slot_from(s, dev, k) <= s.len(),
        slot_from(s, dev, k) < s.len() ==> s[slot_from(s, dev, k)].s_dev == dev,
    decreases s.len() - k,
{
    if k < s.len() {
        lemma_slot(s, dev, k + 1);
    }
}

/// The slot that a device is mounted in, `NIL` where there is none.
pub open spec fn mounted_in(s: Seq<SuperBlock>, dev: u16) -> usize {
    if dev != 0 && slot_from(s, dev, 0) < s.len() {
        slot_from(s, dev, 0) as usize
    } else {
        NIL
    }
}

/// The first slot of a device; `NIL` for device zero and for one that is not
/// mounted.
pub fn get_super(fs: &Fs, dev: u16) -> (r: usize)
    requires
        fs.wf(),
    ensures
        r == mounted_in(fs.supers@, dev),
        r == NIL <==> dev == 0 || forall|s: int| 0 <= s < 4 ==> (#[trigger] fs.supers@[s]).s_dev != dev,
        r != NIL ==> r < 4 && fs.supers@[r as int].s_dev == dev && forall|s: int|
            0 <= s < r ==> (#[trigger] fs.supers@[s]).s_dev != dev,
{
    if dev == 0 {
        return NIL;
    }
    for n in 0..NR_SUPER
        invariant
            fs.wf(),
            dev != 0,
            slot_from(fs.supers@, dev, 0) == slot_from(fs.supers@, dev, n as int),
            forall|s: int| 0 <= s < n ==> (#[trigger] fs.supers@[s]).s_dev != dev,
    {
        if fs.supers[n].s_dev == dev {
            return n;
        }
    }
    NIL
}

/// The first free slot, `NIL` where there is none.
pub fn get_empty_super(fs: &Fs) -> (r: usize)
    requires
        fs.wf(),
    ensures
        r == if slot_from(fs.supers@, 0, 0) < 4 {
            slot_from(fs.supers@, 0, 0) as usize
        } else {
            NIL
        },
        r == NIL <==> forall|s: int| 0 <= s < 4 ==> (#[trigger] fs.supers@[s]).s_dev != 0,
        r != NIL ==> r < 4 && fs.supers@[r as int].s_dev == 0 && forall|s: int|
            0 <= s < r ==> (#[trigger] fs.supers@[s]).s_dev != 0,
{
    for n in 0..NR_SUPER
        invariant
            fs.wf(),
            slot_from(fs.supers@, 0, 0) == slot_from(fs.supers@, 0, n as int),
            forall|s: int| 0 <= s < n ==> (#[trigger] fs.supers@[s]).s_dev != 0,
    {
        if fs.supers[n].s_dev == 0 {
            return n;
        }
    }
    NIL
}

/// The device that the root file system is on.
pub fn root_dev(fs: &Fs) -> (r: u16)
    ensures
        r == fs.root_dev,
{
    fs.root_dev
}

/// The root directory.
pub fn root_inode(fs: &Fs) -> (r: usize)
    ensures
        r == fs.root_inode,
{
    fs.root_inode
}

/// The working directory.
pub fn pwd_inode(fs: &Fs) -> (r: usize)
    ensures
        r == fs.pwd_inode,
{
    fs.pwd_inode
}

/// Changes the working directory.
pub fn set_pwd(fs: &mut Fs, n: usize)
    ensures
        *final(fs) == (Fs { pwd_inode: n, ..*old(fs) }),
{
    fs.pwd_inode = n;
}

/// The sizes of directory entries and names fit together. Only the minix file
/// system has them.
pub open spec fn mounted_ok(s: SuperBlock) -> bool {
    s.s_magic == 0xEF53 || (s.s_dirsize == 16 && s.s_namelen == 14) || (s.s_dirsize == 32
        && s.s_namelen == 30)
}

/// Checks the sizes of a file system that was just mounted.
pub fn check_mounted(fs: &Fs, n: usize) -> (r: bool)
    requires
        fs.wf(),
        n < 4,
    ensures
        r == mounted_ok(fs.supers@[n as int]),
{
    let s = &fs.supers[n];
    s.s_magic == 0xEF53 || (s.s_dirsize == 16 && s.s_namelen == 14) || (s.s_dirsize == 32
        && s.s_namelen == 30)
}

/// The file system in slot `s` is written out when device `dev` is (all devices,
/// where it is zero).
pub open spec fn to_sync(s: SuperBlock, dev: u16) -> bool {
    s.s_dev != 0 && (dev == 0 || s.s_dev == dev) && s.s_dirt
}

/// The blocks after the first `n` file systems were written out.
pub open spec fn supers_synced(c: Blocks, supers: Seq<SuperBlock>, dev: u16, n: int) -> Blocks
    decreases n,
{
    if n <= 0 {
        c
    } else {
        let before = supers_synced(c, supers, dev, n - 1);
        if to_sync(supers[n - 1], dev) {
            marked_clean(before, supers[n - 1])
        } else {
            before
        }
    }
}

/// The table after the file systems were written out.
pub open spec fn supers_settled(supers: Seq<SuperBlock>, dev: u16) -> Seq<SuperBlock> {
    Seq::new(
        4,
        |k: int|
            if to_sync(supers[k], dev) {
                SuperBlock { s_dirt: false, ..supers[k] }
            } else {
                supers[k]
            },
    )
}

/// Writes the dirty file systems of a device out (of all devices, where `dev` is
/// zero).
pub fn sync_supers(fs: &mut Fs, dev: u16)
    requires
        old(fs).wf(),
    ensures
        final(fs).wf(),
        *final(fs) == (Fs { cache: final(fs).cache, supers: final(fs).supers, ..*old(fs) }),
        final(fs).blocks() == supers_synced(old(fs).blocks(), old(fs).supers@, dev, 4),
        final(fs).supers@ == supers_settled(old(fs).supers@, dev),
{
    let ghost s0 = fs.supers@;
    let mut n: usize = 0;
    while n < NR_SUPER
        invariant
            fs.wf(),
            n <= 4,
            s0 == old(fs).supers@,
            s0.len() == 4,
            *fs == (Fs { cache: fs.cache, supers: fs.supers, ..*old(fs) }),
            fs.blocks() == supers_synced(old(fs).blocks(), s0, dev, n as int),
            forall|k: int|
                0 <= k < 4 ==> #[trigger] fs.supers@[k] == (if k < n {
                    supers_settled(s0, dev)[k]
                } else {
                    s0[k]
                }),
        decreases 4 - n,
    {
        let s: SuperBlock = fs.supers[n];
        if s.s_dev != 0 && (dev == 0 || s.s_dev == dev) && s.s_dirt {
            write_super(fs, n);
        }
        n = n + 1;
    }
    assert(fs.supers@ =~= supers_settled(s0, dev));
}


// ---- mounting ----

/// A slot in which a device is about to be mounted: there is nothing in it but the
/// device and the flags.
pub open spec fn is_fresh(s: SuperBlock, dev: u16, flags: u64) -> bool {
    SuperBlock { s_dev: 0, s_flags: 0, ..s }.is_clear() && s.s_dev == dev && s.s_flags == flags
}

/// The state `fs` is that of `fs0` after device `dev` was mounted in the free slot
/// `n`, as one of the file systems that there are.
pub open spec fn slot_mounted(fs0: &Fs, fs: &Fs, n: usize, dev: u16, flags: u64, r: usize) -> bool {
    exists|fs1: Fs, fs2: Fs, r1: bool|
        {
            &&& fs1 == (Fs { supers: fs1.supers, ..*fs0 })
            &&& fs1.supers@ == fs0.supers@.update(n as int, fs1.supers@[n as int])
            &&& is_fresh(fs1.supers@[n as int], dev, flags)
            &&& #[trigger] ext4::ops::mount_did(&fs1, &fs2, n, r1)
            &&& if r1 {
                r == n && *fs == fs2
            } else {
                exists|fs3: Fs, r2: bool|
                    {
                        &&& #[trigger] minix::mount::mount_did(&fs2, &fs3, n, r2)
                        &&& if r2 {
                            r == n && *fs == fs3
                        } else {
                            &&& r == NIL
                            &&& *fs == (Fs { supers: fs.supers, ..fs3 })
                            &&& fs.supers@ == fs3.supers@.update(
                                n as int,
                                SuperBlock { s_dev: 0, ..fs3.supers@[n as int] },
                            )
                        }
                    }
            }
        }
}

/// The state `fs` is that of `fs0` after the file system of a device was asked for,
/// with the answer `r`.
pub open spec fn read_super_did(fs0: &Fs, fs: &Fs, dev: u16, flags: u64, r: usize) -> bool {
    let n = slot_from(fs0.supers@, 0, 0);
    if dev == 0 {
        r == NIL && *fs == *fs0
    } else if mounted_in(fs0.supers@, dev) != NIL {
        r == mounted_in(fs0.supers@, dev) && *fs == *fs0
    } else if n >= 4 {
        r == NIL && *fs == *fs0
    } else {
        slot_mounted(fs0, fs, n as usize, dev, flags, r)
    }
}

/// The slot of the file system of a device, which is mounted if it is not yet.
#[verifier::spinoff_prover]
#[verifier::rlimit(40)]
pub fn read_super(fs: &mut Fs, dev: u16, flags: u64) -> (r: usize)
    requires
        old(fs).wf(),
        forall|k: int| 0 <= k < 64 ==> (#[trigger] old(fs).inodes@[k]).i_count < u16::MAX,
    ensures
        final(fs).wf(),
        read_super_did(old(fs), final(fs), dev, flags, r),
        r == NIL || r < 4,
        at_most_one_more(old(fs).inodes@, final(fs).inodes@),
        r != NIL && mounted_in(old(fs).supers@, dev) == NIL ==> mounted_ok(final(fs).supers@[r as int]),
{
    if dev == 0 {
        return NIL;
    }
    let existing: usize = get_super(fs, dev);
    if existing != NIL {
        return existing;
    }
    let n: usize = get_empty_super(fs);
    proof {
        lemma_slot(fs.supers@, 0, 0);
    }
    if n == NIL {
        return NIL;
    }
    let mut s = SuperBlock::new();
    let ghost clear = s;
    s.s_dev = dev;
    s.s_flags = flags;
    fs.supers[n] = s;
    let ghost fs1 = *fs;
    proof {
        assert(fs1.supers@ =~= old(fs).supers@.update(n as int, s));
        let y = SuperBlock { s_dev: 0, s_flags: 0, ..s };
        assert(y.s_imap@ == clear.s_imap@ && y.s_zmap@ == clear.s_zmap@);
        assert(y == clear);
    }
    if ext4::ops::read_super(fs, n) {
        assert(ext4::ops::mount_did(&fs1, fs, n, true));
        assert(slot_mounted(old(fs), fs, n, dev, flags, n));
        return n;
    }
    let ghost fs2 = *fs;
    assert(ext4::ops::mount_did(&fs1, &fs2, n, false));
    let ok: bool = minix::mount::read_super(fs, n);
    let ghost fs3 = *fs;
    assert(minix::mount::mount_did(&fs2, &fs3, n, ok));
    if ok {
        assert(slot_mounted(old(fs), fs, n, dev, flags, n));
        return n;
    }
    fs.supers[n].s_dev = 0;
    assert(fs.supers@ =~= fs3.supers@.update(
        n as int,
        SuperBlock { s_dev: 0, ..fs3.supers@[n as int] },
    ));
    assert(slot_mounted(old(fs), fs, n, dev, flags, NIL));
    NIL
}

/// The state `fs` is that of `fs0` after the file system of a device was to be given
/// up: not that of the root, nor one that is mounted on a directory.
pub open spec fn put_super_did(fs0: &Fs, fs: &Fs, dev: u16) -> bool {
    let n = mounted_in(fs0.supers@, dev);
    if dev == fs0.root_dev || n == NIL || fs0.supers@[n as int].s_covered != NIL {
        *fs == *fs0
    } else {
        super_given_up(fs0, fs, n)
    }
}

/// The state `fs` is that of `fs0` after the file system in slot `n` was given up.
pub open spec fn super_given_up(fs0: &Fs, fs: &Fs, n: usize) -> bool {
    &&& *fs == (Fs { cache: fs.cache, supers: fs.supers, ..*fs0 })
    &&& fs.blocks() == state_restored(fs0.blocks(), fs0.supers@[n as int])
    &&& fs.supers@ == fs0.supers@.update(n as int, fs.supers@[n as int])
    &&& given_up(fs0.supers@[n as int], fs.supers@[n as int])
}

/// Gives the file system of a device up.
pub fn put_super(fs: &mut Fs, dev: u16)
    requires
        old(fs).wf(),
    ensures
        final(fs).wf(),
        put_super_did(old(fs), final(fs), dev),
{
    if dev == fs.root_dev {
        return;
    }
    let n: usize = get_super(fs, dev);
    if n == NIL {
        return;
    }
    if fs.supers[n].s_covered != NIL {
        return;
    }
    minix::mount::put_super(fs, n);
}

/// The state `fs` is that of `fs0` after the root file system was to be mounted. The
/// root directory has four users then: the file system, the mount, and the task
/// with its root and its working directory.
pub open spec fn root_mounted(fs0: &Fs, fs: &Fs, dev: u16, flags: u64, r: bool) -> bool {
    let start = Fs { root_dev: dev, root_mountflags: flags, ..*fs0 };
    exists|fs1: Fs, n: usize|
        {
            &&& #[trigger] read_super_did(&start, &fs1, dev, flags, n)
            &&& if n == NIL || fs1.supers@[n as int].s_mounted == NIL {
                !r && *fs == fs1
            } else {
                let root = fs1.supers@[n as int].s_mounted;
                &&& r
                &&& *fs == (Fs {
                    inodes: fs.inodes,
                    supers: fs.supers,
                    root_inode: root,
                    pwd_inode: root,
                    ..fs1
                })
                &&& fs.inodes@ == fs1.inodes@.update(
                    root as int,
                    counted(fs1.inodes@[root as int], 3),
                )
                &&& fs.supers@ == fs1.supers@.update(
                    n as int,
                    SuperBlock { s_flags: flags, ..fs1.supers@[n as int] },
                )
                &&& mounted_ok(fs.supers@[n as int])
            }
        }
}

/// Mounts the root file system.
pub fn mount_root(fs: &mut Fs, dev: u16, flags: u64) -> (r: bool)
    requires
        old(fs).wf(),
        forall|k: int| 0 <= k < 64 ==> (#[trigger] old(fs).inodes@[k]).i_count <= u16::MAX - 4,
        forall|s: int| 0 <= s < 4 && (#[trigger] old(fs).supers@[s]).s_dev == dev ==> mounted_ok(
            old(fs).supers@[s],
        ),
    ensures
        final(fs).wf(),
        root_mounted(old(fs), final(fs), dev, flags, r),
{
    fs.root_dev = dev;
    fs.root_mountflags = flags;
    let ghost start = *fs;
    proof {
        lemma_slot(fs.supers@, dev, 0);
    }
    let n: usize = read_super(fs, dev, flags);
    let ghost fs1 = *fs;
    assert(read_super_did(&start, &fs1, dev, flags, n));
    if n == NIL {
        return false;
    }
    let root: usize = fs.supers[n].s_mounted;
    assert(fs.supers@[n as int].links_ok());
    if root == NIL {
        return false;
    }
    assert(fs.inodes@[root as int].i_count <= old(fs).inodes@[root as int].i_count + 1);
    fs.inodes[root].i_count = fs.inodes[root].i_count + 3;
    fs.supers[n].s_flags = flags;
    fs.root_inode = root;
    fs.pwd_inode = root;
    proof {
        assert(fs.inodes@ =~= fs1.inodes@.update(
            root as int,
            counted(fs1.inodes@[root as int], 3),
        ));
        assert(fs.supers@ =~= fs1.supers@.update(
            n as int,
            SuperBlock { s_flags: flags, ..fs1.supers@[n as int] },
        ));
    }
    true
}

/// Why a device cannot be mounted on a directory; zero where it can be tried.
pub open spec fn mount_error(v: &Vfs, dev_inode: usize, dir_inode: usize) -> i32 {
    let d = v.fs.inodes@[dev_inode as int];
    let i = v.fs.inodes@[dir_inode as int];
    if v.fs.euid != 0 {
        EPERM
    } else if type_bits(d.i_mode) != mode::S_IFBLK {
        ENOTBLK
    } else if v.devices.blk_of(d.i_rdev as int / 256) is None {
        ENODEV
    } else if type_bits(i.i_mode) != mode::S_IFDIR {
        ENOTDIR
    } else if i.i_count != 1 || i.i_mount != NIL {
        EBUSY
    } else if mounted_in(v.fs.supers@, d.i_rdev) != NIL {
        EBUSY
    } else {
        0
    }
}

/// The state `fs` is that of `fs0` after device `dev` was to be mounted on directory
/// `dir`, which can be, with the answer `r`.
pub open spec fn mounted_on(fs0: &Fs, fs: &Fs, dev: u16, dir: usize, flags: u64, r: i64) -> bool {
    exists|fs1: Fs, n: usize|
        {
            &&& #[trigger] read_super_did(fs0, &fs1, dev, flags, n)
            &&& fs1.wf()
            &&& if n == NIL || fs1.supers@[n as int].s_mounted == NIL {
                r == -EINVAL && *fs == fs1
            } else {
                &&& r == 0
                &&& *fs == (Fs { inodes: fs.inodes, supers: fs.supers, ..fs1 })
                &&& fs.supers@ == fs1.supers@.update(
                    n as int,
                    SuperBlock { s_covered: dir, ..fs1.supers@[n as int] },
                )
                &&& fs.inodes@ == fs1.inodes@.update(
                    dir as int,
                    Inode { i_mount: fs1.supers@[n as int].s_mounted, ..fs1.inodes@[dir as int] },
                )
            }
        }
}

/// Mounts a device, given by its file, on a directory. Both inodes are held by the
/// caller, and the directory by the mount from then on.
pub fn do_mount(v: &mut Vfs, dev_inode: usize, dir_inode: usize, flags: u64) -> (r: i64)
    requires
        old(v).wf(),
        dev_inode < 64,
        dir_inode < 64,
        forall|k: int| 0 <= k < 64 ==> (#[trigger] old(v).fs.inodes@[k]).i_count < u16::MAX,
    ensures
        final(v).wf(),
        *final(v) == (Vfs { fs: final(v).fs, ..*old(v) }),
        ({
            let e = mount_error(old(v), dev_inode, dir_inode);
            if e != 0 {
                r == -e && final(v).fs == old(v).fs
            } else {
                mounted_on(
                    &old(v).fs,
                    &final(v).fs,
                    old(v).fs.inodes@[dev_inode as int].i_rdev,
                    dir_inode,
                    flags,
                    r,
                )
            }
        }),
{
    if v.fs.euid != 0 {
        return -(EPERM as i64);
    }
    if !mode::is_blk(v.fs.inodes[dev_inode].i_mode) {
        return -(ENOTBLK as i64);
    }
    let dev: u16 = v.fs.inodes[dev_inode].i_rdev;
    if v.devices.get_blkfops(major(dev)).is_none() {
        return -(ENODEV as i64);
    }
    if !mode::is_dir(v.fs.inodes[dir_inode].i_mode) {
        return -(ENOTDIR as i64);
    }
    if v.fs.inodes[dir_inode].i_count != 1 || v.fs.inodes[dir_inode].i_mount != NIL {
        return -(EBUSY as i64);
    }
    if get_super(&v.fs, dev) != NIL {
        return -(EBUSY as i64);
    }
    let n: usize = read_super(&mut v.fs, dev, flags);
    let ghost fs1 = v.fs;
    assert(read_super_did(&old(v).fs, &fs1, dev, flags, n));
    if n == NIL {
        return -(EINVAL as i64);
    }
    let root: usize = v.fs.supers[n].s_mounted;
    assert(v.fs.supers@[n as int].links_ok());
    if root == NIL {
        return -(EINVAL as i64);
    }
    v.fs.supers[n].s_covered = dir_inode;
    v.fs.inodes[dir_inode].i_mount = root;
    proof {
        assert(v.fs.supers@ =~= fs1.supers@.update(
            n as int,
            SuperBlock { s_covered: dir_inode, ..fs1.supers@[n as int] },
        ));
        assert(v.fs.inodes@ =~= fs1.inodes@.update(
            dir_inode as int,
            Inode { i_mount: root, ..fs1.inodes@[dir_inode as int] },
        ));
    }
    0
}

/// The state `fs` is that of `fs0` with nothing mounted on the directory that the
/// file system in slot `n` was mounted on.
pub open spec fn uncovered(fs0: &Fs, fs: &Fs, n: usize) -> bool {
    let s = fs0.supers@[n as int];
    let i = fs0.inodes@[s.s_covered as int];
    &&& *fs == (Fs { inodes: fs.inodes, supers: fs.supers, ..*fs0 })
    &&& fs.inodes@ == fs0.inodes@.update(s.s_covered as int, Inode { i_mount: NIL, ..i })
    &&& fs.supers@ == fs0.supers@.update(n as int, SuperBlock { s_covered: NIL, ..s })
}

/// The state `fs` is that of `fs0` after the root of the file system in slot `n` was
/// let go.
pub open spec fn root_let_go(fs0: &Fs, fs: &Fs, n: usize) -> bool {
    let root = fs0.supers@[n as int].s_mounted;
    if root == NIL {
        *fs == *fs0
    } else {
        exists|fs1: Fs|
            {
                &&& fs1 == (Fs { supers: fs1.supers, ..*fs0 })
                &&& fs1.supers@ == fs0.supers@.update(
                    n as int,
                    SuperBlock { s_mounted: NIL, ..fs0.supers@[n as int] },
                )
                &&& #[trigger] iput_fs(&fs1, fs, root)
            }
    }
}

/// The state `fs` is that of `fs0` after the file system of device `dev` in slot `n`,
/// of which only the mount itself is left, was taken from its directory.
pub open spec fn unmounted(fs0: &Fs, fs: &Fs, dev: u16, n: usize) -> bool {
    exists|fs1: Fs, fs2: Fs, fs3: Fs, fs4: Fs, fs5: Fs|
        {
            &&& uncovered(fs0, &fs1, n)
            &&& #[trigger] iput_fs(&fs1, &fs2, fs0.supers@[n as int].s_covered)
            &&& #[trigger] root_let_go(&fs2, &fs3, n)
            &&& #[trigger] is_synced(&fs3, &fs4, dev)
            &&& #[trigger] super_given_up(&fs4, &fs5, n)
            &&& *fs == (Fs { cache: fs.cache, ..fs5 })
            &&& fs.blocks() == fs5.blocks()
            &&& forall|k: (u16, u32)|
                k.0 == dev && #[trigger] fs.blocks().dom().contains(k) ==> fs.cache.stored()[k]
                    == fs.blocks()[k]
        }
}

/// The state `fs` is that of `fs0` after the root file system, which cannot be
/// taken away, was made read-only.
pub open spec fn root_sealed(fs0: &Fs, fs: &Fs, dev: u16, n: usize) -> bool {
    exists|fs1: Fs|
        {
            let s = fs1.supers@[n as int];
            &&& #[trigger] is_synced(fs0, &fs1, dev)
            &&& *fs == (Fs { supers: fs.supers, ..fs1 })
            &&& fs.supers@ == fs1.supers@.update(
                n as int,
                SuperBlock { s_flags: s.s_flags | MS_RDONLY, s_rd_only: true, ..s },
            )
        }
}

/// What unmounting a device does, with the answer `r`.
pub open spec fn umount_did(fs0: &Fs, fs: &Fs, dev: u16, r: i64) -> bool {
    let n = mounted_in(fs0.supers@, dev);
    let s = fs0.supers@[n as int];
    if n == NIL {
        r == -ENOENT && *fs == *fs0
    } else if dev == fs0.root_dev {
        r == 0 && root_sealed(fs0, fs, dev, n)
    } else if s.s_covered == NIL {
        r == -EINVAL && *fs == *fs0
    } else if s.s_mounted != NIL && fs0.inodes@[s.s_mounted as int].i_count > 1 {
        r == -EBUSY && *fs == *fs0
    } else {
        r == 0 && unmounted(fs0, fs, dev, n)
    }
}

/// Unmounts a device, where nothing on it is in use. What the file system has
/// changed is on the device then.
#[verifier::spinoff_prover]
#[verifier::rlimit(40)]
pub fn do_umount(fs: &mut Fs, dev: u16) -> (r: i64)
    requires
        old(fs).wf(),
    ensures
        final(fs).wf(),
        umount_did(old(fs), final(fs), dev, r),
{
    let n: usize = get_super(fs, dev);
    if n == NIL {
        return -(ENOENT as i64);
    }
    if dev == fs.root_dev {
        let err: bool = fsync_dev(fs, dev);
        let ghost fs1 = *fs;
        assert(is_synced(old(fs), &fs1, dev));
        fs.supers[n].s_flags = fs.supers[n].s_flags | MS_RDONLY;
        fs.supers[n].s_rd_only = true;
        assert(fs.supers@ =~= fs1.supers@.update(n as int, fs.supers@[n as int]));
        return 0;
    }
    let covered: usize = fs.supers[n].s_covered;
    if covered == NIL {
        return -(EINVAL as i64);
    }
    assert(fs.supers@[n as int].links_ok());
    let root: usize = fs.supers[n].s_mounted;
    if root != NIL && fs.inodes[root].i_count > 1 {
        return -(EBUSY as i64);
    }
    fs.inodes[covered].i_mount = NIL;
    fs.supers[n].s_covered = NIL;
    let ghost fs1 = *fs;
    proof {
        assert(fs1.inodes@ =~= old(fs).inodes@.update(
            covered as int,
            Inode { i_mount: NIL, ..old(fs).inodes@[covered as int] },
        ));
        assert(fs1.supers@ =~= old(fs).supers@.update(
            n as int,
            SuperBlock { s_covered: NIL, ..old(fs).supers@[n as int] },
        ));
        assert(uncovered(old(fs), &fs1, n));
    }
    iput(fs, covered);
    let ghost fs2 = *fs;
    assert(iput_fs(&fs1, &fs2, covered));
    if root != NIL {
        fs.supers[n].s_mounted = NIL;
        let ghost fs2b = *fs;
        assert(fs2b.supers@ =~= fs2.supers@.update(
            n as int,
            SuperBlock { s_mounted: NIL, ..fs2.supers@[n as int] },
        ));
        iput(fs, root);
        assert(iput_fs(&fs2b, fs, root));
    }
    let ghost fs3 = *fs;
    assert(root_let_go(&fs2, &fs3, n));
    let e1: bool = fsync_dev(fs, dev);
    let ghost fs4 = *fs;
    assert(is_synced(&fs3, &fs4, dev));
    minix::mount::put_super(fs, n);
    let ghost fs5 = *fs;
    assert(super_given_up(&fs4, &fs5, n));
    let e2: bool = fs.cache.flush(dev, true);
    fs.cache.discard(dev);
    assert(unmounted(old(fs), fs, dev, n));
    0
}


/// A number of a block of a bitmap that no device has.
pub open spec fn is_wild(m: usize) -> bool {
    m != NIL && m > u32::MAX
}

/// What is wrong with the super block of the root: its device if that is another
/// than the one of the root, or a mark where a block of a bitmap or the sizes of
/// directory entries cannot be right.
pub open spec fn bad_root(s: SuperBlock, root_dev: u16) -> Option<u16> {
    let known = (s.s_dirsize == 16 && s.s_namelen == 14) || (s.s_dirsize == 32 && s.s_namelen
        == 30);
    if s.s_dev != 0 && s.s_dev != root_dev {
        Some(s.s_dev)
    } else if exists|k: int|
        0 <= k < 8 && (is_wild(#[trigger] s.s_imap@[k]) || is_wild(s.s_zmap@[k])) {
        Some(0xDEAD)
    } else if s.s_magic != 0 && !known {
        Some(0xDEAE)
    } else {
        None
    }
}

/// What is wrong with the super block of the root.
pub fn watchdog_bad_dev(fs: &Fs) -> (r: Option<u16>)
    requires
        fs.supers@.len() == 4,
    ensures
        r == bad_root(fs.supers@[0], fs.root_dev),
{
    let s: &SuperBlock = &fs.supers[0];
    if s.s_dev != 0 && s.s_dev != fs.root_dev {
        return Some(s.s_dev);
    }
    let mut k: usize = 0;
    while k < 8
        invariant
            k <= 8,
            s == fs.supers@[0],
            s.s_dev == 0 || s.s_dev == fs.root_dev,
            forall|j: int| 0 <= j < k ==> !is_wild(#[trigger] s.s_imap@[j]) && !is_wild(s.s_zmap@[j]),
        decreases 8 - k,
    {
        let a: usize = s.s_imap[k];
        let b: usize = s.s_zmap[k];
        if (a != NIL && a > 0xFFFF_FFFF) || (b != NIL && b > 0xFFFF_FFFF) {
            assert(is_wild(s.s_imap@[k as int]) || is_wild(s.s_zmap@[k as int]));
            return Some(0xDEAD);
        }
        k = k + 1;
    }
    if s.s_magic != 0 {
        let known: bool = (s.s_dirsize == 16 && s.s_namelen == 14) || (s.s_dirsize == 32
            && s.s_namelen == 30);
        if !known {
            return Some(0xDEAE);
        }
    }
    None
}

} // verus!
