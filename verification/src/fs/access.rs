//! What holds of permissions, of opening files and of mounted file systems.

use crate::errno::ENOENT;
use crate::fs::ext2::inode::mode::type_bits;
use crate::fs::inode::{allowed, iget_did, iput_fs, is_slot, Inode, NIL};
use crate::fs::minix::dir::entry_ino;
use crate::fs::minix::making::leads;
use crate::fs::minix::nodes::lookup_did as minix_lookup_did;
use crate::fs::namei::{
    fs_create, last_part, lookup_did, may, open_error, opened, opened_in, parent_did, put_back,
};
use crate::fs::super_block::{
    mount_error, mounted_on, root_let_go, slot_from, super_given_up, umount_did, uncovered, unmounted,
    SuperBlock,
};
use crate::fs::sync::is_synced;
use crate::fs::{mode, oflags, Blocks, Fs, Vfs, MAY_EXEC, MAY_READ, MAY_WRITE};
use vstd::prelude::*;

verus! {

// ---- permissions ----

proof fn lemma_mode_bits(m: u16)
    by (bit_vector)
    ensures
        (m / 64 % 8) & 4 == 4 <==> m & 0o400 != 0,
        (m / 64 % 8) & 2 == 2 <==> m & 0o200 != 0,
        (m / 64 % 8) & 1 == 1 <==> m & 0o100 != 0,
        (m / 8 % 8) & 4 == 4 <==> m & 0o040 != 0,
        (m / 8 % 8) & 2 == 2 <==> m & 0o020 != 0,
        (m / 8 % 8) & 1 == 1 <==> m & 0o010 != 0,
        (m % 8) & 4 == 4 <==> m & 0o004 != 0,
        (m % 8) & 2 == 2 <==> m & 0o002 != 0,
        (m % 8) & 1 == 1 <==> m & 0o001 != 0,
        4u16 & 1 == 0,
        2u16 & 1 == 0,
        1u16 & 1 == 1,
{
}

/// A user who is not the first one may read, write and execute a file of their own as the
/// owner's bits of its mode say, one of their group as the group's bits say, and any
/// other as the last bits say.
pub proof fn lemma_permission(i: Inode, euid: u16, egid: u16)
    requires
        euid != 0,
    ensures
        i.i_uid == euid ==> {
            &&& allowed(i, euid, egid, MAY_READ) <==> i.i_mode & 0o400 != 0
            &&& allowed(i, euid, egid, MAY_WRITE) <==> i.i_mode & 0o200 != 0
            &&& allowed(i, euid, egid, MAY_EXEC) <==> i.i_mode & 0o100 != 0
        },
        i.i_uid != euid && i.i_gid == egid ==> {
            &&& allowed(i, euid, egid, MAY_READ) <==> i.i_mode & 0o040 != 0
            &&& allowed(i, euid, egid, MAY_WRITE) <==> i.i_mode & 0o020 != 0
            &&& allowed(i, euid, egid, MAY_EXEC) <==> i.i_mode & 0o010 != 0
        },
        i.i_uid != euid && i.i_gid != egid ==> {
            &&& allowed(i, euid, egid, MAY_READ) <==> i.i_mode & 0o004 != 0
            &&& allowed(i, euid, egid, MAY_WRITE) <==> i.i_mode & 0o002 != 0
            &&& allowed(i, euid, egid, MAY_EXEC) <==> i.i_mode & 0o001 != 0
        },
{
    lemma_mode_bits(i.i_mode);
}

proof fn lemma_root_bits(m: u16)
    by (bit_vector)
    ensures
        (m / 64 % 8) & 1 == 1 ==> m & 0o111 != 0,
        (m / 8 % 8) & 1 == 1 ==> m & 0o111 != 0,
        (m % 8) & 1 == 1 ==> m & 0o111 != 0,
        4u16 & 1 == 0,
        2u16 & 1 == 0,
        1u16 & 1 == 1,
{
}

/// The first user may read and write everything, and execute what anybody may.
pub proof fn lemma_first_user(i: Inode, egid: u16)
    ensures
        allowed(i, 0, egid, MAY_READ),
        allowed(i, 0, egid, MAY_WRITE),
        allowed(i, 0, egid, MAY_EXEC) <==> i.i_mode & 0o111 != 0,
{
    lemma_root_bits(i.i_mode);
}

proof fn lemma_parts_of(b: u16)
    by (bit_vector)
    ensures
        b & 6 == 6 ==> b & 4 == 4 && b & 2 == 2,
        6u16 & 1 == 0,
        4u16 | 2u16 == 6,
        2u16 | 2u16 == 2,
        6u16 | 2u16 == 6,
        4u16 & 1 == 0,
        2u16 & 1 == 0,
        4u16 & 2 == 0,
        6u16 & 2 != 0,
        2u16 & 2 != 0,
{
}

/// A way of access is one of four.
pub proof fn lemma_access(f: u32)
    by (bit_vector)
    ensures
        f & 3 == 0 || f & 3 == 1 || f & 3 == 2 || f & 3 == 3,
{
}

/// What is opened for reading may be read, what is opened for writing may be written, and
/// is no directory and not on a file system for reading only, unless it is a device.
pub proof fn lemma_open_needs(fs: &Fs, i: Inode, flags: u32)
    requires
        open_error(fs, i, flags) == 0,
        flags & 3 != 3,
    ensures
        flags & 3 != 1 ==> allowed(i, fs.euid, fs.egid, MAY_READ),
        flags & 3 != 0 || flags & oflags::O_TRUNC != 0 ==> {
            &&& allowed(i, fs.euid, fs.egid, MAY_WRITE)
            &&& type_bits(i.i_mode) != mode::S_IFDIR
            &&& i.rdonly_in(fs) ==> type_bits(i.i_mode) == mode::S_IFCHR || type_bits(i.i_mode) == mode::S_IFBLK
        },
{
    lemma_parts_of(crate::fs::inode::bits_for(i, fs.euid, fs.egid) as u16);
    lemma_access(flags);
}

// ---- opening ----

/// Opening a name that has to be new succeeds only where there is none, and then makes
/// the file.
pub proof fn lemma_open_new(v0: &Vfs, v: &Vfs, dir: usize, last: Seq<u8>, flags: u32, m: u16, n: usize)
    requires
        opened_in(v0, v, dir, last, flags, m, Ok(n)),
        flags & oflags::O_CREAT != 0,
        flags & oflags::O_EXCL != 0,
    ensures
        exists|v1: Vfs, v2: Vfs|
            {
                &&& #[trigger] lookup_did(v0, &v1, dir, last, Err(ENOENT))
                &&& #[trigger] fs_create(&v1, &v2, dir, last, m, Ok(n))
                &&& put_back(&v2, v, dir)
            },
{
}

/// Opening without asking for a new file succeeds only where the name is found.
pub proof fn lemma_open_old(v0: &Vfs, v: &Vfs, dir: usize, last: Seq<u8>, flags: u32, m: u16, n: usize)
    requires
        opened_in(v0, v, dir, last, flags, m, Ok(n)),
        flags & oflags::O_CREAT == 0,
    ensures
        exists|v1: Vfs, found: usize| #[trigger] lookup_did(v0, &v1, dir, last, Ok(found)),
{
}

/// Opening a regular file to be emptied leaves it without bytes; opening any other way
/// leaves it as it is.
pub proof fn lemma_open_empties(v0: &Vfs, v: &Vfs, n: usize, flags: u32, k: usize)
    requires
        opened(v0, v, n, flags, Ok(k)),
        v0.fs.inodes@.len() == 64,
        n < 64,
    ensures
        k == n,
        flags & oflags::O_TRUNC != 0 && type_bits(v0.fs.inodes@[n as int].i_mode) == mode::S_IFREG
            ==> v.fs.inodes@[n as int].i_size == 0,
        flags & oflags::O_TRUNC == 0 ==> *v == *v0,
        forall|j: int| 0 <= j < 64 && j != n ==> #[trigger] v.fs.inodes@[j] == v0.fs.inodes@[j],
{
}

/// Opening a name of which links are not to be followed succeeds only where it is no link.
pub proof fn lemma_open_no_link(v0: &Vfs, v: &Vfs, dir: usize, last: Seq<u8>, flags: u32, m: u16, n: usize)
    requires
        opened_in(v0, v, dir, last, flags, m, Ok(n)),
        flags & oflags::O_NOFOLLOW != 0,
        flags & oflags::O_CREAT == 0,
    ensures
        exists|v1: Vfs, found: usize|
            {
                &&& #[trigger] lookup_did(v0, &v1, dir, last, Ok(found))
                &&& type_bits(v1.fs.inodes@[found as int].i_mode) != mode::S_IFLNK
            },
{
}

/// A name is made or removed only in a directory that may be written.
pub proof fn lemma_parent_written(v0: &Vfs, v: &Vfs, path: Seq<u8>, dir: usize)
    requires
        parent_did(v0, v, path, Ok(dir)),
    ensures
        may(&v.fs, v.fs.inodes@[dir as int], MAY_WRITE),
        allowed(v.fs.inodes@[dir as int], v.fs.euid, v.fs.egid, MAY_WRITE),
        last_part(path).len() > 0,
{
}

// ---- mounted file systems ----

/// A reference that is asked for through mounts is to what is mounted on the inode, where
/// something is; one that is not, is to the inode itself.
pub proof fn lemma_crossing(
    c0: Blocks,
    s0: Seq<Inode>,
    c: Blocks,
    s: Seq<Inode>,
    supers: Seq<SuperBlock>,
    sb_nr: usize,
    ino: u32,
    cross: bool,
    k: int,
    r: usize,
)
    requires
        iget_did(c0, s0, c, s, supers, sb_nr, ino, cross, r),
        is_slot(s0, supers[sb_nr as int].s_dev, ino, k),
        s0.len() == 64,
    ensures
        cross && s0[k].i_mount != NIL ==> r == s0[k].i_mount,
        !cross || s0[k].i_mount == NIL ==> r == k,
{
}

/// Once a file system is mounted on a directory, the name of the directory leads to the
/// root of that file system, and that says where it is mounted.
pub proof fn lemma_mounted(
    fs0: &Fs,
    fs: &Fs,
    fs1: &Fs,
    dev: u16,
    dir: usize,
    flags: u64,
    above: usize,
    name: Seq<u8>,
    r: Result<usize, i32>,
)
    requires
        mounted_on(fs0, fs, dev, dir, flags, 0),
        fs0.wf(),
        fs.wf(),
        dir < 64,
        above < 64,
        above != dir,
        type_bits(fs.inodes@[above as int].i_mode) == mode::S_IFDIR,
        fs.inodes@[above as int].i_sb != NIL,
        leads(
            fs.blocks(),
            fs.supers@,
            fs.inodes@[above as int],
            name,
            fs.inodes@[dir as int].i_ino as int,
        ),
        is_slot(
            fs.inodes@,
            fs.supers@[fs.inodes@[above as int].i_sb as int].s_dev,
            fs.inodes@[dir as int].i_ino,
            dir as int,
        ),
        minix_lookup_did(fs, fs1, above, name, r),
    ensures
        exists|n: int|
            {
                &&& 0 <= n < 4
                &&& (#[trigger] fs.supers@[n]).s_covered == dir
                &&& fs.supers@[n].s_mounted != NIL
                &&& r == Ok::<usize, i32>(fs.supers@[n].s_mounted)
            },
{
    let (f1, n) = choose|f1: Fs, n: usize|
        {
            &&& #[trigger] crate::fs::super_block::read_super_did(fs0, &f1, dev, flags, n)
            &&& f1.wf()
            &&& if n == NIL || f1.supers@[n as int].s_mounted == NIL {
                0 == -crate::errno::EINVAL && *fs == f1
            } else {
                &&& *fs == (Fs { inodes: fs.inodes, supers: fs.supers, ..f1 })
                &&& fs.supers@ == f1.supers@.update(
                    n as int,
                    SuperBlock { s_covered: dir, ..f1.supers@[n as int] },
                )
                &&& fs.inodes@ == f1.inodes@.update(
                    dir as int,
                    Inode { i_mount: f1.supers@[n as int].s_mounted, ..f1.inodes@[dir as int] },
                )
            }
        };
    assert(n != NIL && f1.supers@[n as int].s_mounted != NIL);
    let m = f1.supers@[n as int].s_mounted;
    assert(f1.inodes@.len() == 64);
    assert(f1.supers@.len() == 4);
    crate::fs::super_block::lemma_slot(fs0.supers@, 0, 0);
    crate::fs::super_block::lemma_slot(fs0.supers@, dev, 0);
    assert(n < 4);
    assert(fs.inodes@[dir as int].i_mount == m);
    let i = fs.inodes@[above as int];
    let found = crate::fs::minix::namei::found_in(fs.blocks(), fs.supers@[i.i_sb as int], i, name);
    let ino = entry_ino(fs.blocks(), i.i_dev, i.data@, found->0) as u32;
    assert(ino == fs.inodes@[dir as int].i_ino);
    assert(fs.supers@[n as int].s_covered == dir);
}

proof fn lemma_iput_mount(fs0: &Fs, fs: &Fs, n: usize, j: int)
    requires
        iput_fs(fs0, fs, n),
        fs0.inodes@.len() == 64,
        n == NIL || n < 64,
        0 <= j < 64,
        fs0.inodes@[j].i_mount == NIL,
    ensures
        fs.inodes@.len() == 64,
        fs.inodes@[j].i_mount == NIL,
{
}

/// Once a file system is unmounted, nothing is mounted on the directory that it was
/// mounted on any more, its slot is free, and its device holds all that was written.
pub proof fn lemma_unmounted(fs0: &Fs, fs: &Fs, dev: u16, n: usize)
    requires
        unmounted(fs0, fs, dev, n),
        fs0.inodes@.len() == 64,
        fs0.supers@.len() == 4,
        n < 4,
        fs0.supers@[n as int].s_covered < 64,
        fs0.supers@[n as int].s_mounted == NIL || fs0.supers@[n as int].s_mounted < 64,
    ensures
        fs.inodes@[fs0.supers@[n as int].s_covered as int].i_mount == NIL,
        fs.supers@[n as int].s_dev == 0,
        forall|k: (u16, u32)|
            k.0 == dev && #[trigger] fs.blocks().dom().contains(k) ==> fs.cache.stored()[k]
                == fs.blocks()[k],
{
    let covered = fs0.supers@[n as int].s_covered;
    let (f1, f2, f3, f4, f5) = choose|f1: Fs, f2: Fs, f3: Fs, f4: Fs, f5: Fs|
        {
            &&& uncovered(fs0, &f1, n)
            &&& #[trigger] iput_fs(&f1, &f2, covered)
            &&& #[trigger] root_let_go(&f2, &f3, n)
            &&& #[trigger] is_synced(&f3, &f4, dev)
            &&& #[trigger] super_given_up(&f4, &f5, n)
            &&& *fs == (Fs { cache: fs.cache, ..f5 })
            &&& fs.blocks() == f5.blocks()
            &&& forall|k: (u16, u32)|
                k.0 == dev && #[trigger] fs.blocks().dom().contains(k) ==> fs.cache.stored()[k]
                    == fs.blocks()[k]
        };
    lemma_iput_mount(&f1, &f2, covered, covered as int);
    let root = f2.supers@[n as int].s_mounted;
    assert(root == fs0.supers@[n as int].s_mounted);
    if root != NIL {
        let g = choose|g: Fs|
            {
                &&& g == (Fs { supers: g.supers, ..f2 })
                &&& g.supers@ == f2.supers@.update(
                    n as int,
                    SuperBlock { s_mounted: NIL, ..f2.supers@[n as int] },
                )
                &&& #[trigger] iput_fs(&g, &f3, root)
            };
        lemma_iput_mount(&g, &f3, root, covered as int);
    }
}

/// Only the first user mounts a device, a block device with a driver, and only on a directory
/// that nobody else uses and on which nothing is mounted, and only once.
pub proof fn lemma_mount_needs(v: &Vfs, dev_inode: usize, dir_inode: usize)
    requires
        mount_error(v, dev_inode, dir_inode) == 0,
        v.fs.supers@.len() == 4,
    ensures
        v.fs.euid == 0,
        type_bits(v.fs.inodes@[dev_inode as int].i_mode) == mode::S_IFBLK,
        type_bits(v.fs.inodes@[dir_inode as int].i_mode) == mode::S_IFDIR,
        v.fs.inodes@[dir_inode as int].i_count == 1,
        v.fs.inodes@[dir_inode as int].i_mount == NIL,
        v.fs.inodes@[dev_inode as int].i_rdev != 0 ==> forall|k: int|
            0 <= k < 4 ==> (#[trigger] v.fs.supers@[k]).s_dev != v.fs.inodes@[dev_inode as int].i_rdev,
{
    let dev = v.fs.inodes@[dev_inode as int].i_rdev;
    lemma_no_slot(v.fs.supers@, dev, 0);
    crate::fs::super_block::lemma_slot(v.fs.supers@, dev, 0);
}

proof fn lemma_no_slot(s: Seq<SuperBlock>, dev: u16, k: int)
    requires
        0 <= k <= s.len(),
    ensures
        slot_from(s, dev, k) >= s.len() ==> forall|j: int| k <= j < s.len() ==> (#[trigger] s[j]).s_dev != dev,
    decreases s.len() - k,
{
    if k < s.len() {
        lemma_no_slot(s, dev, k + 1);
    }
}

/// A file system of which more than the mount itself is in use is not unmounted, nor one
/// that is not mounted; that of the root stays, for reading only.
pub proof fn lemma_umount_needs(fs0: &Fs, fs: &Fs, dev: u16, r: i64)
    requires
        umount_did(fs0, fs, dev, r),
        r == 0,
        fs0.supers@.len() == 4,
    ensures
        dev != 0,
        exists|n: int|
            {
                &&& 0 <= n < 4
                &&& (#[trigger] fs0.supers@[n]).s_dev == dev
                &&& dev != fs0.root_dev ==> fs0.supers@[n].s_covered != NIL && (fs0.supers@[n].s_mounted == NIL
                    || fs0.inodes@[fs0.supers@[n].s_mounted as int].i_count <= 1)
                &&& dev == fs0.root_dev ==> fs.supers@[n].s_rd_only
            },
{
    crate::fs::super_block::lemma_slot(fs0.supers@, dev, 0);
    let n = slot_from(fs0.supers@, dev, 0);
    assert(fs0.supers@[n].s_dev == dev);
    if dev == fs0.root_dev {
        let f1 = choose|f1: Fs|
            {
                let s = f1.supers@[n];
                &&& #[trigger] is_synced(fs0, &f1, dev)
                &&& *fs == (Fs { supers: fs.supers, ..f1 })
                &&& fs.supers@ == f1.supers@.update(
                    n,
                    SuperBlock { s_flags: s.s_flags | crate::fs::MS_RDONLY, s_rd_only: true, ..s },
                )
            };
        assert(f1.supers@.len() == 4);
    }
}

} // verus!
