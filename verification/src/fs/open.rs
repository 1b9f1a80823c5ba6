//! Descriptors of open files, and opening and closing them.

use crate::errno::{EBADF, EINVAL, EMFILE, ENFILE, ENODEV, ENOTDIR, EROFS};
use crate::fs::devices::Devices;
use crate::fs::ext2::inode::mode::type_bits;
use crate::fs::file_table::{filp_put, free_from, get_empty_filp, no_file, put_filp, File};
use crate::fs::inode::{iput, FsType, Inode, NIL};
use crate::fs::namei::{
    may, namei, open_namei, open_namei_did, permission, put_back, ready, resize, resized, resolved,
    same_files,
};
use crate::fs::{mode, oflags, Vfs, MAY_EXEC, MAY_WRITE, MS_RDONLY, NR_OPEN, NR_TASKS};
use vstd::prelude::*;

verus! {

/// The open file that a descriptor of a task leads to.
pub open spec fn task_file(v: &Vfs, task: int, fd: int) -> usize {
    if 0 <= fd < 16 && 0 <= task < 64 {
        v.fds@[task]@[fd]
    } else {
        NIL
    }
}

/// The open file that a descriptor of the running task leads to.
pub open spec fn fd_file(v: &Vfs, fd: int) -> usize {
    task_file(v, v.current as int, fd)
}

/// The first free descriptor of a row at `k` or after it, or their number.
pub open spec fn free_fd_from(row: Seq<usize>, k: int) -> int
    decreases row.len() - k,
{
    if k >= row.len() {
        row.len() as int
    } else if row[k] == NIL {
        k
    } else {
        free_fd_from(row, k + 1)
    }
}

/// The first free descriptor of the running task.
pub open spec fn free_fd(v: &Vfs) -> int {
    free_fd_from(v.fds@[v.current as int]@, 0)
}

/// How many of the first `n` descriptors of a row are open.
pub open spec fn open_in(row: Seq<usize>, n: int) -> int
    decreases n,
{
    if n <= 0 {
        0
    } else {
        open_in(row, n - 1) + if row[n - 1] != NIL {
            1int
        } else {
            0
        }
    }
}

/// The state `v` is that of `v0` after a descriptor of a task was led to `f`.
pub open spec fn fd_set(v0: &Vfs, v: &Vfs, task: int, fd: int, f: usize) -> bool {
    &&& *v == (Vfs { fds: v.fds, ..*v0 })
    &&& v.fds@ == v0.fds@.update(task, v.fds@[task])
    &&& v.fds@[task]@ == v0.fds@[task]@.update(fd, f)
}

/// The state `v` is that of `v0` after a descriptor of a task was set free.
pub open spec fn fd_freed(v0: &Vfs, v: &Vfs, task: int, fd: int) -> bool {
    fd_set(v0, v, task, fd, NIL)
}

/// The state `v` is that of `v0` after slot `n` of the open files became `f`.
pub open spec fn slot_set(v0: &Vfs, v: &Vfs, n: int, f: File) -> bool {
    &&& *v == (Vfs { files: v.files, ..*v0 })
    &&& v.files@ == v0.files@.update(n, f)
}

/// The open file that a descriptor of the running task leads to.
pub fn fd_to_filp(v: &Vfs, fd: usize) -> (r: usize)
    requires
        v.wf(),
    ensures
        r == fd_file(v, fd as int),
        r == NIL || r < 32,
{
    if fd >= NR_OPEN {
        return NIL;
    }
    assert(v.fds@[v.current as int]@[fd as int] == NIL || v.fds@[v.current as int]@[fd as int] < 32);
    v.fds[v.current][fd]
}

/// Leads a descriptor of a task to an open file. What is not in the table is left
/// alone.
pub fn set_task_fd(v: &mut Vfs, task_idx: usize, fd: usize, filp_idx: usize)
    requires
        old(v).wf(),
        filp_idx == NIL || filp_idx < 32,
    ensures
        final(v).wf(),
        if fd < 16 && task_idx < 64 {
            fd_set(old(v), final(v), task_idx as int, fd as int, filp_idx)
        } else {
            *final(v) == *old(v)
        },
{
    if fd < NR_OPEN && task_idx < NR_TASKS {
        let mut row: [usize; 16] = v.fds[task_idx];
        row[fd] = filp_idx;
        v.fds.set(task_idx, row);
        assert forall|t: int, d: int| 0 <= t < 64 && 0 <= d < 16 implies {
            let f = #[trigger] v.fds@[t]@[d];
            f == NIL || f < 32
        } by {
            let f0 = old(v).fds@[t]@[d];
        }
    }
}

/// The open file that a descriptor of a task leads to.
pub fn task_fd(v: &Vfs, task_idx: usize, fd: usize) -> (r: usize)
    requires
        v.wf(),
    ensures
        r == task_file(v, task_idx as int, fd as int),
{
    if fd >= NR_OPEN || task_idx >= NR_TASKS {
        return NIL;
    }
    v.fds[task_idx][fd]
}

/// How many of the first `n` descriptors of a row lead to open file `f`.
pub open spec fn row_leads(row: Seq<usize>, f: int, n: int) -> int
    decreases n,
{
    if n <= 0 {
        0
    } else {
        row_leads(row, f, n - 1) + if row[n - 1] == f {
            1int
        } else {
            0
        }
    }
}

proof fn lemma_row_leads(row: Seq<usize>, f: int, n: int)
    requires
        0 <= n,
    ensures
        0 <= row_leads(row, f, n) <= n,
    decreases n,
{
    if n > 0 {
        lemma_row_leads(row, f, n - 1);
    }
}

/// How many descriptors of the first `n` tasks lead to open file `f`.
pub open spec fn leads(fds: Seq<[usize; 16]>, f: int, n: int) -> int
    decreases n,
{
    if n <= 0 {
        0
    } else {
        leads(fds, f, n - 1) + row_leads(fds[n - 1]@, f, 16)
    }
}

/// Each of the open files counts the descriptors that lead to it.
pub open spec fn counted_by(files: Seq<File>, fds: Seq<[usize; 16]>) -> bool {
    forall|f: int| 0 <= f < 32 ==> (#[trigger] files[f]).f_count == leads(fds, f, 64)
}

/// Each open file counts the descriptors that lead to it.
pub open spec fn counts_ok(v: &Vfs) -> bool {
    counted_by(v.files@, v.fds@)
}

/// An open file that counts `n` descriptors more.
pub open spec fn file_more(f: File, n: int) -> File {
    File { f_count: (f.f_count + n) as u16, ..f }
}

/// The state `v` is that of `v0` after task `to` was given the descriptors of task
/// `from`.
pub open spec fn fds_cloned(v0: &Vfs, v: &Vfs, from: int, to: int) -> bool {
    &&& *v == (Vfs { fds: v.fds, files: v.files, ..*v0 })
    &&& v.fds@ == v0.fds@.update(to, v0.fds@[from])
    &&& v.files@.len() == v0.files@.len()
    &&& forall|f: int|
        0 <= f < 32 ==> #[trigger] v.files@[f] == file_more(
            v0.files@[f],
            row_leads(v0.fds@[from]@, f, 16),
        )
}

/// Gives a new task the descriptors of another: each open file counts them.
pub fn clone_fds(v: &mut Vfs, from: usize, to: usize)
    requires
        old(v).wf(),
        forall|f: int| 0 <= f < 32 ==> (#[trigger] old(v).files@[f]).f_count <= u16::MAX - 16,
    ensures
        final(v).wf(),
        if from < 64 && to < 64 && from != to {
            fds_cloned(old(v), final(v), from as int, to as int)
        } else {
            *final(v) == *old(v)
        },
{
    if from < NR_TASKS && to < NR_TASKS && from != to {
        let row: [usize; 16] = v.fds[from];
        v.fds.set(to, row);
        assert forall|t: int, d: int| 0 <= t < 64 && 0 <= d < 16 implies {
            let f = #[trigger] v.fds@[t]@[d];
            f == NIL || f < 32
        } by {
            let f0 = old(v).fds@[t]@[d];
            let f1 = old(v).fds@[from as int]@[d];
        }
        let ghost v1 = *v;
        for fd in 0..NR_OPEN
            invariant
                v.wf(),
                *v == (Vfs { files: v.files, ..v1 }),
                v1.wf(),
                from < 64,
                row@ == v1.fds@[from as int]@,
                v.files@.len() == 32,
                v1.files@.len() == 32,
                forall|f: int|
                    0 <= f < 32 ==> #[trigger] v.files@[f] == file_more(
                        v1.files@[f],
                        row_leads(row@, f, fd as int),
                    ),
                forall|f: int| 0 <= f < 32 ==> (#[trigger] v1.files@[f]).f_count <= u16::MAX - 16,
        {
            let f: usize = row[fd];
            assert(v1.fds@[from as int]@[fd as int] == NIL || v1.fds@[from as int]@[fd as int] < 32);
            if f != NIL {
                let mut fp: File = v.files[f];
                let ghost s0 = v.files@;
                assert(s0[f as int] == file_more(v1.files@[f as int], row_leads(row@, f as int, fd as int)));
                assert(v1.files@[f as int].f_count <= u16::MAX - 16);
                assert(v.files@[f as int].links_ok());
                proof {
                    lemma_row_leads(row@, f as int, fd as int);
                }
                fp.f_count = fp.f_count + 1;
                v.files.set(f, fp);
            }
            assert forall|g: int| 0 <= g < 32 implies #[trigger] v.files@[g] == file_more(
                v1.files@[g],
                row_leads(row@, g, fd + 1),
            ) by {
                assert(row_leads(row@, g, fd + 1) == row_leads(row@, g, fd as int) + if row@[fd as int]
                    == g {
                    1int
                } else {
                    0
                });
                assert(v1.files@[g].f_count <= u16::MAX - 16);
                lemma_row_leads(row@, g, fd as int);
            }
        }
        assert(v.fds@ =~= old(v).fds@.update(to as int, old(v).fds@[from as int]));
    }
}

/// A free descriptor of the running task.
pub fn get_unused_fd(v: &Vfs) -> (r: usize)
    requires
        v.wf(),
    ensures
        r == if free_fd(v) < 16 {
            free_fd(v)
        } else {
            NIL as int
        },
        r == NIL || r < 16,
{
    let row: [usize; 16] = v.fds[v.current];
    for fd in 0..NR_OPEN
        invariant
            row@ == v.fds@[v.current as int]@,
            free_fd(v) == free_fd_from(row@, fd as int),
    {
        if row[fd] == NIL {
            return fd;
        }
    }
    NIL
}

/// Leads a descriptor of the running task to an open file.
pub fn set_fd(v: &mut Vfs, fd: usize, f: usize)
    requires
        old(v).wf(),
        f == NIL || f < 32,
    ensures
        final(v).wf(),
        if fd < 16 {
            fd_set(old(v), final(v), old(v).current as int, fd as int, f)
        } else {
            *final(v) == *old(v)
        },
{
    let task: usize = v.current;
    set_task_fd(v, task, fd, f);
}

/// What the driver answers when the device of an inode is opened; zero where the
/// inode is not that of a device.
pub open spec fn driver_open(d: &Devices, i: Inode) -> int {
    match i.i_op {
        FsType::Chr => if d.chr_of(i.i_rdev as int / 256) is Some {
            0
        } else {
            -ENODEV as int
        },
        FsType::Blk => if d.blk_of(i.i_rdev as int / 256) is Some {
            0
        } else {
            -ENODEV as int
        },
        FsType::Unbound => -EINVAL as int,
        _ => 0,
    }
}

/// The open file of inode `n`.
pub open spec fn file_of(i: Inode, n: usize, flags: u32) -> File {
    File {
        f_mode: ((flags + 1) as u32 & oflags::O_ACCMODE) as u16,
        f_rdev: i.i_rdev,
        f_pos: if flags & oflags::O_APPEND != 0 {
            i.i_size as u64
        } else {
            0
        },
        f_flags: flags,
        f_count: 1,
        f_reada: 0,
        f_inode: n,
    }
}

/// The slot of a file whose driver refused to open it.
pub open spec fn file_left(i: Inode, n: usize, flags: u32) -> File {
    File { f_count: 0, f_pos: 0, f_inode: NIL, ..file_of(i, n, flags) }
}

/// The state `v` is that of `v0` after both a slot and a descriptor of the running
/// task were set.
pub open spec fn slot_and_fd(v0: &Vfs, v: &Vfs, n: int, f: File, fd: int, to: usize) -> bool {
    &&& *v == (Vfs { fds: v.fds, files: v.files, ..*v0 })
    &&& v.files@ == v0.files@.update(n, f)
    &&& v.fds@ == v0.fds@.update(v0.current as int, v.fds@[v0.current as int])
    &&& v.fds@[v0.current as int]@ == v0.fds@[v0.current as int]@.update(fd, to)
}

/// The state `v` is that of `v0` after a slot became `f` and a descriptor of the
/// running task was set free.
pub open spec fn both_freed(v0: &Vfs, v: &Vfs, n: int, f: File, fd: int) -> bool {
    slot_and_fd(v0, v, n, f, fd, NIL)
}

/// What is done once a path was opened, with slot `f` and descriptor `fd` taken.
pub open spec fn open_ended(v0: &Vfs, v: &Vfs, f: int, fd: int, flags: u32, or: Result<usize, i32>, r: i64) -> bool {
    match or {
        Err(e) => {
            &&& r == -e
            &&& both_freed(v0, v, f, File { f_count: 0, ..v0.files@[f] }, fd)
        },
        Ok(n) => {
            let i = v0.fs.inodes@[n as int];
            let e = driver_open(&v0.devices, i);
            if e != 0 {
                &&& r == e
                &&& exists|v1: Vfs|
                    {
                        &&& #[trigger] both_freed(v0, &v1, f, file_left(i, n, flags), fd)
                        &&& put_back(&v1, v, n)
                    }
            } else {
                &&& r == fd
                &&& slot_set(v0, v, f, file_of(i, n, flags))
            }
        },
    }
}

/// What opening a file does, with the answer `r`. The descriptor is the lowest free
/// one.
pub open spec fn sys_open_did(v0: &Vfs, v: &Vfs, path: Seq<u8>, flags: u32, m: u16, r: i64) -> bool {
    let fd = free_fd(v0);
    let f = free_from(v0.files@, 0);
    if fd >= 16 {
        r == -EMFILE && *v == *v0
    } else if f >= 32 {
        r == -ENFILE && *v == *v0
    } else {
        exists|v1: Vfs, v2: Vfs, or: Result<usize, i32>|
            {
                &&& slot_and_fd(v0, &v1, f, File { f_count: 1, ..no_file() }, fd, f as usize)
                &&& #[trigger] open_namei_did(&v1, &v2, path, flags, m, or)
                &&& same_files(&v1, &v2)
                &&& open_ended(&v2, v, f, fd, flags, or, r)
            }
    }
}

/// Finishes opening: asks the driver, and fills slot `f` in.
fn end_open(v: &mut Vfs, f: usize, fd: usize, flags: u32, or: Result<usize, i32>) -> (r: i64)
    requires
        old(v).wf(),
        f < 32,
        fd < 16,
        or is Ok ==> or->Ok_0 < 64 && flags < u32::MAX,
        old(v).files@[f as int] == (File { f_count: 1, ..no_file() }),
    ensures
        final(v).wf(),
        open_ended(old(v), final(v), f as int, fd as int, flags, or, r),
{
    match or {
        Err(e) => {
            set_fd(v, fd, NIL);
            let mut fp: File = v.files[f];
            fp.f_count = 0;
            v.files.set(f, fp);
            -(e as i64)
        },
        Ok(n) => {
            let i: Inode = v.fs.inodes[n];
            let acc: u32 = (flags + 1) & oflags::O_ACCMODE;
            let mut fp = File {
                f_mode: acc as u16,
                f_rdev: i.i_rdev,
                f_pos: 0,
                f_flags: flags,
                f_count: 1,
                f_reada: 0,
                f_inode: n,
            };
            let r: i64 = match i.i_op {
                FsType::Chr => v.devices.chrdev_open(i.i_rdev),
                FsType::Blk => v.devices.blkdev_open(i.i_rdev),
                FsType::Unbound => -(EINVAL as i64),
                _ => 0,
            };
            if r < 0 {
                set_fd(v, fd, NIL);
                fp.f_inode = NIL;
                fp.f_count = 0;
                v.files.set(f, fp);
                let ghost v1 = *v;
                assert(both_freed(old(v), &v1, f as int, file_left(i, n, flags), fd as int));
                iput(&mut v.fs, n);
                return r;
            }
            if flags & oflags::O_APPEND != 0 {
                fp.f_pos = i.i_size as u64;
            }
            v.files.set(f, fp);
            fd as i64
        },
    }
}

/// Opens a file. The answer is a descriptor, or a negated error.
pub fn sys_open(v: &mut Vfs, path: &[u8], flags: u32, m: u16) -> (r: i64)
    requires
        ready(old(v)),
    ensures
        final(v).wf(),
        sys_open_did(old(v), final(v), path@, flags, m, r),
{
    let fd: usize = get_unused_fd(v);
    if fd == NIL {
        return -(EMFILE as i64);
    }
    let f: usize = get_empty_filp(v);
    if f == NIL {
        return -(ENFILE as i64);
    }
    set_fd(v, fd, f);
    let ghost v1 = *v;
    assert(slot_and_fd(
        old(v),
        &v1,
        f as int,
        File { f_count: 1, ..no_file() },
        fd as int,
        f,
    ));
    let or = open_namei(v, path, flags, m);
    let ghost v2 = *v;
    assert(open_namei_did(&v1, &v2, path@, flags, m, or));
    proof {
        if flags == u32::MAX {
            assert(0xffff_ffffu32 & 3u32 == 3u32) by (bit_vector);
        }
    }
    end_open(v, f, fd, flags, or)
}

/// Makes and opens a file for writing, and empties it where it is there.
pub fn sys_creat(v: &mut Vfs, path: &[u8], m: u16) -> (r: i64)
    requires
        ready(old(v)),
    ensures
        final(v).wf(),
        sys_open_did(
            old(v),
            final(v),
            path@,
            oflags::O_CREAT | oflags::O_WRONLY | oflags::O_TRUNC,
            m,
            r,
        ),
{
    sys_open(v, path, oflags::O_CREAT | oflags::O_WRONLY | oflags::O_TRUNC, m)
}

/// What closing a descriptor does, with the answer `r`.
pub open spec fn sys_close_did(v0: &Vfs, v: &Vfs, fd: int, r: i64) -> bool {
    let f = fd_file(v0, fd);
    if f == NIL {
        r == -EBADF && *v == *v0
    } else {
        &&& r == 0
        &&& exists|v1: Vfs|
            {
                &&& #[trigger] fd_freed(v0, &v1, v0.current as int, fd)
                &&& filp_put(&v1, v, f)
            }
    }
}

/// Closes a descriptor.
pub fn sys_close(v: &mut Vfs, fd: usize) -> (r: i64)
    requires
        old(v).wf(),
    ensures
        final(v).wf(),
        sys_close_did(old(v), final(v), fd as int, r),
{
    let f: usize = fd_to_filp(v, fd);
    if f == NIL {
        return -(EBADF as i64);
    }
    set_fd(v, fd, NIL);
    let ghost v1 = *v;
    assert(fd_freed(old(v), &v1, old(v).current as int, fd as int));
    put_filp(v, f);
    0
}

/// The state `v` is that of `v0` after descriptor `fd` of the running task was led
/// to slot `f` as well.
pub open spec fn one_more(v0: &Vfs, v: &Vfs, fd: int, f: usize) -> bool {
    slot_and_fd(v0, v, f as int, file_more(v0.files@[f as int], 1), fd, f)
}

fn lead(v: &mut Vfs, fd: usize, f: usize)
    requires
        old(v).wf(),
        fd < 16,
        f < 32,
        old(v).files@[f as int].f_count < u16::MAX,
    ensures
        final(v).wf(),
        one_more(old(v), final(v), fd as int, f),
{
    let mut fp: File = v.files[f];
    assert(v.files@[f as int].links_ok());
    fp.f_count = fp.f_count + 1;
    v.files.set(f, fp);
    set_fd(v, fd, f);
}

/// Leads the lowest free descriptor to the open file of another.
pub fn sys_dup(v: &mut Vfs, fd: usize) -> (r: i64)
    requires
        old(v).wf(),
        fd_file(old(v), fd as int) != NIL ==> old(v).files@[fd_file(
            old(v),
            fd as int,
        ) as int].f_count < u16::MAX,
    ensures
        final(v).wf(),
        ({
            let f = fd_file(old(v), fd as int);
            let new = free_fd(old(v));
            if f == NIL {
                r == -EBADF && *final(v) == *old(v)
            } else if new >= 16 {
                r == -EMFILE && *final(v) == *old(v)
            } else {
                r == new && one_more(old(v), final(v), new, f)
            }
        }),
{
    let f: usize = fd_to_filp(v, fd);
    if f == NIL {
        return -(EBADF as i64);
    }
    let new: usize = get_unused_fd(v);
    if new == NIL {
        return -(EMFILE as i64);
    }
    lead(v, new, f);
    new as i64
}

/// What leading descriptor `newfd` to the open file of `oldfd` does, with the answer
/// `r`. Where `newfd` is open it is closed first; where both are the same, nothing
/// is done.
pub open spec fn sys_dup2_did(v0: &Vfs, v: &Vfs, oldfd: int, newfd: int, r: i64) -> bool {
    let f = fd_file(v0, oldfd);
    if f == NIL || newfd >= 16 {
        r == -EBADF && *v == *v0
    } else if oldfd == newfd {
        r == newfd && *v == *v0
    } else {
        &&& r == newfd
        &&& if fd_file(v0, newfd) == NIL {
            one_more(v0, v, newfd, f)
        } else {
            exists|v1: Vfs|
                {
                    &&& #[trigger] sys_close_did(v0, &v1, newfd, 0)
                    &&& one_more(&v1, v, newfd, f)
                }
        }
    }
}

/// Leads descriptor `newfd` to the open file of `oldfd`.
pub fn sys_dup2(v: &mut Vfs, oldfd: usize, newfd: usize) -> (r: i64)
    requires
        old(v).wf(),
        fd_file(old(v), oldfd as int) != NIL ==> old(v).files@[fd_file(
            old(v),
            oldfd as int,
        ) as int].f_count < u16::MAX,
    ensures
        final(v).wf(),
        sys_dup2_did(old(v), final(v), oldfd as int, newfd as int, r),
{
    let f: usize = fd_to_filp(v, oldfd);
    if f == NIL {
        return -(EBADF as i64);
    }
    if newfd >= NR_OPEN {
        return -(EBADF as i64);
    }
    if oldfd == newfd {
        return newfd as i64;
    }
    if fd_to_filp(v, newfd) != NIL {
        let c: i64 = sys_close(v, newfd);
        let ghost v1 = *v;
        assert(sys_close_did(old(v), &v1, newfd as int, 0));
    }
    lead(v, newfd, f);
    newfd as i64
}

/// What changing the working directory does, with the answer `r`.
pub open spec fn sys_chdir_did(v0: &Vfs, v: &Vfs, path: Seq<u8>, r: i64) -> bool {
    exists|v1: Vfs, nr: Result<usize, i32>|
        {
            &&& #[trigger] resolved(v0, &v1, path, true, nr)
            &&& match nr {
                Err(e) => r == -e && *v == v1,
                Ok(n) => {
                    let i = v1.fs.inodes@[n as int];
                    let v2 = Vfs { fs: crate::fs::Fs { pwd_inode: n, ..v1.fs }, ..v1 };
                    let prev = v1.fs.pwd_inode;
                    if type_bits(i.i_mode) != mode::S_IFDIR {
                        r == -ENOTDIR && put_back(&v1, v, n)
                    } else if !may(&v1.fs, i, MAY_EXEC) {
                        r == -EINVAL && put_back(&v1, v, n)
                    } else if prev != NIL && prev != v1.fs.root_inode {
                        r == 0 && put_back(&v2, v, prev)
                    } else {
                        r == 0 && *v == v2
                    }
                },
            }
        }
}

/// Changes the working directory. The reference to the one before is given back,
/// unless it is the root.
pub fn sys_chdir(v: &mut Vfs, path: &[u8]) -> (r: i64)
    requires
        ready(old(v)),
    ensures
        final(v).wf(),
        sys_chdir_did(old(v), final(v), path@, r),
{
    proof {
        crate::fs::refs::lemma_book_less(v.fs.inodes@, NIL, NIL, 17, 15);
    }
    let nr = namei(v, path);
    let ghost v1 = *v;
    assert(resolved(old(v), &v1, path@, true, nr));
    match nr {
        Err(e) => -(e as i64),
        Ok(n) => {
            if !mode::is_dir(v.fs.inodes[n].i_mode) {
                iput(&mut v.fs, n);
                return -(ENOTDIR as i64);
            }
            if !permission(&v.fs, n, MAY_EXEC) {
                iput(&mut v.fs, n);
                return -(EINVAL as i64);
            }
            let prev: usize = v.fs.pwd_inode;
            v.fs.pwd_inode = n;
            if prev != NIL && prev != v.fs.root_inode {
                iput(&mut v.fs, prev);
            }
            0
        },
    }
}

/// The state `v` is that of `v0` after inode `n` became `i`.
pub open spec fn node_set(v0: &Vfs, v: &Vfs, n: usize, i: Inode) -> bool {
    &&& *v == (Vfs { fs: v.fs, ..*v0 })
    &&& v.fs == (crate::fs::Fs { inodes: v.fs.inodes, ..v0.fs })
    &&& v.fs.inodes@ == v0.fs.inodes@.update(n as int, i)
}

/// Inode `i` with other permissions.
pub open spec fn with_mode(i: Inode, m: u16, now: u32) -> Inode {
    Inode {
        i_mode: (m & 0o7777) | (i.i_mode & mode::S_IFMT),
        i_ctime: now,
        i_dirt: true,
        ..i
    }
}

/// What changing permissions does, with the answer `r`.
pub open spec fn sys_chmod_did(v0: &Vfs, v: &Vfs, path: Seq<u8>, m: u16, r: i64) -> bool {
    exists|v1: Vfs, nr: Result<usize, i32>|
        {
            &&& #[trigger] resolved(v0, &v1, path, true, nr)
            &&& match nr {
                Err(e) => r == -e && *v == v1,
                Ok(n) => {
                    let i = v1.fs.inodes@[n as int];
                    if i.i_sb != NIL && v1.fs.supers@[i.i_sb as int].s_flags & MS_RDONLY != 0 {
                        r == -EROFS && put_back(&v1, v, n)
                    } else {
                        &&& r == 0
                        &&& exists|v2: Vfs|
                            {
                                &&& #[trigger] node_set(&v1, &v2, n, with_mode(i, m, v1.fs.now))
                                &&& put_back(&v2, v, n)
                            }
                    }
                },
            }
        }
}

/// Changes the permissions of a file.
pub fn sys_chmod(v: &mut Vfs, path: &[u8], m: u16) -> (r: i64)
    requires
        ready(old(v)),
    ensures
        final(v).wf(),
        sys_chmod_did(old(v), final(v), path@, m, r),
{
    proof {
        crate::fs::refs::lemma_book_less(v.fs.inodes@, NIL, NIL, 17, 15);
    }
    let nr = namei(v, path);
    let ghost v1 = *v;
    assert(resolved(old(v), &v1, path@, true, nr));
    match nr {
        Err(e) => -(e as i64),
        Ok(n) => {
            let i: Inode = v.fs.inodes[n];
            assert(v.fs.inodes@[n as int].links_ok());
            if i.i_sb != NIL {
                if v.fs.supers[i.i_sb].s_flags & MS_RDONLY != 0 {
                    iput(&mut v.fs, n);
                    return -(EROFS as i64);
                }
            }
            let mut i1: Inode = i;
            i1.i_mode = (m & 0o7777) | (i.i_mode & mode::S_IFMT);
            i1.i_ctime = v.fs.now;
            i1.i_dirt = true;
            v.fs.inodes.set(n, i1);
            let ghost v2 = *v;
            assert(node_set(&v1, &v2, n, with_mode(i, m, v1.fs.now)));
            iput(&mut v.fs, n);
            0
        },
    }
}

/// Inode `i` with another size.
pub open spec fn with_length(i: Inode, length: u32, now: u32) -> Inode {
    Inode { i_size: length, i_mtime: now, i_ctime: now, i_dirt: true, ..i }
}

/// What giving a file another length does, with the answer `r`.
pub open spec fn sys_truncate_did(v0: &Vfs, v: &Vfs, path: Seq<u8>, length: u32, r: i64) -> bool {
    exists|v1: Vfs, nr: Result<usize, i32>|
        {
            &&& #[trigger] resolved(v0, &v1, path, true, nr)
            &&& match nr {
                Err(e) => r == -e && *v == v1,
                Ok(n) => {
                    let i = v1.fs.inodes@[n as int];
                    if type_bits(i.i_mode) == mode::S_IFDIR || !may(&v1.fs, i, MAY_WRITE) {
                        r == -EINVAL && put_back(&v1, v, n)
                    } else {
                        &&& r == 0
                        &&& exists|v2: Vfs|
                            {
                                &&& #[trigger] resized(
                                    &v1,
                                    &v2,
                                    n,
                                    with_length(i, length, v1.fs.now),
                                )
                                &&& put_back(&v2, v, n)
                            }
                    }
                },
            }
        }
}

/// Gives a file another length.
pub fn sys_truncate(v: &mut Vfs, path: &[u8], length: u32) -> (r: i64)
    requires
        ready(old(v)),
    ensures
        final(v).wf(),
        sys_truncate_did(old(v), final(v), path@, length, r),
{
    proof {
        crate::fs::refs::lemma_book_less(v.fs.inodes@, NIL, NIL, 17, 15);
    }
    let nr = namei(v, path);
    let ghost v1 = *v;
    assert(resolved(old(v), &v1, path@, true, nr));
    match nr {
        Err(e) => -(e as i64),
        Ok(n) => {
            let i: Inode = v.fs.inodes[n];
            assert(v.fs.inodes@[n as int].links_ok());
            if mode::is_dir(i.i_mode) || !permission(&v.fs, n, MAY_WRITE) {
                iput(&mut v.fs, n);
                return -(EINVAL as i64);
            }
            let mut i1: Inode = i;
            i1.i_size = length;
            i1.i_mtime = v.fs.now;
            i1.i_ctime = v.fs.now;
            i1.i_dirt = true;
            resize(v, n, i1);
            let ghost v2 = *v;
            assert(resized(&v1, &v2, n, with_length(i, length, v1.fs.now)));
            iput(&mut v.fs, n);
            0
        },
    }
}

/// A descriptor that was closed is free, and the others lead where they led.
pub proof fn lemma_closed(v0: &Vfs, v: &Vfs, fd: int, r: i64)
    requires
        v0.wf(),
        fd_file(v0, fd) != NIL,
        sys_close_did(v0, v, fd, r),
    ensures
        r == 0,
        v.current == v0.current,
        forall|d: int|
            #[trigger] fd_file(v, d) == if d == fd {
                NIL
            } else {
                fd_file(v0, d)
            },
{
    let f = fd_file(v0, fd);
    let v1 = choose|v1: Vfs|
        {
            &&& #[trigger] fd_freed(v0, &v1, v0.current as int, fd)
            &&& filp_put(&v1, v, f)
        };
    assert(fd_freed(v0, &v1, v0.current as int, fd));
}

/// The state `v` is that of `v0` after a descriptor was closed, if it is open.
pub open spec fn closed_one(v0: &Vfs, v: &Vfs, fd: int) -> bool {
    if fd_file(v0, fd) != NIL {
        sys_close_did(v0, v, fd, 0)
    } else {
        *v == *v0
    }
}

/// The state `v` is that of `v0` after the first `n` descriptors of the running task
/// were closed, as far as they are open.
pub open spec fn closed_first(v0: &Vfs, v: &Vfs, n: nat) -> bool
    decreases n,
{
    if n == 0 {
        *v == *v0
    } else {
        exists|v1: Vfs|
            {
                &&& closed_first(v0, &v1, (n - 1) as nat)
                &&& #[trigger] closed_one(&v1, v, n - 1)
            }
    }
}

/// Closes all descriptors of the running task.
pub fn close_all(v: &mut Vfs)
    requires
        old(v).wf(),
    ensures
        final(v).wf(),
        closed_first(old(v), final(v), 16),
        final(v).current == old(v).current,
        forall|fd: int| 0 <= fd < 16 ==> #[trigger] fd_file(final(v), fd) == NIL,
{
    for fd in 0..NR_OPEN
        invariant
            v.wf(),
            v.current == old(v).current,
            closed_first(old(v), v, fd as nat),
            forall|d: int| 0 <= d < fd ==> #[trigger] fd_file(v, d) == NIL,
    {
        let ghost v1 = *v;
        if fd_to_filp(v, fd) != NIL {
            let c: i64 = sys_close(v, fd);
            proof {
                lemma_closed(&v1, v, fd as int, c);
            }
        }
        proof {
            let n = (fd + 1) as nat;
            assert(closed_first(old(v), &v1, (n - 1) as nat));
            assert(closed_one(&v1, v, n - 1));
            assert(closed_first(old(v), v, n));
            assert forall|d: int| 0 <= d < fd + 1 implies #[trigger] fd_file(v, d) == NIL by {
                assert(d < fd ==> fd_file(&v1, d) == NIL);
            }
        }
    }
}

/// How many descriptors of the running task are open.
pub fn nr_open_fds(v: &Vfs) -> (r: usize)
    requires
        v.wf(),
    ensures
        r == open_in(v.fds@[v.current as int]@, 16),
{
    let mut r: usize = 0;
    for fd in 0..NR_OPEN
        invariant
            v.wf(),
            r == open_in(v.fds@[v.current as int]@, fd as int),
            r <= fd,
    {
        if fd_to_filp(v, fd) != NIL {
            r = r + 1;
        }
    }
    r
}


// ---- what the counts of open files are ----

proof fn lemma_row_set(row: Seq<usize>, fd: int, to: usize, f: int, n: int)
    requires
        0 <= fd < row.len(),
        0 <= n <= row.len(),
    ensures
        row_leads(row.update(fd, to), f, n) == row_leads(row, f, n) + if fd < n {
            (if to == f {
                1int
            } else {
                0
            }) - (if row[fd] == f {
                1int
            } else {
                0
            })
        } else {
            0
        },
    decreases n,
{
    if n > 0 {
        lemma_row_set(row, fd, to, f, n - 1);
    }
}

proof fn lemma_leads_set(fds: Seq<[usize; 16]>, t: int, row: [usize; 16], f: int, n: int)
    requires
        0 <= t < fds.len(),
        0 <= n <= fds.len(),
    ensures
        leads(fds.update(t, row), f, n) == leads(fds, f, n) + if t < n {
            row_leads(row@, f, 16) - row_leads(fds[t]@, f, 16)
        } else {
            0
        },
    decreases n,
{
    if n > 0 {
        lemma_leads_set(fds, t, row, f, n - 1);
    }
}

proof fn lemma_leads_range(fds: Seq<[usize; 16]>, f: int, n: int)
    requires
        0 <= n,
    ensures
        0 <= leads(fds, f, n) <= 16 * n,
    decreases n,
{
    if n > 0 {
        lemma_leads_range(fds, f, n - 1);
        lemma_row_leads(fds[n - 1]@, f, 16);
    }
}

/// The descriptors have their number, and lead into the table.
pub open spec fn fds_ok(v: &Vfs) -> bool {
    &&& v.current < 64
    &&& v.files@.len() == 32
    &&& v.fds@.len() == 64
    &&& forall|t: int, fd: int|
        0 <= t < 64 && 0 <= fd < 16 ==> {
            let f = #[trigger] v.fds@[t]@[fd];
            f == NIL || f < 32
        }
}

/// Where one descriptor is led to another open file, and the two count that, all
/// counts are right.
proof fn lemma_counts(
    files0: Seq<File>,
    fds0: Seq<[usize; 16]>,
    files: Seq<File>,
    fds: Seq<[usize; 16]>,
    t: int,
    fd: int,
    to: usize,
)
    requires
        counted_by(files0, fds0),
        fds0.len() == 64,
        0 <= t < 64,
        0 <= fd < 16,
        fds == fds0.update(t, fds[t]),
        fds[t]@ == fds0[t]@.update(fd, to),
        forall|g: int|
            0 <= g < 32 ==> (#[trigger] files[g]).f_count == files0[g].f_count + (if to == g {
                1int
            } else {
                0
            }) - (if fds0[t]@[fd] == g {
                1int
            } else {
                0
            }),
    ensures
        counted_by(files, fds),
{
    assert forall|g: int| 0 <= g < 32 implies (#[trigger] files[g]).f_count == leads(fds, g, 64) by {
        assert(files0[g].f_count == leads(fds0, g, 64));
        lemma_row_set(fds0[t]@, fd, to, g, 16);
        lemma_leads_set(fds0, t, fds[t], g, 64);
    }
}

/// An open file to which a descriptor leads counts at least one.
proof fn lemma_counts_some(v: &Vfs, fd: int)
    requires
        fds_ok(v),
        counts_ok(v),
        fd_file(v, fd) != NIL,
    ensures
        fd_file(v, fd) < 32,
        v.files@[fd_file(v, fd) as int].f_count > 0,
{
    let t = v.current as int;
    let f = fd_file(v, fd);
    assert(v.fds@[t]@[fd] == f);
    let row = v.fds@[t]@.update(fd, NIL);
    lemma_row_set(v.fds@[t]@, fd, NIL, f as int, 16);
    lemma_row_leads(row, f as int, 16);
    lemma_some_row(v.fds@, f as int, t, 64);
    assert(v.files@[f as int].f_count == leads(v.fds@, f as int, 64));
}

proof fn lemma_some_row(fds: Seq<[usize; 16]>, f: int, t: int, n: int)
    requires
        0 <= t < n,
    ensures
        row_leads(fds[t]@, f, 16) <= leads(fds, f, n),
    decreases n,
{
    lemma_leads_range(fds, f, n - 1);
    lemma_row_leads(fds[n - 1]@, f, 16);
    if t < n - 1 {
        lemma_some_row(fds, f, t, n - 1);
    }
}

proof fn lemma_free_slot(s: Seq<File>, k: int)
    requires
        0 <= k <= s.len(),
    ensures
        k <= free_from(s, k) <= s.len(),
        free_from(s, k) < s.len() ==> s[free_from(s, k)].f_count == 0,
    decreases s.len() - k,
{
    if k < s.len() && s[k].f_count != 0 {
        lemma_free_slot(s, k + 1);
    }
}

/// The lowest free descriptor is free, and those below it are open.
pub proof fn lemma_free_fd(row: Seq<usize>, k: int)
    requires
        0 <= k <= row.len(),
    ensures
        k <= free_fd_from(row, k) <= row.len(),
        free_fd_from(row, k) < row.len() ==> row[free_fd_from(row, k)] == NIL,
        forall|d: int| k <= d < free_fd_from(row, k) ==> #[trigger] row[d] != NIL,
    decreases row.len() - k,
{
    if k < row.len() && row[k] != NIL {
        lemma_free_fd(row, k + 1);
    }
}

/// Opening keeps the counts of open files right, whether it succeeds or not.
pub proof fn lemma_open_counts(v0: &Vfs, v: &Vfs, path: Seq<u8>, flags: u32, m: u16, r: i64)
    requires
        v0.wf(),
        counts_ok(v0),
        sys_open_did(v0, v, path, flags, m, r),
    ensures
        counts_ok(v),
{
    let fd = free_fd(v0);
    let f = free_from(v0.files@, 0);
    let t = v0.current as int;
    lemma_free_fd(v0.fds@[t]@, 0);
    lemma_free_slot(v0.files@, 0);
    if fd < 16 && f < 32 {
        let (v1, v2, or) = choose|v1: Vfs, v2: Vfs, or: Result<usize, i32>|
            {
                &&& slot_and_fd(v0, &v1, f, File { f_count: 1, ..no_file() }, fd, f as usize)
                &&& #[trigger] open_namei_did(&v1, &v2, path, flags, m, or)
                &&& same_files(&v1, &v2)
                &&& open_ended(&v2, v, f, fd, flags, or, r)
            };
        lemma_counts(v0.files@, v0.fds@, v1.files@, v1.fds@, t, fd, f as usize);
        if v.files@[f].f_count == 0 {
            lemma_counts(v1.files@, v1.fds@, v.files@, v.fds@, t, fd, NIL);
        }
    }
}

/// Closing keeps the counts of open files right.
pub proof fn lemma_close_counts(v0: &Vfs, v: &Vfs, fd: int, r: i64)
    requires
        fds_ok(v0),
        counts_ok(v0),
        sys_close_did(v0, v, fd, r),
    ensures
        fds_ok(v),
        counts_ok(v),
{
    let f = fd_file(v0, fd);
    if f != NIL {
        let t = v0.current as int;
        let v1 = choose|v1: Vfs|
            {
                &&& #[trigger] fd_freed(v0, &v1, v0.current as int, fd)
                &&& filp_put(&v1, v, f)
            };
        assert(fd_freed(v0, &v1, t, fd));
        lemma_counts_some(v0, fd);
        lemma_counts(v0.files@, v0.fds@, v.files@, v.fds@, t, fd, NIL);
        assert forall|u: int, d: int| 0 <= u < 64 && 0 <= d < 16 implies {
            let g = #[trigger] v.fds@[u]@[d];
            g == NIL || g < 32
        } by {
            let g0 = v0.fds@[u]@[d];
        }
    }
}

/// Leading one more descriptor to an open file keeps the counts right.
pub proof fn lemma_more_counts(v0: &Vfs, v: &Vfs, fd: int, f: usize)
    requires
        fds_ok(v0),
        counts_ok(v0),
        0 <= fd < 16,
        f < 32,
        fd_file(v0, fd) == NIL,
        one_more(v0, v, fd, f),
    ensures
        counts_ok(v),
{
    lemma_leads_range(v0.fds@, f as int, 64);
    assert(v0.files@[f as int].f_count == leads(v0.fds@, f as int, 64));
    lemma_counts(v0.files@, v0.fds@, v.files@, v.fds@, v0.current as int, fd, f);
}

/// Leading a descriptor to the open file of another keeps the counts right.
pub proof fn lemma_dup2_counts(v0: &Vfs, v: &Vfs, oldfd: int, newfd: int, r: i64)
    requires
        v0.wf(),
        counts_ok(v0),
        0 <= newfd,
        sys_dup2_did(v0, v, oldfd, newfd, r),
    ensures
        counts_ok(v),
{
    let f = fd_file(v0, oldfd);
    if f != NIL && newfd < 16 && oldfd != newfd {
        assert(v0.fds@[v0.current as int]@[oldfd] == f);
        if fd_file(v0, newfd) == NIL {
            lemma_more_counts(v0, v, newfd, f);
        } else {
            let v1 = choose|v1: Vfs|
                {
                    &&& #[trigger] sys_close_did(v0, &v1, newfd, 0)
                    &&& one_more(&v1, v, newfd, f)
                };
            lemma_close_counts(v0, &v1, newfd, 0);
            lemma_closed(v0, &v1, newfd, 0);
            assert(fd_file(&v1, newfd) == NIL);
            lemma_more_counts(&v1, v, newfd, f);
        }
    }
}

proof fn lemma_no_leads(row: Seq<usize>, f: int, n: int)
    requires
        0 <= n <= row.len(),
        0 <= f < 32,
        forall|d: int| 0 <= d < n ==> #[trigger] row[d] == NIL,
    ensures
        row_leads(row, f, n) == 0,
    decreases n,
{
    if n > 0 {
        lemma_no_leads(row, f, n - 1);
    }
}

/// Giving a task without descriptors those of another keeps the counts right.
pub proof fn lemma_clone_counts(v0: &Vfs, v: &Vfs, from: int, to: int)
    requires
        v0.wf(),
        counts_ok(v0),
        0 <= from < 64,
        0 <= to < 64,
        forall|d: int| 0 <= d < 16 ==> #[trigger] v0.fds@[to]@[d] == NIL,
        fds_cloned(v0, v, from, to),
    ensures
        counts_ok(v),
{
    assert forall|f: int| 0 <= f < 32 implies (#[trigger] v.files@[f]).f_count == leads(
        v.fds@,
        f,
        64,
    ) by {
        assert(v0.files@[f].f_count == leads(v0.fds@, f, 64));
        lemma_no_leads(v0.fds@[to]@, f, 16);
        lemma_leads_set(v0.fds@, to, v0.fds@[from], f, 64);
        lemma_leads_range(v0.fds@, f, 64);
        lemma_row_leads(v0.fds@[from]@, f, 16);
    }
}

/// Closing the descriptor that a duplication gave undoes the duplication.
pub proof fn lemma_dup_close(v0: &Vfs, v1: &Vfs, v2: &Vfs, fd: int, new: int, r: i64)
    requires
        v0.wf(),
        fd_file(v0, fd) != NIL,
        0 < v0.files@[fd_file(v0, fd) as int].f_count < u16::MAX,
        0 <= new < 16,
        fd_file(v0, new) == NIL,
        one_more(v0, v1, new, fd_file(v0, fd)),
        sys_close_did(v1, v2, new, r),
    ensures
        r == 0,
        *v2 == (Vfs { fds: v2.fds, files: v2.files, ..*v0 }),
        v2.files@ == v0.files@,
        v2.fds@.len() == v0.fds@.len(),
        forall|t: int| 0 <= t < 64 ==> (#[trigger] v2.fds@[t])@ == v0.fds@[t]@,
{
    let f = fd_file(v0, fd);
    let t = v0.current as int;
    assert(v0.fds@[t]@[fd] == f);
    assert(fd_file(v1, new) == f);
    let w = choose|w: Vfs|
        {
            &&& #[trigger] fd_freed(v1, &w, v1.current as int, new)
            &&& filp_put(&w, v2, f)
        };
    assert(fd_freed(v1, &w, t, new));
    assert(v2.files@ =~= v0.files@);
    assert forall|u: int| 0 <= u < 64 implies (#[trigger] v2.fds@[u])@ == v0.fds@[u]@ by {
        assert(v2.fds@[u]@ =~= v0.fds@[u]@);
    }
}

} // verus!
