//! What is told of a file.

use crate::errno::EBADF;
use crate::fs::file_table::File;
use crate::fs::inode::{iget, iget_did, iput, Inode, NIL};
use crate::fs::namei::{lnamei, namei, put_back, ready, resolved};
use crate::fs::open::fd_to_filp;
use crate::fs::pipe::PipeTable;
use crate::fs::read_write::fd_node;
use crate::fs::{Fs, Vfs};
use vstd::prelude::*;

verus! {

/// What is told of a file, in fields of 32 bits and less.
#[derive(Debug, Clone, Copy, PartialEq, Eq, Structural)]
pub struct Stat {
    pub st_dev: u16,
    pub __pad1: u16,
    pub st_ino: u32,
    pub st_mode: u16,
    pub st_nlink: u16,
    pub st_uid: u16,
    pub st_gid: u16,
    pub st_rdev: u16,
    pub __pad2: u16,
    pub st_size: u32,
    pub st_blksize: u32,
    /// In units of 512 bytes.
    pub st_blocks: u32,
    pub st_atime: u32,
    pub __unused1: u32,
    pub st_mtime: u32,
    pub __unused2: u32,
    pub st_ctime: u32,
    pub __unused3: u32,
    pub __unused4: u32,
    pub __unused5: u32,
}

/// What is told of a file, in fields of up to 64 bits.
#[derive(Debug, Clone, Copy)]
pub struct Stat64 {
    pub st_dev: u64,
    pub st_ino: u64,
    pub st_nlink: u64,
    pub st_mode: u32,
    pub st_uid: u32,
    pub st_gid: u32,
    pub __pad0: u32,
    pub st_rdev: u64,
    pub st_size: i64,
    pub st_blksize: i64,
    /// In units of 512 bytes.
    pub st_blocks: i64,
    pub st_atime: i64,
    pub st_atime_nsec: i64,
    pub st_mtime: i64,
    pub st_mtime_nsec: i64,
    pub st_ctime: i64,
    pub st_ctime_nsec: i64,
    pub __unused: [i64; 3],
}

/// All fields are zero.
pub open spec fn is_zeroed(s: Stat64) -> bool {
    &&& s == (Stat64 {
        st_dev: 0,
        st_ino: 0,
        st_nlink: 0,
        st_mode: 0,
        st_uid: 0,
        st_gid: 0,
        __pad0: 0,
        st_rdev: 0,
        st_size: 0,
        st_blksize: 0,
        st_blocks: 0,
        st_atime: 0,
        st_atime_nsec: 0,
        st_mtime: 0,
        st_mtime_nsec: 0,
        st_ctime: 0,
        st_ctime_nsec: 0,
        __unused: s.__unused,
    })
    &&& s.__unused@ == seq![0i64, 0i64, 0i64]
}

/// How many units of 512 bytes a file of that size takes.
pub open spec fn blocks_of(size: int) -> int {
    (size + 511) / 512
}

/// What is told of an inode that was asked for by its number.
pub open spec fn is_brief(s: Stat64, inr: int, i: Inode) -> bool {
    exists|z: Stat64|
        {
            &&& #[trigger] is_zeroed(z)
            &&& s == (Stat64 {
                st_ino: inr as u64,
                st_nlink: i.i_nlink as u64,
                st_mode: i.i_mode as u32,
                st_uid: i.i_uid as u32,
                st_gid: i.i_gid as u32,
                st_size: i.i_size as i64,
                st_blksize: 1024,
                st_blocks: blocks_of(i.i_size as int) as i64,
                ..z
            })
        }
}

/// What is told of an inode.
pub open spec fn is_stat(s: Stat64, i: Inode) -> bool {
    exists|z: Stat64|
        {
            &&& #[trigger] is_zeroed(z)
            &&& s == (Stat64 {
                st_dev: i.i_dev as u64,
                st_ino: i.i_ino as u64,
                st_mode: i.i_mode as u32,
                st_nlink: i.i_nlink as u64,
                st_uid: i.i_uid as u32,
                st_gid: i.i_gid as u32,
                st_rdev: i.i_rdev as u64,
                st_size: i.i_size as i64,
                st_blksize: if i.i_blksize == 0 {
                    1024
                } else {
                    i.i_blksize as i64
                },
                st_blocks: blocks_of(i.i_size as int) as i64,
                st_atime: i.i_atime as i64,
                st_mtime: i.i_mtime as i64,
                st_ctime: i.i_ctime as i64,
                ..z
            })
        }
}

/// What is told of a descriptor that has no inode.
pub open spec fn is_made_up(s: Stat64, mode_bits: u32) -> bool {
    exists|z: Stat64|
        {
            &&& #[trigger] is_zeroed(z)
            &&& s == (Stat64 { st_mode: mode_bits, st_nlink: 1, ..z })
        }
}

impl Stat {
    pub fn zeroed() -> (r: Stat)
        ensures
            r == (Stat {
                st_dev: 0,
                __pad1: 0,
                st_ino: 0,
                st_mode: 0,
                st_nlink: 0,
                st_uid: 0,
                st_gid: 0,
                st_rdev: 0,
                __pad2: 0,
                st_size: 0,
                st_blksize: 0,
                st_blocks: 0,
                st_atime: 0,
                __unused1: 0,
                st_mtime: 0,
                __unused2: 0,
                st_ctime: 0,
                __unused3: 0,
                __unused4: 0,
                __unused5: 0,
            }),
    {
        Stat {
            st_dev: 0,
            __pad1: 0,
            st_ino: 0,
            st_mode: 0,
            st_nlink: 0,
            st_uid: 0,
            st_gid: 0,
            st_rdev: 0,
            __pad2: 0,
            st_size: 0,
            st_blksize: 0,
            st_blocks: 0,
            st_atime: 0,
            __unused1: 0,
            st_mtime: 0,
            __unused2: 0,
            st_ctime: 0,
            __unused3: 0,
            __unused4: 0,
            __unused5: 0,
        }
    }
}

impl Stat64 {
    pub fn zeroed() -> (r: Stat64)
        ensures
            is_zeroed(r),
    {
        let r = Stat64 {
            st_dev: 0,
            st_ino: 0,
            st_nlink: 0,
            st_mode: 0,
            st_uid: 0,
            st_gid: 0,
            __pad0: 0,
            st_rdev: 0,
            st_size: 0,
            st_blksize: 0,
            st_blocks: 0,
            st_atime: 0,
            st_atime_nsec: 0,
            st_mtime: 0,
            st_mtime_nsec: 0,
            st_ctime: 0,
            st_ctime_nsec: 0,
            __unused: [0; 3],
        };
        assert(r.__unused@ =~= seq![0i64, 0i64, 0i64]);
        r
    }

    /// What is told of the inode with number `inr` of the first file system, to which
    /// a reference is taken.
    pub fn from_inode(fs: &mut Fs, inr: usize) -> (r: Option<Stat64>)
        requires
            old(fs).wf(),
            inr <= u32::MAX,
            forall|n: int| 0 <= n < 64 ==> (#[trigger] old(fs).inodes@[n]).i_count < u16::MAX,
        ensures
            final(fs).wf(),
            *final(fs) == (Fs { cache: final(fs).cache, inodes: final(fs).inodes, ..*old(fs) }),
            exists|ip: usize|
                {
                    &&& #[trigger] iget_did(
                        old(fs).blocks(),
                        old(fs).inodes@,
                        final(fs).blocks(),
                        final(fs).inodes@,
                        old(fs).supers@,
                        0,
                        inr as u32,
                        true,
                        ip,
                    )
                    &&& match r {
                        None => ip == NIL,
                        Some(s) => ip != NIL && is_brief(
                            s,
                            inr as int,
                            final(fs).inodes@[ip as int],
                        ),
                    }
                },
    {
        let ip: usize = iget(fs, 0, inr as u32);
        if ip == NIL {
            return None;
        }
        let i: Inode = fs.inodes[ip];
        let mut s: Stat64 = Stat64::zeroed();
        let ghost z = s;
        s.st_ino = inr as u64;
        s.st_nlink = i.i_nlink as u64;
        s.st_mode = i.i_mode as u32;
        s.st_uid = i.i_uid as u32;
        s.st_gid = i.i_gid as u32;
        s.st_size = i.i_size as i64;
        s.st_blksize = 1024;
        s.st_blocks = (s.st_size + 511) / 512;
        assert(is_zeroed(z));
        Some(s)
    }
}

/// Tells of inode `n`.
pub fn cp_new_stat(fs: &Fs, n: usize, out: &mut Stat64)
    requires
        fs.wf(),
        n < 64,
    ensures
        is_stat(*final(out), fs.inodes@[n as int]),
{
    let i: Inode = fs.inodes[n];
    let mut s: Stat64 = Stat64::zeroed();
    let ghost z = s;
    s.st_dev = i.i_dev as u64;
    s.st_ino = i.i_ino as u64;
    s.st_mode = i.i_mode as u32;
    s.st_nlink = i.i_nlink as u64;
    s.st_uid = i.i_uid as u32;
    s.st_gid = i.i_gid as u32;
    s.st_rdev = i.i_rdev as u64;
    s.st_size = i.i_size as i64;
    s.st_blksize = if i.i_blksize == 0 {
        1024
    } else {
        i.i_blksize as i64
    };
    s.st_blocks = ((i.i_size as i64) + 511) / 512;
    s.st_atime = i.i_atime as i64;
    s.st_mtime = i.i_mtime as i64;
    s.st_ctime = i.i_ctime as i64;
    *out = s;
    assert(is_zeroed(z));
}

/// What telling of a path does, with the answer `r`.
pub open spec fn stat_did(
    v0: &Vfs,
    v: &Vfs,
    path: Seq<u8>,
    follow: bool,
    out0: Stat64,
    out: Stat64,
    r: i64,
) -> bool {
    exists|v1: Vfs, nr: Result<usize, i32>|
        {
            &&& #[trigger] resolved(v0, &v1, path, follow, nr)
            &&& match nr {
                Err(e) => r == -e && out == out0 && *v == v1,
                Ok(n) => {
                    &&& r == 0
                    &&& is_stat(out, v1.fs.inodes@[n as int])
                    &&& put_back(&v1, v, n)
                },
            }
        }
}

fn end_stat(v: &mut Vfs, nr: Result<usize, i32>, out: &mut Stat64) -> (r: i64)
    requires
        old(v).wf(),
        nr is Ok ==> nr->Ok_0 < 64,
    ensures
        final(v).wf(),
        match nr {
            Err(e) => r == -e && *final(out) == *old(out) && *final(v) == *old(v),
            Ok(n) => {
                &&& r == 0
                &&& is_stat(*final(out), old(v).fs.inodes@[n as int])
                &&& put_back(old(v), final(v), n)
            },
        },
{
    match nr {
        Err(e) => -(e as i64),
        Ok(n) => {
            cp_new_stat(&v.fs, n, out);
            iput(&mut v.fs, n);
            0
        },
    }
}

/// Tells of a path; a symbolic link at its end is followed.
pub fn sys_stat(v: &mut Vfs, path: &[u8], out: &mut Stat64) -> (r: i64)
    requires
        ready(old(v)),
    ensures
        final(v).wf(),
        stat_did(old(v), final(v), path@, true, *old(out), *final(out), r),
{
    proof {
        crate::fs::refs::lemma_book_less(v.fs.inodes@, NIL, NIL, 17, 15);
    }
    let nr = namei(v, path);
    let ghost v1 = *v;
    assert(resolved(old(v), &v1, path@, true, nr));
    end_stat(v, nr, out)
}

/// Tells of a path; a symbolic link at its end is told of itself.
pub fn sys_lstat(v: &mut Vfs, path: &[u8], out: &mut Stat64) -> (r: i64)
    requires
        ready(old(v)),
    ensures
        final(v).wf(),
        stat_did(old(v), final(v), path@, false, *old(out), *final(out), r),
{
    proof {
        crate::fs::refs::lemma_book_less(v.fs.inodes@, NIL, NIL, 17, 15);
    }
    let nr = lnamei(v, path);
    let ghost v1 = *v;
    assert(resolved(old(v), &v1, path@, false, nr));
    end_stat(v, nr, out)
}

/// The mode of an end of a pipe: a pipe that its owner reads and writes.
pub const PIPE_MODE: u32 = 0o010600;
/// The mode of a socket that its owner reads and writes.
pub const SOCKET_MODE: u32 = 0o140600;

/// Tells of a descriptor, which may be that of a pipe or of a socket.
pub fn sys_fstat(v: &Vfs, pipes: &PipeTable, is_socket: bool, fd: usize, out: &mut Stat64) -> (r: i64)
    requires
        v.wf(),
        pipes.wf(),
    ensures
        ({
            let n = fd_node(v, fd as int);
            if pipes.pipe_of(v.current as int, fd as int) is Some {
                r == 0 && is_made_up(*final(out), PIPE_MODE)
            } else if is_socket {
                r == 0 && is_made_up(*final(out), SOCKET_MODE)
            } else if n == NIL {
                r == -EBADF && *final(out) == *old(out)
            } else {
                r == 0 && is_stat(*final(out), v.fs.inodes@[n as int])
            }
        }),
{
    let is_pipe: bool = pipes.fd_is_pipe(v.current, fd);
    if is_pipe || is_socket {
        let mut s: Stat64 = Stat64::zeroed();
        let ghost z = s;
        assert(is_zeroed(z));
        s.st_mode = if is_pipe {
            PIPE_MODE
        } else {
            SOCKET_MODE
        };
        s.st_nlink = 1;
        *out = s;
        return 0;
    }
    let f: usize = fd_to_filp(v, fd);
    if f == NIL {
        return -(EBADF as i64);
    }
    let file: File = v.files[f];
    assert(v.files@[f as int].links_ok());
    if file.f_inode == NIL {
        return -(EBADF as i64);
    }
    cp_new_stat(&v.fs, file.f_inode, out);
    0
}

} // verus!
