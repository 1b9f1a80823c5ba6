//! Reading and writing open files.

use crate::errno::{EBADF, EINVAL, EIO, EISDIR, ENOTDIR, ESPIPE};
use crate::fs::buffer::failed;
use crate::fs::devices::{self, CharCall, CharDev};
use crate::fs::ext2::inode::mode::type_bits;
use crate::fs::file_table::File;
use crate::fs::inode::{flushed, write_inode, FsType, Inode, NIL};
use crate::fs::minix::dir::{dirent_filled, fill_dirent, sizes_ok};
use crate::fs::open::{fd_file, fd_to_filp, slot_set};
use crate::fs::proc::{self, ProcTask};
use crate::fs::sync::{fsync_dev, is_synced};
use crate::fs::{
    ext4, major, minix, mode, oflags, Dirent, Fs, Vfs, NR_TASKS, SEEK_CUR, SEEK_END, SEEK_SET,
};
use vstd::prelude::*;

verus! {

/// How far a read or a write got.
#[derive(Debug, Clone, Copy, PartialEq, Eq, Structural)]
pub enum Io {
    /// It is done, with that answer.
    Done(i64),
    /// The driver of a character device has to do it at that position; `char_done`
    /// takes its answer.
    Char(CharCall, u64),
}

/// The inode of a descriptor of the running task.
pub open spec fn fd_node(v: &Vfs, fd: int) -> usize {
    let f = fd_file(v, fd);
    if f == NIL {
        NIL
    } else {
        v.files@[f as int].f_inode
    }
}

fn open_node(v: &Vfs, fd: usize) -> (r: Option<(usize, usize)>)
    requires
        v.wf(),
    ensures
        match r {
            None => fd_node(v, fd as int) == NIL,
            Some((f, n)) => {
                &&& f == fd_file(v, fd as int)
                &&& f < 32
                &&& n == fd_node(v, fd as int)
                &&& n < 64
            },
        },
{
    let f: usize = fd_to_filp(v, fd);
    if f == NIL {
        return None;
    }
    let n: usize = v.files[f].f_inode;
    assert(v.files@[f as int].links_ok());
    if n == NIL {
        return None;
    }
    Some((f, n))
}

/// The state `v` is that of `v0` after slot `f` moved on from `pos`, if `r` bytes
/// were moved.
pub open spec fn advanced(v0: &Vfs, v: &Vfs, f: usize, pos: u64, r: i64) -> bool {
    if r > 0 {
        slot_set(
            v0,
            v,
            f as int,
            File { f_pos: pos.wrapping_add(r as u64), ..v0.files@[f as int] },
        )
    } else {
        *v == *v0
    }
}

fn advance(v: &mut Vfs, f: usize, pos: u64, r: i64)
    requires
        old(v).wf(),
        f < 32,
    ensures
        final(v).wf(),
        advanced(old(v), final(v), f, pos, r),
{
    if r > 0 {
        let mut fp: File = v.files[f];
        assert(v.files@[f as int].links_ok());
        fp.f_pos = pos.wrapping_add(r as u64);
        v.files.set(f, fp);
    }
}

/// The driver that a character device asks for, or its error.
pub open spec fn char_io(c: CharCall, pos: u64) -> Io {
    match c {
        CharCall::Failed(e) => Io::Done((-e) as i64),
        _ => Io::Char(c, pos),
    }
}

/// What reading inode `n` at `pos` into `b0` does, with the answer `r`.
pub open spec fn node_read(
    v0: &Vfs,
    v: &Vfs,
    n: usize,
    pos: u64,
    b0: Seq<u8>,
    b: Seq<u8>,
    tasks: Seq<ProcTask>,
    free_pages: u32,
    r: i64,
) -> bool {
    let i = v0.fs.inodes@[n as int];
    let is_dir = type_bits(i.i_mode) == mode::S_IFDIR;
    &&& *v == (Vfs { fs: v.fs, ..*v0 })
    &&& match i.i_op {
        FsType::Blk => devices::block_read_did(
            &v0.fs,
            &v.fs,
            &v0.devices,
            i.i_rdev,
            pos,
            b0,
            b,
            r,
        ),
        FsType::Minix => if is_dir {
            r == -EISDIR && b == b0 && v.fs == v0.fs
        } else {
            minix::file::read_did(&v0.fs, &v.fs, n, pos, b0, b, r)
        },
        FsType::Ext2 => if is_dir {
            r == -EISDIR && b == b0 && v.fs == v0.fs
        } else {
            ext4::ops::full::file_read_did(&v0.fs, &v.fs, n, pos, b0, b, r)
        },
        FsType::Proc => v.fs == v0.fs && proc::gives(
            i,
            pos as int,
            b0,
            b,
            tasks,
            free_pages,
            r as int,
        ),
        FsType::Tmpfs => v.fs == v0.fs && v0.tmpfs.gives(i, pos as int, b0, b, r as int),
        _ => r == -EINVAL && b == b0 && v.fs == v0.fs,
    }
}

/// What reading from a descriptor into `b0` does.
pub open spec fn read_did(
    v0: &Vfs,
    v: &Vfs,
    fd: int,
    b0: Seq<u8>,
    b: Seq<u8>,
    tasks: Seq<ProcTask>,
    free_pages: u32,
    r: Io,
) -> bool {
    let f = fd_file(v0, fd);
    let file = v0.files@[f as int];
    let n = fd_node(v0, fd);
    let i = v0.fs.inodes@[n as int];
    if n == NIL || file.f_mode & 1 == 0 {
        r == Io::Done((-EBADF) as i64) && b == b0 && *v == *v0
    } else if b0.len() == 0 {
        r == Io::Done(0) && b == b0 && *v == *v0
    } else if i.i_op == FsType::Chr {
        r == char_io(v0.devices.char_call(i.i_rdev), file.f_pos) && b == b0 && *v == *v0
    } else {
        exists|v1: Vfs, c: i64|
            {
                &&& #[trigger] node_read(v0, &v1, n, file.f_pos, b0, b, tasks, free_pages, c)
                &&& advanced(&v1, v, f, file.f_pos, c)
                &&& r == Io::Done(c)
            }
    }
}

fn read_node(
    v: &mut Vfs,
    n: usize,
    pos: u64,
    buf: &mut Vec<u8>,
    tasks: &Vec<ProcTask>,
    free_pages: u32,
) -> (r: i64)
    requires
        old(v).wf(),
        n < 64,
        old(v).fs.inodes@[n as int].i_op != FsType::Chr,
        tasks@.len() == NR_TASKS,
    ensures
        final(v).wf(),
        node_read(old(v), final(v), n, pos, old(buf)@, final(buf)@, tasks@, free_pages, r),
{
    let i: Inode = v.fs.inodes[n];
    match i.i_op {
        FsType::Blk => devices::block_read(&mut v.fs, &v.devices, i.i_rdev, pos, buf),
        FsType::Minix => {
            if mode::is_dir(i.i_mode) {
                return -(EISDIR as i64);
            }
            minix::file::read(&mut v.fs, n, pos, buf)
        },
        FsType::Ext2 => {
            if mode::is_dir(i.i_mode) {
                return -(EISDIR as i64);
            }
            ext4::ops::full::ext4_file_read(&mut v.fs, n, pos, buf)
        },
        FsType::Proc => proc::read(&v.fs, n, pos, buf, tasks, free_pages),
        FsType::Tmpfs => v.tmpfs.read(&v.fs, n, pos, buf),
        _ => -(EINVAL as i64),
    }
}

/// Reads from a descriptor, at the position of its open file, which moves on. The
/// tasks and the number of free pages are what the system tells of itself.
pub fn read(v: &mut Vfs, fd: usize, buf: &mut Vec<u8>, tasks: &Vec<ProcTask>, free_pages: u32) -> (r: Io)
    requires
        old(v).wf(),
        tasks@.len() == NR_TASKS,
    ensures
        final(v).wf(),
        read_did(old(v), final(v), fd as int, old(buf)@, final(buf)@, tasks@, free_pages, r),
{
    let (f, n): (usize, usize) = match open_node(v, fd) {
        None => {
            return Io::Done(-(EBADF as i64));
        },
        Some(p) => p,
    };
    let file: File = v.files[f];
    if file.f_mode & 1 == 0 {
        return Io::Done(-(EBADF as i64));
    }
    if buf.len() == 0 {
        return Io::Done(0);
    }
    let i: Inode = v.fs.inodes[n];
    if i.i_op == FsType::Chr {
        return match v.devices.chrdev_read(i.i_rdev) {
            CharCall::Failed(e) => Io::Done(-(e as i64)),
            c => Io::Char(c, file.f_pos),
        };
    }
    let r: i64 = read_node(v, n, file.f_pos, buf, tasks, free_pages);
    let ghost v1 = *v;
    assert(node_read(
        old(v),
        &v1,
        n,
        file.f_pos,
        old(buf)@,
        buf@,
        tasks@,
        free_pages,
        r,
    ));
    advance(v, f, file.f_pos, r);
    Io::Done(r)
}

/// What writing inode `n` at `pos` does, with the answer `r`.
pub open spec fn node_written(v0: &Vfs, v: &Vfs, n: usize, pos: u64, data: Seq<u8>, r: i64) -> bool {
    let i = v0.fs.inodes@[n as int];
    let is_dir = type_bits(i.i_mode) == mode::S_IFDIR;
    match i.i_op {
        FsType::Blk => *v == (Vfs { fs: v.fs, ..*v0 }) && devices::block_write_did(
            &v0.fs,
            &v.fs,
            &v0.devices,
            i.i_rdev,
            pos,
            data,
            r,
        ),
        FsType::Minix => if is_dir {
            r == -EISDIR && *v == *v0
        } else {
            *v == (Vfs { fs: v.fs, ..*v0 }) && minix::file::write_did(
                &v0.fs,
                &v.fs,
                n,
                pos,
                data,
                r,
            )
        },
        FsType::Ext2 => if is_dir {
            r == -EISDIR && *v == *v0
        } else {
            *v == (Vfs { fs: v.fs, ..*v0 }) && ext4::ops::full::file_write_did(
                &v0.fs,
                &v.fs,
                n,
                pos,
                data,
                r,
            )
        },
        FsType::Tmpfs => {
            &&& *v == (Vfs { fs: v.fs, tmpfs: v.tmpfs, ..*v0 })
            &&& v.fs == (Fs { inodes: v.fs.inodes, ..v0.fs })
            &&& v.fs.inodes@ == v0.fs.inodes@.update(n as int, v.fs.inodes@[n as int])
            &&& v.tmpfs == (crate::fs::tmpfs::Tmpfs {
                pages: v.tmpfs.pages,
                used: v.tmpfs.used,
                ..v0.tmpfs
            })
            &&& crate::fs::tmpfs::tmp_written(
                i,
                v.fs.inodes@[n as int],
                &v0.tmpfs,
                &v.tmpfs,
                pos as int,
                data,
                r as int,
            )
        },
        _ => r == -EINVAL && *v == *v0,
    }
}

/// Where a write starts: at the end of a file that is appended to, whoever wrote it
/// longer, and else where the last one ended.
pub open spec fn write_pos(file: File, i: Inode) -> u64 {
    if file.f_flags & oflags::O_APPEND != 0 {
        i.i_size as u64
    } else {
        file.f_pos
    }
}

/// The end of a write of `len` bytes to inode `i` at `pos` can be counted, and the
/// pages of a file in memory are there.
pub open spec fn can_write(v: &Vfs, i: Inode, pos: u64, len: int) -> bool {
    &&& len <= i64::MAX
    &&& i.i_op == FsType::Ext2 ==> pos + len + 1023 <= i64::MAX
    &&& i.i_op == FsType::Tmpfs ==> v.tmpfs.pages_ok(i) && pos + len + 4095 <= usize::MAX
}

/// A write of `len` bytes to a descriptor can be counted.
pub open spec fn fd_can_write(v: &Vfs, fd: int, len: int) -> bool {
    let n = fd_node(v, fd);
    let i = v.fs.inodes@[n as int];
    let file = v.files@[fd_file(v, fd) as int];
    n != NIL ==> can_write(v, i, write_pos(file, i), len)
}

/// Whether a write of `len` bytes to an inode at `pos` can be counted.
pub(crate) fn node_fits(v: &Vfs, i: &Inode, pos: u64, len: usize) -> (r: bool)
    ensures
        r == can_write(v, *i, pos, len as int),
{
    let end: u128 = pos as u128 + len as u128;
    let max: u128 = i64::MAX as u128;
    let most: u128 = usize::MAX as u128;
    let pages: bool = i.data[1] == 0 || i.data[0] as u32 + i.data[1] as u32 <= 16;
    len as u128 <= max && (i.i_op != FsType::Ext2 || end + 1023 <= max) && (i.i_op != FsType::Tmpfs
        || (pages && end + 4095 <= most))
}

/// Whether a write of `len` bytes to a descriptor can be counted.
pub fn write_fits(v: &Vfs, fd: usize, len: usize) -> (r: bool)
    requires
        v.wf(),
    ensures
        r == fd_can_write(v, fd as int, len as int),
{
    match open_node(v, fd) {
        None => true,
        Some((f, n)) => {
            let file: File = v.files[f];
            let i: Inode = v.fs.inodes[n];
            let pos: u64 = if file.f_flags & oflags::O_APPEND != 0 {
                i.i_size as u64
            } else {
                file.f_pos
            };
            node_fits(v, &i, pos, len)
        },
    }
}

/// What writing to a descriptor does.
pub open spec fn write_did(v0: &Vfs, v: &Vfs, fd: int, data: Seq<u8>, r: Io) -> bool {
    let f = fd_file(v0, fd);
    let file = v0.files@[f as int];
    let n = fd_node(v0, fd);
    let i = v0.fs.inodes@[n as int];
    if n == NIL || file.f_mode & 2 == 0 {
        r == Io::Done((-EBADF) as i64) && *v == *v0
    } else if data.len() == 0 {
        r == Io::Done(0) && *v == *v0
    } else if i.i_op == FsType::Chr {
        r == char_io(v0.devices.char_call(i.i_rdev), write_pos(file, i)) && *v == *v0
    } else {
        exists|v1: Vfs, c: i64|
            {
                &&& #[trigger] node_written(v0, &v1, n, write_pos(file, i), data, c)
                &&& advanced(&v1, v, f, write_pos(file, i), c)
                &&& r == Io::Done(c)
            }
    }
}

fn write_node(v: &mut Vfs, n: usize, pos: u64, buf: &[u8]) -> (r: i64)
    requires
        old(v).wf(),
        n < 64,
        old(v).fs.inodes@[n as int].i_op != FsType::Chr,
        can_write(old(v), old(v).fs.inodes@[n as int], pos, buf@.len() as int),
    ensures
        final(v).wf(),
        final(v).files == old(v).files,
        node_written(old(v), final(v), n, pos, buf@, r),
{
    let i: Inode = v.fs.inodes[n];
    match i.i_op {
        FsType::Blk => devices::block_write(&mut v.fs, &v.devices, i.i_rdev, pos, buf),
        FsType::Minix => {
            if mode::is_dir(i.i_mode) {
                return -(EISDIR as i64);
            }
            minix::file::write(&mut v.fs, n, pos, buf)
        },
        FsType::Ext2 => {
            if mode::is_dir(i.i_mode) {
                return -(EISDIR as i64);
            }
            ext4::ops::full::ext4_file_write(&mut v.fs, n, pos, buf)
        },
        FsType::Tmpfs => v.tmpfs.write(&mut v.fs, n, pos, buf),
        _ => -(EINVAL as i64),
    }
}

/// Writes to a descriptor, at the position of its open file or at the end, and the
/// position moves on.
pub fn write(v: &mut Vfs, fd: usize, buf: &[u8]) -> (r: Io)
    requires
        old(v).wf(),
        fd_can_write(old(v), fd as int, buf@.len() as int),
    ensures
        final(v).wf(),
        write_did(old(v), final(v), fd as int, buf@, r),
{
    let (f, n): (usize, usize) = match open_node(v, fd) {
        None => {
            return Io::Done(-(EBADF as i64));
        },
        Some(p) => p,
    };
    let file: File = v.files[f];
    if file.f_mode & 2 == 0 {
        return Io::Done(-(EBADF as i64));
    }
    if buf.len() == 0 {
        return Io::Done(0);
    }
    let i: Inode = v.fs.inodes[n];
    let pos: u64 = if file.f_flags & oflags::O_APPEND != 0 {
        i.i_size as u64
    } else {
        file.f_pos
    };
    if i.i_op == FsType::Chr {
        return match v.devices.chrdev_write(i.i_rdev) {
            CharCall::Failed(e) => Io::Done(-(e as i64)),
            c => Io::Char(c, pos),
        };
    }
    let r: i64 = write_node(v, n, pos, buf);
    let ghost v1 = *v;
    assert(node_written(old(v), &v1, n, write_pos(file, i), buf@, r));
    advance(v, f, pos, r);
    Io::Done(r)
}

/// Takes the answer of the driver of a character device to a read or a write at
/// `pos`: the position moves on from there.
pub fn char_done(v: &mut Vfs, fd: usize, pos: u64, r: i64)
    requires
        old(v).wf(),
    ensures
        final(v).wf(),
        ({
            let f = fd_file(old(v), fd as int);
            if f == NIL {
                *final(v) == *old(v)
            } else {
                advanced(old(v), final(v), f, pos, r)
            }
        }),
{
    let f: usize = fd_to_filp(v, fd);
    if f != NIL {
        advance(v, f, pos, r);
    }
}

/// The end of an inode: that of a block device is where its blocks end.
pub open spec fn end_of(v: &Vfs, i: Inode) -> int {
    if i.i_op == FsType::Blk {
        match v.devices.size_of(i.i_rdev as int / 256) {
            Some(b) => b * 1024,
            None => 0,
        }
    } else {
        i.i_size as int
    }
}

/// The position that is asked for, or nothing where it is asked for in an unknown
/// way.
pub open spec fn seek_to(v: &Vfs, file: File, i: Inode, offset: i64, whence: u32) -> Option<int> {
    if whence == SEEK_SET {
        Some(offset as int)
    } else if whence == SEEK_CUR {
        Some((file.f_pos as i64) + offset)
    } else if whence == SEEK_END {
        Some(end_of(v, i) + offset)
    } else {
        None
    }
}

/// An inode whose bytes come as a stream.
pub open spec fn is_stream(v: &Vfs, i: Inode) -> bool {
    i.i_op == FsType::Chr && v.devices.chr_of(i.i_rdev as int / 256) == Some(CharDev::Tty)
}

/// What moving the position of a descriptor does, with the answer `r`.
pub open spec fn lseek_did(v0: &Vfs, v: &Vfs, fd: int, offset: i64, whence: u32, r: i64) -> bool {
    let f = fd_file(v0, fd);
    let file = v0.files@[f as int];
    let n = fd_node(v0, fd);
    let i = v0.fs.inodes@[n as int];
    if n == NIL {
        r == -EBADF && *v == *v0
    } else if is_stream(v0, i) {
        r == -ESPIPE && *v == *v0
    } else {
        match seek_to(v0, file, i, offset, whence) {
            None => r == -EINVAL && *v == *v0,
            Some(p) => if p < 0 {
                r == -EINVAL && *v == *v0
            } else {
                r == p && slot_set(
                    v0,
                    v,
                    f as int,
                    File { f_pos: p as u64, f_reada: 0, ..file },
                )
            },
        }
    }
}

/// Moves the position of a descriptor.
pub fn lseek(v: &mut Vfs, fd: usize, offset: i64, whence: u32) -> (r: i64)
    requires
        old(v).wf(),
        fd_node(old(v), fd as int) != NIL ==> {
            let i = old(v).fs.inodes@[fd_node(old(v), fd as int) as int];
            let file = old(v).files@[fd_file(old(v), fd as int) as int];
            match seek_to(old(v), file, i, offset, whence) {
                Some(p) => i64::MIN <= p <= i64::MAX,
                None => true,
            }
        },
    ensures
        final(v).wf(),
        lseek_did(old(v), final(v), fd as int, offset, whence, r),
{
    let (f, n): (usize, usize) = match open_node(v, fd) {
        None => {
            return -(EBADF as i64);
        },
        Some(p) => p,
    };
    let i: Inode = v.fs.inodes[n];
    if i.i_op == FsType::Chr {
        match v.devices.get_chrfops(major(i.i_rdev)) {
            Some(CharDev::Tty) => {
                return -(ESPIPE as i64);
            },
            _ => {},
        }
    }
    let mut fp: File = v.files[f];
    assert(v.files@[f as int].links_ok());
    let new: i64 = if whence == SEEK_SET {
        offset
    } else if whence == SEEK_CUR {
        fp.f_pos as i64 + offset
    } else if whence == SEEK_END {
        let end: i64 = if i.i_op == FsType::Blk {
            match v.devices.blk_size(major(i.i_rdev)) {
                Some(b) => b as i64 * 1024,
                None => 0,
            }
        } else {
            i.i_size as i64
        };
        end + offset
    } else {
        return -(EINVAL as i64);
    };
    if new < 0 {
        return -(EINVAL as i64);
    }
    fp.f_pos = new as u64;
    fp.f_reada = 0;
    v.files.set(f, fp);
    new
}

/// What reading one entry of a directory does, with the answer `r`: one, or zero at
/// the end.
pub open spec fn readdir_did(v0: &Vfs, v: &Vfs, fd: int, out0: &Dirent, out: &Dirent, r: i64) -> bool {
    let f = fd_file(v0, fd);
    let file = v0.files@[f as int];
    let n = fd_node(v0, fd);
    let i = v0.fs.inodes@[n as int];
    if n == NIL {
        r == -EBADF && *out == *out0 && *v == *v0
    } else if i.i_op != FsType::Minix || type_bits(i.i_mode) != mode::S_IFDIR {
        r == -ENOTDIR && *out == *out0 && *v == *v0
    } else {
        exists|v1: Vfs, next: i64|
            {
                &&& v1 == (Vfs { fs: v1.fs, ..*v0 })
                &&& #[trigger] dirent_filled(&v0.fs, &v1.fs, n, file.f_pos, out0, out, next)
                &&& if next > 0 {
                    r == 1 && slot_set(&v1, v, f as int, File { f_pos: next as u64, ..file })
                } else {
                    r == next && *v == v1
                }
            }
    }
}

/// Reads the next entry of a directory.
pub fn readdir(v: &mut Vfs, fd: usize, out: &mut Dirent) -> (r: i64)
    requires
        old(v).wf(),
        fd_node(old(v), fd as int) != NIL ==> {
            let i = old(v).fs.inodes@[fd_node(old(v), fd as int) as int];
            i.i_op == FsType::Minix && i.i_sb != NIL ==> sizes_ok(
                old(v).fs.supers@[i.i_sb as int],
            )
        },
    ensures
        final(v).wf(),
        readdir_did(old(v), final(v), fd as int, old(out), final(out), r),
{
    let (f, n): (usize, usize) = match open_node(v, fd) {
        None => {
            return -(EBADF as i64);
        },
        Some(p) => p,
    };
    let i: Inode = v.fs.inodes[n];
    if i.i_op != FsType::Minix || !mode::is_dir(i.i_mode) {
        return -(ENOTDIR as i64);
    }
    let mut fp: File = v.files[f];
    assert(v.files@[f as int].links_ok());
    let next: i64 = fill_dirent(&mut v.fs, n, fp.f_pos, out);
    let ghost v1 = *v;
    assert(dirent_filled(&old(v).fs, &v1.fs, n, fp.f_pos, old(out), out, next));
    if next > 0 {
        fp.f_pos = next as u64;
        v.files.set(f, fp);
        return 1;
    }
    next
}

/// The state `fs` is that of `fs0` after inode `n` was written out, if it was
/// dirty.
pub open spec fn node_flushed(fs0: &Fs, fs: &Fs, n: usize) -> bool {
    let i = fs0.inodes@[n as int];
    &&& *fs == (Fs { cache: fs.cache, inodes: fs.inodes, ..*fs0 })
    &&& fs.blocks() == flushed(fs0.blocks(), fs0.supers@, i)
    &&& fs.inodes@ == fs0.inodes@.update(n as int, Inode { i_dirt: false, ..i })
}

/// What writing a file out does, with the answer `r`: an error where a block of its
/// device could not be written.
pub open spec fn fsync_did(v0: &Vfs, v: &Vfs, fd: int, r: i64) -> bool {
    let n = fd_node(v0, fd);
    let i = v0.fs.inodes@[n as int];
    if n == NIL {
        r == -EBADF && *v == *v0
    } else if i.i_op != FsType::Blk && i.i_op != FsType::Minix {
        r == -EINVAL && *v == *v0
    } else {
        let dev = if i.i_op == FsType::Blk {
            i.i_rdev
        } else {
            i.i_dev
        };
        &&& *v == (Vfs { fs: v.fs, ..*v0 })
        &&& exists|fs1: Fs|
            {
                &&& #[trigger] node_flushed(&v0.fs, &fs1, n)
                &&& is_synced(&fs1, &v.fs, dev)
            }
        &&& r == if exists|k: int| 0 <= k < 64 && failed(#[trigger] v.fs.cache.bufs()[k], dev) {
            -EIO as int
        } else {
            0
        }
    }
}

/// Writes the file of a descriptor out.
pub fn fsync(v: &mut Vfs, fd: usize) -> (r: i64)
    requires
        old(v).wf(),
    ensures
        final(v).wf(),
        fsync_did(old(v), final(v), fd as int, r),
{
    let (f, n): (usize, usize) = match open_node(v, fd) {
        None => {
            return -(EBADF as i64);
        },
        Some(p) => p,
    };
    let i: Inode = v.fs.inodes[n];
    let dev: u16 = match i.i_op {
        FsType::Blk => i.i_rdev,
        FsType::Minix => i.i_dev,
        _ => {
            return -(EINVAL as i64);
        },
    };
    write_inode(&mut v.fs, n);
    let ghost fs1 = v.fs;
    assert(node_flushed(&old(v).fs, &fs1, n));
    if fsync_dev(&mut v.fs, dev) {
        -(EIO as i64)
    } else {
        0
    }
}


/// What is written to a file of the Minix file system is what is read back from
/// there: after a write of `r` bytes, a read of as many from where it started
/// gives them.
pub proof fn lemma_write_read(
    v0: &Vfs,
    v1: &Vfs,
    v2: &Vfs,
    v3: &Vfs,
    fd: int,
    data: Seq<u8>,
    r: i64,
    pos: i64,
    b0: Seq<u8>,
    b: Seq<u8>,
    tasks: Seq<ProcTask>,
    free_pages: u32,
    got: Io,
)
    requires
        v0.wf(),
        fd_node(v0, fd) != NIL,
        ({
            let i = v0.fs.inodes@[fd_node(v0, fd) as int];
            let file = v0.files@[fd_file(v0, fd) as int];
            &&& i.i_op == FsType::Minix
            &&& type_bits(i.i_mode) != mode::S_IFDIR
            &&& minix::tree::tree_ok(
                v0.fs.blocks(),
                v0.fs.supers@[i.i_sb as int],
                i.i_dev,
                i.data@,
            )
            &&& file.f_mode & 1 != 0
            &&& pos == write_pos(file, i)
        }),
        write_did(v0, v1, fd, data, Io::Done(r)),
        r > 0,
        lseek_did(v1, v2, fd, pos, SEEK_SET, pos),
        b0.len() == r,
        read_did(v2, v3, fd, b0, b, tasks, free_pages, got),
    ensures
        got == Io::Done(r),
        b == data.subrange(0, r as int),
{
    let f = fd_file(v0, fd);
    let n = fd_node(v0, fd);
    let file = v0.files@[f as int];
    let i = v0.fs.inodes@[n as int];
    let at = write_pos(file, i);
    assert(v0.fds@[v0.current as int]@[fd] == f);
    assert(v0.files@[f as int].links_ok());
    assert(v0.fs.inodes@[n as int].links_ok());
    let w = choose|w: Vfs|
        {
            &&& #[trigger] node_written(v0, &w, n, at, data, r)
            &&& advanced(&w, v1, f, at, r)
        };
    assert(node_written(v0, &w, n, at, data, r) && advanced(&w, v1, f, at, r)) by {
        let (w1, c) = choose|w1: Vfs, c: i64|
            {
                &&& #[trigger] node_written(v0, &w1, n, at, data, c)
                &&& advanced(&w1, v1, f, at, c)
                &&& Io::Done(r) == Io::Done(c)
            };
        assert(node_written(v0, &w1, n, at, data, r) && advanced(&w1, v1, f, at, r));
    }
    let sb = v0.fs.supers@[i.i_sb as int];
    let want = minix::file::write_want(sb.s_max_size as int, at as int, data.len() as int);
    let part = data.subrange(0, want);
    minix::tree::lemma_write_read(v0.fs.blocks(), sb, i.i_dev, i.data@, at as int, part);
    assert(fd_file(v2, fd) == f && fd_node(v2, fd) == n);
    let (x, c) = choose|x: Vfs, c: i64|
        {
            &&& #[trigger] node_read(v2, &x, n, at, b0, b, tasks, free_pages, c)
            &&& advanced(&x, v3, f, at, c)
            &&& got == Io::Done(c)
        };
    assert(node_read(v2, &x, n, at, b0, b, tasks, free_pages, c));
    assert(b =~= data.subrange(0, r as int));
}

/// The position that was asked for is the one that is told.
pub proof fn lemma_seek_tell(v0: &Vfs, v1: &Vfs, v2: &Vfs, fd: int, pos: i64, r: i64)
    requires
        v0.wf(),
        lseek_did(v0, v1, fd, pos, SEEK_SET, pos),
        pos >= 0,
        lseek_did(v1, v2, fd, 0, SEEK_CUR, r),
    ensures
        r == pos,
{
    let f = fd_file(v0, fd);
    let n = fd_node(v0, fd);
    assert(f != NIL ==> v0.fds@[v0.current as int]@[fd] == f);
}

} // verus!
