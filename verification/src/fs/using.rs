//! What holds of open files, of files in memory and of message queues.

use crate::fs::aio::{
    collected, ended, iocb_run, ran_at, transferred, AioRun, AioTable, IoEvent, Iocb, Submitted,
};
use crate::errno::{EEXIST, EINVAL};
use crate::fs::ext2::inode::mode::type_bits;
use crate::fs::inode::{Inode, NIL};
use crate::fs::minix::dir::{entry_ino, next_entry, next_off};
use crate::fs::minix::namei::aligned;
use crate::fs::minix::names::lemma_next_aligned;
use crate::fs::mqueue::{
    free_from, is_named, is_next, messages, named_from as queue_from, opened as queue_opened,
    opened_queue, queue_name, received_as, sent, ticks_left, without_message, Message, MqAttr,
    Queue, Received, O_CREAT, O_EXCL,
};
use crate::fs::namei::resolved;
use crate::fs::open::{fd_file, open_ended, sys_chdir_did, with_mode};
use crate::fs::read_write::{fd_node, lseek_did, node_read, node_written, read_did, write_did, Io};
use crate::fs::proc::ProcTask;
use crate::fs::stat::{is_stat, Stat64};
use crate::fs::tmpfs::{child_from, create_did, lookup_of, named_from, parent_from, TmpEntry, Tmpfs};
use crate::fs::{mode, Blocks, Fs, Vfs};
use vstd::prelude::*;

verus! {

// ---- positions ----

/// Where a transfer to an open file starts: at the end of inode `i` where it is appended to.
pub open spec fn starts_at(file: crate::fs::file_table::File, i: Inode) -> u64 {
    if file.f_flags & 0o2000 != 0 {
        i.i_size as u64
    } else {
        file.f_pos
    }
}

/// A write to a file that is appended to starts at its end, any other where the last
/// transfer ended; the next one starts where it ends.
pub proof fn lemma_write_moves(v0: &Vfs, v: &Vfs, fd: int, data: Seq<u8>, c: i64)
    requires
        v0.wf(),
        v.wf(),
        write_did(v0, v, fd, data, Io::Done(c)),
        c > 0,
    ensures
        ({
            let f = fd_file(v0, fd) as int;
            let i = v0.fs.inodes@[fd_node(v0, fd) as int];
            let start = starts_at(v0.files@[f], i);
            &&& v0.files@[f].f_mode & 2 != 0
            &&& start + c <= u64::MAX ==> v.files@[f].f_pos == start + c
            &&& exists|v1: Vfs| #[trigger] node_written(v0, &v1, fd_node(v0, fd), start, data, c)
            &&& forall|k: int| 0 <= k < 32 && k != f ==> #[trigger] v.files@[k] == v0.files@[k]
        }),
{
    let f = fd_file(v0, fd);
    let i = v0.fs.inodes@[fd_node(v0, fd) as int];
    let start = crate::fs::read_write::write_pos(v0.files@[f as int], i);
    if i.i_op == crate::fs::inode::FsType::Chr {
        assert(false);
    }
    let (v1, d) = choose|v1: Vfs, d: i64|
        {
            &&& #[trigger] node_written(v0, &v1, fd_node(v0, fd), start, data, d)
            &&& crate::fs::read_write::advanced(&v1, v, f, start, d)
            &&& Io::Done(c) == Io::Done(d)
        };
    assert(d == c);
    assert(v1.files == v0.files);
    assert(v0.files@.len() == 32 && v.files@.len() == 32);
    assert(v.files@ == v0.files@.update(
        f as int,
        crate::fs::file_table::File { f_pos: start.wrapping_add(c as u64), ..v0.files@[f as int] },
    ));
    assert(f < 32);
    assert(node_written(v0, &v1, fd_node(v0, fd), start, data, c));
}

/// A read starts where the last transfer ended, and the next one starts where it ends; a
/// read that gives nothing moves nothing.
pub proof fn lemma_read_moves(
    v0: &Vfs,
    v: &Vfs,
    fd: int,
    b0: Seq<u8>,
    b: Seq<u8>,
    tasks: Seq<ProcTask>,
    free_pages: u32,
    c: i64,
)
    requires
        v0.wf(),
        v.wf(),
        read_did(v0, v, fd, b0, b, tasks, free_pages, Io::Done(c)),
    ensures
        ({
            let f = fd_file(v0, fd) as int;
            let n = fd_node(v0, fd);
            &&& c > 0 ==> v0.files@[f].f_mode & 1 != 0
            &&& c > 0 && v0.files@[f].f_pos + c <= u64::MAX ==> v.files@[f].f_pos == v0.files@[f].f_pos + c
            &&& c <= 0 ==> v.files@ == v0.files@
            &&& c > 0 ==> exists|v1: Vfs|
                #[trigger] node_read(v0, &v1, n, v0.files@[f].f_pos, b0, b, tasks, free_pages, c)
        }),
{
    let f = fd_file(v0, fd);
    let n = fd_node(v0, fd);
    let file = v0.files@[f as int];
    let i = v0.fs.inodes@[n as int];
    if n != NIL && file.f_mode & 1 != 0 && b0.len() > 0 && i.i_op != crate::fs::inode::FsType::Chr {
        let (v1, d) = choose|v1: Vfs, d: i64|
            {
                &&& #[trigger] node_read(v0, &v1, n, file.f_pos, b0, b, tasks, free_pages, d)
                &&& crate::fs::read_write::advanced(&v1, v, f, file.f_pos, d)
                &&& Io::Done(c) == Io::Done(d)
            };
        assert(d == c);
        assert(v1.files == v0.files);
    }
}

/// Where a position is moved to: so far from the start, from where it was, or from the end.
/// It is not moved before the start.
pub proof fn lemma_seek(v0: &Vfs, v: &Vfs, fd: int, offset: i64, whence: u32, r: i64)
    requires
        v0.wf(),
        v.wf(),
        lseek_did(v0, v, fd, offset, whence, r),
        fd_node(v0, fd) != NIL,
        v0.files@[fd_file(v0, fd) as int].f_pos <= i64::MAX,
        v0.files@[fd_file(v0, fd) as int].f_pos + offset <= i64::MAX,
    ensures
        ({
            let f = fd_file(v0, fd) as int;
            let i = v0.fs.inodes@[fd_node(v0, fd) as int];
            &&& r >= 0 ==> v.files@[f].f_pos == r
            &&& r >= 0 && whence == 0 ==> r == offset
            &&& r >= 0 && whence == 1 ==> r == v0.files@[f].f_pos + offset
            &&& r >= 0 && whence == 2 && i.i_op != crate::fs::inode::FsType::Blk ==> r == i.i_size + offset
            &&& r >= 0 ==> whence <= 2
            &&& r < 0 ==> *v == *v0
            &&& r >= 0 ==> v.fs == v0.fs
        }),
{
    let f = fd_file(v0, fd) as int;
    assert(v0.files@.len() == 32);
    if r >= 0 {
        assert(v.files@.len() == 32);
    }
}

/// Moving a position twice from where it is moves it by the sum.
pub proof fn lemma_seek_adds(
    v0: &Vfs,
    v1: &Vfs,
    v2: &Vfs,
    w: &Vfs,
    fd: int,
    a: i64,
    b: i64,
    ra: i64,
    rb: i64,
    rs: i64,
)
    requires
        v0.wf(),
        v1.wf(),
        v2.wf(),
        w.wf(),
        fd_node(v0, fd) != NIL,
        v0.files@[fd_file(v0, fd) as int].f_pos <= i64::MAX,
        v0.files@[fd_file(v0, fd) as int].f_pos + a <= i64::MAX,
        v0.files@[fd_file(v0, fd) as int].f_pos + a + b <= i64::MAX,
        i64::MIN <= a + b <= i64::MAX,
        lseek_did(v0, v1, fd, a, 1, ra),
        ra >= 0,
        lseek_did(v1, v2, fd, b, 1, rb),
        rb >= 0,
        lseek_did(v0, w, fd, (a + b) as i64, 1, rs),
    ensures
        rs == rb,
{
    lemma_seek(v0, v1, fd, a, 1, ra);
    assert(fd_file(v1, fd) == fd_file(v0, fd));
    assert(v0.files@.len() == 32);
    let f = fd_file(v0, fd) as int;
    assert(v1.files@[f].f_inode == v0.files@[f].f_inode);
    lemma_seek(v1, v2, fd, b, 1, rb);
}

proof fn lemma_mode_of(flags: u32)
    by (bit_vector)
    requires
        flags < 0xFFFF_FFFF,
    ensures
        flags & 3 == 0 ==> ((flags + 1) as u32) & 3 == 1,
        flags & 3 == 1 ==> ((flags + 1) as u32) & 3 == 2,
        flags & 3 == 2 ==> ((flags + 1) as u32) & 3 == 3,
{
}

proof fn lemma_low_bits()
    by (bit_vector)
    ensures
        1u16 & 1 == 1,
        1u16 & 2 == 0,
        2u16 & 1 == 0,
        2u16 & 2 == 2,
        3u16 & 1 == 1,
        3u16 & 2 == 2,
{
}

/// A file that was just opened can be read where it was not opened for writing only, and
/// written where it was not opened for reading only. Its position is its start, or its
/// end where it is appended to.
pub proof fn lemma_opened_file(v0: &Vfs, v: &Vfs, f: int, fd: int, flags: u32, n: usize, r: i64)
    requires
        open_ended(v0, v, f, fd, flags, Ok(n), r),
        v0.wf(),
        r >= 0,
        fd >= 0,
        0 <= f < 32,
        flags < 0xFFFF_FFFF,
        flags & 3 != 3,
    ensures
        r == fd,
        v.files@[f].f_inode == n,
        v.files@[f].f_mode & 1 != 0 <==> flags & 3 != 1,
        v.files@[f].f_mode & 2 != 0 <==> flags & 3 != 0,
        flags & 0o2000 == 0 ==> v.files@[f].f_pos == 0,
        flags & 0o2000 != 0 ==> v.files@[f].f_pos == v0.fs.inodes@[n as int].i_size,
        v.files@[f].f_count == 1,
        v.files@[f].f_flags == flags,
{
    lemma_mode_of(flags);
    lemma_low_bits();
    crate::fs::access::lemma_access(flags);
    assert(v0.files@.len() == 32);
}

// ---- the working directory, and modes ----

/// Once the working directory is changed it is the directory that the path leads to.
pub proof fn lemma_chdir(v0: &Vfs, v: &Vfs, path: Seq<u8>)
    requires
        sys_chdir_did(v0, v, path, 0),
        forall|v1: Vfs, e: i32| #[trigger] resolved(v0, &v1, path, true, Err(e)) ==> e != 0,
    ensures
        exists|v1: Vfs, n: usize|
            {
                &&& #[trigger] resolved(v0, &v1, path, true, Ok(n))
                &&& v.fs.pwd_inode == n
                &&& type_bits(v1.fs.inodes@[n as int].i_mode) == mode::S_IFDIR
                &&& v.fs.root_inode == v1.fs.root_inode
            },
{
    let (v1, nr) = choose|v1: Vfs, nr: Result<usize, i32>|
        {
            &&& #[trigger] resolved(v0, &v1, path, true, nr)
            &&& match nr {
                Err(e) => 0 == -e && *v == v1,
                Ok(n) => {
                    let i = v1.fs.inodes@[n as int];
                    let v2 = Vfs { fs: Fs { pwd_inode: n, ..v1.fs }, ..v1 };
                    let prev = v1.fs.pwd_inode;
                    if type_bits(i.i_mode) != mode::S_IFDIR {
                        0 == -crate::errno::ENOTDIR && crate::fs::namei::put_back(&v1, v, n)
                    } else if !crate::fs::namei::may(&v1.fs, i, crate::fs::MAY_EXEC) {
                        0 == -EINVAL && crate::fs::namei::put_back(&v1, v, n)
                    } else if prev != NIL && prev != v1.fs.root_inode {
                        crate::fs::namei::put_back(&v2, v, prev)
                    } else {
                        *v == v2
                    }
                },
            }
        };
    assert(nr is Ok) by {
        if nr is Err {
            assert(resolved(v0, &v1, path, true, Err(nr->Err_0)));
        }
    }
    assert(resolved(v0, &v1, path, true, Ok(nr->Ok_0)));
}

proof fn lemma_mode_split(m: u16, old: u16)
    by (bit_vector)
    ensures
        ((m & 0o7777) | (old & 0o170000)) & 0o7777 == m & 0o7777,
        ((m & 0o7777) | (old & 0o170000)) & 0o170000 == old & 0o170000,
{
}

/// Changing the permissions of a file sets them as asked and leaves its kind, its size and
/// its blocks alone.
pub proof fn lemma_with_mode(i: Inode, m: u16, now: u32)
    ensures
        with_mode(i, m, now).i_mode & 0o7777 == m & 0o7777,
        with_mode(i, m, now).i_mode & 0o170000 == i.i_mode & 0o170000,
        with_mode(i, m, now).i_size == i.i_size,
        with_mode(i, m, now).data@ == i.data@,
        with_mode(i, m, now).i_nlink == i.i_nlink,
        with_mode(i, m, now).i_ino == i.i_ino,
{
    lemma_mode_split(m, i.i_mode);
}

/// What is told of a file is what its inode says; it takes as many units of 512 bytes as
/// hold its size.
pub proof fn lemma_stat(s: Stat64, i: Inode)
    requires
        is_stat(s, i),
    ensures
        s.st_ino == i.i_ino,
        s.st_dev == i.i_dev,
        s.st_mode == i.i_mode,
        s.st_nlink == i.i_nlink,
        s.st_uid == i.i_uid && s.st_gid == i.i_gid,
        s.st_rdev == i.i_rdev,
        s.st_size == i.i_size,
        s.st_blocks * 512 >= i.i_size,
        (s.st_blocks - 1) * 512 < i.i_size,
        s.st_atime == i.i_atime && s.st_mtime == i.i_mtime && s.st_ctime == i.i_ctime,
{
}

// ---- the entries of a directory ----

/// Reading a directory from a place on gives the first entry in use there, and passes over
/// none that is.
pub proof fn lemma_next_entry(c: Blocks, dev: u16, z: Seq<u16>, size: int, max: int, off: int)
    requires
        max == 14 || max == 30,
        0 <= off,
        aligned(off, max),
    ensures
        match next_entry(c, dev, z, size, max + 2, off) {
            Some(o) => {
                &&& off <= o < size && aligned(o, max)
                &&& entry_ino(c, dev, z, o) != 0
                &&& forall|q: int|
                    off <= q < o && aligned(q, max) ==> #[trigger] entry_ino(c, dev, z, q) == 0
            },
            None => forall|q: int|
                off <= q < size && aligned(q, max) ==> #[trigger] entry_ino(c, dev, z, q) == 0,
        },
    decreases
            if off < size {
                size - off
            } else {
                0
            },
{
    if off < size {
        lemma_next_aligned(off, max);
        assert(off % 1024 + max + 2 <= 1024) by {
            if max == 14 {
                assert(off % 16 == 0);
            } else {
                assert(off % 32 == 0);
            }
        }
        if entry_ino(c, dev, z, off) == 0 {
            let n = off + max + 2;
            assert(next_off(off, max + 2) == n);
            lemma_next_entry(c, dev, z, size, max, n);
            let lim = match next_entry(c, dev, z, size, max + 2, n) {
                Some(o) => o,
                None => size,
            };
            assert forall|q: int| off <= q < lim && aligned(q, max) implies #[trigger] entry_ino(
                c,
                dev,
                z,
                q,
            ) == 0 by {
                if q > off {
                    assert(q >= n);
                }
            }
        }
    }
}

// ---- files in memory ----

proof fn lemma_tmp_named(es: Seq<TmpEntry>, dir: usize, name: Seq<u8>, k: int)
    requires
        0 <= k <= es.len(),
    ensures
        k <= named_from(es, dir, name, k) <= es.len(),
        forall|j: int|
            k <= j < named_from(es, dir, name, k) ==> !((#[trigger] es[j]).parent == dir && es[j].text() == name),
        named_from(es, dir, name, k) < es.len() ==> es[named_from(es, dir, name, k)].parent == dir
            && es[named_from(es, dir, name, k)].text() == name,
    decreases es.len() - k,
{
    if k < es.len() {
        lemma_tmp_named(es, dir, name, k + 1);
    }
}

proof fn lemma_tmp_parent(es: Seq<TmpEntry>, dir: usize, k: int)
    requires
        0 <= k <= es.len(),
    ensures
        (forall|j: int| k <= j < es.len() ==> !((#[trigger] es[j]).inode_idx == dir && es[j].parent != NIL))
            ==> parent_from(es, dir, k) == dir,
        forall|j: int|
            k <= j < es.len() && (#[trigger] es[j]).inode_idx == dir && es[j].parent != NIL && (forall|x: int|
                k <= x < j ==> !((#[trigger] es[x]).inode_idx == dir && es[x].parent != NIL)) ==> parent_from(
                es,
                dir,
                k,
            ) == es[j].parent,
    decreases es.len() - k,
{
    if k < es.len() {
        lemma_tmp_parent(es, dir, k + 1);
    }
}

/// A file that was made in memory is what its name leads to; every other name leads where
/// it led. From a new directory the way up leads to the one that it was made in.
pub proof fn lemma_tmp_create(
    fs0: &Fs,
    fs: &Fs,
    t0: &Tmpfs,
    t: &Tmpfs,
    dir: usize,
    name: Seq<u8>,
    m: u16,
    n: usize,
    dir2: usize,
    other: Seq<u8>,
)
    requires
        create_did(fs0, fs, t0, t, dir, name, m, Ok(n)),
        n < 64,
        dir < 64,
        name != seq![46u8],
        name != seq![46u8, 46u8],
        other != seq![46u8, 46u8],
        lookup_of(t0.entries@, dir, name) is Err,
        (dir2, other) != (dir, name),
        forall|k: int| 0 <= k < t0.entries@.len() ==> (#[trigger] t0.entries@[k]).inode_idx != n,
    ensures
        lookup_of(t.entries@, dir, name) == Ok::<usize, i32>(n),
        lookup_of(t.entries@, dir2, other) == lookup_of(t0.entries@, dir2, other),
        lookup_of(t.entries@, n, seq![46u8, 46u8]) == Ok::<usize, i32>(dir),
        lookup_of(t.entries@, n, seq![46u8]) == Ok::<usize, i32>(n),
        fs.inodes@[n as int].i_size == 0,
{
    let e0 = t0.entries@;
    let es = t.entries@;
    let k = e0.len() as int;
    lemma_tmp_named(e0, dir, name, 0);
    lemma_tmp_named(es, dir, name, 0);
    assert(es[k].parent == dir && es[k].text() == name && es[k].inode_idx == n);
    let p = named_from(es, dir, name, 0);
    if p < k {
        assert(es[p] == e0[p]);
    }
    assert(p <= k) by {
        if p > k {
            assert(!(es[k].parent == dir && es[k].text() == name));
        }
    }
    lemma_tmp_named(e0, dir2, other, 0);
    lemma_tmp_named(es, dir2, other, 0);
    let a = named_from(e0, dir2, other, 0);
    let b = named_from(es, dir2, other, 0);
    if b < k {
        assert(es[b] == e0[b]);
        assert(a <= b) by {
            if a > b {
                assert(!(e0[b].parent == dir2 && e0[b].text() == other));
            }
        }
    }
    if a < k {
        assert(es[a] == e0[a]);
        assert(b <= a) by {
            if b > a {
                assert(!(es[a].parent == dir2 && es[a].text() == other));
            }
        }
    }
    assert(b != k);
    assert forall|x: int| 0 <= x < k implies !((#[trigger] es[x]).inode_idx == n && es[x].parent != NIL) by {
        assert(es[x] == e0[x]);
    }
    lemma_tmp_parent(es, n, 0);
    assert(seq![46u8].len() == 1 && seq![46u8, 46u8].len() == 2);
}

/// The names of a directory are handed out one by one, in the order in which they were made:
/// each of them once, and no others.
pub proof fn lemma_children(es: Seq<TmpEntry>, dir: usize, skip: int, k: int)
    requires
        0 <= k <= es.len(),
        0 <= skip,
    ensures
        ({
            let all = es.skip(k).filter(|e: TmpEntry| e.parent == dir);
            let c = child_from(es, dir, skip, k);
            &&& skip < all.len() ==> c < es.len() && es[c] == all[skip]
            &&& skip >= all.len() ==> c == es.len()
        }),
    decreases es.len() - k,
{
    let p = |e: TmpEntry| e.parent == dir;
    reveal(Seq::filter);
    if k < es.len() {
        let e = es[k];
        let one = seq![e];
        let rest = es.skip(k + 1);
        assert(es.skip(k) =~= one + rest);
        Seq::filter_distributes_over_add(one, rest, p);
        assert(one.drop_last() =~= Seq::<TmpEntry>::empty());
        assert(one.drop_last().filter(p) =~= Seq::<TmpEntry>::empty());
        assert(one.filter(p) =~= if p(e) {
            one
        } else {
            Seq::empty()
        });
        let all = es.skip(k).filter(p);
        let a1 = rest.filter(p);
        if p(e) {
            assert(all =~= one + a1);
            if skip > 0 {
                lemma_children(es, dir, skip - 1, k + 1);
                assert(skip < all.len() ==> all[skip] == a1[skip - 1]);
            }
        } else {
            assert(all =~= a1);
            lemma_children(es, dir, skip, k + 1);
        }
    } else {
        assert(es.skip(k) =~= Seq::<TmpEntry>::empty());
    }
}

// ---- message queues ----

proof fn lemma_queue_from(s: Seq<Queue>, name: Seq<u8>, k: int)
    requires
        0 <= k <= s.len(),
    ensures
        k <= queue_from(s, name, k) <= s.len(),
        forall|j: int| k <= j < queue_from(s, name, k) ==> !#[trigger] is_named(s, name, j),
        queue_from(s, name, k) < s.len() ==> is_named(s, name, queue_from(s, name, k)),
    decreases s.len() - k,
{
    if k < s.len() {
        lemma_queue_from(s, name, k + 1);
    }
}

proof fn lemma_queue_free(s: Seq<Queue>, k: int)
    requires
        0 <= k <= s.len(),
    ensures
        k <= free_from(s, k) <= s.len(),
        free_from(s, k) < s.len() ==> !s[free_from(s, k)].used,
    decreases s.len() - k,
{
    if k < s.len() {
        lemma_queue_free(s, k + 1);
    }
}

/// A queue that was opened is what its name leads to: opening it again gives the same one
/// with the messages that are in it, and opening it as a new one is refused. A queue
/// that was made has no messages.
pub proof fn lemma_queue_again(s: Seq<Queue>, bytes: Seq<u8>, oflag: i32, attr: Option<MqAttr>, flag2: i32, i: int)
    requires
        queue_opened(s, bytes, oflag, attr) == Ok::<int, i32>(i),
    ensures
        ({
            let name = queue_name(bytes)->0;
            let q = opened_queue(s[i], name, oflag, attr);
            let s1 = s.update(i, q);
            &&& 0 <= i < s.len()
            &&& q.used && q.name == name
            &&& s[i].used ==> q.msgs == s[i].msgs && q.maxmsg == s[i].maxmsg && q.msgsize == s[i].msgsize
            &&& !s[i].used ==> q.msgs.len() == 0
            &&& flag2 & (O_CREAT | O_EXCL) != (O_CREAT | O_EXCL) ==> queue_opened(s1, bytes, flag2, None) == Ok::<
                int,
                i32,
            >(i)
            &&& flag2 & (O_CREAT | O_EXCL) == (O_CREAT | O_EXCL) ==> queue_opened(s1, bytes, flag2, None)
                == Err::<int, i32>(EEXIST)
        }),
{
    let name = queue_name(bytes)->0;
    lemma_queue_from(s, name, 0);
    lemma_queue_free(s, 0);
    let q = opened_queue(s[i], name, oflag, attr);
    let s1 = s.update(i, q);
    lemma_queue_from(s1, name, 0);
    assert(is_named(s1, name, i));
    let p = queue_from(s1, name, 0);
    assert(p <= i) by {
        if p > i {
            assert(!is_named(s1, name, i));
        }
    }
    if p < i {
        assert(is_named(s1, name, p));
        assert(is_named(s, name, p));
        if queue_from(s, name, 0) == i {
            assert(!is_named(s, name, p));
        } else {
            assert(!is_named(s, name, p));
        }
    }
}

/// What is received is a message of the queue than which none has a higher priority, and
/// no older one the same; all others stay, in their order.
pub proof fn lemma_received(q: Queue, q2: Queue, len: int, remaining: Option<u64>, r: Received)
    requires
        received_as(q, q2, len, remaining, r),
        r is Message,
    ensures
        exists|i: int|
            {
                &&& 0 <= i < q.msgs.len()
                &&& r->Message_0@ == #[trigger] q.msgs[i]
                &&& forall|j: int| 0 <= j < q.msgs.len() ==> (#[trigger] q.msgs[j]).prio <= q.msgs[i].prio
                &&& forall|j: int| 0 <= j < i ==> (#[trigger] q.msgs[j]).prio < q.msgs[i].prio
                &&& q2.msgs.len() == q.msgs.len() - 1
                &&& forall|j: int| 0 <= j < i ==> #[trigger] q2.msgs[j] == q.msgs[j]
                &&& forall|j: int| i <= j < q2.msgs.len() ==> #[trigger] q2.msgs[j] == q.msgs[j + 1]
            },
        r->Message_0@.data.len() <= len,
{
    let i = choose|i: int| #[trigger]
        is_next(q.msgs, i) && if len < q.msgs[i].data.len() {
            q2 == q && r == Received::Failed(crate::errno::EMSGSIZE)
        } else {
            q2 == without_message(q, i) && r is Message && r->Message_0@ == q.msgs[i]
        };
    assert(is_next(q.msgs, i));
    assert(r->Message_0@ == q.msgs[i]);
}

/// A message is taken exactly where it is not too long and there is room; an attempt waits
/// only where the queue is full, waiting is wanted and there is time left.
pub proof fn lemma_sent(q: Queue, len: int, remaining: Option<u64>)
    ensures
        sent(q, len, remaining) is Ok <==> len <= q.msgsize && q.msgs.len() < q.maxmsg,
        sent(q, len, remaining) is Err && sent(q, len, remaining)->Err_0 is Ok <==> len <= q.msgsize
            && q.msgs.len() >= q.maxmsg && !q.nonblock && remaining != Some(0u64),
{
}

/// The time to wait for a moment that lies ahead is a hundred ticks for each second; there
/// is none for one that has passed.
pub proof fn lemma_ticks_left(sec: u64, nsec: u64, now: u64)
    requires
        nsec < 1_000_000_000,
    ensures
        sec <= now ==> ticks_left(Some((sec, nsec)), now) == Some(0u64),
        sec > now && (sec - now) * 100 <= u64::MAX ==> ticks_left(Some((sec, nsec)), now) == Some(
            ((sec - now) * 100) as u64,
        ),
        ticks_left(None, now) is None,
{
}

// ---- outcomes of requests ----

/// The outcome of a request is handed out after those before it, and once: it tells the data
/// of the request, its address and the answer.
pub proof fn lemma_outcome(
    t0: &AioTable,
    t1: &AioTable,
    t2: &AioTable,
    i: usize,
    k: usize,
    cb: Iocb,
    res: i64,
    ctx: u64,
    nr: i64,
    events: u64,
    r: Result<Vec<IoEvent>, i32>,
)
    requires
        t0.wf(),
        i < 4,
        ctx == i + 1,
        t0.ctxs@[i as int].used,
        ended(t0, t1, i, k, cb, res, Submitted::Next),
        collected(t1, t2, ctx, 0, nr, events, r),
        events != 0,
        nr >= 32,
    ensures
        r is Ok,
        ({
            let p = t0.ctxs@[i as int].pending();
            let got = r->Ok_0@;
            &&& p.len() < 32
            &&& got.len() == p.len() + 1
            &&& forall|j: int| 0 <= j < p.len() ==> #[trigger] got[j] == p[j]
            &&& got.last().data == cb.data && got.last().obj == cb.obj && got.last().res == res
            &&& t2.ctxs@[i as int].pending().len() == 0
        }),
        forall|j: int| 0 <= j < 4 && j != i ==> #[trigger] t2.ctxs@[j] == t0.ctxs@[j],
{
    let p = t0.ctxs@[i as int].pending();
    assert(t0.ctxs@.len() == 4);
    assert(t1.ctxs@.len() == 4);
    assert(t1.slot_of(ctx) == Some(i));
    let p1 = t1.ctxs@[i as int].pending();
    assert(p1.take(p1.len() as int) =~= p1);
    assert forall|j: int| 0 <= j < 4 && j != i implies #[trigger] t2.ctxs@[j] == t0.ctxs@[j] by {
        assert(t1.ctxs@[j] == t0.ctxs@[j]);
    }
}

/// A request to read reads where it says, and one to write writes there, or at the end of a
/// file that is appended to.
#[verifier::spinoff_prover]
#[verifier::rlimit(40)]
pub proof fn lemma_request_place(
    v0: &Vfs,
    v: &Vfs,
    cb: Iocb,
    b0: Seq<u8>,
    b: Seq<u8>,
    tasks: Seq<ProcTask>,
    free_pages: u32,
    c: i64,
)
    requires
        v0.wf(),
        iocb_run(v0, v, cb, b0, b, tasks, free_pages, AioRun::Done(c)),
        cb.op == 0 || cb.op == 1,
        c > 0,
        cb.offset <= i64::MAX,
        fd_node(v0, cb.fd as int) != NIL,
    ensures
        exists|v2: Vfs, v3: Vfs|
            {
                &&& #[trigger] any_vfs(&v2) && #[trigger] any_vfs(&v3)
                &&& v2.files@[fd_file(v0, cb.fd as int) as int].f_pos == cb.offset
                &&& v2.fs == v0.fs
                &&& cb.op == 0 ==> read_did(&v2, &v3, cb.fd as int, b0, b, tasks, free_pages, Io::Done(c))
                &&& cb.op == 1 ==> b == b0 && write_did(&v2, &v3, cb.fd as int, b0, Io::Done(c))
            },
{
    let fd = cb.fd as int;
    let f = fd_file(v0, fd) as int;
    assert(v0.files@.len() == 32);
    let (v1, pos) = choose|v1: Vfs, pos: i64|
        {
            &&& #[trigger] lseek_did(v0, &v1, fd, 0, 1, pos)
            &&& if pos < 0 {
                AioRun::Done(c) == AioRun::Done(pos) && b == b0 && *v == v1
            } else {
                exists|v2: Vfs, s: i64|
                    {
                        &&& #[trigger] lseek_did(&v1, &v2, fd, cb.offset as i64, 0, s)
                        &&& ran_at(&v2, v, cb, pos, b0, b, tasks, free_pages, AioRun::Done(c))
                    }
            }
        };
    let (v2, s) = choose|v2: Vfs, s: i64|
        {
            &&& #[trigger] lseek_did(&v1, &v2, fd, cb.offset as i64, 0, s)
            &&& ran_at(&v2, v, cb, pos, b0, b, tasks, free_pages, AioRun::Done(c))
        };
    assert(v1.files@.len() == 32 && v1.fs == v0.fs);
    assert(fd_file(&v1, fd) == f && fd_node(&v1, fd) == fd_node(v0, fd));
    assert(s == cb.offset);
    assert(v2.files@[f].f_pos == cb.offset);
    let (v3, io) = choose|v3: Vfs, io: Io|
        {
            &&& #[trigger] transferred(&v2, &v3, cb, b0, b, tasks, free_pages, io)
            &&& match io {
                Io::Done(x) => AioRun::Done(c) == AioRun::Done(x) && crate::fs::aio::placed_back(
                    &v3,
                    v,
                    fd,
                    pos,
                ),
                Io::Char(x, at) => AioRun::Done(c) == AioRun::Char(x, at, pos) && *v == v3,
            }
        };
    assert(io == Io::Done(c));
    assert(any_vfs(&v2) && any_vfs(&v3));
}

/// Any state: it says nothing, and is there for `exists` to be triggered by.
pub open spec fn any_vfs(v: &Vfs) -> bool {
    true
}

} // verus!
