//! What looking a name up gives after files were made, linked and removed, whatever file
//! system the directory is on, and what reading a file gives after it was written.

use crate::errno::ENOENT;
use crate::fs::ext2::inode::mode::type_bits;
use crate::fs::inode::{is_slot, FsType, NIL};
use crate::fs::minix::dir::entry_ino;
use crate::fs::minix::making::{
    file_apart, imap_apart, in_order, leads, leads_nowhere, lemma_link, lemma_mkdir, lemma_mknod,
    lemma_rmdir, lemma_unlink, only_entry, tables_apart,
};
use crate::fs::minix::namei::found_in;
use crate::fs::minix::names::is_name;
use crate::fs::minix::nodes::countable;
use crate::fs::namei::{
    fs_create, fs_link, fs_lookup, fs_mkdir, fs_rmdir, fs_unlink, lookup_did, may,
};
use crate::fs::paths::lemma_plain_lookup;
use crate::fs::proc::ProcTask;
use crate::fs::read_write::{node_read, node_written};
use crate::fs::{mode, Vfs, MAY_EXEC};
use vstd::prelude::*;

verus! {

/// A name that is not one of the two that every directory has.
pub open spec fn is_plain(name: Seq<u8>) -> bool {
    name.len() > 0 && name != seq![46u8] && name != seq![46u8, 46u8]
}

/// Directory `dir` of the Minix file system is in order, may be searched, and is held.
pub open spec fn can_search(v: &Vfs, dir: usize) -> bool {
    let i = v.fs.inodes@[dir as int];
    &&& v.wf()
    &&& dir < 64
    &&& i.i_op == FsType::Minix
    &&& type_bits(i.i_mode) == mode::S_IFDIR
    &&& i.i_count > 0
    &&& may(&v.fs, i, MAY_EXEC)
    &&& in_order(v.fs.blocks(), v.fs.supers@, i)
}

/// The file system of directory `dir` is laid out so that its tables are apart from its data.
pub open spec fn laid_out(v: &Vfs, dir: usize) -> bool {
    let sb = v.fs.supers@[v.fs.inodes@[dir as int].i_sb as int];
    tables_apart(v.fs.blocks(), v.fs.supers@, v.fs.inodes@, sb) && imap_apart(sb)
}

/// Inode number `ino` on the device of directory `dir` is in slot `k`, and nothing is mounted
/// on it.
pub open spec fn is_at(v: &Vfs, dir: usize, ino: u32, k: usize) -> bool {
    &&& k < 64
    &&& is_slot(
        v.fs.inodes@,
        v.fs.supers@[v.fs.inodes@[dir as int].i_sb as int].s_dev,
        ino,
        k as int,
    )
    &&& v.fs.inodes@[k as int].i_mount == NIL
}

/// Looking up a name that leads to an inode in the table gives its slot.
proof fn lemma_leads_to(v: &Vfs, v1: &Vfs, dir: usize, name: Seq<u8>, ino: u32, k: usize, r: Result<usize, i32>)
    requires
        lookup_did(v, v1, dir, name, r),
        dir < 64,
        is_plain(name),
        v.fs.inodes@[dir as int].i_op == FsType::Minix,
        type_bits(v.fs.inodes@[dir as int].i_mode) == mode::S_IFDIR,
        may(&v.fs, v.fs.inodes@[dir as int], MAY_EXEC),
        leads(v.fs.blocks(), v.fs.supers@, v.fs.inodes@[dir as int], name, ino as int),
        is_at(v, dir, ino, k),
    ensures
        r == Ok::<usize, i32>(k),
{
    lemma_plain_lookup(v, v1, dir, name, r);
}

/// Looking up a name that leads nowhere finds nothing.
proof fn lemma_leads_nowhere(v: &Vfs, v1: &Vfs, dir: usize, name: Seq<u8>, r: Result<usize, i32>)
    requires
        lookup_did(v, v1, dir, name, r),
        dir < 64,
        is_plain(name),
        v.fs.inodes@[dir as int].i_op == FsType::Minix,
        type_bits(v.fs.inodes@[dir as int].i_mode) == mode::S_IFDIR,
        may(&v.fs, v.fs.inodes@[dir as int], MAY_EXEC),
        leads_nowhere(v.fs.blocks(), v.fs.supers@, v.fs.inodes@[dir as int], name),
    ensures
        r == Err::<usize, i32>(ENOENT),
{
    lemma_plain_lookup(v, v1, dir, name, r);
}

/// A regular file that was made is found under its name.
pub proof fn lemma_create_found(
    v0: &Vfs,
    v1: &Vfs,
    v2: &Vfs,
    dir: usize,
    name: Seq<u8>,
    m: u16,
    n: usize,
    r: Result<usize, i32>,
)
    requires
        can_search(v0, dir),
        laid_out(v0, dir),
        is_plain(name),
        is_name(name, v0.fs.supers@[v0.fs.inodes@[dir as int].i_sb as int].s_namelen as int),
        fs_create(v0, v1, dir, name, m, Ok(n)),
        may(&v1.fs, v1.fs.inodes@[dir as int], MAY_EXEC),
        v1.fs.inodes@[dir as int].i_op == FsType::Minix,
        n < 64 && is_at(v1, dir, v1.fs.inodes@[n as int].i_ino, n),
        lookup_did(v1, v2, dir, name, r),
    ensures
        r == Ok::<usize, i32>(n),
{
    let fm = (m & !mode::S_IFMT) | mode::S_IFREG;
    lemma_mknod(&v0.fs, &v1.fs, dir, name, fm, 0, n);
    lemma_leads_to(v1, v2, dir, name, v1.fs.inodes@[n as int].i_ino, n, r);
}

/// A directory that was made is found under its name, and the way up from it leads to the
/// directory that it was made in.
pub proof fn lemma_mkdir_found(
    v0: &Vfs,
    v1: &Vfs,
    v2: &Vfs,
    v3: &Vfs,
    dir: usize,
    name: Seq<u8>,
    m: u16,
    n: usize,
    r: Result<usize, i32>,
    up: Result<usize, i32>,
)
    requires
        can_search(v0, dir),
        laid_out(v0, dir),
        is_plain(name),
        is_name(name, v0.fs.supers@[v0.fs.inodes@[dir as int].i_sb as int].s_namelen as int),
        1 <= v0.fs.inodes@[dir as int].i_ino < 65536,
        fs_mkdir(v0, v1, dir, name, m, Ok(n)),
        may(&v1.fs, v1.fs.inodes@[dir as int], MAY_EXEC),
        v1.fs.inodes@[dir as int].i_op == FsType::Minix,
        n < 64 && is_at(v1, dir, v1.fs.inodes@[n as int].i_ino, n),
        lookup_did(v1, v2, dir, name, r),
        is_at(v1, dir, v1.fs.inodes@[dir as int].i_ino, dir),
        may(&v1.fs, v1.fs.inodes@[n as int], MAY_EXEC),
        v1.fs.inodes@[n as int].i_op == FsType::Minix,
        n != v1.fs.root_inode,
        v1.fs.supers@[v1.fs.inodes@[n as int].i_sb as int].s_mounted != n,
        lookup_did(v1, v3, n, seq![46u8, 46u8], up),
    ensures
        r == Ok::<usize, i32>(n),
        up == Ok::<usize, i32>(dir),
{
    lemma_mkdir(&v0.fs, &v1.fs, dir, name, m, n);
    lemma_leads_to(v1, v2, dir, name, v1.fs.inodes@[n as int].i_ino, n, r);
    let dd = seq![46u8, 46u8];
    assert(dd.len() == 2);
    assert(dd != seq![46u8]) by {
        assert(seq![46u8].len() == 1);
    }
    crate::fs::minix::making::lemma_dir_type(m);
    assert(fs_lookup(v1, v3, n, dd, up));
    assert(v1.fs.supers@ == v0.fs.supers@);
}

/// A file that was removed is not found under its name any more.
pub proof fn lemma_unlink_found(
    v0: &Vfs,
    v1: &Vfs,
    v2: &Vfs,
    dir: usize,
    name: Seq<u8>,
    off: int,
    r: Result<usize, i32>,
)
    requires
        can_search(v0, dir),
        laid_out(v0, dir),
        countable(v0.fs.inodes@),
        is_plain(name),
        is_name(name, v0.fs.supers@[v0.fs.inodes@[dir as int].i_sb as int].s_namelen as int),
        ({
            let d0 = v0.fs.inodes@[dir as int];
            &&& found_in(v0.fs.blocks(), v0.fs.supers@[d0.i_sb as int], d0, name) == Some(off)
            &&& only_entry(v0.fs.blocks(), v0.fs.supers@, d0, name, off)
            &&& file_apart(
                &v0.fs,
                dir,
                entry_ino(v0.fs.blocks(), d0.i_dev, d0.data@, off) as u32,
            )
        }),
        fs_unlink(v0, v1, dir, name, 0),
        may(&v1.fs, v1.fs.inodes@[dir as int], MAY_EXEC),
        type_bits(v1.fs.inodes@[dir as int].i_mode) == mode::S_IFDIR,
        v1.fs.inodes@[dir as int].i_op == FsType::Minix,
        lookup_did(v1, v2, dir, name, r),
    ensures
        r == Err::<usize, i32>(ENOENT),
{
    lemma_unlink(&v0.fs, &v1.fs, dir, name, off);
    lemma_leads_nowhere(v1, v2, dir, name, r);
}

/// A directory that was removed is not found under its name any more.
pub proof fn lemma_rmdir_found(
    v0: &Vfs,
    v1: &Vfs,
    v2: &Vfs,
    dir: usize,
    name: Seq<u8>,
    off: int,
    r: Result<usize, i32>,
)
    requires
        can_search(v0, dir),
        laid_out(v0, dir),
        countable(v0.fs.inodes@),
        v0.fs.inodes@[dir as int].i_nlink > 0,
        is_plain(name),
        is_name(name, v0.fs.supers@[v0.fs.inodes@[dir as int].i_sb as int].s_namelen as int),
        ({
            let d0 = v0.fs.inodes@[dir as int];
            &&& found_in(v0.fs.blocks(), v0.fs.supers@[d0.i_sb as int], d0, name) == Some(off)
            &&& only_entry(v0.fs.blocks(), v0.fs.supers@, d0, name, off)
            &&& file_apart(
                &v0.fs,
                dir,
                entry_ino(v0.fs.blocks(), d0.i_dev, d0.data@, off) as u32,
            )
        }),
        fs_rmdir(v0, v1, dir, name, 0),
        may(&v1.fs, v1.fs.inodes@[dir as int], MAY_EXEC),
        type_bits(v1.fs.inodes@[dir as int].i_mode) == mode::S_IFDIR,
        v1.fs.inodes@[dir as int].i_op == FsType::Minix,
        lookup_did(v1, v2, dir, name, r),
    ensures
        r == Err::<usize, i32>(ENOENT),
{
    lemma_rmdir(&v0.fs, &v1.fs, dir, name, off);
    lemma_leads_nowhere(v1, v2, dir, name, r);
}

/// A file that got one more name is found under it.
pub proof fn lemma_link_found(
    v0: &Vfs,
    v1: &Vfs,
    v2: &Vfs,
    target: usize,
    dir: usize,
    name: Seq<u8>,
    r: Result<usize, i32>,
)
    requires
        can_search(v0, dir),
        target < 64,
        target != dir,
        1 <= v0.fs.inodes@[target as int].i_ino < 65536,
        is_plain(name),
        is_name(name, v0.fs.supers@[v0.fs.inodes@[dir as int].i_sb as int].s_namelen as int),
        fs_link(v0, v1, target, dir, name, 0),
        may(&v1.fs, v1.fs.inodes@[dir as int], MAY_EXEC),
        type_bits(v1.fs.inodes@[dir as int].i_mode) == mode::S_IFDIR,
        v1.fs.inodes@[dir as int].i_op == FsType::Minix,
        is_at(v1, dir, v0.fs.inodes@[target as int].i_ino, target),
        lookup_did(v1, v2, dir, name, r),
    ensures
        r == Ok::<usize, i32>(target),
{
    lemma_link(&v0.fs, &v1.fs, target, dir, name);
    lemma_leads_to(v1, v2, dir, name, v0.fs.inodes@[target as int].i_ino, target, r);
}

// ---- reading what was written ----

/// What is written to a file of the extended file system is what is read back from there.
pub proof fn lemma_ext4_reread(
    v0: &Vfs,
    v1: &Vfs,
    v2: &Vfs,
    n: usize,
    pos: u64,
    data: Seq<u8>,
    r: i64,
    b0: Seq<u8>,
    b: Seq<u8>,
    tasks: Seq<ProcTask>,
    free_pages: u32,
    got: i64,
)
    requires
        v0.wf(),
        n < 64,
        v0.fs.inodes@[n as int].i_op == FsType::Ext2,
        v1.fs.inodes@[n as int].i_op == FsType::Ext2,
        type_bits(v0.fs.inodes@[n as int].i_mode) != mode::S_IFDIR,
        type_bits(v1.fs.inodes@[n as int].i_mode) != mode::S_IFDIR,
        crate::fs::ext4::ops::reread::map_apart(
            v0.fs.blocks(),
            v0.fs.supers@,
            v0.fs.ext4@,
            v0.fs.inodes@[n as int],
        ),
        pos + data.len() <= u32::MAX,
        node_written(v0, v1, n, pos, data, r),
        r > 0,
        b0.len() == r,
        node_read(v1, v2, n, pos, b0, b, tasks, free_pages, got),
    ensures
        got == r,
        b == data.subrange(0, r as int),
{
    crate::fs::ext4::ops::reread::lemma_write_read(
        &v0.fs,
        &v1.fs,
        &v2.fs,
        n,
        pos,
        data,
        r,
        b0,
        b,
        got,
    );
}

} // verus!
