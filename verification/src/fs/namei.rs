//! Resolving path names, and what is done to files by name.

use crate::bytes::copy_range;
use crate::errno::{
    EACCES, EEXIST, EINVAL, EIO, EISDIR, ELOOP, ENAMETOOLONG, ENOENT, ENOTDIR, EPERM, EROFS,
};
use crate::fs::ext2::inode::mode::type_bits;
use crate::fs::inode::{allowed, counted, iput, iput_fs, is_pick, FsType, Inode, NIL};
use crate::fs::refs::{
    base_count, book, lemma_book_all, lemma_book_less, lemma_book_room, lemma_book_swap,
    lemma_book_take, lemma_counted, lemma_iget_swap, lemma_iput_swap, lemma_swap_around,
    lemma_swap_both, lemma_swap_keep, lemma_swap_none, lemma_swap_out, lemma_swap_seq, node_tied,
    swapped, tied,
};
use crate::fs::super_block::SuperBlock;
use crate::fs::{ext4, minix, mode, oflags, proc, tmpfs, Fs, Vfs, MAY_EXEC, MAY_READ, MAY_WRITE};
use vstd::prelude::*;

verus! {

/// The longest name of a directory on the way.
pub const NAME_MAX: usize = 32;
/// How many symbolic links may be nested.
pub const MAX_LINKS: u32 = 6;

/// Whether inode `i` may be used as `mask` asks. On a file system for reading only,
/// only devices and pipes may be written.
pub open spec fn may(fs: &Fs, i: Inode, mask: u16) -> bool {
    let t = type_bits(i.i_mode);
    if mask & MAY_WRITE != 0 && i.rdonly_in(fs) && (t == mode::S_IFREG || t == mode::S_IFDIR || t
        == mode::S_IFLNK) {
        false
    } else {
        allowed(i, fs.euid, fs.egid, mask)
    }
}

/// Whether an inode may be used as `mask` asks.
pub fn permission(fs: &Fs, n: usize, mask: u16) -> (r: bool)
    requires
        fs.wf(),
        n < 64,
    ensures
        r == may(fs, fs.inodes@[n as int], mask),
{
    let i: Inode = fs.inodes[n];
    if mask & MAY_WRITE != 0 && i.is_rdonly(fs) {
        if mode::is_reg(i.i_mode) || mode::is_dir(i.i_mode) || mode::is_lnk(i.i_mode) {
            return false;
        }
    }
    crate::fs::inode::permission(fs, n, mask)
}

// ---- the state on the way ----

/// Going up from directory `n` through the roots of mounted file systems ends after
/// `fuel` of them.
pub open spec fn ends(supers: Seq<SuperBlock>, root: usize, n: usize, fuel: nat) -> bool
    decreases fuel,
{
    n == root || forall|t: int|
        0 <= t < 4 && (#[trigger] supers[t]).s_mounted == n && supers[t].s_covered != NIL
            && supers[t].s_covered != n ==> fuel > 0 && ends(
            supers,
            root,
            supers[t].s_covered,
            (fuel - 1) as nat,
        )
}

/// Going up ends, wherever it starts.
pub open spec fn mounts_end(fs: &Fs) -> bool {
    forall|n: usize| n < 64 ==> #[trigger] ends(fs.supers@, fs.root_inode, n, 4)
}

/// Names can be resolved: the tables fit together, and each inode can take as many
/// references as that needs at most with `left` links to follow, while those to
/// `a` and `b` are held.
pub open spec fn can_walk(v: &Vfs, a: usize, b: usize, left: int) -> bool {
    &&& v.wf()
    &&& tied(v.fs.supers@, v.fs.inodes@)
    &&& mounts_end(&v.fs)
    &&& book(v.fs.inodes@, a, b, 2 * left + 3)
}

/// Only the cache, the inode table and the number of the next inode for what the
/// system knows of itself may have changed.
pub open spec fn only_walked(v0: &Vfs, v: &Vfs) -> bool {
    &&& *v == (Vfs { fs: v.fs, proc: v.proc, ..*v0 })
    &&& v.fs == (Fs { cache: v.fs.cache, inodes: v.fs.inodes, ..v0.fs })
}

/// Devices, open files and descriptors are as before.
pub open spec fn same_files(v0: &Vfs, v: &Vfs) -> bool {
    *v == (Vfs { fs: v.fs, tmpfs: v.tmpfs, proc: v.proc, ..*v0 })
}

/// The tables are in order after references to `a` and `b` were given back and one
/// to `c` was taken.
pub open spec fn walked(v0: &Vfs, v: &Vfs, a: usize, b: usize, c: usize) -> bool {
    &&& v.wf()
    &&& only_walked(v0, v)
    &&& tied(v.fs.supers@, v.fs.inodes@)
    &&& swapped(v0.fs.inodes@, v.fs.inodes@, a, b, c)
}

/// The inode that an answer holds a reference to.
pub open spec fn out_ref(r: Result<usize, i32>) -> usize {
    match r {
        Ok(n) => n,
        Err(_) => NIL,
    }
}

/// The state `v` is that of `v0` after a reference to inode `n` was given back.
pub open spec fn put_back(v0: &Vfs, v: &Vfs, n: usize) -> bool {
    *v == (Vfs { fs: v.fs, ..*v0 }) && iput_fs(&v0.fs, &v.fs, n)
}

/// The state `v` is that of `v0` after one more reference to inode `n` was taken.
pub open spec fn took_one(v0: &Vfs, v: &Vfs, n: usize) -> bool {
    &&& *v == (Vfs { fs: v.fs, ..*v0 })
    &&& v.fs == (Fs { inodes: v.fs.inodes, ..v0.fs })
    &&& v.fs.inodes@ == v0.fs.inodes@.update(n as int, counted(v0.fs.inodes@[n as int], 1))
}

/// Any state with any answer: it says nothing, and is there for `exists` to be triggered
/// by where the call that leads to the state is the function's own.
pub open spec fn any_state(v: &Vfs, r: Result<usize, i32>) -> bool {
    true
}

/// Gives a reference back.
fn put(v: &mut Vfs, n: usize)
    requires
        old(v).wf(),
        tied(old(v).fs.supers@, old(v).fs.inodes@),
        n < 64,
        old(v).fs.inodes@[n as int].i_count > 0,
    ensures
        put_back(old(v), final(v), n),
        walked(old(v), final(v), n, NIL, NIL),
{
    iput(&mut v.fs, n);
    proof {
        lemma_iput_swap(
            old(v).fs.blocks(),
            old(v).fs.inodes@,
            &v.fs.cache,
            v.fs.inodes@,
            old(v).fs.supers@,
            old(v).fs.now,
            n,
        );
    }
}

/// Takes one more reference.
fn take(v: &mut Vfs, n: usize)
    requires
        old(v).wf(),
        tied(old(v).fs.supers@, old(v).fs.inodes@),
        n < 64,
        old(v).fs.inodes@[n as int].i_count < u16::MAX,
    ensures
        took_one(old(v), final(v), n),
        walked(old(v), final(v), NIL, NIL, n),
{
    v.fs.inodes[n].i_count = v.fs.inodes[n].i_count + 1;
    proof {
        assert(v.fs.inodes@ =~= old(v).fs.inodes@.update(
            n as int,
            counted(old(v).fs.inodes@[n as int], 1),
        ));
        lemma_counted(v.fs.supers@, old(v).fs.inodes@, v.fs.inodes@, n);
    }
}

// ---- one name in one directory ----

/// Directory `dir` is the root of a file system that is mounted on another
/// directory.
pub open spec fn is_mount_root(fs: &Fs, dir: usize) -> bool {
    let n = fs.inodes@[dir as int].i_sb;
    let s = fs.supers@[n as int];
    n != NIL && s.s_mounted == dir && s.s_covered != NIL && s.s_covered != dir
}

/// What the file system of directory `dir` does to look a name up.
pub open spec fn fs_lookup(v0: &Vfs, v: &Vfs, dir: usize, name: Seq<u8>, r: Result<usize, i32>) -> bool {
    match v0.fs.inodes@[dir as int].i_op {
        FsType::Minix => *v == (Vfs { fs: v.fs, ..*v0 }) && minix::nodes::lookup_did(
            &v0.fs,
            &v.fs,
            dir,
            name,
            r,
        ),
        FsType::Ext2 => *v == (Vfs { fs: v.fs, ..*v0 }) && ext4::namei::lookup_did(
            &v0.fs,
            &v.fs,
            dir,
            name,
            r,
        ),
        FsType::Proc => *v == (Vfs { fs: v.fs, proc: v.proc, ..*v0 }) && proc::lookup_did(
            &v0.fs,
            &v.fs,
            v0.proc,
            v.proc,
            dir,
            v0.current,
            name,
            r,
        ),
        FsType::Tmpfs => *v == (Vfs { fs: v.fs, ..*v0 }) && tmpfs::lookup_did(
            &v0.fs,
            &v.fs,
            v0.tmpfs.entries@,
            dir,
            name,
            r,
        ),
        _ => r == Err::<usize, i32>(ENOTDIR) && *v == *v0,
    }
}

/// What looking a name up in directory `dir` does. The directory above the root is
/// the root; the one above the root of a mounted file system is that above the
/// directory which it is mounted on.
pub open spec fn lookup_from(v0: &Vfs, v: &Vfs, dir: usize, name: Seq<u8>, r: Result<usize, i32>, fuel: nat) -> bool
    decreases fuel,
{
    let i = v0.fs.inodes@[dir as int];
    let up = name == seq![46u8, 46u8];
    if type_bits(i.i_mode) != mode::S_IFDIR {
        r == Err::<usize, i32>(ENOTDIR) && *v == *v0
    } else if name.len() == 0 || name == seq![46u8] || (up && dir == v0.fs.root_inode) {
        r == Ok::<usize, i32>(dir) && took_one(v0, v, dir)
    } else if up && is_mount_root(&v0.fs, dir) && fuel > 0 {
        lookup_from(
            v0,
            v,
            v0.fs.supers@[i.i_sb as int].s_covered,
            name,
            r,
            (fuel - 1) as nat,
        )
    } else if !may(&v0.fs, i, MAY_EXEC) {
        r == Err::<usize, i32>(EACCES) && *v == *v0
    } else {
        fs_lookup(v0, v, dir, name, r)
    }
}

/// The state `v` is that of `v0` after a name was looked up in directory `dir`.
pub open spec fn lookup_did(v0: &Vfs, v: &Vfs, dir: usize, name: Seq<u8>, r: Result<usize, i32>) -> bool {
    lookup_from(v0, v, dir, name, r, 4)
}

/// A new inode in a free slot that neither file system on disk knows of.
proof fn lemma_made_swap(supers: Seq<SuperBlock>, s0: Seq<Inode>, s: Seq<Inode>, n: usize)
    requires
        s0.len() == 64,
        n < 64,
        is_pick(s0, n as int),
        s == s0.update(n as int, s[n as int]),
        s[n as int].i_count == 1,
        s[n as int].i_op == FsType::Proc || s[n as int].i_op == FsType::Tmpfs,
        tied(supers, s0),
    ensures
        swapped(s0, s, NIL, NIL, n),
        tied(supers, s),
{
    assert forall|k: int| 0 <= k < 64 implies node_tied(supers, #[trigger] s[k]) by {
        if k != n {
            assert(node_tied(supers, s0[k]));
        }
    }
}

/// Lets the file system of directory `dir` look a name up.
#[verifier::spinoff_prover]
#[verifier::rlimit(40)]
fn look_in(v: &mut Vfs, dir: usize, name: &[u8]) -> (r: Result<usize, i32>)
    requires
        old(v).wf(),
        dir < 64,
        tied(old(v).fs.supers@, old(v).fs.inodes@),
        forall|k: int| 0 <= k < 64 ==> (#[trigger] old(v).fs.inodes@[k]).i_count < u16::MAX,
    ensures
        fs_lookup(old(v), final(v), dir, name@, r),
        walked(old(v), final(v), NIL, NIL, out_ref(r)),
        r is Ok ==> r->Ok_0 < 64,
{
    let ghost fs0 = v.fs;
    let ghost s0 = v.fs.inodes@;
    let sb_nr: usize = v.fs.inodes[dir].i_sb;
    assert(node_tied(fs0.supers@, s0[dir as int]));
    assert(s0[dir as int].links_ok());
    proof {
        lemma_swap_none(s0);
    }
    match v.fs.inodes[dir].i_op {
        FsType::Minix => {
            let r = minix::nodes::lookup(&mut v.fs, dir, name);
            proof {
                let i = s0[dir as int];
                let found = minix::namei::found_in(
                    fs0.blocks(),
                    fs0.supers@[i.i_sb as int],
                    i,
                    name@,
                );
                if type_bits(i.i_mode) == mode::S_IFDIR && found is Some {
                    lemma_iget_swap(
                        fs0.blocks(),
                        s0,
                        v.fs.blocks(),
                        v.fs.inodes@,
                        fs0.supers@,
                        i.i_sb,
                        minix::dir::entry_ino(fs0.blocks(), i.i_dev, i.data@, found->0) as u32,
                        true,
                        out_ref(r),
                    );
                }
            }
            r
        },
        FsType::Ext2 => {
            let r = ext4::namei::lookup(&mut v.fs, dir, name);
            proof {
                let i = s0[dir as int];
                let found = ext4::namei::named_in(&fs0, dir, name@);
                if type_bits(i.i_mode) == mode::S_IFDIR && found is Some && found->0 != 0 {
                    lemma_iget_swap(
                        fs0.blocks(),
                        s0,
                        v.fs.blocks(),
                        v.fs.inodes@,
                        fs0.supers@,
                        i.i_sb,
                        found->0,
                        true,
                        out_ref(r),
                    );
                }
            }
            r
        },
        FsType::Proc => {
            let current: usize = v.current;
            let r = v.proc.lookup(&mut v.fs, dir, current, name);
            proof {
                if r is Ok {
                    lemma_made_swap(fs0.supers@, s0, v.fs.inodes@, r->Ok_0);
                }
            }
            r
        },
        FsType::Tmpfs => {
            let r = v.tmpfs.lookup(&mut v.fs, dir, name);
            proof {
                if r is Ok {
                    lemma_counted(fs0.supers@, s0, v.fs.inodes@, r->Ok_0);
                }
            }
            r
        },
        _ => Err(ENOTDIR),
    }
}

/// Looks a name up, going up through at most `fuel` mounted file systems.
#[verifier::spinoff_prover]
#[verifier::rlimit(40)]
fn look(v: &mut Vfs, dir: usize, name: &[u8], fuel: u32) -> (r: Result<usize, i32>)
    requires
        old(v).wf(),
        dir < 64,
        fuel <= 4,
        tied(old(v).fs.supers@, old(v).fs.inodes@),
        forall|k: int| 0 <= k < 64 ==> (#[trigger] old(v).fs.inodes@[k]).i_count < u16::MAX,
        ends(old(v).fs.supers@, old(v).fs.root_inode, dir, fuel as nat),
    ensures
        lookup_from(old(v), final(v), dir, name@, r, fuel as nat),
        walked(old(v), final(v), NIL, NIL, out_ref(r)),
        r is Ok ==> r->Ok_0 < 64,
    decreases fuel,
{
    proof {
        lemma_swap_none(v.fs.inodes@);
    }
    if !mode::is_dir(v.fs.inodes[dir].i_mode) {
        return Err(ENOTDIR);
    }
    let up: bool = name.len() == 2 && name[0] == 46 && name[1] == 46;
    let here: bool = name.len() == 0 || (name.len() == 1 && name[0] == 46);
    proof {
        if name@.len() == 1 {
            assert((name@ == seq![46u8]) == (name@[0] == 46)) by {
                if name@[0] == 46 {
                    assert(name@ =~= seq![46u8]);
                }
                assert(seq![46u8][0] == 46u8);
            }
        } else {
            assert(seq![46u8].len() == 1);
        }
        if name@.len() == 2 {
            assert((name@ == seq![46u8, 46u8]) == (name@[0] == 46 && name@[1] == 46)) by {
                if name@[0] == 46 && name@[1] == 46 {
                    assert(name@ =~= seq![46u8, 46u8]);
                }
                assert(seq![46u8, 46u8][0] == 46u8 && seq![46u8, 46u8][1] == 46u8);
            }
        } else {
            assert(seq![46u8, 46u8].len() == 2);
        }
        assert(up == (name@ == seq![46u8, 46u8]));
    }
    if here || (up && dir == v.fs.root_inode) {
        take(v, dir);
        return Ok(dir);
    }
    if up {
        let sb_nr: usize = v.fs.inodes[dir].i_sb;
        assert(v.fs.inodes@[dir as int].links_ok());
        if sb_nr != NIL {
            let mounted: usize = v.fs.supers[sb_nr].s_mounted;
            let covered: usize = v.fs.supers[sb_nr].s_covered;
            if mounted == dir && covered != NIL && covered != dir {
                assert(v.fs.supers@[sb_nr as int].links_ok());
                assert(v.fs.supers@[sb_nr as int].s_mounted == dir);
                return look(v, covered, name, fuel - 1);
            }
        }
    }
    if !permission(&v.fs, dir, MAY_EXEC) {
        return Err(EACCES);
    }
    look_in(v, dir, name)
}

/// The inode that a name in directory `dir` leads to.
pub fn lookup_one(v: &mut Vfs, dir: usize, name: &[u8]) -> (r: Result<usize, i32>)
    requires
        old(v).wf(),
        dir < 64,
        tied(old(v).fs.supers@, old(v).fs.inodes@),
        forall|k: int| 0 <= k < 64 ==> (#[trigger] old(v).fs.inodes@[k]).i_count < u16::MAX,
        mounts_end(&old(v).fs),
    ensures
        lookup_did(old(v), final(v), dir, name@, r),
        walked(old(v), final(v), NIL, NIL, out_ref(r)),
        r is Ok ==> r->Ok_0 < 64,
{
    assert(ends(v.fs.supers@, v.fs.root_inode, dir, 4));
    look(v, dir, name, 4)
}

// ---- paths ----

/// How many bytes from `i` on, before `n`, are no slash.
pub open spec fn comp_len(path: Seq<u8>, i: int, n: int) -> nat
    decreases n - i,
{
    if i >= n || path[i] == 47 {
        0
    } else {
        1 + comp_len(path, i + 1, n)
    }
}

/// Where the last part of a path starts: behind the last slash before `n`.
pub open spec fn last_start(path: Seq<u8>, n: int) -> int
    decreases n,
{
    if n <= 0 {
        0
    } else if path[n - 1] == 47 {
        n
    } else {
        last_start(path, n - 1)
    }
}

/// The last part of a path, which is empty where it ends in a slash.
pub open spec fn last_part(path: Seq<u8>) -> Seq<u8> {
    path.skip(last_start(path, path.len() as int))
}

/// How many bytes of a path lead to the directory of its last part.
pub open spec fn dir_len(path: Seq<u8>) -> int {
    let n = last_start(path, path.len() as int);
    if n > 0 {
        n - 1
    } else {
        0
    }
}

/// Whether a path starts at the root.
pub open spec fn is_absolute(path: Seq<u8>) -> bool {
    path.len() > 0 && path[0] == 47
}

/// Where a path starts.
pub open spec fn start_of(fs: &Fs, path: Seq<u8>) -> usize {
    if is_absolute(path) {
        fs.root_inode
    } else {
        fs.pwd_inode
    }
}

/// Where the symbolic link of inode `n` leads to, where that can be read.
pub open spec fn link_target(fs: &Fs, n: usize) -> Option<Seq<u8>> {
    let i = fs.inodes@[n as int];
    if type_bits(i.i_mode) == mode::S_IFLNK && i.i_op == FsType::Ext2 {
        ext4::symlink::target_of(fs, i)
    } else {
        None
    }
}

/// Reads where a symbolic link leads to. Those of the minix file system cannot be
/// read.
pub fn read_symlink_target(fs: &mut Fs, ip: usize) -> (r: Option<Vec<u8>>)
    requires
        old(fs).wf(),
        ip < 64,
    ensures
        final(fs).wf(),
        *final(fs) == (Fs { cache: final(fs).cache, ..*old(fs) }),
        final(fs).blocks() == old(fs).blocks(),
        match link_target(old(fs), ip) {
            None => r is None,
            Some(t) => r is Some && r->0@ == t,
        },
{
    if !mode::is_lnk(fs.inodes[ip].i_mode) {
        return None;
    }
    match fs.inodes[ip].i_op {
        FsType::Ext2 => ext4::symlink::read_symlink(fs, ip),
        _ => None,
    }
}

/// The state `v` is that of `v0` but for what the cache has read.
pub open spec fn only_read(v0: &Vfs, v: &Vfs) -> bool {
    &&& *v == (Vfs { fs: v.fs, ..*v0 })
    &&& v.fs == (Fs { cache: v.fs.cache, ..v0.fs })
    &&& v.fs.blocks() == v0.fs.blocks()
}

/// Gives references to two inodes back, one after the other.
pub open spec fn put_two(v0: &Vfs, v: &Vfs, a: usize, b: usize) -> bool {
    exists|v1: Vfs| #[trigger] put_back(v0, &v1, a) && put_back(&v1, v, b)
}

/// What following inode `n`, found in directory `dir`, does where it is a symbolic
/// link; references to both are given back. With no links left to follow, that is
/// an error.
pub open spec fn follow_did(v0: &Vfs, v: &Vfs, dir: usize, n: usize, left: nat, r: Result<usize, i32>) -> bool
    decreases left, 0int, 0int,
{
    if type_bits(v0.fs.inodes@[n as int].i_mode) != mode::S_IFLNK {
        r == Ok::<usize, i32>(n) && put_back(v0, v, dir)
    } else if left == 0 {
        r == Err::<usize, i32>(ELOOP) && put_two(v0, v, dir, n)
    } else {
        exists|v1: Vfs|
            {
                &&& #[trigger] only_read(v0, &v1)
                &&& match link_target(&v0.fs, n) {
                    None => r == Err::<usize, i32>(EIO) && put_two(&v1, v, dir, n),
                    Some(t) => if is_absolute(t) {
                        exists|v2: Vfs, v3: Vfs|
                            {
                                &&& #[trigger] put_back(&v1, &v2, dir)
                                &&& if v0.fs.root_inode == NIL {
                                    r == Err::<usize, i32>(ENOENT) && v3 == v2
                                } else {
                                    namei_did(
                                        &v2,
                                        &v3,
                                        t,
                                        v0.fs.root_inode,
                                        true,
                                        (left - 1) as nat,
                                        r,
                                    )
                                }
                                &&& #[trigger] put_back(&v3, v, n)
                            }
                    } else {
                        exists|v2: Vfs|
                            {
                                &&& #[trigger] any_state(&v2, r)
                                &&& namei_did(&v1, &v2, t, dir, true, (left - 1) as nat, r)
                                &&& put_two(&v2, v, dir, n)
                            }
                    },
                }
            }
    }
}

/// What going through the directories of `path` from byte `i` to byte `n` does,
/// starting in `cur`, to which a reference is held.
pub open spec fn walk_did(
    v0: &Vfs,
    v: &Vfs,
    path: Seq<u8>,
    i: int,
    n: int,
    cur: usize,
    left: nat,
    r: Result<usize, i32>,
) -> bool
    decreases
            left,
            1int,
            if i < n {
                n - i
            } else {
                0
            },
{
    let d = v0.fs.inodes@[cur as int];
    let is_dir = type_bits(d.i_mode) == mode::S_IFDIR;
    if i >= n {
        if is_dir {
            r == Ok::<usize, i32>(cur) && *v == *v0
        } else {
            r == Err::<usize, i32>(ENOTDIR) && put_back(v0, v, cur)
        }
    } else if path[i] == 47 {
        walk_did(v0, v, path, i + 1, n, cur, left, r)
    } else {
        let b = i + 1 + comp_len(path, i + 1, n);
        if b - i > NAME_MAX {
            r == Err::<usize, i32>(ENAMETOOLONG) && put_back(v0, v, cur)
        } else if !is_dir {
            r == Err::<usize, i32>(ENOTDIR) && put_back(v0, v, cur)
        } else if !may(&v0.fs, d, MAY_EXEC) {
            r == Err::<usize, i32>(EACCES) && put_back(v0, v, cur)
        } else {
            exists|v1: Vfs, r1: Result<usize, i32>|
                {
                    &&& #[trigger] lookup_did(v0, &v1, cur, path.subrange(i, b), r1)
                    &&& match r1 {
                        Err(e) => r == Err::<usize, i32>(e) && put_back(&v1, v, cur),
                        Ok(next) => exists|v2: Vfs, r2: Result<usize, i32>|
                            {
                                &&& #[trigger] any_state(&v2, r2)
                                &&& follow_did(&v1, &v2, cur, next, left, r2)
                                &&& match r2 {
                                    Err(e) => r == Err::<usize, i32>(e) && *v == v2,
                                    Ok(nx) => walk_did(&v2, v, path, b, n, nx, left, r),
                                }
                            },
                    }
                }
        }
    }
}

/// What going to the directory of the last part of a path does, starting in `start`.
pub open spec fn dirs_did(v0: &Vfs, v: &Vfs, path: Seq<u8>, start: usize, left: nat, r: Result<usize, i32>) -> bool
    decreases left, 2int, 0int,
{
    exists|v1: Vfs|
        {
            &&& #[trigger] took_one(v0, &v1, start)
            &&& walk_did(&v1, v, path, 0, dir_len(path), start, left, r)
        }
}

/// What resolving a path does, starting in `start`; where the last part is a
/// symbolic link, it is followed if that is asked for.
pub open spec fn namei_did(
    v0: &Vfs,
    v: &Vfs,
    path: Seq<u8>,
    start: usize,
    follow: bool,
    left: nat,
    r: Result<usize, i32>,
) -> bool
    decreases left, 3int, 0int,
{
    exists|v1: Vfs, r1: Result<usize, i32>|
        {
            &&& #[trigger] any_state(&v1, r1)
            &&& dirs_did(v0, &v1, path, start, left, r1)
            &&& match r1 {
                Err(e) => r == Err::<usize, i32>(e) && *v == v1,
                Ok(dir) => if last_part(path).len() == 0 {
                    r == Ok::<usize, i32>(dir) && *v == v1
                } else {
                    exists|v2: Vfs, r2: Result<usize, i32>|
                        {
                            &&& #[trigger] lookup_did(&v1, &v2, dir, last_part(path), r2)
                            &&& match r2 {
                                Err(e) => r == Err::<usize, i32>(e) && put_back(&v2, v, dir),
                                Ok(n) => if follow {
                                    follow_did(&v2, v, dir, n, left, r)
                                } else {
                                    r == Ok::<usize, i32>(n) && put_back(&v2, v, dir)
                                },
                            }
                        }
                },
            }
        }
}

/// Follows inode `n`, found in directory `dir`, where it is a symbolic link.
/// References to both are held, and given back.
#[verifier::spinoff_prover]
#[verifier::rlimit(80)]
fn follow_link(v: &mut Vfs, dir: usize, n: usize, left: u32) -> (r: Result<usize, i32>)
    requires
        can_walk(old(v), dir, n, left as int),
        dir < 64,
        n < 64,
        left <= MAX_LINKS,
    ensures
        follow_did(old(v), final(v), dir, n, left as nat, r),
        walked(old(v), final(v), dir, n, out_ref(r)),
        r is Ok ==> r->Ok_0 < 64,
    decreases left, 0int, 0int,
{
    let ghost v0 = *v;
    let ghost s0 = v.fs.inodes@;
    let ghost room = 2 * left + 3;
    proof {
        lemma_book_room(s0, dir, n, room);
        lemma_book_less(s0, dir, n, room, 0);
    }
    if !mode::is_lnk(v.fs.inodes[n].i_mode) {
        put(v, dir);
        proof {
            lemma_swap_keep(s0, v.fs.inodes@, dir, n);
        }
        return Ok(n);
    }
    if left == 0 {
        put_both(v, dir, n);
        return Err(ELOOP);
    }
    let target: Option<Vec<u8>> = read_symlink_target(&mut v.fs, n);
    let ghost v1 = *v;
    assert(only_read(&v0, &v1));
    match target {
        None => {
            put_both(v, dir, n);
            Err(EIO)
        },
        Some(t) => {
            if t.len() > 0 && t[0] == 47 {
                let root: usize = v.fs.root_inode;
                put(v, dir);
                let ghost v2 = *v;
                let ghost s1 = v.fs.inodes@;
                assert(put_back(&v1, &v2, dir));
                proof {
                    lemma_after_put(s0, s1, dir, n, room);
                }
                let mut r: Result<usize, i32> = Err(ENOENT);
                if root != NIL {
                    r = resolve(v, t.as_slice(), root, true, left - 1);
                } else {
                    proof {
                        lemma_swap_none(s1);
                    }
                }
                let ghost v3 = *v;
                let ghost s2 = v.fs.inodes@;
                proof {
                    lemma_still_held(s0, s1, s2, dir, n, out_ref(r));
                }
                put(v, n);
                assert(put_back(&v3, v, n));
                proof {
                    lemma_swap_around(s0, s1, s2, v.fs.inodes@, dir, n, out_ref(r));
                }
                r
            } else {
                proof {
                    lemma_book_all(s0, dir, n, room - 2);
                }
                let r = resolve(v, t.as_slice(), dir, true, left - 1);
                let ghost v2 = *v;
                let ghost s1 = v.fs.inodes@;
                assert(any_state(&v2, r));
                proof {
                    lemma_both_held(s0, s1, dir, n, out_ref(r));
                }
                put(v, dir);
                let ghost v3 = *v;
                let ghost s2 = v.fs.inodes@;
                assert(put_back(&v2, &v3, dir));
                proof {
                    lemma_other_held(s0, s1, s2, dir, n, out_ref(r));
                }
                put(v, n);
                assert(put_back(&v3, v, n));
                assert(put_two(&v2, v, dir, n));
                proof {
                    lemma_swap_out(s0, s1, s2, v.fs.inodes@, dir, n, out_ref(r));
                }
                r
            }
        },
    }
}

/// Gives references to two inodes back.
fn put_both(v: &mut Vfs, a: usize, b: usize)
    requires
        old(v).wf(),
        tied(old(v).fs.supers@, old(v).fs.inodes@),
        book(old(v).fs.inodes@, a, b, 0),
        a < 64,
        b < 64,
    ensures
        put_two(old(v), final(v), a, b),
        walked(old(v), final(v), a, b, NIL),
{
    let ghost s0 = v.fs.inodes@;
    proof {
        let i = s0[a as int];
    }
    put(v, a);
    let ghost v1 = *v;
    let ghost s1 = v.fs.inodes@;
    assert(put_back(old(v), &v1, a));
    proof {
        lemma_swap_keep(s0, s1, a, b);
        let i = s1[b as int];
    }
    put(v, b);
    assert(put_back(&v1, v, b));
    proof {
        lemma_swap_seq(s0, s1, v.fs.inodes@, a, b, b, NIL);
    }
}

/// The books after one of two references that are held was given back.
proof fn lemma_after_put(s0: Seq<Inode>, s1: Seq<Inode>, a: usize, b: usize, room: int)
    requires
        book(s0, a, b, room),
        swapped(s0, s1, a, NIL, NIL),
        room >= 2,
    ensures
        book(s1, NIL, NIL, room - 2),
{
    assert forall|k: int| 0 <= k < 64 implies {
        let i = #[trigger] s1[k];
        &&& 0 <= base_count(s1, k, NIL, NIL)
        &&& crate::fs::refs::at_least_one(base_count(s1, k, NIL, NIL)) + room - 2 <= u16::MAX
    } by {
        let i0 = s0[k];
        assert(0 <= base_count(s0, k, a, b));
    }
}

/// Of two references that were held and of which one was given back, the other is
/// still held after a third was taken.
proof fn lemma_still_held(s0: Seq<Inode>, s1: Seq<Inode>, s2: Seq<Inode>, a: usize, b: usize, c: usize)
    requires
        book(s0, a, b, 0),
        b < 64,
        swapped(s0, s1, a, NIL, NIL),
        swapped(s1, s2, NIL, NIL, c),
    ensures
        s2[b as int].i_count > 0,
{
    let i0 = s0[b as int];
    let i1 = s1[b as int];
    let i2 = s2[b as int];
    assert(0 <= base_count(s0, b as int, a, b));
}

proof fn lemma_both_held(s0: Seq<Inode>, s1: Seq<Inode>, a: usize, b: usize, c: usize)
    requires
        book(s0, a, b, 0),
        a < 64,
        swapped(s0, s1, NIL, NIL, c),
    ensures
        s1[a as int].i_count > 0,
{
    let i0 = s0[a as int];
    let i1 = s1[a as int];
    assert(0 <= base_count(s0, a as int, a, b));
}

proof fn lemma_other_held(s0: Seq<Inode>, s1: Seq<Inode>, s2: Seq<Inode>, a: usize, b: usize, c: usize)
    requires
        book(s0, a, b, 0),
        b < 64,
        swapped(s0, s1, NIL, NIL, c),
        swapped(s1, s2, a, NIL, NIL),
    ensures
        s2[b as int].i_count > 0,
{
    let i0 = s0[b as int];
    let i1 = s1[b as int];
    let i2 = s2[b as int];
    assert(0 <= base_count(s0, b as int, a, b));
}

/// Goes through the directories of `path` from byte `i` to byte `n`, starting in
/// `cur`, to which a reference is held.
#[verifier::spinoff_prover]
#[verifier::rlimit(80)]
fn walk(v: &mut Vfs, path: &[u8], i: usize, n: usize, cur: usize, left: u32) -> (r: Result<usize, i32>)
    requires
        can_walk(old(v), cur, NIL, left as int),
        cur < 64,
        left <= MAX_LINKS,
        i <= n <= path@.len(),
    ensures
        walk_did(old(v), final(v), path@, i as int, n as int, cur, left as nat, r),
        walked(old(v), final(v), cur, NIL, out_ref(r)),
        r is Ok ==> r->Ok_0 < 64,
    decreases left, 1int, n - i,
{
    let ghost v0 = *v;
    let ghost s0 = v.fs.inodes@;
    let ghost room = 2 * left + 3;
    proof {
        lemma_book_room(s0, cur, NIL, room);
        lemma_book_less(s0, cur, NIL, room, 0);
    }
    if i >= n {
        if mode::is_dir(v.fs.inodes[cur].i_mode) {
            proof {
                lemma_stay(s0, cur);
            }
            return Ok(cur);
        }
        put(v, cur);
        return Err(ENOTDIR);
    }
    if path[i] == 47 {
        return walk(v, path, i + 1, n, cur, left);
    }
    let b: usize = comp_end(path, i, n);
    if b - i > NAME_MAX {
        put(v, cur);
        return Err(ENAMETOOLONG);
    }
    if !mode::is_dir(v.fs.inodes[cur].i_mode) {
        put(v, cur);
        return Err(ENOTDIR);
    }
    if !permission(&v.fs, cur, MAY_EXEC) {
        put(v, cur);
        return Err(EACCES);
    }
    let name: Vec<u8> = copy_range(path, i, b);
    let r1 = lookup_one(v, cur, name.as_slice());
    let ghost v1 = *v;
    let ghost s1 = v.fs.inodes@;
    assert(lookup_did(&v0, &v1, cur, path@.subrange(i as int, b as int), r1));
    match r1 {
        Err(e) => {
            proof {
                lemma_book_take(s0, s1, cur, NIL, room);
                lemma_book_room(s1, cur, NIL, room);
            }
            put(v, cur);
            proof {
                lemma_swap_both(s0, s1, v.fs.inodes@, cur, NIL, NIL);
            }
            Err(e)
        },
        Ok(next) => {
            proof {
                lemma_book_take(s0, s1, cur, next, room);
            }
            let r2 = follow_link(v, cur, next, left);
            let ghost v2 = *v;
            let ghost s2 = v.fs.inodes@;
            assert(any_state(&v2, r2));
            proof {
                lemma_swap_both(s0, s1, s2, cur, next, out_ref(r2));
            }
            match r2 {
                Err(e) => Err(e),
                Ok(nx) => {
                    proof {
                        lemma_book_swap(s0, s2, cur, NIL, nx, room);
                    }
                    let r = walk(v, path, b, n, nx, left);
                    proof {
                        lemma_swap_seq(s0, s2, v.fs.inodes@, cur, NIL, nx, out_ref(r));
                    }
                    r
                },
            }
        },
    }
}

/// Giving a reference back and taking it again.
proof fn lemma_stay(s: Seq<Inode>, n: usize)
    requires
        book(s, n, NIL, 0),
    ensures
        swapped(s, s, n, NIL, n),
{
    assert forall|k: int| 0 <= k < 64 implies {
        let m = (#[trigger] s[k]).i_count;
        &&& base_count(s, k, n, NIL) + crate::fs::refs::one_if(k == n) <= m
        &&& m <= crate::fs::refs::at_least_one(base_count(s, k, n, NIL)) + crate::fs::refs::one_if(k == n)
    } by {
        assert(0 <= base_count(s, k, n, NIL));
    }
}

/// Where the part of a path that starts at `i` ends.
fn comp_end(path: &[u8], i: usize, n: usize) -> (b: usize)
    requires
        i < n <= path@.len(),
    ensures
        b == i + 1 + comp_len(path@, i + 1, n as int),
        i < b <= n,
{
    let mut b: usize = i + 1;
    while b < n && path[b] != 47
        invariant
            i < b <= n <= path@.len(),
            i + 1 + comp_len(path@, i + 1, n as int) == b + comp_len(path@, b as int, n as int),
        decreases n - b,
    {
        b = b + 1;
    }
    b
}

/// Where the last part of a path starts.
fn find_last(path: &[u8]) -> (n: usize)
    ensures
        n == last_start(path@, path@.len() as int),
        n <= path@.len(),
{
    let mut n: usize = path.len();
    while n > 0 && path[n - 1] != 47
        invariant
            n <= path@.len(),
            last_start(path@, path@.len() as int) == last_start(path@, n as int),
        decreases n,
    {
        n = n - 1;
    }
    n
}

/// Goes to the directory of the last part of a path, starting in `start`.
fn dir_namei_base(v: &mut Vfs, path: &[u8], start: usize, left: u32) -> (r: Result<usize, i32>)
    requires
        can_walk(old(v), NIL, NIL, left as int),
        start < 64,
        left <= MAX_LINKS,
    ensures
        dirs_did(old(v), final(v), path@, start, left as nat, r),
        walked(old(v), final(v), NIL, NIL, out_ref(r)),
        r is Ok ==> r->Ok_0 < 64,
    decreases left, 2int, 0int,
{
    let ghost s0 = v.fs.inodes@;
    let ghost room = 2 * left + 3;
    proof {
        lemma_book_room(s0, NIL, NIL, room);
        lemma_book_less(s0, NIL, NIL, room, 0);
    }
    let p: usize = find_last(path);
    let n: usize = if p > 0 {
        p - 1
    } else {
        0
    };
    take(v, start);
    let ghost v1 = *v;
    let ghost s1 = v.fs.inodes@;
    proof {
        lemma_book_swap(s0, s1, NIL, NIL, start, room);
    }
    let r = walk(v, path, 0, n, start, left);
    proof {
        lemma_swap_seq(s0, s1, v.fs.inodes@, NIL, NIL, start, out_ref(r));
    }
    r
}

/// Resolves a path, starting in `start`.
#[verifier::spinoff_prover]
#[verifier::rlimit(80)]
fn resolve(v: &mut Vfs, path: &[u8], start: usize, follow: bool, left: u32) -> (r: Result<usize, i32>)
    requires
        can_walk(old(v), NIL, NIL, left as int),
        start < 64,
        left <= MAX_LINKS,
    ensures
        namei_did(old(v), final(v), path@, start, follow, left as nat, r),
        walked(old(v), final(v), NIL, NIL, out_ref(r)),
        r is Ok ==> r->Ok_0 < 64,
    decreases left, 3int, 0int,
{
    let ghost s0 = v.fs.inodes@;
    let ghost room = 2 * left + 3;
    proof {
        lemma_book_less(s0, NIL, NIL, room, 0);
    }
    let r1 = dir_namei_base(v, path, start, left);
    let ghost v1 = *v;
    let ghost s1 = v.fs.inodes@;
    assert(any_state(&v1, r1));
    let dir: usize = match r1 {
        Err(e) => {
            return Err(e);
        },
        Ok(d) => d,
    };
    let p: usize = find_last(path);
    let last: Vec<u8> = copy_range(path, p, path.len());
    assert(last@ =~= last_part(path@));
    if last.len() == 0 {
        return Ok(dir);
    }
    proof {
        lemma_book_swap(s0, s1, NIL, NIL, dir, room);
        lemma_book_room(s1, dir, NIL, room);
        lemma_book_less(s1, dir, NIL, room, 0);
    }
    let r2 = lookup_one(v, dir, last.as_slice());
    let ghost v2 = *v;
    let ghost s2 = v.fs.inodes@;
    assert(lookup_did(&v1, &v2, dir, last_part(path@), r2));
    match r2 {
        Err(e) => {
            proof {
                lemma_book_take(s1, s2, dir, NIL, room);
                lemma_book_room(s2, dir, NIL, room);
            }
            put(v, dir);
            proof {
                lemma_swap_both(s1, s2, v.fs.inodes@, dir, NIL, NIL);
                lemma_swap_seq(s0, s1, v.fs.inodes@, NIL, NIL, dir, NIL);
            }
            Err(e)
        },
        Ok(n) => {
            proof {
                lemma_book_take(s1, s2, dir, n, room);
                lemma_book_less(s2, dir, n, room, 0);
            }
            if follow {
                let r = follow_link(v, dir, n, left);
                proof {
                    lemma_swap_both(s1, s2, v.fs.inodes@, dir, n, out_ref(r));
                    lemma_swap_seq(s0, s1, v.fs.inodes@, NIL, NIL, dir, out_ref(r));
                }
                r
            } else {
                proof {
                    lemma_book_room(s2, dir, n, room);
                }
                put(v, dir);
                proof {
                    lemma_swap_keep(s2, v.fs.inodes@, dir, n);
                    lemma_swap_both(s1, s2, v.fs.inodes@, dir, n, n);
                    lemma_swap_seq(s0, s1, v.fs.inodes@, NIL, NIL, dir, n);
                }
                Ok(n)
            }
        },
    }
}

// ---- what is done by name ----

/// Names can be resolved, also while one inode more is held.
pub open spec fn ready(v: &Vfs) -> bool {
    can_walk(v, NIL, NIL, MAX_LINKS + 1)
}

fn goes_up(fs: &Fs, n: usize, fuel: u32) -> (r: bool)
    requires
        fs.supers@.len() == 4,
    ensures
        r == ends(fs.supers@, fs.root_inode, n, fuel as nat),
    decreases fuel,
{
    if n == fs.root_inode {
        return true;
    }
    for t in 0..4usize
        invariant
            fs.supers@.len() == 4,
            n != fs.root_inode,
            forall|u: int|
                0 <= u < t && (#[trigger] fs.supers@[u]).s_mounted == n && fs.supers@[u].s_covered
                    != NIL && fs.supers@[u].s_covered != n ==> fuel > 0 && ends(
                    fs.supers@,
                    fs.root_inode,
                    fs.supers@[u].s_covered,
                    (fuel - 1) as nat,
                ),
    {
        let s: &SuperBlock = &fs.supers[t];
        if s.s_mounted == n && s.s_covered != NIL && s.s_covered != n {
            if fuel == 0 || !goes_up(fs, s.s_covered, fuel - 1) {
                assert(fs.supers@[t as int].s_mounted == n);
                return false;
            }
        }
    }
    true
}

/// Whether names can be resolved.
pub fn is_ready(v: &Vfs) -> (r: bool)
    requires
        v.wf(),
    ensures
        r == ready(v),
{
    for s in 0..4usize
        invariant
            v.wf(),
            forall|k: int|
                0 <= k < s ==> minix::dir::sizes_ok(#[trigger] v.fs.supers@[k])
                    || v.fs.supers@[k].s_ninodes == 0,
    {
        let sb: &SuperBlock = &v.fs.supers[s];
        let known: bool = (sb.s_dirsize == 16 && sb.s_namelen == 14) || (sb.s_dirsize == 32
            && sb.s_namelen == 30);
        if !known && sb.s_ninodes != 0 {
            assert(!minix::dir::sizes_ok(v.fs.supers@[s as int]));
            return false;
        }
    }
    for n in 0..64usize
        invariant
            v.wf(),
            forall|k: int| 0 <= k < n ==> node_tied(v.fs.supers@, #[trigger] v.fs.inodes@[k]),
            forall|k: usize| k < n ==> #[trigger] ends(v.fs.supers@, v.fs.root_inode, k, 4),
            forall|k: int| 0 <= k < n ==> (#[trigger] v.fs.inodes@[k]).i_count <= 65518,
    {
        let i: Inode = v.fs.inodes[n];
        assert(v.fs.inodes@[n as int].links_ok());
        if i.i_op == FsType::Minix && i.i_sb != NIL {
            let sb: &SuperBlock = &v.fs.supers[i.i_sb];
            let known: bool = (sb.s_dirsize == 16 && sb.s_namelen == 14) || (sb.s_dirsize == 32
                && sb.s_namelen == 30);
            if !known {
                assert(!node_tied(v.fs.supers@, v.fs.inodes@[n as int]));
                return false;
            }
        }
        if i.i_op == FsType::Ext2 && i.i_sb == NIL {
            assert(!node_tied(v.fs.supers@, v.fs.inodes@[n as int]));
            return false;
        }
        if i.i_count > 65518 {
            proof {
                assert(base_count(v.fs.inodes@, n as int, NIL, NIL) == i.i_count);
            }
            return false;
        }
        if !goes_up(&v.fs, n, 4) {
            assert(!ends(v.fs.supers@, v.fs.root_inode, n, 4));
            return false;
        }
    }
    proof {
        assert forall|k: int| 0 <= k < 64 implies {
            let i = #[trigger] v.fs.inodes@[k];
            &&& 0 <= base_count(v.fs.inodes@, k, NIL, NIL)
            &&& crate::fs::refs::at_least_one(base_count(v.fs.inodes@, k, NIL, NIL)) + 17 <= u16::MAX
        } by {
            let c = v.fs.inodes@[k].i_count;
        }
    }
    true
}

/// The state `v` is that of `v0` after the directory of the last part of a path was
/// looked for.
pub open spec fn dir_namei_did(v0: &Vfs, v: &Vfs, path: Seq<u8>, r: Result<usize, i32>) -> bool {
    if start_of(&v0.fs, path) == NIL {
        r == Err::<usize, i32>(ENOENT) && *v == *v0
    } else {
        dirs_did(v0, v, path, start_of(&v0.fs, path), MAX_LINKS as nat, r)
    }
}

/// The state `v` is that of `v0` after a path was resolved.
pub open spec fn resolved(v0: &Vfs, v: &Vfs, path: Seq<u8>, follow: bool, r: Result<usize, i32>) -> bool {
    if start_of(&v0.fs, path) == NIL {
        r == Err::<usize, i32>(ENOENT) && *v == *v0
    } else {
        namei_did(v0, v, path, start_of(&v0.fs, path), follow, MAX_LINKS as nat, r)
    }
}

fn find_start(fs: &Fs, path: &[u8]) -> (r: usize)
    ensures
        r == start_of(fs, path@),
{
    if path.len() > 0 && path[0] == 47 {
        fs.root_inode
    } else {
        fs.pwd_inode
    }
}

/// The directory of the last part of a path, and that part.
pub fn dir_namei(v: &mut Vfs, path: &[u8]) -> (r: Result<(usize, Vec<u8>), i32>)
    requires
        can_walk(old(v), NIL, NIL, MAX_LINKS as int),
    ensures
        match r {
            Ok((dir, last)) => {
                &&& dir < 64
                &&& last@ == last_part(path@)
                &&& dir_namei_did(old(v), final(v), path@, Ok(dir))
                &&& walked(old(v), final(v), NIL, NIL, dir)
            },
            Err(e) => {
                &&& dir_namei_did(old(v), final(v), path@, Err(e))
                &&& walked(old(v), final(v), NIL, NIL, NIL)
            },
        },
{
    let start: usize = find_start(&v.fs, path);
    proof {
        lemma_swap_none(v.fs.inodes@);
    }
    if start == NIL {
        return Err(ENOENT);
    }
    match dir_namei_base(v, path, start, MAX_LINKS) {
        Err(e) => Err(e),
        Ok(dir) => {
            let p: usize = find_last(path);
            let last: Vec<u8> = copy_range(path, p, path.len());
            assert(last@ =~= last_part(path@));
            Ok((dir, last))
        },
    }
}

/// The inode that a path leads to.
pub fn namei(v: &mut Vfs, path: &[u8]) -> (r: Result<usize, i32>)
    requires
        can_walk(old(v), NIL, NIL, MAX_LINKS as int),
    ensures
        resolved(old(v), final(v), path@, true, r),
        walked(old(v), final(v), NIL, NIL, out_ref(r)),
        r is Ok ==> r->Ok_0 < 64,
{
    let start: usize = find_start(&v.fs, path);
    proof {
        lemma_swap_none(v.fs.inodes@);
    }
    if start == NIL {
        return Err(ENOENT);
    }
    resolve(v, path, start, true, MAX_LINKS)
}

/// The inode that a path leads to, where the last part is not followed.
pub fn lnamei(v: &mut Vfs, path: &[u8]) -> (r: Result<usize, i32>)
    requires
        can_walk(old(v), NIL, NIL, MAX_LINKS as int),
    ensures
        resolved(old(v), final(v), path@, false, r),
        walked(old(v), final(v), NIL, NIL, out_ref(r)),
        r is Ok ==> r->Ok_0 < 64,
{
    let start: usize = find_start(&v.fs, path);
    proof {
        lemma_swap_none(v.fs.inodes@);
    }
    if start == NIL {
        return Err(ENOENT);
    }
    resolve(v, path, start, false, MAX_LINKS)
}

/// What the file system of directory `dir` does to make a regular file.
pub open spec fn fs_create(v0: &Vfs, v: &Vfs, dir: usize, name: Seq<u8>, m: u16, r: Result<usize, i32>) -> bool {
    let fm = (m & !mode::S_IFMT) | mode::S_IFREG;
    match v0.fs.inodes@[dir as int].i_op {
        FsType::Minix => *v == (Vfs { fs: v.fs, ..*v0 }) && minix::nodes::mknod_did(
            &v0.fs,
            &v.fs,
            dir,
            name,
            fm,
            0,
            r,
        ),
        FsType::Ext2 => *v == (Vfs { fs: v.fs, ..*v0 }) && ext4::nodes::mknod_did(
            &v0.fs,
            &v.fs,
            dir,
            name,
            fm,
            ext4::file_type::EXT4_FT_REG_FILE,
            r,
        ),
        FsType::Tmpfs => *v == (Vfs { fs: v.fs, tmpfs: v.tmpfs, ..*v0 }) && tmpfs::create_did(
            &v0.fs,
            &v.fs,
            &v0.tmpfs,
            &v.tmpfs,
            dir,
            name,
            m,
            r,
        ),
        _ => r == Err::<usize, i32>(ENOTDIR) && *v == *v0,
    }
}

/// What the file system of directory `dir` does to make a file of any kind.
pub open spec fn fs_mknod(
    v0: &Vfs,
    v: &Vfs,
    dir: usize,
    name: Seq<u8>,
    m: u16,
    rdev: u16,
    r: Result<usize, i32>,
) -> bool {
    match v0.fs.inodes@[dir as int].i_op {
        FsType::Minix => *v == (Vfs { fs: v.fs, ..*v0 }) && minix::nodes::mknod_did(
            &v0.fs,
            &v.fs,
            dir,
            name,
            m,
            rdev,
            r,
        ),
        FsType::Ext2 => *v == (Vfs { fs: v.fs, ..*v0 }) && ext4::nodes::mknod_did(
            &v0.fs,
            &v.fs,
            dir,
            name,
            m,
            ext4::nodes::type_of(m),
            r,
        ),
        _ => r == Err::<usize, i32>(ENOTDIR) && *v == *v0,
    }
}

/// What the file system of directory `dir` does to make a directory.
pub open spec fn fs_mkdir(v0: &Vfs, v: &Vfs, dir: usize, name: Seq<u8>, m: u16, r: Result<usize, i32>) -> bool {
    match v0.fs.inodes@[dir as int].i_op {
        FsType::Minix => *v == (Vfs { fs: v.fs, ..*v0 }) && minix::nodes::mkdir_did(
            &v0.fs,
            &v.fs,
            dir,
            name,
            m,
            r,
        ),
        FsType::Ext2 => *v == (Vfs { fs: v.fs, ..*v0 }) && ext4::nodes::mkdir_did(
            &v0.fs,
            &v.fs,
            dir,
            name,
            m,
            r,
        ),
        _ => r == Err::<usize, i32>(ENOTDIR) && *v == *v0,
    }
}

/// What the file system of directory `dir` does to remove a directory.
pub open spec fn fs_rmdir(v0: &Vfs, v: &Vfs, dir: usize, name: Seq<u8>, r: i32) -> bool {
    match v0.fs.inodes@[dir as int].i_op {
        FsType::Minix => *v == (Vfs { fs: v.fs, ..*v0 }) && minix::nodes::removed_dir(
            &v0.fs,
            &v.fs,
            dir,
            name,
            r,
        ),
        FsType::Ext2 => *v == (Vfs { fs: v.fs, ..*v0 }) && ext4::nodes::rmdir_did(
            &v0.fs,
            &v.fs,
            dir,
            name,
            r,
        ),
        _ => r == ENOTDIR && *v == *v0,
    }
}

/// What the file system of directory `dir` does to remove a file.
pub open spec fn fs_unlink(v0: &Vfs, v: &Vfs, dir: usize, name: Seq<u8>, r: i32) -> bool {
    match v0.fs.inodes@[dir as int].i_op {
        FsType::Minix => *v == (Vfs { fs: v.fs, ..*v0 }) && minix::nodes::removed_file(
            &v0.fs,
            &v.fs,
            dir,
            name,
            r,
        ),
        FsType::Ext2 => *v == (Vfs { fs: v.fs, ..*v0 }) && ext4::nodes::unlink_did(
            &v0.fs,
            &v.fs,
            dir,
            name,
            r,
        ),
        _ => r == ENOTDIR && *v == *v0,
    }
}

/// What the file system of directory `dir` does to enter a file under one more name.
pub open spec fn fs_link(v0: &Vfs, v: &Vfs, target: usize, dir: usize, name: Seq<u8>, r: i32) -> bool {
    match v0.fs.inodes@[dir as int].i_op {
        FsType::Minix => *v == (Vfs { fs: v.fs, ..*v0 }) && minix::nodes::linked(
            &v0.fs,
            &v.fs,
            target,
            dir,
            name,
            r,
        ),
        FsType::Ext2 => *v == (Vfs { fs: v.fs, ..*v0 }) && ext4::nodes::link_did(
            &v0.fs,
            &v.fs,
            target,
            dir,
            name,
            r,
        ),
        _ => r == ENOTDIR && *v == *v0,
    }
}

/// A directory in which the file system on disk can work: a reference to it is held.
pub open spec fn can_change(v: &Vfs, dir: usize) -> bool {
    &&& v.wf()
    &&& dir < 64
    &&& tied(v.fs.supers@, v.fs.inodes@)
    &&& v.fs.inodes@[dir as int].i_count > 0
    &&& forall|k: int| 0 <= k < 64 ==> (#[trigger] v.fs.inodes@[k]).i_count < u16::MAX
}

fn create_in(v: &mut Vfs, dir: usize, name: &[u8], m: u16) -> (r: Result<usize, i32>)
    requires
        can_change(old(v), dir),
    ensures
        final(v).wf(),
        fs_create(old(v), final(v), dir, name@, m, r),
        r is Ok ==> r->Ok_0 < 64,
{
    assert(node_tied(v.fs.supers@, v.fs.inodes@[dir as int]));
    match v.fs.inodes[dir].i_op {
        FsType::Minix => minix::nodes::create(&mut v.fs, dir, name, m),
        FsType::Ext2 => ext4::nodes::create(&mut v.fs, dir, name, m),
        FsType::Tmpfs => v.tmpfs.create(&mut v.fs, dir, name, m),
        _ => Err(ENOTDIR),
    }
}

fn mknod_in(v: &mut Vfs, dir: usize, name: &[u8], m: u16, rdev: u16) -> (r: Result<usize, i32>)
    requires
        can_change(old(v), dir),
    ensures
        final(v).wf(),
        fs_mknod(old(v), final(v), dir, name@, m, rdev, r),
        r is Ok ==> r->Ok_0 < 64,
{
    assert(node_tied(v.fs.supers@, v.fs.inodes@[dir as int]));
    match v.fs.inodes[dir].i_op {
        FsType::Minix => minix::nodes::mknod(&mut v.fs, dir, name, m, rdev),
        FsType::Ext2 => ext4::nodes::mknod(&mut v.fs, dir, name, m, rdev),
        _ => Err(ENOTDIR),
    }
}

fn mkdir_in(v: &mut Vfs, dir: usize, name: &[u8], m: u16) -> (r: Result<usize, i32>)
    requires
        can_change(old(v), dir),
    ensures
        final(v).wf(),
        fs_mkdir(old(v), final(v), dir, name@, m, r),
        r is Ok ==> r->Ok_0 < 64,
{
    assert(node_tied(v.fs.supers@, v.fs.inodes@[dir as int]));
    match v.fs.inodes[dir].i_op {
        FsType::Minix => minix::nodes::mkdir(&mut v.fs, dir, name, m),
        FsType::Ext2 => ext4::nodes::mkdir(&mut v.fs, dir, name, m),
        _ => Err(ENOTDIR),
    }
}

fn rmdir_in(v: &mut Vfs, dir: usize, name: &[u8]) -> (r: i32)
    requires
        can_change(old(v), dir),
    ensures
        final(v).wf(),
        fs_rmdir(old(v), final(v), dir, name@, r),
{
    assert(node_tied(v.fs.supers@, v.fs.inodes@[dir as int]));
    match v.fs.inodes[dir].i_op {
        FsType::Minix => minix::nodes::rmdir(&mut v.fs, dir, name),
        FsType::Ext2 => ext4::nodes::rmdir(&mut v.fs, dir, name),
        _ => ENOTDIR,
    }
}

fn unlink_in(v: &mut Vfs, dir: usize, name: &[u8]) -> (r: i32)
    requires
        can_change(old(v), dir),
    ensures
        final(v).wf(),
        fs_unlink(old(v), final(v), dir, name@, r),
{
    assert(node_tied(v.fs.supers@, v.fs.inodes@[dir as int]));
    match v.fs.inodes[dir].i_op {
        FsType::Minix => minix::nodes::unlink(&mut v.fs, dir, name),
        FsType::Ext2 => ext4::nodes::unlink(&mut v.fs, dir, name),
        _ => ENOTDIR,
    }
}

fn link_in(v: &mut Vfs, target: usize, dir: usize, name: &[u8]) -> (r: i32)
    requires
        can_change(old(v), dir),
        target < 64,
    ensures
        final(v).wf(),
        fs_link(old(v), final(v), target, dir, name@, r),
{
    assert(node_tied(v.fs.supers@, v.fs.inodes@[dir as int]));
    match v.fs.inodes[dir].i_op {
        FsType::Minix => minix::nodes::link(&mut v.fs, target, dir, name),
        FsType::Ext2 => ext4::nodes::link(&mut v.fs, target, dir, name),
        _ => ENOTDIR,
    }
}

/// The state `v` is that of `v0` after the directory of the last part of a path was
/// looked for, in which that part is to be made or removed.
pub open spec fn parent_did(v0: &Vfs, v: &Vfs, path: Seq<u8>, r: Result<usize, i32>) -> bool {
    exists|v1: Vfs, dr: Result<usize, i32>|
        {
            &&& #[trigger] dir_namei_did(v0, &v1, path, dr)
            &&& match dr {
                Err(e) => r == Err::<usize, i32>(e) && *v == v1,
                Ok(dir) => if last_part(path).len() == 0 {
                    r == Err::<usize, i32>(ENOENT) && put_back(&v1, v, dir)
                } else if !may(&v1.fs, v1.fs.inodes@[dir as int], MAY_WRITE) {
                    r == Err::<usize, i32>(EACCES) && put_back(&v1, v, dir)
                } else {
                    r == Ok::<usize, i32>(dir) && *v == v1
                },
            }
        }
}

/// Finds the directory in which the last part of a path is to be made or removed.
fn find_parent(v: &mut Vfs, path: &[u8]) -> (r: Result<(usize, Vec<u8>), i32>)
    requires
        ready(old(v)),
    ensures
        final(v).wf(),
        match r {
            Ok((dir, last)) => {
                &&& can_change(final(v), dir)
                &&& last@ == last_part(path@)
                &&& parent_did(old(v), final(v), path@, Ok(dir))
            },
            Err(e) => parent_did(old(v), final(v), path@, Err(e)),
        },
{
    let ghost s0 = v.fs.inodes@;
    proof {
        lemma_book_less(s0, NIL, NIL, 17, 15);
    }
    match dir_namei(v, path) {
        Err(e) => {
            let ghost v1 = *v;
            assert(dir_namei_did(old(v), &v1, path@, Err(e)));
            Err(e)
        },
        Ok((dir, last)) => {
            let ghost v1 = *v;
            assert(dir_namei_did(old(v), &v1, path@, Ok(dir)));
            proof {
                lemma_book_swap(s0, v.fs.inodes@, NIL, NIL, dir, 15);
                lemma_book_room(v.fs.inodes@, dir, NIL, 15);
            }
            if last.len() == 0 {
                put(v, dir);
                return Err(ENOENT);
            }
            if !permission(&v.fs, dir, MAY_WRITE) {
                put(v, dir);
                return Err(EACCES);
            }
            Ok((dir, last))
        },
    }
}

/// Gives the directory back, and the new inode where there is one.
pub open spec fn finish_made(v0: &Vfs, v: &Vfs, dir: usize, nr: Result<usize, i32>, r: i64) -> bool {
    match nr {
        Ok(n) => r == 0 && put_two(v0, v, dir, n),
        Err(e) => r == -e && put_back(v0, v, dir),
    }
}

fn end_made(v: &mut Vfs, dir: usize, nr: Result<usize, i32>) -> (r: i64)
    requires
        old(v).wf(),
        dir < 64,
        nr is Ok ==> nr->Ok_0 < 64,
    ensures
        final(v).wf(),
        finish_made(old(v), final(v), dir, nr, r),
{
    iput(&mut v.fs, dir);
    let ghost v1 = *v;
    assert(put_back(old(v), &v1, dir));
    match nr {
        Ok(n) => {
            iput(&mut v.fs, n);
            assert(put_back(&v1, v, n));
            0
        },
        Err(e) => -(e as i64),
    }
}

/// What making a file by name does, with the answer `r`.
pub open spec fn do_mknod_did(v0: &Vfs, v: &Vfs, path: Seq<u8>, m: u16, rdev: u16, r: i64) -> bool {
    exists|v1: Vfs, pr: Result<usize, i32>|
        {
            &&& #[trigger] parent_did(v0, &v1, path, pr)
            &&& match pr {
                Err(e) => r == -e && *v == v1,
                Ok(dir) => exists|v2: Vfs, nr: Result<usize, i32>|
                    {
                        &&& #[trigger] fs_mknod(&v1, &v2, dir, last_part(path), m, rdev, nr)
                        &&& finish_made(&v2, v, dir, nr, r)
                    },
            }
        }
}

/// Makes a file of any kind.
pub fn do_mknod(v: &mut Vfs, path: &[u8], m: u16, rdev: u16) -> (r: i64)
    requires
        ready(old(v)),
    ensures
        final(v).wf(),
        do_mknod_did(old(v), final(v), path@, m, rdev, r),
{
    match find_parent(v, path) {
        Err(e) => {
            let ghost v1 = *v;
            assert(parent_did(old(v), &v1, path@, Err(e)));
            -(e as i64)
        },
        Ok((dir, last)) => {
            let ghost v1 = *v;
            assert(parent_did(old(v), &v1, path@, Ok(dir)));
            let nr = mknod_in(v, dir, last.as_slice(), m, rdev);
            let ghost v2 = *v;
            assert(fs_mknod(&v1, &v2, dir, last_part(path@), m, rdev, nr));
            end_made(v, dir, nr)
        },
    }
}

/// Finds where a symbolic link is to be made: the directory, to which a reference is
/// held, and the name. What the link leads to is not looked at.
pub fn do_symlink(v: &mut Vfs, path: &[u8]) -> (r: Result<(usize, Vec<u8>), i64>)
    requires
        ready(old(v)),
    ensures
        final(v).wf(),
        match r {
            Ok((dir, last)) => {
                &&& dir < 64
                &&& last@ == last_part(path@)
                &&& parent_did(old(v), final(v), path@, Ok(dir))
            },
            Err(c) => exists|e: i32| c == -e && #[trigger] parent_did(
                old(v),
                final(v),
                path@,
                Err(e),
            ),
        },
{
    match find_parent(v, path) {
        Err(e) => {
            assert(parent_did(old(v), v, path@, Err(e)));
            Err(-(e as i64))
        },
        Ok((dir, last)) => Ok((dir, last)),
    }
}

/// Ends the making of a symbolic link, with what the file system of the directory
/// answered: the new inode or an error.
pub fn symlink_made(v: &mut Vfs, dir: usize, made: Result<usize, i32>) -> (r: i64)
    requires
        old(v).wf(),
        dir < 64,
        made is Ok ==> made->Ok_0 < 64,
    ensures
        final(v).wf(),
        finish_made(old(v), final(v), dir, made, r),
{
    end_made(v, dir, made)
}

/// What making a directory by name does, with the answer `r`.
pub open spec fn do_mkdir_did(v0: &Vfs, v: &Vfs, path: Seq<u8>, m: u16, r: i64) -> bool {
    exists|v1: Vfs, pr: Result<usize, i32>|
        {
            &&& #[trigger] parent_did(v0, &v1, path, pr)
            &&& match pr {
                Err(e) => r == -e && *v == v1,
                Ok(dir) => exists|v2: Vfs, nr: Result<usize, i32>|
                    {
                        &&& #[trigger] fs_mkdir(&v1, &v2, dir, last_part(path), m, nr)
                        &&& finish_made(&v2, v, dir, nr, r)
                    },
            }
        }
}

/// Makes a directory.
pub fn do_mkdir(v: &mut Vfs, path: &[u8], m: u16) -> (r: i64)
    requires
        ready(old(v)),
    ensures
        final(v).wf(),
        do_mkdir_did(old(v), final(v), path@, m, r),
{
    match find_parent(v, path) {
        Err(e) => {
            let ghost v1 = *v;
            assert(parent_did(old(v), &v1, path@, Err(e)));
            -(e as i64)
        },
        Ok((dir, last)) => {
            let ghost v1 = *v;
            assert(parent_did(old(v), &v1, path@, Ok(dir)));
            let nr = mkdir_in(v, dir, last.as_slice(), m);
            let ghost v2 = *v;
            assert(fs_mkdir(&v1, &v2, dir, last_part(path@), m, nr));
            end_made(v, dir, nr)
        },
    }
}

/// What removing a directory by name does, with the answer `r`: the negated answer of
/// the file system.
pub open spec fn do_rmdir_did(v0: &Vfs, v: &Vfs, path: Seq<u8>, r: i64) -> bool {
    exists|v1: Vfs, pr: Result<usize, i32>|
        {
            &&& #[trigger] parent_did(v0, &v1, path, pr)
            &&& match pr {
                Err(e) => r == -e && *v == v1,
                Ok(dir) => exists|v2: Vfs, nr: i32|
                    {
                        &&& #[trigger] fs_rmdir(&v1, &v2, dir, last_part(path), nr)
                        &&& put_back(&v2, v, dir)
                        &&& r == -nr
                    },
            }
        }
}

/// Removes a directory.
pub fn do_rmdir(v: &mut Vfs, path: &[u8]) -> (r: i64)
    requires
        ready(old(v)),
    ensures
        final(v).wf(),
        do_rmdir_did(old(v), final(v), path@, r),
{
    match find_parent(v, path) {
        Err(e) => {
            let ghost v1 = *v;
            assert(parent_did(old(v), &v1, path@, Err(e)));
            -(e as i64)
        },
        Ok((dir, last)) => {
            let ghost v1 = *v;
            assert(parent_did(old(v), &v1, path@, Ok(dir)));
            let nr: i32 = rmdir_in(v, dir, last.as_slice());
            let ghost v2 = *v;
            assert(fs_rmdir(&v1, &v2, dir, last_part(path@), nr));
            iput(&mut v.fs, dir);
            assert(put_back(&v2, v, dir));
            -(nr as i64)
        },
    }
}

/// What removing a file by name does, with the answer `r`: the negated answer of the
/// file system.
pub open spec fn do_unlink_did(v0: &Vfs, v: &Vfs, path: Seq<u8>, r: i64) -> bool {
    exists|v1: Vfs, pr: Result<usize, i32>|
        {
            &&& #[trigger] parent_did(v0, &v1, path, pr)
            &&& match pr {
                Err(e) => r == -e && *v == v1,
                Ok(dir) => exists|v2: Vfs, nr: i32|
                    {
                        &&& #[trigger] fs_unlink(&v1, &v2, dir, last_part(path), nr)
                        &&& put_back(&v2, v, dir)
                        &&& r == -nr
                    },
            }
        }
}

/// Removes a file.
pub fn do_unlink(v: &mut Vfs, path: &[u8]) -> (r: i64)
    requires
        ready(old(v)),
    ensures
        final(v).wf(),
        do_unlink_did(old(v), final(v), path@, r),
{
    match find_parent(v, path) {
        Err(e) => {
            let ghost v1 = *v;
            assert(parent_did(old(v), &v1, path@, Err(e)));
            -(e as i64)
        },
        Ok((dir, last)) => {
            let ghost v1 = *v;
            assert(parent_did(old(v), &v1, path@, Ok(dir)));
            let nr: i32 = unlink_in(v, dir, last.as_slice());
            let ghost v2 = *v;
            assert(fs_unlink(&v1, &v2, dir, last_part(path@), nr));
            iput(&mut v.fs, dir);
            assert(put_back(&v2, v, dir));
            -(nr as i64)
        },
    }
}

/// Why a file cannot be entered into directory `dir` under one more name; zero where
/// it can be tried.
pub open spec fn link_error(fs: &Fs, target: usize, dir: usize, last: Seq<u8>) -> i32 {
    if last.len() == 0 {
        ENOENT
    } else if fs.inodes@[target as int].i_dev != fs.inodes@[dir as int].i_dev {
        EPERM
    } else if !may(fs, fs.inodes@[dir as int], MAY_WRITE) {
        EACCES
    } else {
        0
    }
}

/// What entering inode `target` under one more name does, with the answer `r`.
pub open spec fn linked_as(v0: &Vfs, v: &Vfs, target: usize, path: Seq<u8>, r: i64) -> bool {
    exists|v1: Vfs, dr: Result<usize, i32>|
        {
            &&& #[trigger] dir_namei_did(v0, &v1, path, dr)
            &&& match dr {
                Err(e) => r == -e && put_back(&v1, v, target),
                Ok(dir) => {
                    let e = link_error(&v1.fs, target, dir, last_part(path));
                    if e != 0 {
                        r == -e && put_two(&v1, v, target, dir)
                    } else {
                        exists|v2: Vfs, nr: i32|
                            {
                                &&& #[trigger] fs_link(&v1, &v2, target, dir, last_part(path), nr)
                                &&& put_two(&v2, v, target, dir)
                                &&& r == -nr
                            }
                    }
                },
            }
        }
}

/// What entering a file under one more name does, with the answer `r`.
pub open spec fn do_link_did(v0: &Vfs, v: &Vfs, old_path: Seq<u8>, new_path: Seq<u8>, r: i64) -> bool {
    exists|v1: Vfs, tr: Result<usize, i32>|
        {
            &&& #[trigger] resolved(v0, &v1, old_path, true, tr)
            &&& match tr {
                Err(e) => r == -e && *v == v1,
                Ok(target) => if type_bits(v1.fs.inodes@[target as int].i_mode) == mode::S_IFDIR {
                    r == -EPERM && put_back(&v1, v, target)
                } else {
                    linked_as(&v1, v, target, new_path, r)
                },
            }
        }
}

/// Enters a file under one more name, which has to be on the same device. A
/// directory has one name only.
#[verifier::spinoff_prover]
#[verifier::rlimit(60)]
pub fn do_link(v: &mut Vfs, oldpath: &[u8], newpath: &[u8]) -> (r: i64)
    requires
        ready(old(v)),
    ensures
        final(v).wf(),
        do_link_did(old(v), final(v), oldpath@, newpath@, r),
{
    let ghost s0 = v.fs.inodes@;
    proof {
        lemma_book_less(s0, NIL, NIL, 17, 15);
    }
    let tr = namei(v, oldpath);
    let ghost v1 = *v;
    let ghost s1 = v.fs.inodes@;
    assert(resolved(old(v), &v1, oldpath@, true, tr));
    let target: usize = match tr {
        Err(e) => {
            return -(e as i64);
        },
        Ok(n) => n,
    };
    proof {
        lemma_book_swap(s0, s1, NIL, NIL, target, 17);
        lemma_book_room(s1, target, NIL, 17);
        lemma_book_all(s1, target, NIL, 15);
    }
    if mode::is_dir(v.fs.inodes[target].i_mode) {
        put(v, target);
        return -(EPERM as i64);
    }
    match dir_namei(v, newpath) {
        Err(e) => {
            let ghost v2 = *v;
            assert(dir_namei_did(&v1, &v2, newpath@, Err(e)));
            iput(&mut v.fs, target);
            assert(put_back(&v2, v, target));
            -(e as i64)
        },
        Ok((dir, last)) => {
            let ghost v2 = *v;
            let ghost s2 = v.fs.inodes@;
            assert(dir_namei_did(&v1, &v2, newpath@, Ok(dir)));
            proof {
                lemma_book_swap(s1, s2, NIL, NIL, dir, 15);
                lemma_book_room(s2, dir, NIL, 15);
            }
            let err: i32 = if last.len() == 0 {
                ENOENT
            } else if v.fs.inodes[target].i_dev != v.fs.inodes[dir].i_dev {
                EPERM
            } else if !permission(&v.fs, dir, MAY_WRITE) {
                EACCES
            } else {
                0
            };
            assert(err == link_error(&v2.fs, target, dir, last_part(newpath@)));
            let mut nr: i32 = err;
            if err == 0 {
                nr = link_in(v, target, dir, last.as_slice());
            }
            let ghost v3 = *v;
            if err == 0 {
                assert(fs_link(&v2, &v3, target, dir, last_part(newpath@), nr));
            }
            iput(&mut v.fs, target);
            let ghost v4 = *v;
            assert(put_back(&v3, &v4, target));
            iput(&mut v.fs, dir);
            assert(put_back(&v4, v, dir));
            assert(put_two(&v3, v, target, dir));
            assert(linked_as(&v1, v, target, newpath@, (-nr) as i64));
            -(nr as i64)
        },
    }
}

// ---- opening ----

/// What the flags of an open ask of the file.
pub open spec fn access_of(flags: u32) -> u16 {
    let acc = flags & oflags::O_ACCMODE;
    let base = if acc == oflags::O_RDONLY {
        MAY_READ
    } else if acc == oflags::O_WRONLY {
        MAY_WRITE
    } else {
        MAY_READ | MAY_WRITE
    };
    if flags & oflags::O_TRUNC != 0 {
        base | MAY_WRITE
    } else {
        base
    }
}

/// What making inode `n` into `i0`, which may have another size, does. Only the Minix
/// file system gives the blocks past the end back.
pub open spec fn resized(v0: &Vfs, v: &Vfs, n: usize, i0: Inode) -> bool {
    &&& *v == (Vfs { fs: v.fs, ..*v0 })
    &&& v.fs == (Fs { cache: v.fs.cache, inodes: v.fs.inodes, ..v0.fs })
    &&& v.fs.inodes@ == v0.fs.inodes@.update(n as int, v.fs.inodes@[n as int])
    &&& if i0.i_op == FsType::Minix && i0.i_sb != NIL {
        let z1 = v.fs.inodes@[n as int].data@;
        &&& minix::truncate::trunc_did(
            &v0.fs.cache,
            &v.fs.cache,
            v0.fs.supers@[i0.i_sb as int],
            i0.i_dev,
            i0.data@,
            z1,
            minix::truncate::blocks_for(i0.i_size as int),
        )
        &&& minix::truncate::truncated(i0, v.fs.inodes@[n as int], z1, v0.fs.now)
    } else {
        v.fs.cache == v0.fs.cache && v.fs.inodes@[n as int] == i0
    }
}

/// Makes inode `n` into `i0`, and gives the blocks past the end back.
pub(crate) fn resize(v: &mut Vfs, n: usize, i0: Inode)
    requires
        old(v).wf(),
        n < 64,
        i0.links_ok(),
    ensures
        final(v).wf(),
        resized(old(v), final(v), n, i0),
{
    v.fs.inodes.set(n, i0);
    if i0.i_op == FsType::Minix && i0.i_sb != NIL {
        minix::truncate::truncate(&mut v.fs, n);
    }
    assert(v.fs.inodes@ =~= old(v).fs.inodes@.update(n as int, v.fs.inodes@[n as int]));
}

/// Why an existing inode cannot be opened with these flags; zero where it can be.
pub open spec fn open_error(fs: &Fs, i: Inode, flags: u32) -> i32 {
    let mask = access_of(flags);
    let t = type_bits(i.i_mode);
    if t == mode::S_IFDIR && mask & MAY_WRITE != 0 {
        EISDIR
    } else if mask & MAY_WRITE != 0 && i.rdonly_in(fs) && t != mode::S_IFCHR && t != mode::S_IFBLK {
        EROFS
    } else if !may(fs, i, mask) {
        EACCES
    } else {
        0
    }
}

/// What opening the existing inode `n` does, to which a reference is held.
pub open spec fn opened(v0: &Vfs, v: &Vfs, n: usize, flags: u32, r: Result<usize, i32>) -> bool {
    let i = v0.fs.inodes@[n as int];
    let e = open_error(&v0.fs, i, flags);
    if e != 0 {
        r == Err::<usize, i32>(e) && put_back(v0, v, n)
    } else {
        &&& r == Ok::<usize, i32>(n)
        &&& if flags & oflags::O_TRUNC != 0 && type_bits(i.i_mode) == mode::S_IFREG {
            resized(v0, v, n, Inode { i_size: 0, i_dirt: true, ..i })
        } else {
            *v == *v0
        }
    }
}

/// What opening name `last` in directory `dir` does, to which a reference is held.
pub open spec fn opened_in(
    v0: &Vfs,
    v: &Vfs,
    dir: usize,
    last: Seq<u8>,
    flags: u32,
    m: u16,
    r: Result<usize, i32>,
) -> bool {
    exists|v1: Vfs, lr: Result<usize, i32>|
        {
            &&& #[trigger] lookup_did(v0, &v1, dir, last, lr)
            &&& match lr {
                Ok(n) => if flags & oflags::O_CREAT != 0 && flags & oflags::O_EXCL != 0 {
                    r == Err::<usize, i32>(EEXIST) && put_two(&v1, v, n, dir)
                } else if flags & oflags::O_NOFOLLOW != 0 && type_bits(
                    v1.fs.inodes@[n as int].i_mode,
                ) == mode::S_IFLNK {
                    r == Err::<usize, i32>(ELOOP) && put_two(&v1, v, n, dir)
                } else {
                    exists|v2: Vfs, fr: Result<usize, i32>|
                        {
                            &&& #[trigger] follow_did(&v1, &v2, dir, n, MAX_LINKS as nat, fr)
                            &&& match fr {
                                Err(e) => r == Err::<usize, i32>(e) && *v == v2,
                                Ok(k) => opened(&v2, v, k, flags, r),
                            }
                        }
                },
                Err(e) => if e != ENOENT || flags & oflags::O_CREAT == 0 {
                    r == Err::<usize, i32>(e) && put_back(&v1, v, dir)
                } else if !may(&v1.fs, v1.fs.inodes@[dir as int], MAY_WRITE) {
                    r == Err::<usize, i32>(EACCES) && put_back(&v1, v, dir)
                } else {
                    exists|v2: Vfs|
                        {
                            &&& #[trigger] fs_create(&v1, &v2, dir, last, m, r)
                            &&& put_back(&v2, v, dir)
                        }
                },
            }
        }
}

/// What opening by name does, with the answer `r`. A path that ends in a slash names
/// a directory, which can be opened for reading only.
pub open spec fn open_namei_did(
    v0: &Vfs,
    v: &Vfs,
    path: Seq<u8>,
    flags: u32,
    m: u16,
    r: Result<usize, i32>,
) -> bool {
    if flags & oflags::O_ACCMODE == 3 {
        r == Err::<usize, i32>(EINVAL) && *v == *v0
    } else {
        exists|v1: Vfs, dr: Result<usize, i32>|
            {
                &&& #[trigger] dir_namei_did(v0, &v1, path, dr)
                &&& match dr {
                    Err(e) => r == Err::<usize, i32>(e) && *v == v1,
                    Ok(dir) => if last_part(path).len() > 0 {
                        opened_in(&v1, v, dir, last_part(path), flags, m, r)
                    } else if access_of(flags) & MAY_WRITE != 0 {
                        r == Err::<usize, i32>(EISDIR) && put_back(&v1, v, dir)
                    } else {
                        r == Ok::<usize, i32>(dir) && *v == v1
                    },
                }
            }
    }
}

/// Opens the existing inode `n`, to which a reference is held: empties it where
/// that is asked for.
fn open_node(v: &mut Vfs, n: usize, flags: u32, mask: u16) -> (r: Result<usize, i32>)
    requires
        old(v).wf(),
        n < 64,
        mask == access_of(flags),
    ensures
        final(v).wf(),
        opened(old(v), final(v), n, flags, r),
        r is Ok ==> r->Ok_0 < 64,
{
    let i: Inode = v.fs.inodes[n];
    let write: bool = mask & MAY_WRITE != 0;
    let err: i32 = if mode::is_dir(i.i_mode) && write {
        EISDIR
    } else if write && i.is_rdonly(&v.fs) && !mode::is_chr(i.i_mode) && !mode::is_blk(i.i_mode) {
        EROFS
    } else if !permission(&v.fs, n, mask) {
        EACCES
    } else {
        0
    };
    assert(err == open_error(&old(v).fs, i, flags));
    if err != 0 {
        iput(&mut v.fs, n);
        return Err(err);
    }
    if flags & oflags::O_TRUNC != 0 && mode::is_reg(i.i_mode) {
        assert(old(v).fs.inodes@[n as int].links_ok());
        let mut i0: Inode = i;
        i0.i_size = 0;
        i0.i_dirt = true;
        resize(v, n, i0);
    }
    Ok(n)
}

/// Opens a name in directory `dir`, to which a reference is held and given back.
#[verifier::spinoff_prover]
#[verifier::rlimit(60)]
fn open_in(v: &mut Vfs, dir: usize, last: &[u8], flags: u32, mask: u16, m: u16) -> (r: Result<usize, i32>)
    requires
        can_walk(old(v), dir, NIL, MAX_LINKS as int),
        dir < 64,
        mask == access_of(flags),
    ensures
        final(v).wf(),
        opened_in(old(v), final(v), dir, last@, flags, m, r),
        same_files(old(v), final(v)),
        r is Ok ==> r->Ok_0 < 64,
{
    let ghost s1 = v.fs.inodes@;
    proof {
        lemma_book_room(s1, dir, NIL, 15);
        lemma_book_less(s1, dir, NIL, 15, 0);
    }
    let lr = lookup_one(v, dir, last);
    let ghost v1 = *v;
    let ghost s2 = v.fs.inodes@;
    assert(lookup_did(old(v), &v1, dir, last@, lr));
    match lr {
        Ok(n) => {
            proof {
                lemma_book_take(s1, s2, dir, n, 15);
            }
            let fresh: bool = flags & oflags::O_CREAT != 0 && flags & oflags::O_EXCL != 0;
            let no_link: bool = flags & oflags::O_NOFOLLOW != 0 && mode::is_lnk(
                v.fs.inodes[n].i_mode,
            );
            if fresh || no_link {
                iput(&mut v.fs, n);
                let ghost v2 = *v;
                assert(put_back(&v1, &v2, n));
                iput(&mut v.fs, dir);
                assert(put_back(&v2, v, dir));
                return if fresh {
                    Err(EEXIST)
                } else {
                    Err(ELOOP)
                };
            }
            let fr = follow_link(v, dir, n, MAX_LINKS);
            let ghost v2 = *v;
            assert(follow_did(&v1, &v2, dir, n, MAX_LINKS as nat, fr));
            match fr {
                Err(e) => Err(e),
                Ok(k) => open_node(v, k, flags, mask),
            }
        },
        Err(e) => {
            proof {
                lemma_book_take(s1, s2, dir, NIL, 15);
                lemma_book_room(s2, dir, NIL, 15);
            }
            if e != ENOENT || flags & oflags::O_CREAT == 0 {
                iput(&mut v.fs, dir);
                return Err(e);
            }
            if !permission(&v.fs, dir, MAY_WRITE) {
                iput(&mut v.fs, dir);
                return Err(EACCES);
            }
            let r = create_in(v, dir, last, m);
            let ghost v2 = *v;
            assert(fs_create(&v1, &v2, dir, last@, m, r));
            iput(&mut v.fs, dir);
            r
        },
    }
}

/// Opens a file by name: finds it, or makes it where the flags ask for that, and
/// checks that it may be used as they ask.
pub fn open_namei(v: &mut Vfs, path: &[u8], flags: u32, m: u16) -> (r: Result<usize, i32>)
    requires
        ready(old(v)),
    ensures
        final(v).wf(),
        open_namei_did(old(v), final(v), path@, flags, m, r),
        same_files(old(v), final(v)),
        r is Ok ==> r->Ok_0 < 64,
{
    let acc: u32 = flags & oflags::O_ACCMODE;
    assert(flags & 3u32 <= 3u32) by (bit_vector);
    let mut mask: u16 = if acc == oflags::O_RDONLY {
        MAY_READ
    } else if acc == oflags::O_WRONLY {
        MAY_WRITE
    } else if acc == oflags::O_RDWR {
        MAY_READ | MAY_WRITE
    } else {
        return Err(EINVAL);
    };
    if flags & oflags::O_TRUNC != 0 {
        mask = mask | MAY_WRITE;
    }
    let ghost s0 = v.fs.inodes@;
    proof {
        lemma_book_less(s0, NIL, NIL, 17, 15);
    }
    match dir_namei(v, path) {
        Err(e) => {
            let ghost v1 = *v;
            assert(dir_namei_did(old(v), &v1, path@, Err(e)));
            Err(e)
        },
        Ok((dir, last)) => {
            let ghost v1 = *v;
            assert(dir_namei_did(old(v), &v1, path@, Ok(dir)));
            if last.len() == 0 {
                if mask & MAY_WRITE != 0 {
                    iput(&mut v.fs, dir);
                    return Err(EISDIR);
                }
                return Ok(dir);
            }
            proof {
                lemma_book_swap(s0, v.fs.inodes@, NIL, NIL, dir, 15);
            }
            open_in(v, dir, last.as_slice(), flags, mask, m)
        },
    }
}

// ---- what holds of names ----

/// Where nothing is mounted and no inode is in use, names can be resolved.
pub proof fn lemma_empty_ready(v: &Vfs)
    requires
        v.wf(),
        forall|n: int| 0 <= n < 64 ==> (#[trigger] v.fs.inodes@[n]).is_clear(),
        forall|s: int| 0 <= s < 4 ==> (#[trigger] v.fs.supers@[s]).is_clear(),
    ensures
        ready(v),
{
    let s = v.fs.inodes@;
    assert forall|n: usize| n < 64 implies #[trigger] ends(
        v.fs.supers@,
        v.fs.root_inode,
        n,
        4,
    ) by {}
    assert forall|k: int| 0 <= k < 64 implies {
        let i = #[trigger] s[k];
        &&& 0 <= base_count(s, k, NIL, NIL)
        &&& crate::fs::refs::at_least_one(base_count(s, k, NIL, NIL)) + 17 <= u16::MAX
    } by {}
}

/// In any directory "." is that directory, and above the root is the root: looking
/// either up finds the directory itself and takes one more reference to it.
pub proof fn lemma_dots(v0: &Vfs, v: &Vfs, dir: usize, name: Seq<u8>, r: Result<usize, i32>)
    requires
        type_bits(v0.fs.inodes@[dir as int].i_mode) == mode::S_IFDIR,
        name == seq![46u8] || (name == seq![46u8, 46u8] && dir == v0.fs.root_inode),
        lookup_did(v0, v, dir, name, r),
    ensures
        r == Ok::<usize, i32>(dir),
        took_one(v0, v, dir),
{
}

/// On a file system for reading only a regular file, a directory or a link may not be
/// written. Opening for writing is refused on that ground, but for a directory, which
/// can nowhere be opened so, and for the file of a device.
pub proof fn lemma_read_only(fs: &Fs, i: Inode, flags: u32)
    requires
        i.rdonly_in(fs),
        access_of(flags) & MAY_WRITE != 0,
    ensures
        ({
            let t = type_bits(i.i_mode);
            &&& t == mode::S_IFREG || t == mode::S_IFDIR || t == mode::S_IFLNK ==> !may(
                fs,
                i,
                access_of(flags),
            )
            &&& t == mode::S_IFDIR ==> open_error(fs, i, flags) == EISDIR
            &&& t != mode::S_IFDIR && t != mode::S_IFCHR && t != mode::S_IFBLK ==> open_error(
                fs,
                i,
                flags,
            ) == EROFS
        }),
{
}

/// A directory gets no second name: linking to one is refused, and only the
/// reference that finding it took is given back.
pub proof fn lemma_no_directory_link(
    v0: &Vfs,
    v: &Vfs,
    old_path: Seq<u8>,
    new_path: Seq<u8>,
    r: i64,
)
    requires
        do_link_did(v0, v, old_path, new_path, r),
        forall|v1: Vfs, tr: Result<usize, i32>|
            #[trigger] resolved(v0, &v1, old_path, true, tr) ==> tr is Ok && type_bits(
                v1.fs.inodes@[tr->Ok_0 as int].i_mode,
            ) == mode::S_IFDIR,
    ensures
        r == -EPERM,
        exists|v1: Vfs, target: usize|
            #[trigger] resolved(v0, &v1, old_path, true, Ok(target)) && put_back(&v1, v, target),
{
    let (v1, tr) = choose|v1: Vfs, tr: Result<usize, i32>|
        {
            &&& #[trigger] resolved(v0, &v1, old_path, true, tr)
            &&& match tr {
                Err(e) => r == -e && *v == v1,
                Ok(target) => if type_bits(v1.fs.inodes@[target as int].i_mode) == mode::S_IFDIR {
                    r == -EPERM && put_back(&v1, v, target)
                } else {
                    linked_as(&v1, v, target, new_path, r)
                },
            }
        };
    assert(resolved(v0, &v1, old_path, true, Ok(tr->Ok_0)));
}

} // verus!
