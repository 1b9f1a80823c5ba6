//! Making and removing files and directories.

use super::bitmap::{inode_made, new_inode};
use super::dir::{entry_ino, next_entry, readdir, sizes_ok};
use super::inode_ops::{get_block, got, mapped, op_for, renumbered};
use super::namei::{
    add_entry, add_error, added, dir_ok, entry_added, find_entry, found_in, AddEnd,
};
use super::MINIX_LINK_MAX;
use crate::bytes::{get_le16, le16, overlay, put_bytes, put_le16, with_le16, zeroed, zeros};
use crate::errno::{
    EBUSY, EEXIST, EMLINK, ENAMETOOLONG, ENOENT, ENOSPC, ENOTDIR, ENOTEMPTY, EPERM,
};
use crate::fs::ext2::inode::mode::type_bits;
use crate::fs::buffer::BufferCache;
use crate::fs::inode::{iget, iget_cross, iget_did, iput, iput_did, is_pick, FsType, Inode, NIL};
use crate::fs::mode;
use crate::fs::super_block::SuperBlock;
use crate::fs::{Blocks, Fs};
use vstd::prelude::*;

verus! {

/// All inodes can have one reference more.
pub open spec fn countable(s: Seq<Inode>) -> bool {
    forall|n: int| 0 <= n < 64 ==> (#[trigger] s[n]).i_count < u16::MAX
}

/// The blocks with the inode number of the entry at `o` in block `b` set.
pub open spec fn with_ino(c: Blocks, dev: u16, b: u32, o: int, ino: u16) -> Blocks {
    if c.dom().contains((dev, b)) {
        c.insert((dev, b), with_le16(c[(dev, b)], o, ino))
    } else {
        c
    }
}

/// Sets the inode number of an entry.
pub fn set_entry_ino(fs: &mut Fs, dev: u16, b: u32, off: usize, ino: u16)
    requires
        old(fs).wf(),
        off + 2 <= 1024,
    ensures
        final(fs).wf(),
        *final(fs) == (Fs { cache: final(fs).cache, ..*old(fs) }),
        final(fs).blocks() == with_ino(old(fs).blocks(), dev, b, off as int, ino),
{
    match fs.cache.read_block(dev, b) {
        None => {},
        Some(mut data) => {
            put_le16(&mut data, off, ino);
            let ok: bool = fs.cache.write_block(dev, b, data.as_slice());
        },
    }
}

/// The inode number of an entry, zero where the block is not there.
pub fn get_entry_ino(fs: &mut Fs, dev: u16, b: u32, off: usize) -> (r: u16)
    requires
        old(fs).wf(),
        off + 2 <= 1024,
    ensures
        final(fs).wf(),
        *final(fs) == (Fs { cache: final(fs).cache, ..*old(fs) }),
        final(fs).blocks() == old(fs).blocks(),
        r == (if old(fs).blocks().dom().contains((dev, b)) {
            le16(old(fs).blocks()[(dev, b)], off as int)
        } else {
            0
        }),
{
    match fs.cache.read_block(dev, b) {
        None => 0,
        Some(data) => get_le16(data.as_slice(), off),
    }
}

/// The state `fs` is that of `fs0` after a name in directory `dir` was looked up.
pub open spec fn lookup_did(fs0: &Fs, fs: &Fs, dir: usize, name: Seq<u8>, r: Result<usize, i32>) -> bool {
    &&& *fs == (Fs { cache: fs.cache, inodes: fs.inodes, ..*fs0 })
    &&& {
        let i = fs0.inodes@[dir as int];
        let c = fs0.blocks();
        let unchanged = fs.blocks() == c && fs.inodes@ == fs0.inodes@;
        if type_bits(i.i_mode) != mode::S_IFDIR {
            r == Err::<usize, i32>(ENOTDIR) && unchanged
        } else {
            match found_in(c, fs0.supers@[i.i_sb as int], i, name) {
                None => r == Err::<usize, i32>(ENOENT) && unchanged,
                Some(off) => {
                    &&& iget_did(
                        c,
                        fs0.inodes@,
                        fs.blocks(),
                        fs.inodes@,
                        fs0.supers@,
                        i.i_sb,
                        entry_ino(c, i.i_dev, i.data@, off) as u32,
                        true,
                        match r {
                            Ok(n) => n,
                            Err(_) => NIL,
                        },
                    )
                    &&& r is Err ==> r == Err::<usize, i32>(ENOENT)
                    &&& r is Ok ==> r->Ok_0 < 64
                },
            }
        }
    }
}

/// The inode that a name in directory `dir` leads to.
pub fn lookup(fs: &mut Fs, dir: usize, name: &[u8]) -> (r: Result<usize, i32>)
    requires
        old(fs).wf(),
        dir < 64,
        dir_ok(old(fs).supers@, old(fs).inodes@[dir as int]),
        countable(old(fs).inodes@),
    ensures
        final(fs).wf(),
        lookup_did(old(fs), final(fs), dir, name@, r),
{
    if !mode::is_dir(fs.inodes[dir].i_mode) {
        return Err(ENOTDIR);
    }
    let sb_nr: usize = fs.inodes[dir].i_sb;
    if sb_nr == NIL {
        return Err(ENOENT);
    }
    let dev: u16 = fs.inodes[dir].i_dev;
    match find_entry(fs, dir, name) {
        None => Err(ENOENT),
        Some((b, off)) => {
            let ino: u32 = get_entry_ino(fs, dev, b, off) as u32;
            let n: usize = iget(fs, sb_nr, ino);
            if n == NIL {
                Err(ENOENT)
            } else {
                Ok(n)
            }
        },
    }
}

/// Inode `x`, which is new, as a file of mode `m`.
pub open spec fn as_node(x: Inode, m: u16, rdev: u16) -> Inode {
    Inode {
        i_mode: m,
        i_op: op_for(m),
        i_rdev: if type_bits(m) == mode::S_IFCHR || type_bits(m) == mode::S_IFBLK {
            rdev
        } else {
            x.i_rdev
        },
        i_dirt: true,
        ..x
    }
}

/// What entering the new inode `k`, which is in the table `s1`, under a name does:
/// it gets an entry in the directory, or it is given back.
pub open spec fn entered(
    c1: Blocks,
    s1: Seq<Inode>,
    e: &BufferCache,
    s: Seq<Inode>,
    supers: Seq<SuperBlock>,
    now: u32,
    dir: usize,
    name: Seq<u8>,
    k: usize,
    r: Result<usize, i32>,
) -> bool {
    let d1 = s1[dir as int];
    let sb = supers[d1.i_sb as int];
    let gone = s1.update(k as int, Inode { i_nlink: 0, ..s1[k as int] });
    if name.len() == 0 {
        r == Err::<usize, i32>(ENOENT) && iput_did(c1, gone, e, s, supers, now, k)
    } else if name.len() > sb.s_namelen {
        r == Err::<usize, i32>(ENAMETOOLONG) && iput_did(c1, gone, e, s, supers, now, k)
    } else {
        let (c2, z, end, b, off) = added(
            c1,
            sb,
            d1.i_dev,
            d1.data@,
            d1.i_size as int,
            name,
            0,
        );
        exists|d: Inode|
            {
                &&& #[trigger] entry_added(d1, d, z, end, off, sb.s_namelen as int, now)
                &&& if end == AddEnd::Put {
                    &&& r == Ok::<usize, i32>(k)
                    &&& e.content() == with_ino(
                        c2,
                        d1.i_dev,
                        b as u32,
                        off % 1024,
                        (s1[k as int].i_ino % 65536) as u16,
                    )
                    &&& s == s1.update(dir as int, d)
                } else {
                    &&& r == Err::<usize, i32>(add_error(end))
                    &&& iput_did(c2, gone.update(dir as int, d), e, s, supers, now, k)
                }
            }
    }
}

/// Enters a new inode under a name.
#[verifier::spinoff_prover]
#[verifier::rlimit(40)]
fn enter(fs: &mut Fs, dir: usize, name: &[u8], n: usize) -> (r: Result<usize, i32>)
    requires
        old(fs).wf(),
        dir < 64,
        n < 64,
        n != dir,
        old(fs).inodes@[dir as int].i_sb != NIL,
        dir_ok(old(fs).supers@, old(fs).inodes@[dir as int]),
    ensures
        final(fs).wf(),
        *final(fs) == (Fs { cache: final(fs).cache, inodes: final(fs).inodes, ..*old(fs) }),
        entered(
            old(fs).blocks(),
            old(fs).inodes@,
            &final(fs).cache,
            final(fs).inodes@,
            old(fs).supers@,
            old(fs).now,
            dir,
            name@,
            n,
            r,
        ),
{
    let ghost s1 = fs.inodes@;
    let ghost gone = s1.update(n as int, Inode { i_nlink: 0, ..s1[n as int] });
    let dev: u16 = fs.inodes[dir].i_dev;
    let ino: u16 = (fs.inodes[n].i_ino % 65536) as u16;
    match add_entry(fs, dir, name) {
        Ok((b, off)) => {
            set_entry_ino(fs, dev, b, off, ino);
            Ok(n)
        },
        Err(e) => {
            let ghost d = fs.inodes@[dir as int];
            fs.inodes[n].i_nlink = 0;
            proof {
                assert(fs.inodes@ =~= gone.update(dir as int, d));
                assert(d == s1[dir as int] ==> gone.update(dir as int, d) =~= gone);
            }
            iput(fs, n);
            Err(e)
        },
    }
}

/// What `mknod` does to the blocks `c0` and the table `s0`, where the directory
/// can have the name.
pub open spec fn node_made(
    c0: Blocks,
    s0: Seq<Inode>,
    e: &BufferCache,
    s: Seq<Inode>,
    supers: Seq<SuperBlock>,
    now: u32,
    dir: usize,
    name: Seq<u8>,
    m: u16,
    rdev: u16,
    r: Result<usize, i32>,
) -> bool {
    exists|c1: Blocks, s1: Seq<Inode>, k: usize|
        {
            &&& #[trigger] inode_made(c0, s0, c1, s1, supers, now, dir, k)
            &&& if k == NIL {
                r == Err::<usize, i32>(ENOSPC) && e.content() == c1 && s == s1
            } else {
                entered(
                    c1,
                    s1.update(k as int, as_node(s1[k as int], m, rdev)),
                    e,
                    s,
                    supers,
                    now,
                    dir,
                    name,
                    k,
                    r,
                )
            }
        }
}

/// The state `fs` is that of `fs0` after a file was to be made in directory `dir`.
pub open spec fn mknod_did(fs0: &Fs, fs: &Fs, dir: usize, name: Seq<u8>, m: u16, rdev: u16, r: Result<usize, i32>) -> bool {
    &&& *fs == (Fs { cache: fs.cache, inodes: fs.inodes, ..*fs0 })
    &&& {
        let i = fs0.inodes@[dir as int];
        let c = fs0.blocks();
        let unchanged = fs.blocks() == c && fs.inodes@ == fs0.inodes@;
        if type_bits(i.i_mode) != mode::S_IFDIR {
            r == Err::<usize, i32>(ENOTDIR) && unchanged
        } else if i.rdonly_in(fs0) {
            r == Err::<usize, i32>(EPERM) && unchanged
        } else if found_in(c, fs0.supers@[i.i_sb as int], i, name) is Some {
            r == Err::<usize, i32>(EEXIST) && unchanged
        } else {
            node_made(
                c,
                fs0.inodes@,
                &fs.cache,
                fs.inodes@,
                fs0.supers@,
                fs0.now,
                dir,
                name,
                m,
                rdev,
                r,
            )
        }
    }
}

/// Makes a file of any kind in directory `dir`.
pub fn mknod(fs: &mut Fs, dir: usize, name: &[u8], m: u16, rdev: u16) -> (r: Result<usize, i32>)
    requires
        old(fs).wf(),
        dir < 64,
        dir_ok(old(fs).supers@, old(fs).inodes@[dir as int]),
        old(fs).inodes@[dir as int].i_count > 0,
    ensures
        final(fs).wf(),
        r is Ok ==> r->Ok_0 < 64,
        mknod_did(old(fs), final(fs), dir, name@, m, rdev, r),
{
    if !mode::is_dir(fs.inodes[dir].i_mode) {
        return Err(ENOTDIR);
    }
    let d: Inode = fs.inodes[dir];
    if d.is_rdonly(fs) {
        return Err(EPERM);
    }
    if find_entry(fs, dir, name).is_some() {
        return Err(EEXIST);
    }
    let ghost c0 = fs.blocks();
    let ghost s0 = fs.inodes@;
    let n: usize = new_inode(fs, dir);
    let ghost c1 = fs.blocks();
    let ghost s1 = fs.inodes@;
    assert(inode_made(c0, s0, c1, s1, fs.supers@, fs.now, dir, n));
    if n == NIL {
        return Err(ENOSPC);
    }
    proof {
        lemma_made(c0, s0, c1, s1, fs.supers@, fs.now, dir, n);
    }
    let mut i: Inode = fs.inodes[n];
    i.i_mode = m;
    i.i_op = if mode::is_reg(m) || mode::is_dir(m) {
        FsType::Minix
    } else if mode::is_chr(m) {
        FsType::Chr
    } else if mode::is_blk(m) {
        FsType::Blk
    } else {
        FsType::Unbound
    };
    if mode::is_chr(m) || mode::is_blk(m) {
        i.i_rdev = rdev;
    }
    i.i_dirt = true;
    fs.inodes[n] = i;
    assert(fs.inodes@ =~= s1.update(n as int, as_node(s1[n as int], m, rdev)));
    enter(fs, dir, name, n)
}

/// What is known of a new inode.
proof fn lemma_made(
    c0: Blocks,
    s0: Seq<Inode>,
    c1: Blocks,
    s1: Seq<Inode>,
    supers: Seq<SuperBlock>,
    now: u32,
    dir: usize,
    k: usize,
)
    requires
        inode_made(c0, s0, c1, s1, supers, now, dir, k),
        k != NIL,
        is_pick(s0, k as int),
        k != dir,
        dir < 64,
        s0.len() == 64,
    ensures
        s1 == s0.update(k as int, s1[k as int]),
        s1[k as int].i_mount == NIL,
        s1[k as int].i_count == 1,
        s1[k as int].i_nlink == 1,
        s1[k as int].i_sb == s0[dir as int].i_sb,
        s1[k as int].i_sb != NIL,
        s1[k as int].data@ == Seq::new(9, |i: int| 0u16),
{
}

/// Makes a regular file in directory `dir`.
pub fn create(fs: &mut Fs, dir: usize, name: &[u8], m: u16) -> (r: Result<usize, i32>)
    requires
        old(fs).wf(),
        dir < 64,
        dir_ok(old(fs).supers@, old(fs).inodes@[dir as int]),
        old(fs).inodes@[dir as int].i_count > 0,
    ensures
        final(fs).wf(),
        r is Ok ==> r->Ok_0 < 64,
        mknod_did(
            old(fs),
            final(fs),
            dir,
            name@,
            (m & !mode::S_IFMT) | mode::S_IFREG,
            0,
            r,
        ),
{
    mknod(fs, dir, name, (m & !mode::S_IFMT) | mode::S_IFREG, 0)
}

// ---- directories ----

/// The block `d` with the entries of the directory itself and of the one it is in
/// at its start.
pub open spec fn dots(d: Seq<u8>, ds: int, ino: u16, parent: u16) -> Seq<u8> {
    let d1 = overlay(d, 0, zeros((2 * ds) as nat));
    let d2 = with_le16(d1, 0, ino).update(2, 46u8);
    with_le16(d2, ds, parent).update(ds + 2, 46u8).update(ds + 3, 46u8)
}

/// The blocks with those entries at the start of block `b`.
pub open spec fn with_dots(c: Blocks, dev: u16, b: u32, ds: int, ino: u16, parent: u16) -> Blocks {
    if c.dom().contains((dev, b)) {
        c.insert((dev, b), dots(c[(dev, b)], ds, ino, parent))
    } else {
        c
    }
}

/// Inode `x`, which is new, as a directory of two entries.
pub open spec fn as_dir(x: Inode, m: u16, ds: int) -> Inode {
    Inode {
        i_mode: (m & !mode::S_IFMT) | mode::S_IFDIR,
        i_op: FsType::Minix,
        i_size: (2 * ds) as u32,
        i_dirt: true,
        ..x
    }
}

/// What making the new inode `k` a directory does: it gets a block with its first
/// two entries and is entered under its name. The directory above it then has one
/// link more. `x2` is the new directory with its block.
pub open spec fn dir_filled(
    c1: Blocks,
    s1: Seq<Inode>,
    x2: Inode,
    e: &BufferCache,
    s: Seq<Inode>,
    supers: Seq<SuperBlock>,
    now: u32,
    dir: usize,
    name: Seq<u8>,
    m: u16,
    k: usize,
    r: Result<usize, i32>,
) -> bool {
    let sb = supers[s1[dir as int].i_sb as int];
    let ds = sb.s_dirsize as int;
    let x1 = as_dir(s1[k as int], m, ds);
    let (c2, z2, db) = got(c1, supers[x1.i_sb as int], x1.i_dev, x1.data@, 0, true);
    &&& renumbered(x1, x2, z2, now)
    &&& if db == 0 {
        &&& r == Err::<usize, i32>(ENOSPC)
        &&& iput_did(
            c2,
            s1.update(k as int, Inode { i_nlink: 0, ..x2 }),
            e,
            s,
            supers,
            now,
            k,
        )
    } else {
        let c3 = with_dots(
            c2,
            x1.i_dev,
            db as u32,
            ds,
            (x1.i_ino % 65536) as u16,
            (s1[dir as int].i_ino % 65536) as u16,
        );
        exists|s4: Seq<Inode>|
            {
                &&& #[trigger] entered(
                    c3,
                    s1.update(k as int, Inode { i_nlink: 2, i_dirt: true, ..x2 }),
                    e,
                    s4,
                    supers,
                    now,
                    dir,
                    name,
                    k,
                    r,
                )
                &&& s == (if r is Ok {
                    s4.update(
                        dir as int,
                        Inode {
                            i_nlink: (s4[dir as int].i_nlink + 1) as u16,
                            i_dirt: true,
                            ..s4[dir as int]
                        },
                    )
                } else {
                    s4
                })
            }
    }
}

/// What `mkdir` does to the blocks `c0` and the table `s0`, where the directory
/// can have the name.
pub open spec fn dir_made(
    c0: Blocks,
    s0: Seq<Inode>,
    e: &BufferCache,
    s: Seq<Inode>,
    supers: Seq<SuperBlock>,
    now: u32,
    dir: usize,
    name: Seq<u8>,
    m: u16,
    r: Result<usize, i32>,
) -> bool {
    exists|c1: Blocks, s1: Seq<Inode>, k: usize|
        {
            &&& #[trigger] inode_made(c0, s0, c1, s1, supers, now, dir, k)
            &&& if k == NIL {
                r == Err::<usize, i32>(ENOSPC) && e.content() == c1 && s == s1
            } else {
                exists|x2: Inode|
                    #[trigger] dir_filled(c1, s1, x2, e, s, supers, now, dir, name, m, k, r)
            }
        }
}

/// Writes the first two entries of a directory.
fn write_dots(data: &mut Vec<u8>, ds: usize, ino: u16, parent: u16)
    requires
        old(data)@.len() == 1024,
        ds == 16 || ds == 32,
    ensures
        final(data)@ == dots(old(data)@, ds as int, ino, parent),
        final(data)@.len() == 1024,
{
    let ghost d0 = data@;
    let zero: Vec<u8> = zeroed(2 * ds);
    put_bytes(data, 0, zero.as_slice());
    put_le16(data, 0, ino);
    data[2] = 46;
    put_le16(data, ds, parent);
    data[ds + 2] = 46;
    data[ds + 3] = 46;
    assert(data@ =~= dots(d0, ds as int, ino, parent));
}

/// The state `fs` is that of `fs0` after a directory was to be made in directory
/// `dir`.
pub open spec fn mkdir_did(fs0: &Fs, fs: &Fs, dir: usize, name: Seq<u8>, m: u16, r: Result<usize, i32>) -> bool {
    &&& *fs == (Fs { cache: fs.cache, inodes: fs.inodes, ..*fs0 })
    &&& {
        let i = fs0.inodes@[dir as int];
        let c = fs0.blocks();
        let unchanged = fs.blocks() == c && fs.inodes@ == fs0.inodes@;
        if type_bits(i.i_mode) != mode::S_IFDIR {
            r == Err::<usize, i32>(ENOTDIR) && unchanged
        } else if i.rdonly_in(fs0) {
            r == Err::<usize, i32>(EPERM) && unchanged
        } else if i.i_nlink >= 250 {
            r == Err::<usize, i32>(EMLINK) && unchanged
        } else if found_in(c, fs0.supers@[i.i_sb as int], i, name) is Some {
            r == Err::<usize, i32>(EEXIST) && unchanged
        } else {
            dir_made(
                c,
                fs0.inodes@,
                &fs.cache,
                fs.inodes@,
                fs0.supers@,
                fs0.now,
                dir,
                name,
                m,
                r,
            )
        }
    }
}

/// Makes a directory in directory `dir`. One that has as many links as it can
/// have takes no more.
#[verifier::spinoff_prover]
#[verifier::rlimit(60)]
pub fn mkdir(fs: &mut Fs, dir: usize, name: &[u8], m: u16) -> (r: Result<usize, i32>)
    requires
        old(fs).wf(),
        dir < 64,
        dir_ok(old(fs).supers@, old(fs).inodes@[dir as int]),
        old(fs).inodes@[dir as int].i_count > 0,
    ensures
        final(fs).wf(),
        r is Ok ==> r->Ok_0 < 64,
        mkdir_did(old(fs), final(fs), dir, name@, m, r),
{
    if !mode::is_dir(fs.inodes[dir].i_mode) {
        return Err(ENOTDIR);
    }
    let d: Inode = fs.inodes[dir];
    if d.is_rdonly(fs) {
        return Err(EPERM);
    }
    if fs.inodes[dir].i_nlink >= MINIX_LINK_MAX {
        return Err(EMLINK);
    }
    if find_entry(fs, dir, name).is_some() {
        return Err(EEXIST);
    }
    let ghost c0 = fs.blocks();
    let ghost s0 = fs.inodes@;
    let n: usize = new_inode(fs, dir);
    let ghost c1 = fs.blocks();
    let ghost s1 = fs.inodes@;
    assert(inode_made(c0, s0, c1, s1, fs.supers@, fs.now, dir, n));
    if n == NIL {
        return Err(ENOSPC);
    }
    proof {
        lemma_made(c0, s0, c1, s1, fs.supers@, fs.now, dir, n);
    }
    let sb_nr: usize = fs.inodes[dir].i_sb;
    let ds: usize = fs.supers[sb_nr].s_dirsize;
    let mut i: Inode = fs.inodes[n];
    i.i_mode = (m & !mode::S_IFMT) | mode::S_IFDIR;
    i.i_op = FsType::Minix;
    i.i_size = (2 * ds) as u32;
    i.i_dirt = true;
    fs.inodes[n] = i;
    let ghost x1 = i;
    let db: u32 = get_block(fs, n, 0, true);
    let ghost x2 = fs.inodes@[n as int];
    if db == 0 {
        fs.inodes[n].i_nlink = 0;
        assert(fs.inodes@ =~= s1.update(n as int, Inode { i_nlink: 0, ..x2 }));
        iput(fs, n);
        let ghost r: Result<usize, i32> = Err(ENOSPC);
        assert(dir_filled(
            c1,
            s1,
            x2,
            &fs.cache,
            fs.inodes@,
            fs.supers@,
            fs.now,
            dir,
            name@,
            m,
            n,
            r,
        ));
        return Err(ENOSPC);
    }
    let dev: u16 = fs.inodes[n].i_dev;
    let self_ino: u16 = (fs.inodes[n].i_ino % 65536) as u16;
    let parent_ino: u16 = (fs.inodes[dir].i_ino % 65536) as u16;
    match fs.cache.read_block(dev, db) {
        None => {},
        Some(mut data) => {
            write_dots(&mut data, ds, self_ino, parent_ino);
            let ok: bool = fs.cache.write_block(dev, db, data.as_slice());
        },
    }
    let ghost c3 = fs.blocks();
    fs.inodes[n].i_nlink = 2;
    fs.inodes[n].i_dirt = true;
    let ghost s3 = s1.update(n as int, Inode { i_nlink: 2, i_dirt: true, ..x2 });
    assert(fs.inodes@ =~= s3);
    proof {
        assert(x1 == as_dir(s1[n as int], m, ds as int));
        let (c2, z2, db2) = got(c1, fs.supers@[x1.i_sb as int], x1.i_dev, x1.data@, 0, true);
        assert(db2 == db);
        assert(renumbered(x1, x2, z2, fs.now));
        assert(c3 == with_dots(
            c2,
            x1.i_dev,
            db as u32,
            ds as int,
            (x1.i_ino % 65536) as u16,
            (s1[dir as int].i_ino % 65536) as u16,
        ));
    }
    let r: Result<usize, i32> = enter(fs, dir, name, n);
    let ghost s4 = fs.inodes@;
    assert(entered(c3, s3, &fs.cache, s4, fs.supers@, fs.now, dir, name@, n, r));
    if r.is_ok() {
        fs.inodes[dir].i_nlink = fs.inodes[dir].i_nlink + 1;
        fs.inodes[dir].i_dirt = true;
        assert(fs.inodes@ =~= s4.update(
            dir as int,
            Inode {
                i_nlink: (s4[dir as int].i_nlink + 1) as u16,
                i_dirt: true,
                ..s4[dir as int]
            },
        ));
    }
    assert(dir_filled(
        c1,
        s1,
        x2,
        &fs.cache,
        fs.inodes@,
        fs.supers@,
        fs.now,
        dir,
        name@,
        m,
        n,
        r,
    ));
    r
}

/// Inode `i` is a directory with nothing but its first two entries, which are of a
/// known size.
pub open spec fn is_empty_dir(c: Blocks, supers: Seq<SuperBlock>, i: Inode) -> bool {
    let s = supers[i.i_sb as int];
    &&& i.i_sb != NIL
    &&& sizes_ok(s)
    &&& i.i_size >= 2 * s.s_dirsize
    &&& next_entry(
        c,
        i.i_dev,
        i.data@,
        i.i_size as int,
        s.s_dirsize as int,
        2 * s.s_dirsize as int,
    ) is None
}

/// Whether directory `n` has nothing but its first two entries.
pub fn empty_dir(fs: &mut Fs, n: usize) -> (r: bool)
    requires
        old(fs).wf(),
        n < 64,
    ensures
        final(fs).wf(),
        final(fs).blocks() == old(fs).blocks(),
        final(fs).inodes@ == old(fs).inodes@,
        *final(fs) == (Fs { cache: final(fs).cache, inodes: final(fs).inodes, ..*old(fs) }),
        r == is_empty_dir(old(fs).blocks(), old(fs).supers@, old(fs).inodes@[n as int]),
{
    let sb_nr: usize = fs.inodes[n].i_sb;
    if sb_nr == NIL {
        return false;
    }
    let known: bool = (fs.supers[sb_nr].s_dirsize == 16 && fs.supers[sb_nr].s_namelen == 14) || (
    fs.supers[sb_nr].s_dirsize == 32 && fs.supers[sb_nr].s_namelen == 30);
    if !known {
        return false;
    }
    let ds: u64 = fs.supers[sb_nr].s_dirsize as u64;
    if (fs.inodes[n].i_size as u64) < 2 * ds {
        return false;
    }
    readdir(fs, n, 2 * ds).is_none()
}

// ---- removing names ----

/// Why the directory that inode `n` is cannot be removed; zero where it can.
pub open spec fn rmdir_error(c: Blocks, s: Seq<Inode>, supers: Seq<SuperBlock>, root: usize, n: usize) -> i32 {
    let i = s[n as int];
    if type_bits(i.i_mode) != mode::S_IFDIR {
        ENOTDIR
    } else if i.i_mount != NIL || n == root {
        EBUSY
    } else if !is_empty_dir(c, supers, i) {
        ENOTEMPTY
    } else if i.i_count > 1 {
        EBUSY
    } else {
        0
    }
}

/// The table with directory `n` removed from directory `dir`.
pub open spec fn dir_gone(s: Seq<Inode>, dir: usize, n: usize, now: u32) -> Seq<Inode> {
    let s1 = s.update(n as int, Inode { i_nlink: 0, i_dirt: true, ..s[n as int] });
    s1.update(
        dir as int,
        Inode {
            i_nlink: if s1[dir as int].i_nlink == 0 {
                0
            } else {
                (s1[dir as int].i_nlink - 1) as u16
            },
            i_ctime: now,
            i_mtime: now,
            i_dirt: true,
            ..s1[dir as int]
        },
    )
}

/// What removing the directory of inode number `ino`, whose entry is at `o` in
/// block `b`, does.
pub open spec fn rmdir_did(
    c0: Blocks,
    s0: Seq<Inode>,
    e: &BufferCache,
    s: Seq<Inode>,
    supers: Seq<SuperBlock>,
    now: u32,
    root: usize,
    dir: usize,
    ino: u32,
    b: u32,
    o: int,
    r: i32,
) -> bool {
    let d0 = s0[dir as int];
    exists|c1: Blocks, s1: Seq<Inode>, n: usize|
        {
            &&& #[trigger] iget_did(c0, s0, c1, s1, supers, d0.i_sb, ino, false, n)
            &&& if n == NIL {
                r == ENOENT && e.content() == c1 && s == s1
            } else {
                let err = rmdir_error(c1, s1, supers, root, n);
                &&& r == err
                &&& if err != 0 {
                    iput_did(c1, s1, e, s, supers, now, n)
                } else {
                    iput_did(
                        with_ino(c1, d0.i_dev, b, o, 0),
                        dir_gone(s1, dir, n, now),
                        e,
                        s,
                        supers,
                        now,
                        n,
                    )
                }
            }
        }
}

/// The state `fs` is that of `fs0` after a directory was to be removed from
/// directory `dir`.
pub open spec fn removed_dir(fs0: &Fs, fs: &Fs, dir: usize, name: Seq<u8>, r: i32) -> bool {
    &&& *fs == (Fs { cache: fs.cache, inodes: fs.inodes, ..*fs0 })
    &&& {
        let i = fs0.inodes@[dir as int];
        let c = fs0.blocks();
        let unchanged = fs.blocks() == c && fs.inodes@ == fs0.inodes@;
        if i.rdonly_in(fs0) {
            r == EPERM && unchanged
        } else {
            match found_in(c, fs0.supers@[i.i_sb as int], i, name) {
                None => r == ENOENT && unchanged,
                Some(off) => rmdir_did(
                    c,
                    fs0.inodes@,
                    &fs.cache,
                    fs.inodes@,
                    fs0.supers@,
                    fs0.now,
                    fs0.root_inode,
                    dir,
                    entry_ino(c, i.i_dev, i.data@, off) as u32,
                    mapped(c, i.i_dev, i.data@, off / 1024) as u32,
                    off % 1024,
                    r,
                ),
            }
        }
    }
}

/// Removes a directory from directory `dir`. Answers zero, or the error.
#[verifier::spinoff_prover]
#[verifier::rlimit(60)]
pub fn rmdir(fs: &mut Fs, dir: usize, name: &[u8]) -> (r: i32)
    requires
        old(fs).wf(),
        dir < 64,
        dir_ok(old(fs).supers@, old(fs).inodes@[dir as int]),
        countable(old(fs).inodes@),
        old(fs).inodes@[dir as int].i_count > 0,
    ensures
        final(fs).wf(),
        removed_dir(old(fs), final(fs), dir, name@, r),
{
    let d: Inode = fs.inodes[dir];
    if d.is_rdonly(fs) {
        return EPERM;
    }
    let sb_nr: usize = d.i_sb;
    let ghost c0 = fs.blocks();
    let ghost s0 = fs.inodes@;
    let (b, off): (u32, usize) = match find_entry(fs, dir, name) {
        Some(x) => x,
        None => {
            return ENOENT;
        },
    };
    let ino: u32 = get_entry_ino(fs, d.i_dev, b, off) as u32;
    let n: usize = iget_cross(fs, sb_nr, ino, false);
    let ghost c1 = fs.blocks();
    let ghost s1 = fs.inodes@;
    assert(iget_did(c0, s0, c1, s1, fs.supers@, d.i_sb, ino, false, n));
    if n == NIL {
        return ENOENT;
    }
    proof {
        crate::fs::inode::lemma_iget_ref(c0, s0, c1, s1, fs.supers@, sb_nr, ino, false, n);
    }
    let err: i32 = if !mode::is_dir(fs.inodes[n].i_mode) {
        ENOTDIR
    } else if fs.inodes[n].i_mount != NIL || n == fs.root_inode {
        EBUSY
    } else if !empty_dir(fs, n) {
        ENOTEMPTY
    } else if fs.inodes[n].i_count > 1 {
        EBUSY
    } else {
        0
    };
    assert(err == rmdir_error(c1, s1, fs.supers@, fs.root_inode, n));
    if err == 0 {
        set_entry_ino(fs, d.i_dev, b, off, 0);
        let now: u32 = fs.now;
        fs.inodes[n].i_nlink = 0;
        fs.inodes[n].i_dirt = true;
        assert(n != dir);
        if fs.inodes[dir].i_nlink > 0 {
            fs.inodes[dir].i_nlink = fs.inodes[dir].i_nlink - 1;
        }
        fs.inodes[dir].i_ctime = now;
        fs.inodes[dir].i_mtime = now;
        fs.inodes[dir].i_dirt = true;
        assert(fs.inodes@ =~= dir_gone(s1, dir, n, now));
    }
    iput(fs, n);
    err
}

/// The table with one link from directory `dir` to inode `n` less.
pub open spec fn link_gone(s: Seq<Inode>, dir: usize, n: usize, now: u32) -> Seq<Inode> {
    let i = s[n as int];
    let s1 = s.update(
        n as int,
        Inode {
            i_nlink: if i.i_nlink == 0 {
                0
            } else {
                (i.i_nlink - 1) as u16
            },
            i_ctime: now,
            i_dirt: true,
            ..i
        },
    );
    s1.update(
        dir as int,
        Inode { i_ctime: now, i_mtime: now, i_dirt: true, ..s1[dir as int] },
    )
}

/// What removing the file of inode number `ino`, whose entry is at `o` in block
/// `b`, does.
pub open spec fn unlink_did(
    c0: Blocks,
    s0: Seq<Inode>,
    e: &BufferCache,
    s: Seq<Inode>,
    supers: Seq<SuperBlock>,
    now: u32,
    dir: usize,
    ino: u32,
    b: u32,
    o: int,
    r: i32,
) -> bool {
    let d0 = s0[dir as int];
    exists|c1: Blocks, s1: Seq<Inode>, n: usize|
        {
            &&& #[trigger] iget_did(c0, s0, c1, s1, supers, d0.i_sb, ino, false, n)
            &&& if n == NIL {
                r == ENOENT && e.content() == c1 && s == s1
            } else if type_bits(s1[n as int].i_mode) == mode::S_IFDIR {
                r == EPERM && iput_did(c1, s1, e, s, supers, now, n)
            } else {
                r == 0 && iput_did(
                    with_ino(c1, d0.i_dev, b, o, 0),
                    link_gone(s1, dir, n, now),
                    e,
                    s,
                    supers,
                    now,
                    n,
                )
            }
        }
}

/// The state `fs` is that of `fs0` after a file was to be removed from directory
/// `dir`.
pub open spec fn removed_file(fs0: &Fs, fs: &Fs, dir: usize, name: Seq<u8>, r: i32) -> bool {
    &&& *fs == (Fs { cache: fs.cache, inodes: fs.inodes, ..*fs0 })
    &&& {
        let i = fs0.inodes@[dir as int];
        let c = fs0.blocks();
        let unchanged = fs.blocks() == c && fs.inodes@ == fs0.inodes@;
        if i.rdonly_in(fs0) {
            r == EPERM && unchanged
        } else {
            match found_in(c, fs0.supers@[i.i_sb as int], i, name) {
                None => r == ENOENT && unchanged,
                Some(off) => unlink_did(
                    c,
                    fs0.inodes@,
                    &fs.cache,
                    fs.inodes@,
                    fs0.supers@,
                    fs0.now,
                    dir,
                    entry_ino(c, i.i_dev, i.data@, off) as u32,
                    mapped(c, i.i_dev, i.data@, off / 1024) as u32,
                    off % 1024,
                    r,
                ),
            }
        }
    }
}

/// Removes a file, not a directory, from directory `dir`. Answers zero, or the
/// error.
#[verifier::spinoff_prover]
#[verifier::rlimit(60)]
pub fn unlink(fs: &mut Fs, dir: usize, name: &[u8]) -> (r: i32)
    requires
        old(fs).wf(),
        dir < 64,
        dir_ok(old(fs).supers@, old(fs).inodes@[dir as int]),
        countable(old(fs).inodes@),
    ensures
        final(fs).wf(),
        removed_file(old(fs), final(fs), dir, name@, r),
{
    let d: Inode = fs.inodes[dir];
    if d.is_rdonly(fs) {
        return EPERM;
    }
    let sb_nr: usize = d.i_sb;
    let ghost c0 = fs.blocks();
    let ghost s0 = fs.inodes@;
    let (b, off): (u32, usize) = match find_entry(fs, dir, name) {
        Some(x) => x,
        None => {
            return ENOENT;
        },
    };
    let ino: u32 = get_entry_ino(fs, d.i_dev, b, off) as u32;
    let n: usize = iget_cross(fs, sb_nr, ino, false);
    let ghost c1 = fs.blocks();
    let ghost s1 = fs.inodes@;
    assert(iget_did(c0, s0, c1, s1, fs.supers@, d.i_sb, ino, false, n));
    if n == NIL {
        return ENOENT;
    }
    proof {
        crate::fs::inode::lemma_iget_ref(c0, s0, c1, s1, fs.supers@, sb_nr, ino, false, n);
    }
    let err: i32 = if mode::is_dir(fs.inodes[n].i_mode) {
        EPERM
    } else {
        0
    };
    if err == 0 {
        if fs.inodes[n].i_nlink == 0 {
            fs.inodes[n].i_nlink = 1;
        }
        set_entry_ino(fs, d.i_dev, b, off, 0);
        let now: u32 = fs.now;
        fs.inodes[n].i_nlink = fs.inodes[n].i_nlink - 1;
        fs.inodes[n].i_ctime = now;
        fs.inodes[n].i_dirt = true;
        fs.inodes[dir].i_ctime = now;
        fs.inodes[dir].i_mtime = now;
        fs.inodes[dir].i_dirt = true;
        assert(fs.inodes@ =~= link_gone(s1, dir, n, now));
    }
    iput(fs, n);
    err
}

/// What entering inode `target` under one more name does, where the directory
/// can have the name.
pub open spec fn link_did(
    c0: Blocks,
    s0: Seq<Inode>,
    c: Blocks,
    s: Seq<Inode>,
    supers: Seq<SuperBlock>,
    now: u32,
    target: usize,
    dir: usize,
    name: Seq<u8>,
    r: i32,
) -> bool {
    let d0 = s0[dir as int];
    let sb = supers[d0.i_sb as int];
    if d0.i_sb == NIL || name.len() == 0 {
        r == ENOENT && c == c0 && s == s0
    } else if name.len() > sb.s_namelen {
        r == ENAMETOOLONG && c == c0 && s == s0
    } else {
        let (c1, z, end, b, off) = added(
            c0,
            sb,
            d0.i_dev,
            d0.data@,
            d0.i_size as int,
            name,
            0,
        );
        exists|d: Inode|
            {
                let s1 = s0.update(dir as int, d);
                &&& #[trigger] entry_added(d0, d, z, end, off, sb.s_namelen as int, now)
                &&& if end == AddEnd::Put {
                    &&& r == 0
                    &&& c == with_ino(
                        c1,
                        d0.i_dev,
                        b as u32,
                        off % 1024,
                        (s0[target as int].i_ino % 65536) as u16,
                    )
                    &&& s == s1.update(
                        target as int,
                        Inode {
                            i_nlink: (s1[target as int].i_nlink + 1) as u16,
                            i_ctime: now,
                            i_dirt: true,
                            ..s1[target as int]
                        },
                    )
                } else {
                    r == add_error(end) && c == c1 && s == s1
                }
            }
    }
}

/// The state `fs` is that of `fs0` after inode `target` was to be entered into
/// directory `dir` under one more name.
pub open spec fn linked(fs0: &Fs, fs: &Fs, target: usize, dir: usize, name: Seq<u8>, r: i32) -> bool {
    &&& *fs == (Fs { cache: fs.cache, inodes: fs.inodes, ..*fs0 })
    &&& {
        let i = fs0.inodes@[dir as int];
        let t = fs0.inodes@[target as int];
        let c = fs0.blocks();
        let unchanged = fs.blocks() == c && fs.inodes@ == fs0.inodes@;
        if i.rdonly_in(fs0) || type_bits(t.i_mode) == mode::S_IFDIR {
            r == EPERM && unchanged
        } else if t.i_nlink >= 250 {
            r == EMLINK && unchanged
        } else if found_in(c, fs0.supers@[i.i_sb as int], i, name) is Some {
            r == EEXIST && unchanged
        } else {
            link_did(
                c,
                fs0.inodes@,
                fs.blocks(),
                fs.inodes@,
                fs0.supers@,
                fs0.now,
                target,
                dir,
                name,
                r,
            )
        }
    }
}

/// Enters inode `target`, which is no directory, into directory `dir` under one
/// more name. Answers zero, or the error.
#[verifier::spinoff_prover]
#[verifier::rlimit(60)]
pub fn link(fs: &mut Fs, target: usize, dir: usize, name: &[u8]) -> (r: i32)
    requires
        old(fs).wf(),
        dir < 64,
        target < 64,
        dir_ok(old(fs).supers@, old(fs).inodes@[dir as int]),
    ensures
        final(fs).wf(),
        linked(old(fs), final(fs), target, dir, name@, r),
{
    let d: Inode = fs.inodes[dir];
    if d.is_rdonly(fs) {
        return EPERM;
    }
    if mode::is_dir(fs.inodes[target].i_mode) {
        return EPERM;
    }
    if fs.inodes[target].i_nlink >= MINIX_LINK_MAX {
        return EMLINK;
    }
    if find_entry(fs, dir, name).is_some() {
        return EEXIST;
    }
    let ghost s0 = fs.inodes@;
    let ino: u16 = (fs.inodes[target].i_ino % 65536) as u16;
    match add_entry(fs, dir, name) {
        Err(e) => {
            assert(fs.inodes@ =~= s0.update(dir as int, fs.inodes@[dir as int]));
            assert(fs.inodes@[dir as int] == s0[dir as int] ==> fs.inodes@ =~= s0);
            e
        },
        Ok((b, off)) => {
            let ghost s1 = fs.inodes@;
            set_entry_ino(fs, d.i_dev, b, off, ino);
            let now: u32 = fs.now;
            fs.inodes[target].i_nlink = fs.inodes[target].i_nlink + 1;
            fs.inodes[target].i_ctime = now;
            fs.inodes[target].i_dirt = true;
            assert(fs.inodes@ =~= s1.update(target as int, fs.inodes@[target as int]));
            0
        },
    }
}

} // verus!
