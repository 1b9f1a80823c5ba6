//! Making and removing files and directories.

use super::dir::{entries_from, find_named, first_named, DirIter, Ext4DirEntry};
use super::bitmap::{less_one, one_more};
use super::file_type;
use super::group_desc::Ext4GroupDesc;

use super::namei::{
    add_entry, block_buffer, entry_put, find_entry, lookup, lookup_did, named_in, same_links,
    with_entry, zero_block, zeroed_buffers,
};
use super::ops::full::{
    alloc_block_any, alloc_inode_any, block_taken, bmap, free_inode_any, inode_given, inode_taken,
    is_truncated, mapped, scaled, truncate, Ext4SbInfo,
};
use crate::bytes::{put_le16, put_le32, with_le16, with_le32, zeroed, zeros};
use crate::errno::{
    EEXIST, EIO, EMLINK, ENAMETOOLONG, ENOENT, ENOSPC, ENOTDIR, ENOTEMPTY, EPERM,
};
use crate::fs::ext2::inode::mode::type_bits;
use crate::fs::inode::{
    iget, iget_fs, iput, iput_fs, lemma_iget_ref, FsType, Inode, NIL,
};
use crate::fs::mode;
use crate::fs::super_block::SuperBlock;
use crate::fs::sync::{is_synced, sync_dev};
use crate::fs::{Blocks, Fs};
use vstd::prelude::*;

verus! {

/// All inodes can have one reference more.
pub open spec fn countable(s: Seq<Inode>) -> bool {
    forall|n: int| 0 <= n < 64 ==> (#[trigger] s[n]).i_count < u16::MAX
}

/// Inode `i`, which is new, as a file of mode `m` in directory `dir`, made by that user
/// and group. The group is that of a directory which hands its group on.
pub open spec fn as_node(i: Inode, dir: Inode, m: u16, euid: u16, egid: u16) -> Inode {
    Inode {
        i_mode: m,
        i_nlink: 1,
        i_uid: euid,
        i_gid: if dir.i_mode & 0o2000 != 0 {
            dir.i_gid
        } else {
            egid
        },
        i_size: 0,
        i_op: FsType::Ext2,
        i_sb: dir.i_sb,
        i_dirt: true,
        ..i
    }
}

/// The state `fs` is that of `fs0` with inode `ip` made a file of mode `m`.
pub open spec fn node_set(fs0: &Fs, fs: &Fs, ip: usize, dir: usize, m: u16) -> bool {
    &&& *fs == (Fs { inodes: fs.inodes, ..*fs0 })
    &&& fs.inodes@ == fs0.inodes@.update(
        ip as int,
        as_node(
            fs0.inodes@[ip as int],
            fs0.inodes@[dir as int],
            m,
            fs0.euid,
            fs0.egid,
        ),
    )
}

/// The state `fs` is that of `fs0` after inode `ip` of number `ino` was made a file
/// and entered under a name.
pub open spec fn node_entered(
    fs0: &Fs,
    fs: &Fs,
    dir: usize,
    name: Seq<u8>,
    m: u16,
    ftype: u8,
    ino: u32,
    ip: usize,
    r: Result<usize, i32>,
) -> bool {
    exists|fs1: Fs, er: Result<(), i32>|
        {
            &&& node_set(fs0, &fs1, ip, dir, m)
            &&& #[trigger] entry_put(&fs1, fs, dir, ino, name, ftype, er)
            &&& r == match er {
                Ok(_) => Ok::<usize, i32>(ip),
                Err(e) => Err::<usize, i32>(e),
            }
        }
}

/// The state `fs` is that of `fs0` after a file was made in directory `dir`, with
/// the answer `r`.
pub open spec fn node_made(
    fs0: &Fs,
    fs: &Fs,
    dir: usize,
    name: Seq<u8>,
    m: u16,
    ftype: u8,
    r: Result<usize, i32>,
) -> bool {
    let sb = fs0.inodes@[dir as int].i_sb;
    exists|fs1: Fs, got: Option<u32>|
        {
            &&& #[trigger] inode_taken(fs0, &fs1, sb, got)
            &&& match got {
                None => r == Err::<usize, i32>(ENOSPC) && *fs == fs1,
                Some(ino) => exists|fs2: Fs, ip: usize|
                    {
                        &&& #[trigger] iget_fs(&fs1, &fs2, sb, ino, true, ip)
                        &&& if ip == NIL {
                            r == Err::<usize, i32>(EIO) && inode_given(&fs2, fs, sb, ino)
                        } else {
                            node_entered(&fs2, fs, dir, name, m, ftype, ino, ip, r)
                        }
                    },
            }
        }
}

/// What making a file of mode `m` does, with the answer `r`.
pub open spec fn mknod_did(
    fs0: &Fs,
    fs: &Fs,
    dir: usize,
    name: Seq<u8>,
    m: u16,
    ftype: u8,
    r: Result<usize, i32>,
) -> bool {
    let same = *fs == (Fs { cache: fs.cache, ..*fs0 }) && fs.blocks() == fs0.blocks();
    if name.len() > 255 {
        r == Err::<usize, i32>(ENAMETOOLONG) && same
    } else if fs0.inodes@[dir as int].i_sb == NIL {
        r == Err::<usize, i32>(EIO) && same
    } else if named_in(fs0, dir, name) is Some {
        r == Err::<usize, i32>(EEXIST) && same
    } else {
        exists|fs1: Fs|
            {
                &&& fs1 == (Fs { cache: fs1.cache, ..*fs0 })
                &&& fs1.blocks() == fs0.blocks()
                &&& #[trigger] node_made(&fs1, fs, dir, name, m, ftype, r)
            }
    }
}

/// Makes a file of mode `m`, entered as one of type `ftype`.
#[verifier::spinoff_prover]
#[verifier::rlimit(60)]
fn make_node(fs: &mut Fs, dir: usize, name: &[u8], m: u16, ftype: u8) -> (r: Result<usize, i32>)
    requires
        old(fs).wf(),
        dir < 64,
        old(fs).inodes@[dir as int].i_count > 0,
        countable(old(fs).inodes@),
    ensures
        final(fs).wf(),
        final(fs).same_roots(old(fs)),
        mknod_did(old(fs), final(fs), dir, name@, m, ftype, r),
        r is Ok ==> {
            let ip = r->Ok_0;
            let s = final(fs).inodes@;
            &&& ip < 64
            &&& old(fs).inodes@[dir as int].i_sb != NIL
            &&& s[ip as int].i_sb == old(fs).inodes@[dir as int].i_sb
            &&& s[ip as int].i_count >= 1
        },
{
    if name.len() > 255 {
        return Err(ENAMETOOLONG);
    }
    let sb_nr: usize = fs.inodes[dir].i_sb;
    if sb_nr == NIL {
        return Err(EIO);
    }
    if find_entry(fs, dir, name).is_some() {
        return Err(EEXIST);
    }
    let ghost f0 = *fs;
    let got: Option<u32> = alloc_inode_any(fs, sb_nr);
    let ghost f1 = *fs;
    assert(inode_taken(&f0, &f1, sb_nr, got));
    let ino: u32 = match got {
        None => {
            let ghost r: Result<usize, i32> = Err(ENOSPC);
            assert(node_made(&f0, fs, dir, name@, m, ftype, r));
            return Err(ENOSPC);
        },
        Some(n) => n,
    };
    let ip: usize = iget(fs, sb_nr, ino);
    let ghost f2 = *fs;
    assert(iget_fs(&f1, &f2, sb_nr, ino, true, ip));
    if ip == NIL {
        free_inode_any(fs, sb_nr, ino);
        let ghost r: Result<usize, i32> = Err(EIO);
        assert(node_made(&f0, fs, dir, name@, m, ftype, r));
        return Err(EIO);
    }
    proof {
        lemma_iget_ref(
            f1.blocks(),
            f1.inodes@,
            f2.blocks(),
            f2.inodes@,
            f1.supers@,
            sb_nr,
            ino,
            true,
            ip,
        );
        assert(f1.inodes@[dir as int].i_count > 0);
    }
    let dir_mode: u16 = fs.inodes[dir].i_mode;
    let dir_gid: u16 = fs.inodes[dir].i_gid;
    let mut i: Inode = fs.inodes[ip];
    i.i_mode = m;
    i.i_nlink = 1;
    i.i_uid = fs.euid;
    i.i_gid = if dir_mode & mode::S_ISGID != 0 {
        dir_gid
    } else {
        fs.egid
    };
    i.i_size = 0;
    i.i_op = FsType::Ext2;
    i.i_sb = sb_nr;
    i.i_dirt = true;
    fs.inodes[ip] = i;
    let ghost f3 = *fs;
    proof {
        assert(f3.inodes@ =~= f2.inodes@.update(
            ip as int,
            as_node(f2.inodes@[ip as int], f2.inodes@[dir as int], m, f2.euid, f2.egid),
        ));
        assert(node_set(&f2, &f3, ip, dir, m));
    }
    let er: Result<(), i32> = add_entry(fs, dir, ino, name, ftype);
    let r: Result<usize, i32> = match er {
        Ok(_) => Ok(ip),
        Err(e) => Err(e),
    };
    proof {
        assert(entry_put(&f3, fs, dir, ino, name@, ftype, er));
        assert(node_entered(&f2, fs, dir, name@, m, ftype, ino, ip, r));
        assert(node_made(&f0, fs, dir, name@, m, ftype, r));
        assert(same_links(f3.inodes@, fs.inodes@));
    }
    r
}

/// Makes a regular file in directory `dir`.
pub fn create(fs: &mut Fs, dir: usize, name: &[u8], m: u16) -> (r: Result<usize, i32>)
    requires
        old(fs).wf(),
        dir < 64,
        old(fs).inodes@[dir as int].i_count > 0,
        countable(old(fs).inodes@),
    ensures
        final(fs).wf(),
        final(fs).same_roots(old(fs)),
        mknod_did(
            old(fs),
            final(fs),
            dir,
            name@,
            (m & !mode::S_IFMT) | mode::S_IFREG,
            file_type::EXT4_FT_REG_FILE,
            r,
        ),
        r is Ok ==> r->Ok_0 < 64,
{
    make_node(
        fs,
        dir,
        name,
        (m & !mode::S_IFMT) | mode::S_IFREG,
        file_type::EXT4_FT_REG_FILE,
    )
}

/// The type that a directory entry has for a file of mode `m`.
pub open spec fn type_of(m: u16) -> u8 {
    if type_bits(m) == mode::S_IFDIR {
        file_type::EXT4_FT_DIR
    } else if type_bits(m) == mode::S_IFCHR {
        file_type::EXT4_FT_CHRDEV
    } else if type_bits(m) == mode::S_IFBLK {
        file_type::EXT4_FT_BLKDEV
    } else if type_bits(m) == mode::S_IFIFO {
        file_type::EXT4_FT_FIFO
    } else {
        file_type::EXT4_FT_REG_FILE
    }
}

fn entry_type(m: u16) -> (r: u8)
    ensures
        r == type_of(m),
{
    if mode::is_dir(m) {
        file_type::EXT4_FT_DIR
    } else if mode::is_chr(m) {
        file_type::EXT4_FT_CHRDEV
    } else if mode::is_blk(m) {
        file_type::EXT4_FT_BLKDEV
    } else if mode::is_fifo(m) {
        file_type::EXT4_FT_FIFO
    } else {
        file_type::EXT4_FT_REG_FILE
    }
}

/// Makes a file of any kind in directory `dir`.
pub fn mknod(fs: &mut Fs, dir: usize, name: &[u8], m: u16, _rdev: u16) -> (r: Result<usize, i32>)
    requires
        old(fs).wf(),
        dir < 64,
        old(fs).inodes@[dir as int].i_count > 0,
        countable(old(fs).inodes@),
    ensures
        final(fs).wf(),
        final(fs).same_roots(old(fs)),
        mknod_did(old(fs), final(fs), dir, name@, m, type_of(m), r),
        r is Ok ==> r->Ok_0 < 64,
{
    let ft: u8 = entry_type(m);
    make_node(fs, dir, name, m, ft)
}

// ---- directories ----

/// The first buffer of a new directory of one block of `bs` bytes: the entries of
/// the directory itself and of the one it is in.
pub open spec fn dots(ino: u32, parent: u32, bs: int) -> Seq<u8> {
    let d1 = with_entry(
        with_le16(zeros(1024), 4, 12),
        0,
        ino,
        seq![46u8],
        file_type::EXT4_FT_DIR,
    );
    let d2 = with_le16(d1, 16, ((bs - 12) % 65536) as u16);
    with_entry(d2, 12, parent, seq![46u8, 46u8], file_type::EXT4_FT_DIR)
}

/// The first buffer of a new directory.
fn dots_bytes(ino: u32, parent: u32, bs: usize) -> (d: Vec<u8>)
    requires
        bs >= 1024,
    ensures
        d@ == dots(ino, parent, bs as int),
        d@.len() == 1024,
{
    let mut d: Vec<u8> = zeroed(1024);
    put_le16(&mut d, 4, 12);
    put_le32(&mut d, 0, ino);
    d[6] = 1;
    d[7] = file_type::EXT4_FT_DIR;
    d[8] = 46;
    let ghost d1 = with_entry(
        with_le16(zeros(1024), 4, 12),
        0,
        ino,
        seq![46u8],
        file_type::EXT4_FT_DIR,
    );
    assert(d@ =~= d1);
    put_le16(&mut d, 16, ((bs - 12) % 65536) as u16);
    let ghost d2 = d@;
    put_le32(&mut d, 12, parent);
    d[18] = 2;
    d[19] = file_type::EXT4_FT_DIR;
    d[20] = 46;
    d[21] = 46;
    assert(d@ =~= with_entry(d2, 12, parent, seq![46u8, 46u8], file_type::EXT4_FT_DIR));
    d
}

/// The state `fs` is that of `fs0` with the directory `ip`, in directory `dir`,
/// linked twice, and the directory above it once more.
pub open spec fn dir_linked(fs0: &Fs, fs: &Fs, ip: usize, dir: usize) -> bool {
    let s1 = fs0.inodes@.update(
        ip as int,
        Inode { i_nlink: 2, i_dirt: true, ..fs0.inodes@[ip as int] },
    );
    let n = fs0.inodes@[ip as int].i_sb as int;
    let f = fs0.ext4@[n];
    &&& *fs == (Fs { inodes: fs.inodes, ext4: fs.ext4, ..*fs0 })
    &&& fs.inodes@ == s1.update(
        dir as int,
        Inode {
            i_nlink: if s1[dir as int].i_nlink == u16::MAX {
                u16::MAX
            } else {
                (s1[dir as int].i_nlink + 1) as u16
            },
            i_dirt: true,
            ..s1[dir as int]
        },
    )
    &&& fs.ext4@ == fs0.ext4@.update(
        n,
        Ext4SbInfo {
            ext4_gd: Ext4GroupDesc {
                used_dirs_count: one_more(f.ext4_gd.used_dirs_count),
                ..f.ext4_gd
            },
            ..f
        },
    )
}

/// The blocks with the first block, of `bs` bytes, of a directory in block `b` of the
/// file system, `scale` buffers of which are set.
pub open spec fn dots_block(c: Blocks, dev: u16, b: int, scale: int, bs: int, ino: u32, parent: u32) -> Blocks {
    let c1 = zeroed_buffers(c, dev, b, scale, scale);
    let key = (dev, block_buffer(b, scale, 0));
    if c1.dom().contains(key) {
        c1.insert(key, dots(ino, parent, bs))
    } else {
        c1
    }
}

/// The state `fs` is that of `fs0` after directory `ip` was given the block `phys`.
pub open spec fn dir_started(fs0: &Fs, fs: &Fs, ip: usize, dir: usize, phys: u64) -> bool {
    let i0 = fs0.inodes@[ip as int];
    let i = fs.inodes@[ip as int];
    let f = fs0.ext4@[i0.i_sb as int];
    &&& *fs == (Fs { cache: fs.cache, inodes: fs.inodes, ..*fs0 })
    &&& fs.blocks() == dots_block(
        fs0.blocks(),
        fs0.supers@[i0.i_sb as int].s_dev,
        phys as int,
        f.scale32(),
        f.fs_block_size as int,
        i0.i_ino,
        fs0.inodes@[dir as int].i_ino,
    )
    &&& fs.inodes@ == fs0.inodes@.update(ip as int, i)
    &&& i == (Inode { data: i.data, i_size: f.fs_block_size as u32, ..i0 })
    &&& i.data@ == i0.data@.update(0, (phys % 65536) as u16)
}

/// The state `fs` is that of `fs0` after the new directory `ip`, for which there is
/// no block, was given up.
pub open spec fn dir_given_up(fs0: &Fs, fs: &Fs, ip: usize) -> bool {
    let i0 = fs0.inodes@[ip as int];
    exists|fs1: Fs, fs2: Fs|
        {
            &&& fs1 == (Fs { inodes: fs1.inodes, ..*fs0 })
            &&& fs1.inodes@ == fs0.inodes@.update(ip as int, Inode { i_nlink: 0, ..i0 })
            &&& #[trigger] inode_given(&fs1, &fs2, i0.i_sb, i0.i_ino)
            &&& iput_fs(&fs2, fs, ip)
        }
}

/// The state `fs` is that of `fs0` after the new file `ip` in directory `dir` was
/// made a directory, with the answer `r`.
pub open spec fn dir_made(fs0: &Fs, fs: &Fs, ip: usize, dir: usize, r: Result<usize, i32>) -> bool {
    let sb = fs0.inodes@[ip as int].i_sb;
    exists|fs1: Fs, fs2: Fs, got: Option<u64>|
        {
            &&& dir_linked(fs0, &fs1, ip, dir)
            &&& fs0.wf() && fs2.wf()
            &&& #[trigger] block_taken(&fs1, &fs2, sb, got)
            &&& match got {
                None => r == Err::<usize, i32>(ENOSPC) && dir_given_up(&fs2, fs, ip),
                Some(phys) => r == Ok::<usize, i32>(ip) && dir_started(&fs2, fs, ip, dir, phys),
            }
        }
}

/// What making a directory does, with the answer `r`.
pub open spec fn mkdir_did(fs0: &Fs, fs: &Fs, dir: usize, name: Seq<u8>, m: u16, r: Result<usize, i32>) -> bool {
    exists|fs1: Fs, r1: Result<usize, i32>|
        {
            &&& #[trigger] mknod_did(
                fs0,
                &fs1,
                dir,
                name,
                0o40000 | m,
                type_of(0o40000 | m),
                r1,
            )
            &&& match r1 {
                Err(e) => r == Err::<usize, i32>(e) && *fs == fs1,
                Ok(ip) => dir_made(&fs1, fs, ip, dir, r),
            }
        }
}

/// Makes a directory in directory `dir`.
#[verifier::spinoff_prover]
#[verifier::rlimit(80)]
pub fn mkdir(fs: &mut Fs, dir: usize, name: &[u8], m: u16) -> (r: Result<usize, i32>)
    requires
        old(fs).wf(),
        dir < 64,
        old(fs).inodes@[dir as int].i_count > 0,
        countable(old(fs).inodes@),
    ensures
        final(fs).wf(),
        final(fs).same_roots(old(fs)),
        mkdir_did(old(fs), final(fs), dir, name@, m, r),
        r is Ok ==> r->Ok_0 < 64,
{
    let mm: u16 = 0o40000 | m;
    let ft: u8 = entry_type(mm);
    let r1: Result<usize, i32> = make_node(fs, dir, name, mm, ft);
    let ghost f1 = *fs;
    assert(mknod_did(old(fs), &f1, dir, name@, mm, type_of(mm), r1));
    let ip: usize = match r1 {
        Err(e) => {
            return Err(e);
        },
        Ok(ip) => ip,
    };
    let sb_nr: usize = fs.inodes[ip].i_sb;
    let ghost s1 = f1.inodes@.update(
        ip as int,
        Inode { i_nlink: 2, i_dirt: true, ..f1.inodes@[ip as int] },
    );
    fs.inodes[ip].i_nlink = 2;
    fs.inodes[ip].i_dirt = true;
    assert(fs.inodes@ =~= s1);
    if fs.inodes[dir].i_nlink < u16::MAX {
        fs.inodes[dir].i_nlink = fs.inodes[dir].i_nlink + 1;
    }
    fs.inodes[dir].i_dirt = true;
    fs.ext4[sb_nr].ext4_gd.used_dirs_count =
    fs.ext4[sb_nr].ext4_gd.used_dirs_count.saturating_add(1);
    let ghost f2 = *fs;
    proof {
        assert(f2.inodes@ =~= s1.update(dir as int, f2.inodes@[dir as int]));
        assert(f2.ext4@ =~= f1.ext4@.update(sb_nr as int, f2.ext4@[sb_nr as int]));
        assert(dir_linked(&f1, &f2, ip, dir));
    }
    let got: Option<u64> = alloc_block_any(fs, sb_nr);
    let ghost f3 = *fs;
    assert(block_taken(&f2, &f3, sb_nr, got));
    let phys: u64 = match got {
        None => {
            fs.inodes[ip].i_nlink = 0;
            let ghost f4 = *fs;
            assert(f4.inodes@ =~= f3.inodes@.update(
                ip as int,
                Inode { i_nlink: 0, ..f3.inodes@[ip as int] },
            ));
            let ino: u32 = fs.inodes[ip].i_ino;
            free_inode_any(fs, sb_nr, ino);
            let ghost f5 = *fs;
            assert(inode_given(&f4, &f5, sb_nr, ino));
            iput(fs, ip);
            proof {
                let r: Result<usize, i32> = Err(ENOSPC);
                assert(dir_given_up(&f3, fs, ip));
                assert(dir_made(&f1, fs, ip, dir, r));
            }
            return Err(ENOSPC);
        },
        Some(b) => b,
    };
    let dev: u16 = fs.supers[sb_nr].s_dev;
    let bs: usize = fs.ext4[sb_nr].fs_block_size;
    let scale: u32 = ((bs / 1024) as u64 % 0x1_0000_0000) as u32;
    let ino: u32 = fs.inodes[ip].i_ino;
    let parent: u32 = fs.inodes[dir].i_ino;
    let ghost i3 = f3.inodes@[ip as int];
    fs.inodes[ip].data[0] = (phys % 65536) as u16;
    fs.inodes[ip].i_size = bs as u32;
    proof {
        assert(fs.inodes@[ip as int].data@ =~= i3.data@.update(0, (phys % 65536) as u16));
        assert(fs.inodes@ =~= f3.inodes@.update(ip as int, fs.inodes@[ip as int]));
    }
    zero_block(fs, dev, phys, scale);
    let first: u32 = scaled((phys % 0x1_0000_0000) as u32, scale, 0);
    let raw: Vec<u8> = dots_bytes(ino, parent, bs);
    let ok: bool = fs.cache.write_block(dev, first, raw.as_slice());
    proof {
        let r: Result<usize, i32> = Ok(ip);
        assert(dir_started(&f3, fs, ip, dir, phys));
        assert(dir_made(&f1, fs, ip, dir, r));
    }
    Ok(ip)
}

// ---- removing names ----

/// Where the first entry of that name in buffer `k` to `n` of directory `i` is: the
/// device block, and the offset in it. A buffer that the device does not have ends
/// the search.
pub open spec fn entry_buffer(
    c: Blocks,
    supers: Seq<SuperBlock>,
    info: Seq<Ext4SbInfo>,
    i: Inode,
    name: Seq<u8>,
    k: int,
    n: int,
) -> Option<(u32, int)>
    decreases n - k,
{
    let b = mapped(c, supers, info, i, k);
    let key = (supers[i.i_sb as int].s_dev, b);
    if k >= n {
        None
    } else if b == 0 {
        entry_buffer(c, supers, info, i, name, k + 1, n)
    } else if !c.dom().contains(key) {
        None
    } else {
        match first_named(c[key], entries_from(c[key], 0, true), name) {
            Some(e) => Some((b, e.name_off - 8)),
            None => entry_buffer(c, supers, info, i, name, k + 1, n),
        }
    }
}

/// How many buffers a file has.
pub open spec fn buffers(i: Inode) -> int {
    (i.i_size + 1023) / 1024
}

/// The state `fs` is that of `fs0` after a name was taken out of directory `dir`,
/// with the answer `r`: the inode number of its entry is zero.
pub open spec fn entry_removed(fs0: &Fs, fs: &Fs, dir: usize, name: Seq<u8>, r: Result<(), i32>) -> bool {
    let c = fs0.blocks();
    let i = fs0.inodes@[dir as int];
    &&& *fs == (Fs { cache: fs.cache, ..*fs0 })
    &&& match entry_buffer(c, fs0.supers@, fs0.ext4@, i, name, 0, buffers(i)) {
        None => r == Err::<(), i32>(ENOENT) && fs.blocks() == c,
        Some((b, o)) => {
            let key = (fs0.supers@[i.i_sb as int].s_dev, b);
            r is Ok && fs.blocks() == c.insert(key, with_le32(c[key], o, 0))
        },
    }
}

/// Takes a name out of directory `dir`.
#[verifier::spinoff_prover]
#[verifier::rlimit(40)]
pub fn remove_entry(fs: &mut Fs, dir: usize, name: &[u8]) -> (r: Result<(), i32>)
    requires
        old(fs).wf(),
        dir < 64,
        old(fs).inodes@[dir as int].i_sb != NIL,
    ensures
        final(fs).wf(),
        entry_removed(old(fs), final(fs), dir, name@, r),
{
    let ghost c = fs.blocks();
    let ghost supers = fs.supers@;
    let ghost info = fs.ext4@;
    let ghost i = fs.inodes@[dir as int];
    let sb_nr: usize = fs.inodes[dir].i_sb;
    let dev: u16 = fs.supers[sb_nr].s_dev;
    let n: u32 = ((fs.inodes[dir].i_size as u64 + 1023) / 1024) as u32;
    let mut k: u32 = 0;
    while k < n
        invariant
            fs.wf(),
            dir < 64,
            i.i_sb != NIL,
            dev == supers[i.i_sb as int].s_dev,
            k <= n,
            n == buffers(i),
            *fs == (Fs { cache: fs.cache, ..*old(fs) }),
            fs.blocks() == c,
            c == old(fs).blocks(),
            supers == fs.supers@,
            info == fs.ext4@,
            i == fs.inodes@[dir as int],
            entry_buffer(c, supers, info, i, name@, 0, n as int) == entry_buffer(
                c,
                supers,
                info,
                i,
                name@,
                k as int,
                n as int,
            ),
        decreases n - k,
    {
        let phys: u32 = bmap(fs, dir, k, false);
        if phys != 0 {
            match fs.cache.read_block(dev, phys) {
                None => {
                    return Err(ENOENT);
                },
                Some(mut data) => match find_named(data.as_slice(), name, true) {
                    None => {},
                    Some(e) => {
                        let o: usize = e.name_off - 8;
                        put_le32(&mut data, o, 0);
                        let ok: bool = fs.cache.write_block(dev, phys, data.as_slice());
                        return Ok(());
                    },
                },
            }
        }
        k = k + 1;
    }
    Err(ENOENT)
}

/// How many of the entries are in use.
pub open spec fn in_use(es: Seq<Ext4DirEntry>) -> int
    decreases es.len(),
{
    if es.len() == 0 {
        0
    } else {
        (if es[0].inode != 0 {
            1int
        } else {
            0
        }) + in_use(es.drop_first())
    }
}

/// How many entries in use buffers `k` to `n` of directory `i` have, up to the first
/// hole. A buffer that the device does not have counts as empty.
pub open spec fn entries_used(
    c: Blocks,
    supers: Seq<SuperBlock>,
    info: Seq<Ext4SbInfo>,
    i: Inode,
    k: int,
    n: int,
) -> int
    decreases n - k,
{
    let b = mapped(c, supers, info, i, k);
    let key = (supers[i.i_sb as int].s_dev, b);
    if k >= n || b == 0 {
        0
    } else {
        (if c.dom().contains(key) {
            in_use(entries_from(c[key], 0, true))
        } else {
            0
        }) + entries_used(c, supers, info, i, k + 1, n)
    }
}

/// Counts the entries in use of a piece of a directory, on top of `n`, up to three.
fn count_entries(data: &Vec<u8>, n: u32) -> (r: u32)
    requires
        n <= 3,
    ensures
        r == (if n + in_use(entries_from(data@, 0, true)) > 3 {
            3
        } else {
            n + in_use(entries_from(data@, 0, true))
        }),
        in_use(entries_from(data@, 0, true)) >= 0,
{
    let mut it = DirIter::sub_block(data.as_slice());
    let mut r: u32 = n;
    let ghost total = in_use(entries_from(data@, 0, true));
    proof {
        lemma_in_use(entries_from(data@, 0, true));
    }
    loop
        invariant
            it.block() == data@,
            it.is_piece(),
            n <= r <= 3,
            total == in_use(entries_from(data@, 0, true)),
            r < 3 ==> r + in_use(it.remaining()) == n + total,
            r == 3 ==> n + total >= 3,
        decreases data@.len() - it.at(),
    {
        let ghost rest = it.remaining();
        proof {
            lemma_in_use(rest);
        }
        match it.next() {
            None => {
                return r;
            },
            Some(e) => {
                assert(rest.drop_first() =~= it.remaining());
                assert(rest[0] == e);
                proof {
                    lemma_in_use(it.remaining());
                }
                if !e.is_empty() && r < 3 {
                    r = r + 1;
                }
            },
        }
    }
}

proof fn lemma_in_use(es: Seq<Ext4DirEntry>)
    ensures
        in_use(es) >= 0,
    decreases es.len(),
{
    if es.len() > 0 {
        lemma_in_use(es.drop_first());
    }
}

proof fn lemma_entries_used(c: Blocks, supers: Seq<SuperBlock>, info: Seq<Ext4SbInfo>, i: Inode, k: int, n: int)
    ensures
        entries_used(c, supers, info, i, k, n) >= 0,
    decreases n - k,
{
    let b = mapped(c, supers, info, i, k);
    let key = (supers[i.i_sb as int].s_dev, b);
    if !(k >= n || b == 0) {
        lemma_in_use(entries_from(c[key], 0, true));
        lemma_entries_used(c, supers, info, i, k + 1, n);
    }
}

/// A directory has more than its first two entries.
pub open spec fn has_more(fs: &Fs, ip: usize) -> bool {
    let i = fs.inodes@[ip as int];
    entries_used(fs.blocks(), fs.supers@, fs.ext4@, i, 0, buffers(i)) > 2
}

/// Whether a directory has more than its first two entries.
#[verifier::spinoff_prover]
#[verifier::rlimit(40)]
fn check_more(fs: &mut Fs, ip: usize) -> (r: bool)
    requires
        old(fs).wf(),
        ip < 64,
    ensures
        final(fs).wf(),
        *final(fs) == (Fs { cache: final(fs).cache, ..*old(fs) }),
        final(fs).blocks() == old(fs).blocks(),
        r == has_more(old(fs), ip),
{
    let ghost c = fs.blocks();
    let ghost supers = fs.supers@;
    let ghost info = fs.ext4@;
    let ghost i = fs.inodes@[ip as int];
    let n: u32 = ((fs.inodes[ip].i_size as u64 + 1023) / 1024) as u32;
    let sb_nr: usize = fs.inodes[ip].i_sb;
    let mut used: u32 = 0;
    let mut k: u32 = 0;
    let ghost total = entries_used(c, supers, info, i, 0, n as int);
    while k < n
        invariant_except_break
            used < 3 ==> used + entries_used(c, supers, info, i, k as int, n as int) == total,
            used == 3 ==> total >= 3,
        invariant
            fs.wf(),
            ip < 64,
            k <= n,
            used <= 3,
            n == buffers(i),
            sb_nr == i.i_sb,
            total == entries_used(c, supers, info, i, 0, n as int),
            *fs == (Fs { cache: fs.cache, ..*old(fs) }),
            fs.blocks() == c,
            c == old(fs).blocks(),
            supers == fs.supers@,
            info == fs.ext4@,
            i == fs.inodes@[ip as int],
        ensures
            used > 2 <==> total > 2,
        decreases n - k,
    {
        proof {
            lemma_entries_used(c, supers, info, i, k as int, n as int);
            lemma_entries_used(c, supers, info, i, k + 1, n as int);
        }
        let phys: u32 = bmap(fs, ip, k, false);
        if phys == 0 {
            break;
        }
        assert(i.i_sb != NIL);
        let dev: u16 = fs.supers[sb_nr].s_dev;
        match fs.cache.read_block(dev, phys) {
            None => {},
            Some(data) => {
                used = count_entries(&data, used);
            },
        }
        k = k + 1;
    }
    used > 2
}

/// The state `fs` is that of `fs0` with one directory less in the first group of
/// the file system in slot `n`, where `one` is set.
pub open spec fn dirs_lessened(fs0: &Fs, fs: &Fs, n: usize, one: bool) -> bool {
    let f = fs0.ext4@[n as int];
    &&& *fs == (Fs { ext4: fs.ext4, ..*fs0 })
    &&& fs.ext4@ == (if one {
        fs0.ext4@.update(
            n as int,
            Ext4SbInfo {
                ext4_gd: Ext4GroupDesc {
                    used_dirs_count: less_one(f.ext4_gd.used_dirs_count),
                    ..f.ext4_gd
                },
                ..f
            },
        )
    } else {
        fs0.ext4@
    })
}

/// The state `fs` is that of `fs0` after what file `ip` takes up on disk was given
/// back, and the device written out. A file of no file system takes up nothing.
pub open spec fn file_dropped(fs0: &Fs, fs: &Fs, ip: usize, is_dir: bool) -> bool {
    let i0 = fs0.inodes@[ip as int];
    let sb = i0.i_sb;
    if sb == NIL {
        is_truncated(fs0, fs, ip)
    } else {
        exists|fs1: Fs, fs2: Fs, fs3: Fs|
            {
                &&& #[trigger] is_truncated(fs0, &fs1, ip)
                &&& dirs_lessened(&fs1, &fs2, sb, is_dir)
                &&& #[trigger] inode_given(&fs2, &fs3, sb, i0.i_ino)
                &&& is_synced(&fs3, fs, fs3.supers@[sb as int].s_dev)
            }
    }
}

/// Gives back what a file takes up on disk, and writes the device out.
#[verifier::spinoff_prover]
#[verifier::rlimit(40)]
fn drop_file(fs: &mut Fs, ip: usize, is_dir: bool)
    requires
        old(fs).wf(),
        ip < 64,
    ensures
        final(fs).wf(),
        file_dropped(old(fs), final(fs), ip, is_dir),
        same_links(old(fs).inodes@, final(fs).inodes@),
{
    let sb_nr: usize = fs.inodes[ip].i_sb;
    let ino: u32 = fs.inodes[ip].i_ino;
    let ghost f0 = *fs;
    truncate(fs, ip);
    let ghost f1 = *fs;
    assert(is_truncated(&f0, &f1, ip));
    if sb_nr == NIL {
        return;
    }
    if is_dir {
        fs.ext4[sb_nr].ext4_gd.used_dirs_count =
        fs.ext4[sb_nr].ext4_gd.used_dirs_count.saturating_sub(1);
    }
    let ghost f2 = *fs;
    proof {
        if is_dir {
            assert(f2.ext4@ =~= f1.ext4@.update(sb_nr as int, f2.ext4@[sb_nr as int]));
        }
        assert(dirs_lessened(&f1, &f2, sb_nr, is_dir));
    }
    free_inode_any(fs, sb_nr, ino);
    let ghost f3 = *fs;
    assert(inode_given(&f2, &f3, sb_nr, ino));
    let dev: u16 = fs.supers[sb_nr].s_dev;
    sync_dev(fs, dev);
    assert(is_synced(&f3, fs, dev));
}

/// The state `fs` is that of `fs0` with directory `ip` no longer linked, and
/// directory `dir` linked once less.
pub open spec fn dir_unlinked(fs0: &Fs, fs: &Fs, ip: usize, dir: usize) -> bool {
    let d = fs0.inodes@[dir as int];
    let s1 = fs0.inodes@.update(
        dir as int,
        Inode {
            i_nlink: if d.i_nlink == 0 {
                0
            } else {
                (d.i_nlink - 1) as u16
            },
            i_dirt: true,
            ..d
        },
    );
    &&& *fs == (Fs { inodes: fs.inodes, ..*fs0 })
    &&& fs.inodes@ == s1.update(
        ip as int,
        Inode { i_nlink: 0, i_dirt: true, ..s1[ip as int] },
    )
}

/// The state `fs` is that of `fs0` after directory `ip` was removed from `dir`, with
/// the answer `r`.
pub open spec fn dir_removed(fs0: &Fs, fs: &Fs, ip: usize, dir: usize, name: Seq<u8>, r: i32) -> bool {
    if type_bits(fs0.inodes@[ip as int].i_mode) != mode::S_IFDIR {
        r == -ENOTDIR && iput_fs(fs0, fs, ip)
    } else if has_more(fs0, ip) {
        exists|fs1: Fs|
            {
                &&& fs1 == (Fs { cache: fs1.cache, ..*fs0 })
                &&& fs1.blocks() == fs0.blocks()
                &&& #[trigger] iput_fs(&fs1, fs, ip)
                &&& r == -ENOTEMPTY
            }
    } else {
        exists|fs1: Fs, fs2: Fs, er: Result<(), i32>|
            {
                &&& fs1 == (Fs { cache: fs1.cache, ..*fs0 })
                &&& fs1.blocks() == fs0.blocks()
                &&& #[trigger] entry_removed(&fs1, &fs2, dir, name, er)
                &&& match er {
                    Err(e) => r == -e && *fs == fs2,
                    Ok(_) => exists|fs3: Fs, fs4: Fs|
                        {
                            &&& dir_unlinked(&fs2, &fs3, ip, dir)
                            &&& #[trigger] file_dropped(&fs3, &fs4, ip, true)
                            &&& iput_fs(&fs4, fs, ip)
                            &&& r == 0
                        },
                }
            }
    }
}

/// What removing a directory does, with the answer `r`.
pub open spec fn rmdir_did(fs0: &Fs, fs: &Fs, dir: usize, name: Seq<u8>, r: i32) -> bool {
    exists|fs1: Fs, got: Result<usize, i32>|
        {
            &&& #[trigger] lookup_did(fs0, &fs1, dir, name, got)
            &&& match got {
                Err(e) => r == -e && *fs == fs1,
                Ok(ip) => dir_removed(&fs1, fs, ip, dir, name, r),
            }
        }
}

/// The facts on an inode that a lookup gave.
proof fn lemma_looked_up(fs0: &Fs, fs: &Fs, dir: usize, name: Seq<u8>, ip: usize)
    requires
        fs0.wf(),
        dir < 64,
        countable(fs0.inodes@),
        fs0.inodes@[dir as int].i_count > 0,
        lookup_did(fs0, fs, dir, name, Ok(ip)),
        ip != NIL,
    ensures
        ip < 64,
        fs.inodes@[ip as int].i_count >= 1,
        fs.inodes@[dir as int] == (Inode {
            i_count: fs.inodes@[dir as int].i_count,
            ..fs0.inodes@[dir as int]
        }),
{
    let sb = fs0.inodes@[dir as int].i_sb;
    let ino = named_in(fs0, dir, name)->0;
    lemma_iget_ref(
        fs0.blocks(),
        fs0.inodes@,
        fs.blocks(),
        fs.inodes@,
        fs0.supers@,
        sb,
        ino,
        true,
        ip,
    );
}

/// Removes a directory from directory `dir`. Answers zero, or the negated error.
#[verifier::spinoff_prover]
#[verifier::rlimit(80)]
pub fn rmdir(fs: &mut Fs, dir: usize, name: &[u8]) -> (r: i32)
    requires
        old(fs).wf(),
        dir < 64,
        old(fs).inodes@[dir as int].i_sb != NIL,
        old(fs).inodes@[dir as int].i_count > 0,
        countable(old(fs).inodes@),
    ensures
        final(fs).wf(),
        final(fs).same_roots(old(fs)),
        rmdir_did(old(fs), final(fs), dir, name@, r),
{
    let got: Result<usize, i32> = lookup(fs, dir, name);
    let ghost f1 = *fs;
    assert(lookup_did(old(fs), &f1, dir, name@, got));
    let ip: usize = match got {
        Err(e) => {
            return -e;
        },
        Ok(ip) => ip,
    };
    proof {
        lemma_looked_up(old(fs), &f1, dir, name@, ip);
    }
    if !mode::is_dir(fs.inodes[ip].i_mode) {
        iput(fs, ip);
        return -ENOTDIR;
    }
    let more: bool = check_more(fs, ip);
    let ghost f2 = *fs;
    if more {
        iput(fs, ip);
        assert(iput_fs(&f2, fs, ip));
        assert(dir_removed(&f1, fs, ip, dir, name@, (-ENOTEMPTY) as i32));
        return -ENOTEMPTY;
    }
    let er: Result<(), i32> = remove_entry(fs, dir, name);
    let ghost f3 = *fs;
    assert(entry_removed(&f2, &f3, dir, name@, er));
    match er {
        Err(e) => {
            assert(dir_removed(&f1, fs, ip, dir, name@, (-ENOENT) as i32));
            return -e;
        },
        Ok(_) => {},
    }
    if fs.inodes[dir].i_nlink > 0 {
        fs.inodes[dir].i_nlink = fs.inodes[dir].i_nlink - 1;
    }
    fs.inodes[dir].i_dirt = true;
    let ghost s1 = fs.inodes@;
    assert(s1 =~= f3.inodes@.update(dir as int, s1[dir as int]));
    fs.inodes[ip].i_nlink = 0;
    fs.inodes[ip].i_dirt = true;
    let ghost f4 = *fs;
    assert(f4.inodes@ =~= s1.update(ip as int, f4.inodes@[ip as int]));
    assert(dir_unlinked(&f3, &f4, ip, dir));
    drop_file(fs, ip, true);
    let ghost f5 = *fs;
    assert(file_dropped(&f4, &f5, ip, true));
    assert(f5.inodes@[ip as int].i_count == f4.inodes@[ip as int].i_count);
    iput(fs, ip);
    assert(iput_fs(&f5, fs, ip));
    assert(dir_removed(&f1, fs, ip, dir, name@, 0));
    0
}

/// The state `fs` is that of `fs0` with file `ip` linked once less.
pub open spec fn link_lessened(fs0: &Fs, fs: &Fs, ip: usize) -> bool {
    let i = fs0.inodes@[ip as int];
    &&& *fs == (Fs { inodes: fs.inodes, ..*fs0 })
    &&& fs.inodes@ == fs0.inodes@.update(
        ip as int,
        Inode {
            i_nlink: if i.i_nlink == 0 {
                0
            } else {
                (i.i_nlink - 1) as u16
            },
            i_dirt: true,
            ..i
        },
    )
}

/// The state `fs` is that of `fs0` after the name of file `ip` in `dir` was removed,
/// with the answer `r`. The last name takes the file with it.
pub open spec fn file_removed(fs0: &Fs, fs: &Fs, ip: usize, dir: usize, name: Seq<u8>, r: i32) -> bool {
    if type_bits(fs0.inodes@[ip as int].i_mode) == mode::S_IFDIR {
        r == -EPERM && iput_fs(fs0, fs, ip)
    } else {
        exists|fs1: Fs, er: Result<(), i32>|
            {
                &&& #[trigger] entry_removed(fs0, &fs1, dir, name, er)
                &&& match er {
                    Err(e) => r == -e && *fs == fs1,
                    Ok(_) => exists|fs2: Fs, fs3: Fs|
                        {
                            &&& #[trigger] link_lessened(&fs1, &fs2, ip)
                            &&& if fs2.inodes@[ip as int].i_nlink == 0 {
                                file_dropped(&fs2, &fs3, ip, false)
                            } else {
                                fs3 == fs2
                            }
                            &&& #[trigger] iput_fs(&fs3, fs, ip)
                            &&& r == 0
                        },
                }
            }
    }
}

/// What removing a file does, with the answer `r`.
pub open spec fn unlink_did(fs0: &Fs, fs: &Fs, dir: usize, name: Seq<u8>, r: i32) -> bool {
    exists|fs1: Fs, got: Result<usize, i32>|
        {
            &&& #[trigger] lookup_did(fs0, &fs1, dir, name, got)
            &&& match got {
                Err(e) => r == -e && *fs == fs1,
                Ok(ip) => file_removed(&fs1, fs, ip, dir, name, r),
            }
        }
}

/// Removes a file, not a directory, from directory `dir`. Answers zero, or the
/// negated error.
#[verifier::spinoff_prover]
#[verifier::rlimit(80)]
pub fn unlink(fs: &mut Fs, dir: usize, name: &[u8]) -> (r: i32)
    requires
        old(fs).wf(),
        dir < 64,
        old(fs).inodes@[dir as int].i_sb != NIL,
        old(fs).inodes@[dir as int].i_count > 0,
        countable(old(fs).inodes@),
    ensures
        final(fs).wf(),
        final(fs).same_roots(old(fs)),
        unlink_did(old(fs), final(fs), dir, name@, r),
{
    let got: Result<usize, i32> = lookup(fs, dir, name);
    let ghost f1 = *fs;
    assert(lookup_did(old(fs), &f1, dir, name@, got));
    let ip: usize = match got {
        Err(e) => {
            return -e;
        },
        Ok(ip) => ip,
    };
    proof {
        lemma_looked_up(old(fs), &f1, dir, name@, ip);
    }
    if mode::is_dir(fs.inodes[ip].i_mode) {
        iput(fs, ip);
        return -EPERM;
    }
    let er: Result<(), i32> = remove_entry(fs, dir, name);
    let ghost f3 = *fs;
    assert(entry_removed(&f1, &f3, dir, name@, er));
    match er {
        Err(e) => {
            assert(file_removed(&f1, fs, ip, dir, name@, (-ENOENT) as i32));
            return -e;
        },
        Ok(_) => {},
    }
    if fs.inodes[ip].i_nlink > 0 {
        fs.inodes[ip].i_nlink = fs.inodes[ip].i_nlink - 1;
    }
    fs.inodes[ip].i_dirt = true;
    let ghost f4 = *fs;
    assert(f4.inodes@ =~= f3.inodes@.update(ip as int, f4.inodes@[ip as int]));
    assert(link_lessened(&f3, &f4, ip));
    if fs.inodes[ip].i_nlink == 0 {
        drop_file(fs, ip, false);
    }
    let ghost f5 = *fs;
    assert(f5.inodes@[ip as int].i_count == f4.inodes@[ip as int].i_count);
    assert(f5.inodes@[ip as int].i_mount == f4.inodes@[ip as int].i_mount);
    iput(fs, ip);
    assert(iput_fs(&f5, fs, ip));
    assert(file_removed(&f1, fs, ip, dir, name@, 0));
    0
}

/// What entering file `target` under one more name does, with the answer `r`.
pub open spec fn link_did(fs0: &Fs, fs: &Fs, target: usize, dir: usize, name: Seq<u8>, r: i32) -> bool {
    let t = fs0.inodes@[target as int];
    let same = *fs == (Fs { cache: fs.cache, ..*fs0 }) && fs.blocks() == fs0.blocks();
    if name.len() > 255 {
        r == -ENAMETOOLONG && same
    } else if t.i_nlink >= 65000 {
        r == -EMLINK && same
    } else if named_in(fs0, dir, name) is Some {
        r == -EEXIST && same
    } else {
        exists|fs1: Fs, fs2: Fs, er: Result<(), i32>|
            {
                &&& fs1 == (Fs { cache: fs1.cache, ..*fs0 })
                &&& fs1.blocks() == fs0.blocks()
                &&& #[trigger] entry_put(
                    &fs1,
                    &fs2,
                    dir,
                    t.i_ino,
                    name,
                    file_type::type_in(t.i_mode),
                    er,
                )
                &&& match er {
                    Err(e) => r == -e && *fs == fs2,
                    Ok(_) => {
                        let t2 = fs2.inodes@[target as int];
                        &&& r == 0
                        &&& *fs == (Fs { inodes: fs.inodes, ..fs2 })
                        &&& fs.inodes@ == fs2.inodes@.update(
                            target as int,
                            Inode { i_nlink: (t2.i_nlink + 1) as u16, i_dirt: true, ..t2 },
                        )
                    },
                }
            }
    }
}

/// Enters file `target` into directory `dir` under one more name. Answers zero, or
/// the negated error.
#[verifier::spinoff_prover]
#[verifier::rlimit(40)]
pub fn link(fs: &mut Fs, target: usize, dir: usize, name: &[u8]) -> (r: i32)
    requires
        old(fs).wf(),
        dir < 64,
        target < 64,
        old(fs).inodes@[dir as int].i_sb != NIL,
    ensures
        final(fs).wf(),
        final(fs).same_roots(old(fs)),
        link_did(old(fs), final(fs), target, dir, name@, r),
{
    if name.len() > 255 {
        return -ENAMETOOLONG;
    }
    let ino: u32 = fs.inodes[target].i_ino;
    let ft: u8 = file_type::from_mode(fs.inodes[target].i_mode);
    if fs.inodes[target].i_nlink >= 65000 {
        return -EMLINK;
    }
    if find_entry(fs, dir, name).is_some() {
        return -EEXIST;
    }
    let ghost f1 = *fs;
    let er: Result<(), i32> = add_entry(fs, dir, ino, name, ft);
    let ghost f2 = *fs;
    assert(ft == file_type::type_in(old(fs).inodes@[target as int].i_mode));
    assert(entry_put(&f1, &f2, dir, ino, name@, ft, er));
    match er {
        Err(e) => -e,
        Ok(_) => {
            assert(f2.inodes@[target as int].i_nlink == f1.inodes@[target as int].i_nlink);
            fs.inodes[target].i_nlink = fs.inodes[target].i_nlink + 1;
            fs.inodes[target].i_dirt = true;
            assert(fs.inodes@ =~= f2.inodes@.update(target as int, fs.inodes@[target as int]));
            0
        },
    }
}

} // verus!
