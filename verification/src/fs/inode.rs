//! The inode table.

use crate::fs::buffer::{wrote_back, BufferCache};
use crate::fs::ext2::inode::mode::type_bits;
use crate::fs::minix::bitmap::{free_ino_spec, may_free};
use crate::fs::minix::inode_ops::{loaded, stored};
use crate::fs::minix::truncate::{trunc_did, truncated};
use crate::fs::mode;
use crate::fs::super_block::SuperBlock;
use crate::fs::{Blocks, Fs, MAY_EXEC, NR_INODE};
use vstd::prelude::*;

verus! {

/// No index.
pub const NIL: usize = usize::MAX;

/// Which file system an inode belongs to.
#[derive(Debug, Clone, Copy, PartialEq, Eq, Structural)]
pub enum FsType {
    /// Not bound to any yet.
    Unbound,
    Minix,
    Ext2,
    Chr,
    Blk,
    Proc,
    Tmpfs,
}

/// An inode in memory.
#[derive(Debug, Clone, Copy)]
pub struct Inode {
    pub i_dev: u16,
    pub i_ino: u32,
    pub i_mode: u16,
    pub i_nlink: u16,
    pub i_uid: u16,
    pub i_gid: u16,
    pub i_rdev: u16,
    pub i_size: u32,
    pub i_atime: u32,
    pub i_mtime: u32,
    pub i_ctime: u32,
    pub i_blksize: u32,
    pub i_count: u16,
    /// Newer than on disk.
    pub i_dirt: bool,
    pub i_lock: bool,
    pub i_flags: u64,
    /// The place of its super block.
    pub i_sb: usize,
    /// The root of the file system mounted here.
    pub i_mount: usize,
    pub i_op: FsType,
    /// The block numbers of the file: seven, then one of a block of numbers, then
    /// one of a block of such blocks.
    pub data: [u16; 9],
    pub in_use: bool,
}

impl Inode {
    /// The indices lead into their tables.
    pub open spec fn links_ok(&self) -> bool {
        &&& self.i_sb == NIL || self.i_sb < 4
        &&& self.i_mount == NIL || self.i_mount < 64
    }

    /// A free slot with nothing in it.
    pub open spec fn is_clear(&self) -> bool {
        &&& self.i_dev == 0 && self.i_ino == 0 && self.i_mode == 0 && self.i_nlink == 0
        &&& self.i_uid == 0 && self.i_gid == 0 && self.i_rdev == 0 && self.i_size == 0
        &&& self.i_atime == 0 && self.i_mtime == 0 && self.i_ctime == 0 && self.i_blksize == 0
        &&& self.i_count == 0 && !self.i_dirt && !self.i_lock && self.i_flags == 0
        &&& self.i_sb == NIL && self.i_mount == NIL && self.i_op == FsType::Unbound
        &&& self.data@ == Seq::new(9, |k: int| 0u16)
        &&& !self.in_use
    }

    pub fn new() -> (r: Self)
        ensures
            r.is_clear(),
    {
        let r = Inode {
            i_dev: 0,
            i_ino: 0,
            i_mode: 0,
            i_nlink: 0,
            i_uid: 0,
            i_gid: 0,
            i_rdev: 0,
            i_size: 0,
            i_atime: 0,
            i_mtime: 0,
            i_ctime: 0,
            i_blksize: 0,
            i_count: 0,
            i_dirt: false,
            i_lock: false,
            i_flags: 0,
            i_sb: NIL,
            i_mount: NIL,
            i_op: FsType::Unbound,
            data: [0u16;9],
            in_use: false,
        };
        assert(r.data@ =~= Seq::new(9, |k: int| 0u16));
        r
    }

    /// The file system of the inode is mounted for reading only.
    pub open spec fn rdonly_in(&self, fs: &Fs) -> bool {
        self.i_sb != NIL && fs.supers@[self.i_sb as int].s_flags & 1 != 0
    }

    pub fn is_rdonly(&self, fs: &Fs) -> (r: bool)
        requires
            fs.wf(),
            self.links_ok(),
        ensures
            r == self.rdonly_in(fs),
    {
        if self.i_sb == NIL {
            return false;
        }
        fs.supers[self.i_sb].s_flags & crate::fs::MS_RDONLY != 0
    }

    /// Whether this is a device file, of characters or of blocks.
    pub fn is_device(&self) -> (r: bool)
        ensures
            r == (type_bits(self.i_mode) == mode::S_IFCHR || type_bits(self.i_mode)
                == mode::S_IFBLK),
    {
        mode::is_chr(self.i_mode) || mode::is_blk(self.i_mode)
    }
}

/// Empties slot `n`.
pub fn clear_inode(fs: &mut Fs, n: usize)
    requires
        old(fs).wf(),
        n < 64,
    ensures
        final(fs).wf(),
        final(fs).inodes@[n as int].is_clear(),
        *final(fs) == (Fs { inodes: final(fs).inodes, ..*old(fs) }),
        final(fs).inodes@ == old(fs).inodes@.update(n as int, final(fs).inodes@[n as int]),
{
    fs.inodes[n] = Inode::new();
    assert(fs.inodes@ =~= old(fs).inodes@.update(n as int, fs.inodes@[n as int]));
}

/// The owner's, the group's or the others' three permission bits, as they apply
/// to a task of that user and group.
pub open spec fn bits_for(i: Inode, euid: u16, egid: u16) -> int {
    if i.i_uid == euid {
        i.i_mode as int / 64 % 8
    } else if i.i_gid == egid {
        i.i_mode as int / 8 % 8
    } else {
        i.i_mode as int % 8
    }
}

/// Whether a task of that user and group may do what `mask` asks for. User zero may
/// always read and write, and execute where somebody may.
pub open spec fn allowed(i: Inode, euid: u16, egid: u16, mask: u16) -> bool {
    ||| (bits_for(i, euid, egid) as u16) & mask == mask
    ||| euid == 0 && (mask & 1 == 0 || i.i_mode & 0o111 != 0)
}

/// Whether the running task may use the inode as `mask` asks.
pub fn permission(fs: &Fs, n: usize, mask: u16) -> (r: bool)
    requires
        fs.wf(),
        n < 64,
    ensures
        r == allowed(fs.inodes@[n as int], fs.euid, fs.egid, mask),
{
    let i_mode: u16 = fs.inodes[n].i_mode;
    let mut m: u16 = i_mode;
    if fs.euid == fs.inodes[n].i_uid {
        m = m >> 6;
    } else if fs.egid == fs.inodes[n].i_gid {
        m = m >> 3;
    }
    proof {
        assert((i_mode >> 6) & mask & 0o007 == (i_mode / 64 % 8) & mask) by (bit_vector);
        assert((i_mode >> 3) & mask & 0o007 == (i_mode / 8 % 8) & mask) by (bit_vector);
        assert(i_mode & mask & 0o007 == (i_mode % 8) & mask) by (bit_vector);
    }
    if m & mask & 0o007 == mask {
        return true;
    }
    fs.euid == 0 && (mask & MAY_EXEC == 0 || i_mode & 0o111 != 0)
}

/// How many of the first `n` slots are in use.
pub open spec fn count_in_use(s: Seq<Inode>, n: int) -> int
    decreases n,
{
    if n <= 0 {
        0
    } else {
        count_in_use(s, n - 1) + (if s[n - 1].in_use {
            1int
        } else {
            0
        })
    }
}

/// How many of the first `n` slots are referred to.
pub open spec fn count_referred(s: Seq<Inode>, n: int) -> int
    decreases n,
{
    if n <= 0 {
        0
    } else {
        count_referred(s, n - 1) + (if s[n - 1].i_count > 0 {
            1int
        } else {
            0
        })
    }
}

/// The slots in use, and those referred to.
pub fn stats(fs: &Fs) -> (r: (usize, usize))
    requires
        fs.wf(),
    ensures
        r.0 == count_in_use(fs.inodes@, 64),
        r.1 == count_referred(fs.inodes@, 64),
{
    let mut used: usize = 0;
    let mut refd: usize = 0;
    for n in 0..NR_INODE
        invariant
            fs.wf(),
            used == count_in_use(fs.inodes@, n as int),
            refd == count_referred(fs.inodes@, n as int),
            used <= n,
            refd <= n,
    {
        if fs.inodes[n].in_use {
            used = used + 1;
        }
        if fs.inodes[n].i_count > 0 {
            refd = refd + 1;
        }
    }
    (used, refd)
}

// ---- reading, writing and counting references ----

/// The blocks after inode `i` was written out, where it is dirty and its file
/// system can be written to.
pub open spec fn flushed(c: Blocks, supers: Seq<SuperBlock>, i: Inode) -> Blocks {
    if i.i_dirt && i.i_sb != NIL && supers[i.i_sb as int].s_flags & 1 == 0 {
        stored(c, supers, i)
    } else {
        c
    }
}

/// Writes inode `n` out where it is dirty; it is clean afterwards.
pub fn write_inode(fs: &mut Fs, n: usize)
    requires
        old(fs).wf(),
        n < 64,
    ensures
        final(fs).wf(),
        *final(fs) == (Fs { cache: final(fs).cache, inodes: final(fs).inodes, ..*old(fs) }),
        final(fs).blocks() == flushed(
            old(fs).blocks(),
            old(fs).supers@,
            old(fs).inodes@[n as int],
        ),
        final(fs).inodes@ == old(fs).inodes@.update(
            n as int,
            Inode { i_dirt: false, ..old(fs).inodes@[n as int] },
        ),
{
    let i: Inode = fs.inodes[n];
    if !i.i_dirt {
        assert(fs.inodes@ =~= old(fs).inodes@.update(n as int, Inode { i_dirt: false, ..i }));
        return;
    }
    let ro: bool = i.is_rdonly(fs);
    if !ro && i.i_sb != NIL {
        crate::fs::minix::inode_ops::write_inode(fs, n);
    }
    fs.inodes[n].i_dirt = false;
    assert(fs.inodes@ =~= old(fs).inodes@.update(n as int, Inode { i_dirt: false, ..i }));
}

/// Slot `k` is the one to take: the first unused clean one, else the first
/// unused one.
pub open spec fn is_pick(s: Seq<Inode>, k: int) -> bool {
    &&& 0 <= k < s.len()
    &&& s[k].i_count == 0
    &&& if s[k].i_dirt {
        &&& forall|j: int| 0 <= j < k ==> (#[trigger] s[j]).i_count != 0
        &&& forall|j: int| 0 <= j < s.len() && (#[trigger] s[j]).i_count == 0 ==> s[j].i_dirt
    } else {
        forall|j: int| 0 <= j < k && (#[trigger] s[j]).i_count == 0 ==> s[j].i_dirt
    }
}

/// A slot that was just taken: empty but for one reference and one link.
pub open spec fn is_taken(i: Inode) -> bool {
    Inode { i_count: 0, i_nlink: 0, in_use: false, ..i }.is_clear() && i.i_count == 1 && i.i_nlink
        == 1 && i.in_use
}

/// Takes an unused slot, after writing out what is dirty in it. `NIL` is for a
/// caller that has to wait until a slot is given back.
pub fn get_empty_inode(fs: &mut Fs) -> (r: usize)
    requires
        old(fs).wf(),
    ensures
        final(fs).wf(),
        *final(fs) == (Fs { cache: final(fs).cache, inodes: final(fs).inodes, ..*old(fs) }),
        r == NIL <==> forall|j: int| 0 <= j < 64 ==> (#[trigger] old(fs).inodes@[j]).i_count != 0,
        r == NIL ==> final(fs).blocks() == old(fs).blocks() && final(fs).inodes@ == old(
            fs,
        ).inodes@,
        r != NIL ==> {
            &&& r < 64
            &&& is_pick(old(fs).inodes@, r as int)
            &&& final(fs).blocks() == flushed(
                old(fs).blocks(),
                old(fs).supers@,
                old(fs).inodes@[r as int],
            )
            &&& final(fs).inodes@ == old(fs).inodes@.update(r as int, final(fs).inodes@[r as int])
            &&& is_taken(final(fs).inodes@[r as int])
        },
{
    let mut best: usize = NIL;
    let mut n: usize = 0;
    while n < NR_INODE
        invariant_except_break
            best == NIL ==> forall|j: int| 0 <= j < n ==> (#[trigger] fs.inodes@[j]).i_count != 0,
            best != NIL ==> fs.inodes@[best as int].i_dirt,
            forall|j: int|
                0 <= j < n && (#[trigger] fs.inodes@[j]).i_count == 0 ==> fs.inodes@[j].i_dirt,
        invariant
            fs.wf(),
            *fs == *old(fs),
            n <= 64,
            best != NIL ==> best < 64 && fs.inodes@[best as int].i_count == 0 && (
            fs.inodes@[best as int].i_dirt ==> forall|j: int|
                0 <= j < best ==> (#[trigger] fs.inodes@[j]).i_count != 0),
        ensures
            best == NIL ==> forall|j: int| 0 <= j < 64 ==> (#[trigger] fs.inodes@[j]).i_count != 0,
            best != NIL ==> is_pick(fs.inodes@, best as int),
        decreases 64 - n,
    {
        if fs.inodes[n].i_count == 0 {
            if best == NIL {
                best = n;
            }
            if !fs.inodes[n].i_dirt {
                best = n;
                break;
            }
        }
        n = n + 1;
    }
    if best == NIL {
        return NIL;
    }
    assert(old(fs).inodes@[best as int].i_count == 0);
    if fs.inodes[best].i_dirt {
        write_inode(fs, best);
    }
    let mut i = Inode::new();
    i.i_count = 1;
    i.i_nlink = 1;
    i.in_use = true;
    fs.inodes[best] = i;
    proof {
        assert(fs.inodes@ =~= old(fs).inodes@.update(best as int, fs.inodes@[best as int]));
        let y = Inode { i_count: 0, i_nlink: 0, in_use: false, ..i };
        assert(y.data@ == i.data@);
    }
    best
}

/// Slot `k` holds that inode, and no slot before it does.
pub open spec fn is_slot(s: Seq<Inode>, dev: u16, ino: u32, k: int) -> bool {
    &&& 0 <= k < s.len()
    &&& s[k].in_use && s[k].i_dev == dev && s[k].i_ino == ino
    &&& forall|j: int|
        0 <= j < k ==> !((#[trigger] s[j]).in_use && s[j].i_dev == dev && s[j].i_ino == ino)
}

/// No slot holds that inode.
pub open spec fn no_slot(s: Seq<Inode>, dev: u16, ino: u32) -> bool {
    forall|j: int|
        0 <= j < s.len() ==> !((#[trigger] s[j]).in_use && s[j].i_dev == dev && s[j].i_ino == ino)
}

/// Finds the slot of an inode, `NIL` where there is none.
pub fn find_slot(fs: &Fs, dev: u16, ino: u32) -> (r: usize)
    requires
        fs.wf(),
    ensures
        r == NIL <==> no_slot(fs.inodes@, dev, ino),
        r != NIL ==> is_slot(fs.inodes@, dev, ino, r as int),
{
    for n in 0..NR_INODE
        invariant
            fs.wf(),
            forall|j: int|
                0 <= j < n ==> !((#[trigger] fs.inodes@[j]).in_use && fs.inodes@[j].i_dev == dev
                    && fs.inodes@[j].i_ino == ino),
    {
        if fs.inodes[n].in_use && fs.inodes[n].i_dev == dev && fs.inodes[n].i_ino == ino {
            return n;
        }
    }
    NIL
}

/// Inode `i` with `by` references more.
pub open spec fn counted(i: Inode, by: int) -> Inode {
    Inode { i_count: (i.i_count + by) as u16, ..i }
}

/// Inode `x` was just taken and given its number, and then became `i` by being
/// read from disk.
pub open spec fn fetched(
    c: Blocks,
    supers: Seq<SuperBlock>,
    sb_nr: usize,
    ino: u32,
    x: Inode,
    i: Inode,
) -> bool {
    &&& is_taken(Inode { i_sb: NIL, i_dev: 0, i_ino: 0, i_flags: 0, i_blksize: 0, ..x })
    &&& x.i_sb == sb_nr
    &&& x.i_dev == supers[sb_nr as int].s_dev
    &&& x.i_ino == ino
    &&& x.i_flags == supers[sb_nr as int].s_flags
    &&& x.i_blksize == 1024
    &&& loaded(c, supers, x, i)
}

/// What `iget_cross` does to the blocks `c0` and the table `s0`, with answer `r`:
/// an inode in the table, or where mounts are crossed what is mounted on it, has
/// one reference more; another one is read from disk into a free slot, if there
/// is one.
pub open spec fn iget_did(
    c0: Blocks,
    s0: Seq<Inode>,
    c: Blocks,
    s: Seq<Inode>,
    supers: Seq<SuperBlock>,
    sb_nr: usize,
    ino: u32,
    cross_mnt: bool,
    r: usize,
) -> bool {
    let dev = supers[sb_nr as int].s_dev;
    &&& r == NIL || r < 64
    &&& forall|k: int|
        #[trigger] is_slot(s0, dev, ino, k) ==> {
            let m = if cross_mnt && s0[k].i_mount != NIL {
                s0[k].i_mount
            } else {
                k as usize
            };
            &&& r == m
            &&& s == s0.update(m as int, counted(s0[m as int], 1))
            &&& c == c0
        }
    &&& no_slot(s0, dev, ino) ==> {
        &&& r == NIL <==> forall|j: int| 0 <= j < 64 ==> (#[trigger] s0[j]).i_count != 0
        &&& r == NIL ==> s == s0 && c == c0
        &&& r != NIL ==> {
            &&& is_pick(s0, r as int)
            &&& c == flushed(c0, supers, s0[r as int])
            &&& s == s0.update(r as int, s[r as int])
            &&& exists|x: Inode| #[trigger] fetched(c, supers, sb_nr, ino, x, s[r as int])
        }
    }
}

/// An inode that is in the table has a first slot.
pub proof fn lemma_first_slot(s: Seq<Inode>, dev: u16, ino: u32, n: int) -> (k: int)
    requires
        0 <= n < s.len(),
        s[n].in_use && s[n].i_dev == dev && s[n].i_ino == ino,
    ensures
        is_slot(s, dev, ino, k),
        k <= n,
    decreases n,
{
    if exists|j: int|
        0 <= j < n && (#[trigger] s[j]).in_use && s[j].i_dev == dev && s[j].i_ino == ino {
        let j = choose|j: int|
            0 <= j < n && (#[trigger] s[j]).in_use && s[j].i_dev == dev && s[j].i_ino == ino;
        lemma_first_slot(s, dev, ino, j)
    } else {
        n
    }
}

/// Taking an inode keeps the set of blocks.
pub proof fn lemma_iget_dom(
    c0: Blocks,
    s0: Seq<Inode>,
    c: Blocks,
    s: Seq<Inode>,
    supers: Seq<SuperBlock>,
    sb_nr: usize,
    ino: u32,
    cross_mnt: bool,
    r: usize,
)
    requires
        iget_did(c0, s0, c, s, supers, sb_nr, ino, cross_mnt, r),
    ensures
        c.dom() == c0.dom(),
{
    let dev = supers[sb_nr as int].s_dev;
    if !no_slot(s0, dev, ino) {
        let n = choose|j: int|
            0 <= j < s0.len() && (#[trigger] s0[j]).in_use && s0[j].i_dev == dev && s0[j].i_ino
                == ino;
        let k = lemma_first_slot(s0, dev, ino, n);
    } else if r != NIL {
        assert(c.dom() =~= c0.dom());
    }
}

/// Where no inode could be taken nothing has changed.
pub proof fn lemma_iget_nil(
    c0: Blocks,
    s0: Seq<Inode>,
    c: Blocks,
    s: Seq<Inode>,
    supers: Seq<SuperBlock>,
    sb_nr: usize,
    ino: u32,
    cross_mnt: bool,
)
    requires
        s0.len() == 64,
        iget_did(c0, s0, c, s, supers, sb_nr, ino, cross_mnt, NIL),
    ensures
        s == s0,
        c == c0,
{
    let dev = supers[sb_nr as int].s_dev;
    if !no_slot(s0, dev, ino) {
        let n = choose|j: int|
            0 <= j < s0.len() && (#[trigger] s0[j]).in_use && s0[j].i_dev == dev && s0[j].i_ino
                == ino;
        let k = lemma_first_slot(s0, dev, ino, n);
    }
}

/// What is known of an inode after a reference to it was taken: it has one
/// reference more, and the inodes in use are as before.
pub proof fn lemma_iget_ref(
    c0: Blocks,
    s0: Seq<Inode>,
    c: Blocks,
    s: Seq<Inode>,
    supers: Seq<SuperBlock>,
    sb_nr: usize,
    ino: u32,
    cross_mnt: bool,
    r: usize,
)
    requires
        s0.len() == 64,
        iget_did(c0, s0, c, s, supers, sb_nr, ino, cross_mnt, r),
        r != NIL,
        forall|n: int| 0 <= n < 64 ==> (#[trigger] s0[n]).i_count < u16::MAX,
        forall|n: int| 0 <= n < 64 ==> (#[trigger] s0[n]).links_ok(),
    ensures
        r < 64,
        s.len() == 64,
        s == s0.update(r as int, s[r as int]),
        s[r as int].i_count == s0[r as int].i_count + 1,
        forall|k: int|
            0 <= k < 64 && (#[trigger] s0[k]).i_count > 0 ==> s[k] == (Inode {
                i_count: s[k].i_count,
                ..s0[k]
            }),
        c.dom() == c0.dom(),
{
    lemma_iget_dom(c0, s0, c, s, supers, sb_nr, ino, cross_mnt, r);
    let dev = supers[sb_nr as int].s_dev;
    if !no_slot(s0, dev, ino) {
        let n = choose|j: int|
            0 <= j < s0.len() && (#[trigger] s0[j]).in_use && s0[j].i_dev == dev && s0[j].i_ino
                == ino;
        let k = lemma_first_slot(s0, dev, ino, n);
        let m = if cross_mnt && s0[k].i_mount != NIL {
            s0[k].i_mount
        } else {
            k as usize
        };
        assert(s0[k].links_ok());
        assert(s0[m as int].links_ok());
        assert(s[m as int] == counted(s0[m as int], 1));
    } else {
        assert(s0[r as int].i_count == 0);
        let x = choose|x: Inode| #[trigger] fetched(c, supers, sb_nr, ino, x, s[r as int]);
        assert(fetched(c, supers, sb_nr, ino, x, s[r as int]));
    }
}

/// No inode has more than one reference more.
pub open spec fn at_most_one_more(s0: Seq<Inode>, s: Seq<Inode>) -> bool {
    forall|k: int| 0 <= k < 64 ==> (#[trigger] s[k]).i_count <= s0[k].i_count + 1
}

/// The state `fs` is that of `fs0` after a reference to an inode was asked for,
/// with the answer `r`.
pub open spec fn iget_fs(fs0: &Fs, fs: &Fs, sb_nr: usize, ino: u32, cross_mnt: bool, r: usize) -> bool {
    &&& *fs == (Fs { cache: fs.cache, inodes: fs.inodes, ..*fs0 })
    &&& iget_did(
        fs0.blocks(),
        fs0.inodes@,
        fs.blocks(),
        fs.inodes@,
        fs0.supers@,
        sb_nr,
        ino,
        cross_mnt,
        r,
    )
}

/// Takes a reference to an inode of a file system, from the table or from disk.
/// With `cross_mnt`, what is mounted on the inode takes its place. `NIL` is for a
/// caller that has to wait until a slot is given back.
pub fn iget_cross(fs: &mut Fs, sb_nr: usize, ino: u32, cross_mnt: bool) -> (r: usize)
    requires
        old(fs).wf(),
        sb_nr < 4,
        forall|n: int| 0 <= n < 64 ==> (#[trigger] old(fs).inodes@[n]).i_count < u16::MAX,
    ensures
        final(fs).wf(),
        *final(fs) == (Fs { cache: final(fs).cache, inodes: final(fs).inodes, ..*old(fs) }),
        iget_did(
            old(fs).blocks(),
            old(fs).inodes@,
            final(fs).blocks(),
            final(fs).inodes@,
            old(fs).supers@,
            sb_nr,
            ino,
            cross_mnt,
            r,
        ),
{
    let dev: u16 = fs.supers[sb_nr].s_dev;
    let ghost s0 = fs.inodes@;
    let found: usize = find_slot(fs, dev, ino);
    if found != NIL {
        proof {
            assert forall|k: int| #[trigger] is_slot(s0, dev, ino, k) implies k == found by {
                if k < found {
                    assert(s0[k].in_use);
                } else if found < k {
                    assert(s0[found as int].in_use);
                }
            }
            assert(is_slot(s0, dev, ino, found as int));
        }
        let mnt: usize = fs.inodes[found].i_mount;
        let m: usize = if cross_mnt && mnt != NIL {
            mnt
        } else {
            found
        };
        fs.inodes[m].i_count = fs.inodes[m].i_count + 1;
        proof {
            assert(fs.inodes@ =~= s0.update(m as int, counted(s0[m as int], 1)));
            assert(!no_slot(s0, dev, ino));
        }
        return m;
    }
    assert(forall|k: int| !#[trigger] is_slot(s0, dev, ino, k));
    let empty: usize = get_empty_inode(fs);
    if empty == NIL {
        return NIL;
    }
    let flags: u64 = fs.supers[sb_nr].s_flags;
    let ghost x0 = fs.inodes@[empty as int];
    fs.inodes[empty].i_sb = sb_nr;
    fs.inodes[empty].i_dev = dev;
    fs.inodes[empty].i_ino = ino;
    fs.inodes[empty].i_flags = flags;
    fs.inodes[empty].i_blksize = 1024;
    let ghost x = fs.inodes@[empty as int];
    crate::fs::minix::inode_ops::read_inode(fs, empty);
    proof {
        assert(Inode { i_sb: NIL, i_dev: 0, i_ino: 0, i_flags: 0, i_blksize: 0, ..x } == x0);
        assert(fetched(fs.blocks(), fs.supers@, sb_nr, ino, x, fs.inodes@[empty as int]));
        assert(fs.inodes@ =~= s0.update(empty as int, fs.inodes@[empty as int]));
    }
    empty
}

/// Takes a reference to an inode, or to what is mounted on it.
pub fn iget(fs: &mut Fs, sb_nr: usize, ino: u32) -> (r: usize)
    requires
        old(fs).wf(),
        sb_nr < 4,
        forall|n: int| 0 <= n < 64 ==> (#[trigger] old(fs).inodes@[n]).i_count < u16::MAX,
    ensures
        final(fs).wf(),
        *final(fs) == (Fs { cache: final(fs).cache, inodes: final(fs).inodes, ..*old(fs) }),
        iget_did(
            old(fs).blocks(),
            old(fs).inodes@,
            final(fs).blocks(),
            final(fs).inodes@,
            old(fs).supers@,
            sb_nr,
            ino,
            true,
            r,
        ),
{
    iget_cross(fs, sb_nr, ino, true)
}

/// Taking an inode that is not in the table a second time leads to the same slot,
/// which then has one reference more, and reads nothing.
pub proof fn lemma_iget_again(
    c0: Blocks,
    s0: Seq<Inode>,
    c1: Blocks,
    s1: Seq<Inode>,
    c2: Blocks,
    s2: Seq<Inode>,
    supers: Seq<SuperBlock>,
    sb_nr: usize,
    ino: u32,
    cross: bool,
    r: usize,
    r2: usize,
)
    requires
        s0.len() == 64,
        sb_nr < 4,
        r != NIL,
        no_slot(s0, supers[sb_nr as int].s_dev, ino),
        iget_did(c0, s0, c1, s1, supers, sb_nr, ino, cross, r),
        iget_did(c1, s1, c2, s2, supers, sb_nr, ino, cross, r2),
    ensures
        r2 == r,
        s2 == s1.update(r as int, counted(s1[r as int], 1)),
        c2 == c1,
{
    let dev = supers[sb_nr as int].s_dev;
    let x = choose|x: Inode| #[trigger] fetched(c1, supers, sb_nr, ino, x, s1[r as int]);
    assert(fetched(c1, supers, sb_nr, ino, x, s1[r as int]));
    assert(s1[r as int].in_use && s1[r as int].i_dev == dev && s1[r as int].i_ino == ino);
    assert forall|j: int| 0 <= j < r implies !((#[trigger] s1[j]).in_use && s1[j].i_dev == dev
        && s1[j].i_ino == ino) by {
        assert(s1[j] == s0[j]);
    }
    assert(is_slot(s1, dev, ino, r as int));
    assert(s1[r as int].i_mount == NIL);
}

/// From the cache `k0` and the table `s0` to `k` and `s`, inode `n` had its last
/// reference given up while nothing links to it: its blocks are given back and, where
/// that may be, its number too.
pub open spec fn dropped_in(
    k0: &BufferCache,
    s0: Seq<Inode>,
    k: &BufferCache,
    s: Seq<Inode>,
    supers: Seq<SuperBlock>,
    now: u32,
    n: usize,
) -> bool {
    let i0 = s0[n as int];
    let i1 = Inode { i_size: 0, ..i0 };
    let sb = supers[i0.i_sb as int];
    exists|k1: BufferCache, z1: Seq<u16>|
        {
            &&& #[trigger] trunc_did(k0, &k1, sb, i0.i_dev, i0.data@, z1, 0)
            &&& s == s0.update(n as int, s[n as int])
            &&& if may_free(supers, i1) {
                &&& k.content() == free_ino_spec(k1.content(), sb, i0.i_ino as int)
                &&& wrote_back(&k1, k)
                &&& s[n as int].is_clear()
            } else {
                &&& *k == k1
                &&& truncated(i1, s[n as int], z1, now)
            }
        }
}

/// The same from the blocks `c0`, with whatever on the devices before. The blocks that
/// are given back are then what the devices of `k` hold.
pub open spec fn dropped(
    c0: Blocks,
    s0: Seq<Inode>,
    k: &BufferCache,
    s: Seq<Inode>,
    supers: Seq<SuperBlock>,
    now: u32,
    n: usize,
) -> bool {
    exists|k0: BufferCache|
        {
            &&& k0.wf()
            &&& k0.content() == c0
            &&& #[trigger] dropped_in(&k0, s0, k, s, supers, now, n)
        }
}

/// The last reference to the inode is left, and nothing links to it.
pub open spec fn is_last(i: Inode) -> bool {
    i.i_count == 1 && i.i_sb != NIL && i.i_op == FsType::Minix && i.i_nlink == 0
}

/// What `iput` does to the blocks `c0` and the table `s0`: the cache is `k` then, and the
/// table `s`.
pub open spec fn iput_did(
    c0: Blocks,
    s0: Seq<Inode>,
    k: &BufferCache,
    s: Seq<Inode>,
    supers: Seq<SuperBlock>,
    now: u32,
    n: usize,
) -> bool {
    let i0 = s0[n as int];
    if n == NIL || i0.i_count == 0 {
        k.content() == c0 && s == s0
    } else if i0.i_count > 1 {
        k.content() == c0 && s == s0.update(n as int, counted(i0, -1))
    } else if i0.i_sb != NIL && i0.i_op == FsType::Minix && i0.i_nlink == 0 {
        dropped(c0, s0, k, s, supers, now, n)
    } else {
        &&& k.content() == flushed(c0, supers, i0)
        &&& s == s0.update(
            n as int,
            Inode { i_dirt: false, i_count: 0, in_use: false, ..i0 },
        )
    }
}

/// The state `fs` is that of `fs0` after a reference to inode `n` was given back.
pub open spec fn iput_fs(fs0: &Fs, fs: &Fs, n: usize) -> bool {
    &&& *fs == (Fs { cache: fs.cache, inodes: fs.inodes, ..*fs0 })
    &&& iput_did(
        fs0.blocks(),
        fs0.inodes@,
        &fs.cache,
        fs.inodes@,
        fs0.supers@,
        fs0.now,
        n,
    )
    &&& n != NIL && is_last(fs0.inodes@[n as int]) ==> dropped_in(
        &fs0.cache,
        fs0.inodes@,
        &fs.cache,
        fs.inodes@,
        fs0.supers@,
        fs0.now,
        n,
    )
}

/// Gives a reference to an inode back. The last one writes it out where it is
/// dirty, and where nothing links to it gives back what it takes up on disk.
pub fn iput(fs: &mut Fs, n: usize)
    requires
        old(fs).wf(),
        n == NIL || n < 64,
    ensures
        final(fs).wf(),
        iput_fs(old(fs), final(fs), n),
{
    if n == NIL {
        return;
    }
    if fs.inodes[n].i_count == 0 {
        return;
    }
    if fs.inodes[n].i_count > 1 {
        fs.inodes[n].i_count = fs.inodes[n].i_count - 1;
        assert(fs.inodes@ =~= old(fs).inodes@.update(
            n as int,
            counted(old(fs).inodes@[n as int], -1),
        ));
        return;
    }
    if fs.inodes[n].i_sb != NIL && fs.inodes[n].i_op == FsType::Minix {
        crate::fs::minix::inode_ops::put_inode(fs, n);
        if fs.inodes[n].i_nlink == 0 {
            return;
        }
    }
    if fs.inodes[n].i_dirt {
        write_inode(fs, n);
    }
    fs.inodes[n].i_count = 0;
    fs.inodes[n].in_use = false;
    assert(fs.inodes@ =~= old(fs).inodes@.update(
        n as int,
        Inode { i_dirt: false, i_count: 0, in_use: false, ..old(fs).inodes@[n as int] },
    ));
}

/// A reference that was taken to an inode in the table and given back leaves the
/// table and the disk as they were.
pub proof fn lemma_get_put(
    c0: Blocks,
    s0: Seq<Inode>,
    c1: Blocks,
    s1: Seq<Inode>,
    k2: &BufferCache,
    s2: Seq<Inode>,
    supers: Seq<SuperBlock>,
    now: u32,
    sb_nr: usize,
    ino: u32,
    k: int,
    r: usize,
)
    requires
        s0.len() == 64,
        is_slot(s0, supers[sb_nr as int].s_dev, ino, k),
        0 < s0[k].i_count < u16::MAX,
        iget_did(c0, s0, c1, s1, supers, sb_nr, ino, false, r),
        iput_did(c1, s1, k2, s2, supers, now, r),
    ensures
        s2 == s0,
        k2.content() == c0,
{
    assert(r == k);
    assert(s2 =~= s0);
}

/// The blocks after the first `n` slots were written out, those of device `dev`
/// (of all devices, where it is zero).
pub open spec fn synced_to(c: Blocks, supers: Seq<SuperBlock>, s: Seq<Inode>, dev: u16, n: int) -> Blocks
    decreases n,
{
    if n <= 0 {
        c
    } else {
        let before = synced_to(c, supers, s, dev, n - 1);
        let i = s[n - 1];
        if i.in_use && (dev == 0 || i.i_dev == dev) {
            flushed(before, supers, i)
        } else {
            before
        }
    }
}

/// Writes the dirty inodes of a device out (of all devices, where `dev` is zero).
pub fn sync_inodes(fs: &mut Fs, dev: u16)
    requires
        old(fs).wf(),
    ensures
        final(fs).wf(),
        *final(fs) == (Fs { cache: final(fs).cache, inodes: final(fs).inodes, ..*old(fs) }),
        final(fs).blocks() == synced_to(
            old(fs).blocks(),
            old(fs).supers@,
            old(fs).inodes@,
            dev,
            64,
        ),
        forall|n: int|
            0 <= n < 64 ==> #[trigger] final(fs).inodes@[n] == (if old(fs).inodes@[n].in_use && (dev
                == 0 || old(fs).inodes@[n].i_dev == dev) {
                Inode { i_dirt: false, ..old(fs).inodes@[n] }
            } else {
                old(fs).inodes@[n]
            }),
{
    let ghost s0 = fs.inodes@;
    let ghost c0 = fs.blocks();
    let mut n: usize = 0;
    while n < NR_INODE
        invariant
            fs.wf(),
            n <= 64,
            s0 == old(fs).inodes@,
            c0 == old(fs).blocks(),
            *fs == (Fs { cache: fs.cache, inodes: fs.inodes, ..*old(fs) }),
            fs.blocks() == synced_to(c0, fs.supers@, s0, dev, n as int),
            forall|j: int|
                0 <= j < n ==> #[trigger] fs.inodes@[j] == (if s0[j].in_use && (dev == 0
                    || s0[j].i_dev == dev) {
                    Inode { i_dirt: false, ..s0[j] }
                } else {
                    s0[j]
                }),
            forall|j: int| n <= j < 64 ==> #[trigger] fs.inodes@[j] == s0[j],
        decreases 64 - n,
    {
        assert(fs.inodes@[n as int] == s0[n as int]);
        if fs.inodes[n].in_use && (dev == 0 || fs.inodes[n].i_dev == dev) {
            if fs.inodes[n].i_dirt {
                write_inode(fs, n);
            }
        }
        n = n + 1;
    }
}

/// Empties the slots of a device that nothing refers to, and answers whether
/// there are others.
pub fn invalidate_inodes(fs: &mut Fs, dev: u16) -> (busy: bool)
    requires
        old(fs).wf(),
    ensures
        final(fs).wf(),
        *final(fs) == (Fs { inodes: final(fs).inodes, ..*old(fs) }),
        busy == exists|n: int|
            0 <= n < 64 && (#[trigger] old(fs).inodes@[n]).in_use && old(fs).inodes@[n].i_dev == dev
                && old(fs).inodes@[n].i_count != 0,
        forall|n: int|
            0 <= n < 64 ==> {
                let i = old(fs).inodes@[n];
                if i.in_use && i.i_dev == dev && i.i_count == 0 {
                    (#[trigger] final(fs).inodes@[n]).is_clear()
                } else {
                    final(fs).inodes@[n] == i
                }
            },
{
    let ghost s0 = fs.inodes@;
    let mut busy: bool = false;
    let mut n: usize = 0;
    while n < NR_INODE
        invariant
            fs.wf(),
            n <= 64,
            s0 == old(fs).inodes@,
            *fs == (Fs { inodes: fs.inodes, ..*old(fs) }),
            busy == exists|j: int|
                0 <= j < n && (#[trigger] s0[j]).in_use && s0[j].i_dev == dev && s0[j].i_count != 0,
            forall|j: int|
                0 <= j < n ==> {
                    let i = s0[j];
                    if i.in_use && i.i_dev == dev && i.i_count == 0 {
                        (#[trigger] fs.inodes@[j]).is_clear()
                    } else {
                        fs.inodes@[j] == i
                    }
                },
            forall|j: int| n <= j < 64 ==> #[trigger] fs.inodes@[j] == s0[j],
        decreases 64 - n,
    {
        assert(fs.inodes@[n as int] == s0[n as int]);
        if fs.inodes[n].in_use && fs.inodes[n].i_dev == dev {
            if fs.inodes[n].i_count != 0 {
                busy = true;
            } else {
                clear_inode(fs, n);
            }
        }
        n = n + 1;
    }
    busy
}


/// An inode in use with a mode or a number of links that none can have.
pub open spec fn is_garbled(i: Inode) -> bool {
    i.i_count != 0 && i.i_mode != 0 && (i.i_mode & 0xF000 == 0xF000 || i.i_nlink == 0xFF
        || i.i_nlink == 0xFFFF)
}

/// The first garbled inode at `k` or after it, or their number.
pub open spec fn garbled_from(s: Seq<Inode>, k: int) -> int
    decreases s.len() - k,
{
    if k >= s.len() {
        s.len() as int
    } else if is_garbled(s[k]) {
        k
    } else {
        garbled_from(s, k + 1)
    }
}

/// The first slot whose inode is garbled, and its mode.
pub fn watchdog_bad_inode(fs: &Fs) -> (r: Option<(usize, u16)>)
    requires
        fs.wf(),
    ensures
        ({
            let n = garbled_from(fs.inodes@, 0);
            r == if n < 64 {
                Some((n as usize, fs.inodes@[n].i_mode))
            } else {
                None
            }
        }),
{
    for n in 0..64usize
        invariant
            fs.wf(),
            garbled_from(fs.inodes@, 0) == garbled_from(fs.inodes@, n as int),
    {
        let i: &Inode = &fs.inodes[n];
        let m: u16 = i.i_mode;
        if i.i_count != 0 && m != 0 {
            if m & 0xF000 == 0xF000 || i.i_nlink == 0xFF || i.i_nlink == 0xFFFF {
                return Some((n, m));
            }
        }
    }
    None
}

} // verus!
