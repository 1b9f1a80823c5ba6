//! A file system of what the system knows of itself. Its inodes are made when
//! they are looked up: the first number of each says what it is, the next two
//! which task it is of.

use crate::bytes::{cut_at_zero, join32, least, padded, same_bytes, zero_at};
use crate::errno::{EINVAL, EISDIR, ENOENT, ENOMEM, ENOTDIR};
use crate::fs::inode::{flushed, get_empty_inode, is_pick, is_taken, FsType, Inode, NIL};
use crate::fs::mode;
use crate::fs::{Dirent, Fs, DIRENT_SIZE};
use vstd::prelude::*;
use vstd::string::StringSliceAdditionalSpecFns;

verus! {

/// The device number of the inodes.
pub const PROC_DEV: u16 = 0x0001;
pub const NR_TASKS: usize = 64;
/// The longest file.
pub const MAX_TEXT: usize = 512;
/// The longest target of a link.
pub const MAX_LINK: usize = 128;

/// What an inode stands for.
#[derive(Debug, Clone, Copy, PartialEq, Eq, Structural)]
pub enum ProcKind {
    Root,
    Version,
    Meminfo,
    Stat,
    Filesystems,
    SelfLink,
    PidDir,
    PidExe,
    PidMaps,
    PidStatus,
    PidFdDir,
    PidCmdline,
}

/// What is told of a task: whether there is one, and where its program is.
pub struct ProcTask {
    pub used: bool,
    pub exe_path: Vec<u8>,
}

/// The number of the next inode, and the root.
#[derive(Debug, Clone, Copy, PartialEq, Eq, Structural)]
pub struct ProcFs {
    pub ino_next: u32,
    pub root: usize,
}

impl ProcKind {
    /// The number that an inode keeps for what it is.
    pub open spec fn number(self) -> u16 {
        match self {
            ProcKind::Root => 0,
            ProcKind::Version => 1,
            ProcKind::Meminfo => 2,
            ProcKind::Stat => 3,
            ProcKind::Filesystems => 4,
            ProcKind::SelfLink => 5,
            ProcKind::PidDir => 10,
            ProcKind::PidExe => 11,
            ProcKind::PidMaps => 12,
            ProcKind::PidStatus => 13,
            ProcKind::PidFdDir => 14,
            ProcKind::PidCmdline => 15,
        }
    }

    pub fn to_number(self) -> (r: u16)
        ensures
            r == self.number(),
    {
        match self {
            ProcKind::Root => 0,
            ProcKind::Version => 1,
            ProcKind::Meminfo => 2,
            ProcKind::Stat => 3,
            ProcKind::Filesystems => 4,
            ProcKind::SelfLink => 5,
            ProcKind::PidDir => 10,
            ProcKind::PidExe => 11,
            ProcKind::PidMaps => 12,
            ProcKind::PidStatus => 13,
            ProcKind::PidFdDir => 14,
            ProcKind::PidCmdline => 15,
        }
    }

    /// What a number stands for.
    pub fn from_number(n: u16) -> (r: Option<ProcKind>)
        ensures
            r == kind_of(n),
    {
        match n {
            0 => Some(ProcKind::Root),
            1 => Some(ProcKind::Version),
            2 => Some(ProcKind::Meminfo),
            3 => Some(ProcKind::Stat),
            4 => Some(ProcKind::Filesystems),
            5 => Some(ProcKind::SelfLink),
            10 => Some(ProcKind::PidDir),
            11 => Some(ProcKind::PidExe),
            12 => Some(ProcKind::PidMaps),
            13 => Some(ProcKind::PidStatus),
            14 => Some(ProcKind::PidFdDir),
            15 => Some(ProcKind::PidCmdline),
            _ => None,
        }
    }
}

/// What a number stands for.
pub open spec fn kind_of(n: u16) -> Option<ProcKind> {
    if n == 0 {
        Some(ProcKind::Root)
    } else if n == 1 {
        Some(ProcKind::Version)
    } else if n == 2 {
        Some(ProcKind::Meminfo)
    } else if n == 3 {
        Some(ProcKind::Stat)
    } else if n == 4 {
        Some(ProcKind::Filesystems)
    } else if n == 5 {
        Some(ProcKind::SelfLink)
    } else if n == 10 {
        Some(ProcKind::PidDir)
    } else if n == 11 {
        Some(ProcKind::PidExe)
    } else if n == 12 {
        Some(ProcKind::PidMaps)
    } else if n == 13 {
        Some(ProcKind::PidStatus)
    } else if n == 14 {
        Some(ProcKind::PidFdDir)
    } else if n == 15 {
        Some(ProcKind::PidCmdline)
    } else {
        None
    }
}

/// The number of a kind stands for it.
pub proof fn lemma_number(k: ProcKind)
    ensures
        kind_of(k.number()) == Some(k),
{
}

/// The kind of an inode.
pub open spec fn inode_kind(i: Inode) -> Option<ProcKind> {
    kind_of(i.data@[0])
}

/// The task of an inode.
pub open spec fn inode_pid(i: Inode) -> u32 {
    (i.data@[1] + 65536 * i.data@[2]) as u32
}

/// A number in decimal.
pub open spec fn decimal(v: nat) -> Seq<u8>
    decreases v,
{
    if v < 10 {
        seq![(48 + v) as u8]
    } else {
        decimal(v / 10).push((48 + v % 10) as u8)
    }
}

/// Whether all bytes are decimal digits.
pub open spec fn all_digits(s: Seq<u8>) -> bool {
    forall|i: int| 0 <= i < s.len() ==> 48 <= #[trigger] s[i] <= 57
}

/// The number that decimal digits stand for.
pub open spec fn value(s: Seq<u8>) -> nat
    decreases s.len(),
{
    if s.len() == 0 {
        0
    } else {
        value(s.drop_last()) * 10 + (s.last() - 48) as nat
    }
}

/// The number that the bytes stand for, where they are one.
pub open spec fn parsed(s: Seq<u8>) -> Option<u32> {
    if 1 <= s.len() <= 10 && all_digits(s) && value(s) <= u32::MAX {
        Some(value(s) as u32)
    } else {
        None
    }
}

proof fn lemma_prefix(s: Seq<u8>, n: int)
    requires
        0 <= n <= s.len(),
        all_digits(s),
    ensures
        value(s.take(n)) <= value(s),
    decreases s.len(),
{
    if n < s.len() {
        assert(s.drop_last().take(n) =~= s.take(n));
        lemma_prefix(s.drop_last(), n);
    } else {
        assert(s.take(n) =~= s);
    }
}

proof fn lemma_decimal(v: nat)
    ensures
        all_digits(decimal(v)),
        value(decimal(v)) == v,
        decimal(v).len() >= 1,
        decimal(v)[0] != 48 || v == 0,
    decreases v,
{
    reveal_with_fuel(value, 2);
    if v < 10 {
        assert(decimal(v).drop_last() =~= Seq::<u8>::empty());
    } else {
        lemma_decimal(v / 10);
        assert(decimal(v).drop_last() =~= decimal(v / 10));
    }
}

proof fn lemma_decimal_len(v: nat, n: nat)
    requires
        v < vstd::arithmetic::power::pow(10, n),
        n >= 1,
    ensures
        decimal(v).len() <= n,
    decreases n,
{
    vstd::arithmetic::power::lemma_pow1(10);
    if v >= 10 {
        if n == 1 {
            assert(false);
        }
        reveal(vstd::arithmetic::power::pow);
        lemma_decimal_len(v / 10, (n - 1) as nat);
    }
}

/// Reading a number back that was written gives it again.
pub proof fn lemma_write_read(v: u32)
    ensures
        parsed(decimal(v as nat)) == Some(v),
{
    lemma_decimal(v as nat);
    assert(vstd::arithmetic::power::pow(10, 10) == 10_000_000_000) by {
        reveal(vstd::arithmetic::power::pow);
        reveal_with_fuel(vstd::arithmetic::power::pow, 11);
    }
    lemma_decimal_len(v as nat, 10);
}

/// A number in decimal.
pub fn fmt_u32(val: u32) -> (r: Vec<u8>)
    ensures
        r@ == decimal(val as nat),
    decreases val,
{
    if val < 10 {
        let mut r: Vec<u8> = Vec::new();
        r.push(48 + val as u8);
        assert(r@ =~= decimal(val as nat));
        return r;
    }
    let mut r: Vec<u8> = fmt_u32(val / 10);
    r.push(48 + (val % 10) as u8);
    r
}

/// The number that the bytes stand for.
pub fn parse_u32(s: &[u8]) -> (r: Option<u32>)
    ensures
        r == parsed(s@),
{
    if s.len() == 0 || s.len() > 10 {
        return None;
    }
    let mut val: u32 = 0;
    for i in 0..s.len()
        invariant
            1 <= s@.len() <= 10,
            all_digits(s@.take(i as int)),
            val == value(s@.take(i as int)),
    {
        let b: u8 = s[i];
        if b < 48 || b > 57 {
            return None;
        }
        let ghost t = s@.take(i + 1);
        assert(t.drop_last() =~= s@.take(i as int));
        assert(t.last() == b);
        let d: u32 = (b - 48) as u32;
        if val > (u32::MAX - d) / 10 {
            proof {
                assert(value(t) > u32::MAX);
                if all_digits(s@) {
                    lemma_prefix(s@, i + 1);
                }
            }
            return None;
        }
        val = val * 10 + d;
        assert(all_digits(t)) by {
            assert forall|k: int| 0 <= k < t.len() implies 48 <= #[trigger] t[k] <= 57 by {
                if k < i {
                    assert(t[k] == s@.take(i as int)[k]);
                }
            }
        }
    }
    assert(s@.take(s@.len() as int) =~= s@);
    Some(val)
}

/// Inode `i` is the one of that kind made of `x`, a slot that was just taken.
pub open spec fn is_node(x: Inode, i: Inode, ino: u32, kind: ProcKind, pid: u32, is_dir: bool) -> bool {
    &&& is_taken(x)
    &&& i == (Inode {
        i_dev: PROC_DEV,
        i_ino: ino,
        i_op: FsType::Proc,
        i_count: 1,
        i_nlink: if is_dir {
            2
        } else {
            1
        },
        i_uid: 0,
        i_gid: 0,
        i_size: 0,
        i_blksize: 1024,
        i_mode: if is_dir {
            mode::S_IFDIR | 0o555
        } else if kind == ProcKind::SelfLink || kind == ProcKind::PidExe {
            mode::S_IFLNK | 0o777
        } else {
            mode::S_IFREG | 0o444
        },
        data: i.data,
        ..x
    })
    &&& i.data@ == x.data@.update(0, kind.number()).update(1, (pid % 65536) as u16).update(
        2,
        (pid / 65536) as u16,
    )
}

/// An inode says what it is, and of which task.
pub proof fn lemma_node(x: Inode, i: Inode, ino: u32, kind: ProcKind, pid: u32, is_dir: bool)
    requires
        is_node(x, i, ino, kind, pid, is_dir),
    ensures
        inode_kind(i) == Some(kind),
        inode_pid(i) == pid,
{
    lemma_number(kind);
    assert(x.data@.len() == 9);
}

/// The state `fs` is that of `fs0` after an inode of that kind was asked for, with
/// the answer `r`.
pub open spec fn node_made(fs0: &Fs, fs: &Fs, ino: u32, kind: ProcKind, pid: u32, is_dir: bool, r: usize) -> bool {
    &&& *fs == (Fs { cache: fs.cache, inodes: fs.inodes, ..*fs0 })
    &&& r == NIL <==> forall|j: int| 0 <= j < 64 ==> (#[trigger] fs0.inodes@[j]).i_count != 0
    &&& r == NIL ==> fs.blocks() == fs0.blocks() && fs.inodes@ == fs0.inodes@
    &&& r != NIL ==> {
        &&& r < 64
        &&& is_pick(fs0.inodes@, r as int)
        &&& fs.blocks() == flushed(fs0.blocks(), fs0.supers@, fs0.inodes@[r as int])
        &&& fs.inodes@ == fs0.inodes@.update(r as int, fs.inodes@[r as int])
        &&& exists|x: Inode| #[trigger] is_node(x, fs.inodes@[r as int], ino, kind, pid, is_dir)
    }
}

/// The table after an inode was made, or not.
pub open spec fn numbered(p: ProcFs, made: bool) -> ProcFs {
    if made {
        ProcFs { ino_next: ((p.ino_next + 1) % 0x1_0000_0000) as u32, ..p }
    } else {
        p
    }
}

/// What a name in a directory of that kind stands for, for task `current`: the
/// kind, the task, and whether it is a directory.
pub open spec fn target_of(kind: Option<ProcKind>, pid: u32, current: usize, name: Seq<u8>) -> Result<
    (ProcKind, u32, bool),
    i32,
> {
    if kind == Some(ProcKind::Root) {
        if name == "self".spec_bytes() {
            Ok((ProcKind::SelfLink, current as u32, false))
        } else if name == "version".spec_bytes() {
            Ok((ProcKind::Version, 0, false))
        } else if name == "meminfo".spec_bytes() {
            Ok((ProcKind::Meminfo, 0, false))
        } else if name == "stat".spec_bytes() {
            Ok((ProcKind::Stat, 0, false))
        } else if name == "filesystems".spec_bytes() {
            Ok((ProcKind::Filesystems, 0, false))
        } else if parsed(name) is Some && 0 < parsed(name)->0 < NR_TASKS {
            Ok((ProcKind::PidDir, parsed(name)->0, true))
        } else {
            Err(ENOENT)
        }
    } else if kind == Some(ProcKind::PidDir) {
        if name == "exe".spec_bytes() {
            Ok((ProcKind::PidExe, pid, false))
        } else if name == "maps".spec_bytes() {
            Ok((ProcKind::PidMaps, pid, false))
        } else if name == "status".spec_bytes() {
            Ok((ProcKind::PidStatus, pid, false))
        } else if name == "cmdline".spec_bytes() {
            Ok((ProcKind::PidCmdline, pid, false))
        } else if name == "fd".spec_bytes() {
            Ok((ProcKind::PidFdDir, pid, true))
        } else {
            Err(ENOENT)
        }
    } else {
        Err(ENOTDIR)
    }
}

/// The state after a name in directory `dir` was looked up, with the answer `r`.
pub open spec fn lookup_did(
    fs0: &Fs,
    fs: &Fs,
    p0: ProcFs,
    p: ProcFs,
    dir: usize,
    current: usize,
    name: Seq<u8>,
    r: Result<usize, i32>,
) -> bool {
    let d = fs0.inodes@[dir as int];
    match target_of(inode_kind(d), inode_pid(d), current, name) {
        Err(e) => r == Err::<usize, i32>(e) && *fs == *fs0 && p == p0,
        Ok((kind, pid, is_dir)) => {
            &&& node_made(
                fs0,
                fs,
                p0.ino_next,
                kind,
                pid,
                is_dir,
                match r {
                    Ok(n) => n,
                    Err(_) => NIL,
                },
            )
            &&& r is Err ==> r == Err::<usize, i32>(ENOMEM)
            &&& r is Ok ==> r->Ok_0 < 64
            &&& p == numbered(p0, r is Ok)
        },
    }
}

/// The memory that there is, in kilobytes, with `free_pages` pages free.
pub open spec fn meminfo_text(free_pages: u32) -> Seq<u8> {
    let free = decimal((free_pages * 4 % 0x1_0000_0000) as nat);
    let total = decimal(((free_pages * 4 + 32768) % 0x1_0000_0000) as nat);
    "MemTotal:       ".spec_bytes() + total + " kB\nMemFree:        ".spec_bytes() + free
        + " kB\nMemAvailable:   ".spec_bytes() + free
        + " kB\nBuffers:        0 kB\nCached:         ".spec_bytes() + decimal(8192)
        + " kB\nSwapTotal:      0 kB\nSwapFree:       0 kB\n".spec_bytes()
}

/// What is told of a task's state.
pub open spec fn status_text(pid: u32) -> Seq<u8> {
    "Name:\tprocess\nPid:\t".spec_bytes() + decimal(pid as nat)
        + "\nPPid:\t0\nState:\tR (running)\nThreads:\t1\n".spec_bytes()
}

/// Where the program of a task is.
pub open spec fn exe_text(tasks: Seq<ProcTask>, pid: u32) -> Seq<u8> {
    if pid < NR_TASKS {
        cut_at_zero(tasks[pid as int].exe_path@)
    } else {
        Seq::empty()
    }
}

/// What a file holds; nothing for a directory.
pub open spec fn text_of(kind: Option<ProcKind>, pid: u32, tasks: Seq<ProcTask>, free_pages: u32) -> Option<
    Seq<u8>,
> {
    match kind {
        Some(ProcKind::Version) => Some("Linux version 1.0.9-shitix (rust) #1 SMP\n".spec_bytes()),
        Some(ProcKind::Meminfo) => Some(meminfo_text(free_pages)),
        Some(ProcKind::Stat) => Some(
            "cpu  0 0 0 0 0 0 0 0 0 0\ncpu0 0 0 0 0 0 0 0 0 0 0\n".spec_bytes(),
        ),
        Some(ProcKind::Filesystems) => Some(
            "\text4\n\tproc\n\ttmpfs\nnodev\tproc\nnodev\ttmpfs\n".spec_bytes(),
        ),
        Some(ProcKind::PidMaps) => Some(Seq::empty()),
        Some(ProcKind::PidStatus) => Some(status_text(pid)),
        Some(ProcKind::PidCmdline) => Some(exe_text(tasks, pid)),
        Some(ProcKind::SelfLink) => Some(exe_text(tasks, pid)),
        Some(ProcKind::PidExe) => Some(exe_text(tasks, pid)),
        _ => None,
    }
}

/// What a link leads to; nothing for what is none.
pub open spec fn link_of(kind: Option<ProcKind>, pid: u32, tasks: Seq<ProcTask>) -> Option<Seq<u8>> {
    match kind {
        Some(ProcKind::SelfLink) => Some(decimal(pid as nat)),
        Some(ProcKind::PidExe) => Some(exe_text(tasks, pid)),
        _ => None,
    }
}

/// The text, as far as `max` bytes of it.
pub open spec fn cut(t: Seq<u8>, max: int) -> Seq<u8> {
    t.take(least(t.len() as int, max))
}

/// `buf` is `b0` with as much of `t` from `pos` on as fits, `r` bytes, at its front.
pub open spec fn copied(t: Seq<u8>, pos: int, b0: Seq<u8>, buf: Seq<u8>, r: int) -> bool {
    &&& r == if pos >= t.len() {
        0
    } else {
        least(t.len() - pos, b0.len() as int)
    }
    &&& buf.len() == b0.len()
    &&& forall|k: int|
        0 <= k < buf.len() ==> #[trigger] buf[k] == if k < r {
            t[pos + k]
        } else {
            b0[k]
        }
}

fn copy_out(t: &Vec<u8>, max: usize, pos: u64, buf: &mut Vec<u8>) -> (r: i64)
    requires
        max <= 512,
    ensures
        copied(cut(t@, max as int), pos as int, old(buf)@, final(buf)@, r as int),
{
    let len: usize = if t.len() < max {
        t.len()
    } else {
        max
    };
    if pos >= len as u64 {
        return 0;
    }
    let start: usize = pos as usize;
    let n: usize = buf.len();
    let count: usize = if len - start < n {
        len - start
    } else {
        n
    };
    let ghost b0 = buf@;
    for k in 0..count
        invariant
            start + count <= len <= t@.len(),
            count <= n,
            n == buf@.len(),
            b0.len() == n,
            forall|j: int|
                0 <= j < n ==> #[trigger] buf@[j] == if j < k {
                    t@[start + j]
                } else {
                    b0[j]
                },
    {
        buf[k] = t[start + k];
    }
    count as i64
}

fn push_all(out: &mut Vec<u8>, t: &[u8])
    ensures
        final(out)@ == old(out)@ + t@,
{
    for i in 0..t.len()
        invariant
            out@ == old(out)@ + t@.take(i as int),
    {
        out.push(t[i]);
        assert(out@ =~= old(out)@ + t@.take(i + 1));
    }
    assert(t@.take(t@.len() as int) =~= t@);
}

fn from_str(t: &str) -> (r: Vec<u8>)
    ensures
        r@ == t.spec_bytes(),
{
    let mut r: Vec<u8> = Vec::new();
    push_all(&mut r, t.as_bytes());
    assert(r@ =~= t.spec_bytes());
    r
}

fn push_number(out: &mut Vec<u8>, v: u32)
    ensures
        final(out)@ == old(out)@ + decimal(v as nat),
{
    let t: Vec<u8> = fmt_u32(v);
    push_all(out, t.as_slice());
}

fn fill_meminfo(free_pages: u32) -> (r: Vec<u8>)
    ensures
        r@ == meminfo_text(free_pages),
{
    let free_kb: u64 = free_pages as u64 * 4;
    let total_kb: u64 = free_kb + 32768;
    let free: u32 = (free_kb % 0x1_0000_0000) as u32;
    let total: u32 = (total_kb % 0x1_0000_0000) as u32;
    let mut r: Vec<u8> = from_str("MemTotal:       ");
    push_number(&mut r, total);
    push_all(&mut r, " kB\nMemFree:        ".as_bytes());
    push_number(&mut r, free);
    push_all(&mut r, " kB\nMemAvailable:   ".as_bytes());
    push_number(&mut r, free);
    push_all(&mut r, " kB\nBuffers:        0 kB\nCached:         ".as_bytes());
    push_number(&mut r, ((total_kb - free_kb) as u32) / 4);
    push_all(&mut r, " kB\nSwapTotal:      0 kB\nSwapFree:       0 kB\n".as_bytes());
    r
}

fn fill_pid_status(pid: u32) -> (r: Vec<u8>)
    ensures
        r@ == status_text(pid),
{
    let mut r: Vec<u8> = from_str("Name:\tprocess\nPid:\t");
    push_number(&mut r, pid);
    push_all(&mut r, "\nPPid:\t0\nState:\tR (running)\nThreads:\t1\n".as_bytes());
    r
}

fn fill_pid_cmdline(tasks: &Vec<ProcTask>, pid: u32) -> (r: Vec<u8>)
    requires
        tasks@.len() == NR_TASKS,
    ensures
        r@ == exe_text(tasks@, pid),
{
    if pid as usize >= NR_TASKS {
        return Vec::new();
    }
    let path: &Vec<u8> = &tasks[pid as usize].exe_path;
    let n: usize = zero_at(path.as_slice());
    let r: Vec<u8> = crate::bytes::copy_range(path.as_slice(), 0, n);
    assert(r@ =~= path@.take(n as int));
    r
}

fn is_name(name: &[u8], t: &str) -> (r: bool)
    ensures
        r == (name@ == t.spec_bytes()),
{
    same_bytes(name, t.as_bytes())
}

/// What a name stands for.
fn find_target(kind: Option<ProcKind>, pid: u32, current: usize, name: &[u8]) -> (r: Result<
    (ProcKind, u32, bool),
    i32,
>)
    requires
        current < NR_TASKS,
    ensures
        r == target_of(kind, pid, current, name@),
{
    match kind {
        Some(ProcKind::Root) => {
            if is_name(name, "self") {
                Ok((ProcKind::SelfLink, current as u32, false))
            } else if is_name(name, "version") {
                Ok((ProcKind::Version, 0, false))
            } else if is_name(name, "meminfo") {
                Ok((ProcKind::Meminfo, 0, false))
            } else if is_name(name, "stat") {
                Ok((ProcKind::Stat, 0, false))
            } else if is_name(name, "filesystems") {
                Ok((ProcKind::Filesystems, 0, false))
            } else {
                match parse_u32(name) {
                    Some(n) => if n > 0 && (n as usize) < NR_TASKS {
                        Ok((ProcKind::PidDir, n, true))
                    } else {
                        Err(ENOENT)
                    },
                    None => Err(ENOENT),
                }
            }
        },
        Some(ProcKind::PidDir) => {
            if is_name(name, "exe") {
                Ok((ProcKind::PidExe, pid, false))
            } else if is_name(name, "maps") {
                Ok((ProcKind::PidMaps, pid, false))
            } else if is_name(name, "status") {
                Ok((ProcKind::PidStatus, pid, false))
            } else if is_name(name, "cmdline") {
                Ok((ProcKind::PidCmdline, pid, false))
            } else if is_name(name, "fd") {
                Ok((ProcKind::PidFdDir, pid, true))
            } else {
                Err(ENOENT)
            }
        },
        _ => Err(ENOTDIR),
    }
}

fn get_kind(fs: &Fs, n: usize) -> (r: Option<ProcKind>)
    requires
        fs.wf(),
        n < 64,
    ensures
        r == inode_kind(fs.inodes@[n as int]),
{
    ProcKind::from_number(fs.inodes[n].data[0])
}

fn get_pid(fs: &Fs, n: usize) -> (r: u32)
    requires
        fs.wf(),
        n < 64,
    ensures
        r == inode_pid(fs.inodes@[n as int]),
{
    join32(fs.inodes[n].data[2], fs.inodes[n].data[1])
}

/// The names in the root before those of the tasks.
pub open spec fn root_name(k: int) -> Seq<u8> {
    if k == 0 {
        ".".spec_bytes()
    } else if k == 1 {
        "..".spec_bytes()
    } else if k == 2 {
        "self".spec_bytes()
    } else if k == 3 {
        "version".spec_bytes()
    } else if k == 4 {
        "meminfo".spec_bytes()
    } else if k == 5 {
        "stat".spec_bytes()
    } else {
        "filesystems".spec_bytes()
    }
}

/// The names in the directory of a task.
pub open spec fn pid_name(k: int) -> Seq<u8> {
    if k == 0 {
        ".".spec_bytes()
    } else if k == 1 {
        "..".spec_bytes()
    } else if k == 2 {
        "exe".spec_bytes()
    } else if k == 3 {
        "maps".spec_bytes()
    } else if k == 4 {
        "status".spec_bytes()
    } else if k == 5 {
        "cmdline".spec_bytes()
    } else {
        "fd".spec_bytes()
    }
}

/// Task number `skip`, counted from `i` on, of those that there are, or the number
/// of tasks.
pub open spec fn task_from(tasks: Seq<ProcTask>, skip: int, i: int) -> int
    decreases tasks.len() - i,
{
    if i >= tasks.len() {
        tasks.len() as int
    } else if tasks[i].used {
        if skip == 0 {
            i
        } else {
            task_from(tasks, skip - 1, i + 1)
        }
    } else {
        task_from(tasks, skip, i + 1)
    }
}

/// Entry `d` for a name in a directory.
pub open spec fn is_dirent(d: Dirent, ino: int, next: int, kind: u8, name: Seq<u8>) -> bool {
    &&& d.d_ino == ino
    &&& d.d_off == next
    &&& d.d_reclen == DIRENT_SIZE
    &&& d.d_type == kind
    &&& d.d_name@ == padded(name.take(least(name.len() as int, 31)), 32)
}

/// What handing out entry `pos` of a directory of that kind gives.
pub open spec fn dirent_given(
    kind: Option<ProcKind>,
    pid: u32,
    tasks: Seq<ProcTask>,
    pos: u64,
    d0: Dirent,
    d: Dirent,
    r: int,
) -> bool {
    if kind == Some(ProcKind::Root) {
        if pos < 7 {
            &&& r == pos + 1
            &&& is_dirent(
                d,
                pos + 1,
                pos + 1,
                if pos <= 1 {
                    4
                } else if pos == 2 {
                    10
                } else {
                    8
                },
                root_name(pos as int),
            )
        } else {
            let i = task_from(tasks, pos - 7, 1);
            if i < tasks.len() {
                r == pos + 1 && is_dirent(d, 1000 + i, pos + 1, 4, decimal(i as nat))
            } else {
                r == 0 && d == d0
            }
        }
    } else if kind == Some(ProcKind::PidDir) {
        if pos < 7 {
            &&& r == pos + 1
            &&& is_dirent(
                d,
                (pid * 256 + pos) % 0x1_0000_0000,
                pos + 1,
                if pos <= 1 || pos == 6 {
                    4
                } else if pos == 2 {
                    10
                } else {
                    8
                },
                pid_name(pos as int),
            )
        } else {
            r == 0 && d == d0
        }
    } else {
        r == -ENOTDIR && d == d0
    }
}

fn make_dirent(ino: u64, next: i64, kind: u8, name: &[u8]) -> (d: Dirent)
    ensures
        is_dirent(d, ino as int, next as int, kind, name@),
{
    let n: usize = if name.len() < 31 {
        name.len()
    } else {
        31
    };
    let mut text: [u8; 32] = [0u8; 32];
    for k in 0..n
        invariant
            n <= name@.len(),
            n <= 31,
            text@ == padded(name@.take(k as int), 32),
    {
        text[k] = name[k];
        assert(text@ =~= padded(name@.take(k + 1), 32));
    }
    Dirent { d_ino: ino, d_off: next, d_reclen: DIRENT_SIZE, d_type: kind, d_name: text }
}

impl ProcFs {
    pub fn new() -> (r: ProcFs)
        ensures
            r == (ProcFs { ino_next: 100, root: NIL }),
    {
        ProcFs { ino_next: 100, root: NIL }
    }

    /// Makes an inode.
    fn proc_iget(&mut self, fs: &mut Fs, kind: ProcKind, pid: u32, is_dir: bool) -> (r: usize)
        requires
            old(fs).wf(),
        ensures
            final(fs).wf(),
            *final(self) == numbered(*old(self), r != NIL),
            node_made(old(fs), final(fs), old(self).ino_next, kind, pid, is_dir, r),
    {
        let n: usize = get_empty_inode(fs);
        if n == NIL {
            return NIL;
        }
        let ghost x = fs.inodes@[n as int];
        let mut i: Inode = fs.inodes[n];
        let ino: u32 = self.ino_next;
        self.ino_next = if ino == u32::MAX {
            0
        } else {
            ino + 1
        };
        i.i_dev = PROC_DEV;
        i.i_ino = ino;
        i.i_op = FsType::Proc;
        i.i_count = 1;
        i.i_nlink = 1;
        i.i_uid = 0;
        i.i_gid = 0;
        i.i_size = 0;
        i.i_blksize = 1024;
        i.data[0] = kind.to_number();
        i.data[1] = (pid % 65536) as u16;
        i.data[2] = (pid / 65536) as u16;
        if is_dir {
            i.i_mode = mode::S_IFDIR | 0o555;
            i.i_nlink = 2;
        } else if kind == ProcKind::SelfLink || kind == ProcKind::PidExe {
            i.i_mode = mode::S_IFLNK | 0o777;
        } else {
            i.i_mode = mode::S_IFREG | 0o444;
        }
        fs.inodes[n] = i;
        proof {
            assert(i.data@ =~= x.data@.update(0, kind.number()).update(1, (pid % 65536) as u16).update(
                2,
                (pid / 65536) as u16,
            ));
            assert(is_node(x, i, old(self).ino_next, kind, pid, is_dir));
            assert(fs.inodes@ =~= old(fs).inodes@.update(n as int, i));
        }
        n
    }

    /// Mounts the file system on a directory.
    pub fn mount_proc(&mut self, fs: &mut Fs, dir_inode: usize) -> (r: i64)
        requires
            old(fs).wf(),
            dir_inode < 64,
        ensures
            final(fs).wf(),
            exists|fs1: Fs, root: usize|
                {
                    &&& #[trigger] node_made(
                        old(fs),
                        &fs1,
                        old(self).ino_next,
                        ProcKind::Root,
                        0,
                        true,
                        root,
                    )
                    &&& if root == NIL {
                        r == -ENOMEM && *final(fs) == fs1 && *final(self) == *old(self)
                    } else {
                        &&& r == 0
                        &&& *final(self) == (ProcFs { root, ..numbered(*old(self), true) })
                        &&& *final(fs) == (Fs { inodes: final(fs).inodes, ..fs1 })
                        &&& final(fs).inodes@ == fs1.inodes@.update(
                            dir_inode as int,
                            Inode { i_mount: root, ..fs1.inodes@[dir_inode as int] },
                        )
                    }
                },
    {
        let root: usize = self.proc_iget(fs, ProcKind::Root, 0, true);
        let ghost fs1 = *fs;
        assert(node_made(old(fs), &fs1, old(self).ino_next, ProcKind::Root, 0, true, root));
        if root == NIL {
            return -(ENOMEM as i64);
        }
        self.root = root;
        fs.inodes[dir_inode].i_mount = root;
        assert(fs.inodes@ =~= fs1.inodes@.update(
            dir_inode as int,
            Inode { i_mount: root, ..fs1.inodes@[dir_inode as int] },
        ));
        0
    }

    /// The inode that a name in directory `dir` leads to, for task `current`.
    pub fn lookup(&mut self, fs: &mut Fs, dir: usize, current: usize, name: &[u8]) -> (r: Result<usize, i32>)
        requires
            old(fs).wf(),
            dir < 64,
            current < NR_TASKS,
        ensures
            final(fs).wf(),
            lookup_did(old(fs), final(fs), *old(self), *final(self), dir, current, name@, r),
    {
        let kind = get_kind(fs, dir);
        let pid: u32 = get_pid(fs, dir);
        match find_target(kind, pid, current, name) {
            Err(e) => Err(e),
            Ok((k, p, is_dir)) => {
                let n: usize = self.proc_iget(fs, k, p, is_dir);
                if n == NIL {
                    Err(ENOMEM)
                } else {
                    Ok(n)
                }
            },
        }
    }
}

/// What reading from file `i` at `pos` into `b0` gives, with the answer `r`.
pub open spec fn gives(
    i: Inode,
    pos: int,
    b0: Seq<u8>,
    b: Seq<u8>,
    tasks: Seq<ProcTask>,
    free_pages: u32,
    r: int,
) -> bool {
    match text_of(inode_kind(i), inode_pid(i), tasks, free_pages) {
        None => r == -EISDIR && b == b0,
        Some(t) => copied(cut(t, MAX_TEXT as int), pos, b0, b, r),
    }
}

/// Reads from a file at `pos`.
pub fn read(fs: &Fs, n: usize, pos: u64, buf: &mut Vec<u8>, tasks: &Vec<ProcTask>, free_pages: u32) -> (r: i64)
    requires
        fs.wf(),
        n < 64,
        tasks@.len() == NR_TASKS,
    ensures
        gives(
            fs.inodes@[n as int],
            pos as int,
            old(buf)@,
            final(buf)@,
            tasks@,
            free_pages,
            r as int,
        ),
{
    let pid: u32 = get_pid(fs, n);
    let text: Vec<u8> = match get_kind(fs, n) {
        Some(ProcKind::Version) => from_str("Linux version 1.0.9-shitix (rust) #1 SMP\n"),
        Some(ProcKind::Meminfo) => fill_meminfo(free_pages),
        Some(ProcKind::Stat) => from_str("cpu  0 0 0 0 0 0 0 0 0 0\ncpu0 0 0 0 0 0 0 0 0 0 0\n"),
        Some(ProcKind::Filesystems) => from_str(
            "\text4\n\tproc\n\ttmpfs\nnodev\tproc\nnodev\ttmpfs\n",
        ),
        Some(ProcKind::PidMaps) => Vec::new(),
        Some(ProcKind::PidStatus) => fill_pid_status(pid),
        Some(ProcKind::PidCmdline) => fill_pid_cmdline(tasks, pid),
        Some(ProcKind::SelfLink) => fill_pid_cmdline(tasks, pid),
        Some(ProcKind::PidExe) => fill_pid_cmdline(tasks, pid),
        _ => {
            return -(EISDIR as i64);
        },
    };
    copy_out(&text, MAX_TEXT, pos, buf)
}

/// Where a link leads to.
pub fn readlink(fs: &Fs, n: usize, buf: &mut Vec<u8>, tasks: &Vec<ProcTask>) -> (r: i64)
    requires
        fs.wf(),
        n < 64,
        tasks@.len() == NR_TASKS,
    ensures
        ({
            let i = fs.inodes@[n as int];
            match link_of(inode_kind(i), inode_pid(i), tasks@) {
                None => r == -EINVAL && final(buf)@ == old(buf)@,
                Some(t) => copied(cut(t, MAX_LINK as int), 0, old(buf)@, final(buf)@, r as int),
            }
        }),
{
    let pid: u32 = get_pid(fs, n);
    let text: Vec<u8> = match get_kind(fs, n) {
        Some(ProcKind::SelfLink) => fmt_u32(pid),
        Some(ProcKind::PidExe) => fill_pid_cmdline(tasks, pid),
        _ => {
            return -(EINVAL as i64);
        },
    };
    copy_out(&text, MAX_LINK, 0, buf)
}

/// Hands out entry `pos` of directory `n`.
pub fn fill_dirent(fs: &Fs, n: usize, pos: u64, out: &mut Dirent, tasks: &Vec<ProcTask>) -> (r: i64)
    requires
        fs.wf(),
        n < 64,
        tasks@.len() == NR_TASKS,
        pos < i64::MAX,
    ensures
        dirent_given(
            inode_kind(fs.inodes@[n as int]),
            inode_pid(fs.inodes@[n as int]),
            tasks@,
            pos,
            *old(out),
            *final(out),
            r as int,
        ),
{
    let pid: u32 = get_pid(fs, n);
    match get_kind(fs, n) {
        Some(ProcKind::Root) => fill_root_dirent(pos, out, tasks),
        Some(ProcKind::PidDir) => fill_pid_dirent(pid, pos, out),
        _ => -(ENOTDIR as i64),
    }
}

fn fill_root_dirent(pos: u64, out: &mut Dirent, tasks: &Vec<ProcTask>) -> (r: i64)
    requires
        tasks@.len() == NR_TASKS,
        pos < i64::MAX,
    ensures
        dirent_given(Some(ProcKind::Root), 0, tasks@, pos, *old(out), *final(out), r as int),
{
    let next: i64 = (pos + 1) as i64;
    if pos < 7 {
        let name: &str = if pos == 0 {
            "."
        } else if pos == 1 {
            ".."
        } else if pos == 2 {
            "self"
        } else if pos == 3 {
            "version"
        } else if pos == 4 {
            "meminfo"
        } else if pos == 5 {
            "stat"
        } else {
            "filesystems"
        };
        let kind: u8 = if pos <= 1 {
            4
        } else if pos == 2 {
            10
        } else {
            8
        };
        *out = make_dirent(pos + 1, next, kind, name.as_bytes());
        return next;
    }
    let mut skip: u64 = pos - 7;
    for i in 1..NR_TASKS
        invariant
            tasks@.len() == NR_TASKS,
            7 <= pos < i64::MAX,
            next == pos + 1,
            *out == *old(out),
            task_from(tasks@, pos - 7, 1) == task_from(tasks@, skip as int, i as int),
    {
        if tasks[i].used {
            if skip == 0 {
                let name: Vec<u8> = fmt_u32(i as u32);
                *out = make_dirent(1000 + i as u64, next, 4, name.as_slice());
                return next;
            }
            skip = skip - 1;
        }
    }
    0
}

fn fill_pid_dirent(pid: u32, pos: u64, out: &mut Dirent) -> (r: i64)
    requires
        pos < i64::MAX,
    ensures
        forall|tasks: Seq<ProcTask>|
            #[trigger] dirent_given(
                Some(ProcKind::PidDir),
                pid,
                tasks,
                pos,
                *old(out),
                *final(out),
                r as int,
            ),
{
    if pos >= 7 {
        return 0;
    }
    let next: i64 = (pos + 1) as i64;
    let name: &str = if pos == 0 {
        "."
    } else if pos == 1 {
        ".."
    } else if pos == 2 {
        "exe"
    } else if pos == 3 {
        "maps"
    } else if pos == 4 {
        "status"
    } else if pos == 5 {
        "cmdline"
    } else {
        "fd"
    };
    let kind: u8 = if pos <= 1 || pos == 6 {
        4
    } else if pos == 2 {
        10
    } else {
        8
    };
    let ino: u64 = (pid as u64 * 256 + pos) % 0x1_0000_0000;
    *out = make_dirent(ino, next, kind, name.as_bytes());
    next
}

} // verus!
