//! The table of open files.

use crate::fs::inode::{iput, iput_fs, NIL};
use crate::fs::{Vfs, NR_FILE};
use vstd::prelude::*;

verus! {

/// An open file.
#[derive(Debug, Clone, Copy, PartialEq, Eq, Structural)]
pub struct File {
    /// Bit 0 is for reading, bit 1 for writing.
    pub f_mode: u16,
    pub f_rdev: u16,
    /// Where the next read or write starts.
    pub f_pos: u64,
    pub f_flags: u32,
    /// How many descriptors lead here; a free slot has none.
    pub f_count: u16,
    pub f_reada: u16,
    pub f_inode: usize,
}

/// A free slot.
pub open spec fn no_file() -> File {
    File { f_mode: 0, f_rdev: 0, f_pos: 0, f_flags: 0, f_count: 0, f_reada: 0, f_inode: NIL }
}

impl File {
    pub open spec fn links_ok(&self) -> bool {
        self.f_inode == NIL || self.f_inode < 64
    }

    pub fn new() -> (r: File)
        ensures
            r == no_file(),
    {
        File { f_mode: 0, f_rdev: 0, f_pos: 0, f_flags: 0, f_count: 0, f_reada: 0, f_inode: NIL }
    }
}

/// The first free slot at `k` or after it, or the number of slots.
pub open spec fn free_from(s: Seq<File>, k: int) -> int
    decreases s.len() - k,
{
    if k >= s.len() {
        s.len() as int
    } else if s[k].f_count == 0 {
        k
    } else {
        free_from(s, k + 1)
    }
}

/// How many of the first `n` slots are in use.
pub open spec fn used_in(s: Seq<File>, n: int) -> int
    decreases n,
{
    if n <= 0 {
        0
    } else {
        used_in(s, n - 1) + if s[n - 1].f_count > 0 {
            1int
        } else {
            0
        }
    }
}

/// A table of free slots.
pub fn init() -> (r: Vec<File>)
    ensures
        r@.len() == 32,
        forall|f: int| 0 <= f < 32 ==> (#[trigger] r@[f]) == no_file(),
{
    let mut r: Vec<File> = Vec::new();
    for n in 0..NR_FILE
        invariant
            r@.len() == n,
            forall|f: int| 0 <= f < n ==> (#[trigger] r@[f]) == no_file(),
    {
        r.push(File::new());
    }
    r
}

/// The state `v` is that of `v0` after a slot was asked for, with the answer `r`.
pub open spec fn filp_taken(v0: &Vfs, v: &Vfs, r: usize) -> bool {
    let n = free_from(v0.files@, 0);
    if n < 32 {
        &&& r == n
        &&& *v == (Vfs { files: v.files, ..*v0 })
        &&& v.files@ == v0.files@.update(n, File { f_count: 1, ..no_file() })
    } else {
        r == NIL && *v == *v0
    }
}

/// Takes a free slot for one descriptor.
pub fn get_empty_filp(v: &mut Vfs) -> (r: usize)
    requires
        old(v).wf(),
    ensures
        final(v).wf(),
        filp_taken(old(v), final(v), r),
        r == NIL || r < 32,
{
    for n in 0..NR_FILE
        invariant
            v.wf(),
            *v == *old(v),
            free_from(v.files@, 0) == free_from(v.files@, n as int),
    {
        if v.files[n].f_count == 0 {
            let mut f = File::new();
            f.f_count = 1;
            v.files.set(n, f);
            return n;
        }
    }
    NIL
}

/// The state `v` is that of `v0` after a descriptor no longer leads to slot `n`. The
/// last one gives the inode back.
pub open spec fn filp_put(v0: &Vfs, v: &Vfs, n: usize) -> bool {
    let f = v0.files@[n as int];
    if n == NIL || f.f_count == 0 {
        *v == *v0
    } else if f.f_count > 1 {
        &&& *v == (Vfs { files: v.files, ..*v0 })
        &&& v.files@ == v0.files@.update(n as int, File { f_count: (f.f_count - 1) as u16, ..f })
    } else {
        &&& *v == (Vfs { fs: v.fs, files: v.files, ..*v0 })
        &&& v.files@ == v0.files@.update(n as int, File { f_count: 0, f_inode: NIL, ..f })
        &&& iput_fs(&v0.fs, &v.fs, f.f_inode)
    }
}

/// Counts one descriptor less for slot `n`.
pub fn put_filp(v: &mut Vfs, n: usize)
    requires
        old(v).wf(),
        n == NIL || n < 32,
    ensures
        final(v).wf(),
        filp_put(old(v), final(v), n),
{
    if n == NIL {
        return;
    }
    let mut f: File = v.files[n];
    assert(v.files@[n as int].links_ok());
    if f.f_count == 0 {
        return;
    }
    f.f_count = f.f_count - 1;
    if f.f_count == 0 {
        let ino: usize = f.f_inode;
        f.f_inode = NIL;
        v.files.set(n, f);
        iput(&mut v.fs, ino);
    } else {
        v.files.set(n, f);
    }
}

/// How many slots are in use.
pub fn nr_used(v: &Vfs) -> (r: usize)
    requires
        v.wf(),
    ensures
        r == used_in(v.files@, 32),
{
    let mut r: usize = 0;
    for n in 0..NR_FILE
        invariant
            v.wf(),
            r == used_in(v.files@, n as int),
            r <= n,
    {
        if v.files[n].f_count > 0 {
            r = r + 1;
        }
    }
    r
}

} // verus!
