//! Pipes: a ring of bytes with a count of readers and of writers, and the
//! descriptors of each task that lead to them.

use crate::bytes::least;
use crate::errno::EPIPE;
use crate::fs::inode::NIL;
use vstd::prelude::*;

verus! {

pub const PIPE_BUF_SIZE: usize = 4096;
/// What the head of a pipe takes of its page.
pub const PIPE_HEAD_SIZE: usize = 48;
/// How many bytes a pipe can hold.
pub const RING_SIZE: usize = 4048;
pub const MAX_PIPES: usize = 4;
pub const MAX_PIPE_FD: usize = 32;
pub const NR_TASKS: usize = 64;

pub const PIPE_DIR_READ: u8 = 0;
pub const PIPE_DIR_WRITE: u8 = 1;

/// A pipe.
pub struct Pipe {
    pub used: bool,
    pub ring: Vec<u8>,
    pub len: usize,
    pub read_pos: usize,
    pub write_pos: usize,
    pub readers: u8,
    pub writers: u8,
}

/// The descriptors of a task: to which pipe each leads, and to which end.
#[derive(Debug, Clone, Copy)]
pub struct FdRow {
    pub map: [usize; 32],
    pub dir: [u8; 32],
}

/// The pipes, and the descriptors of each task.
pub struct PipeTable {
    pub pipes: Vec<Pipe>,
    pub rows: Vec<FdRow>,
}

/// What became of an attempt to read.
pub enum PipeRead {
    Bytes(Vec<u8>),
    /// There is nothing yet.
    Wait,
}

/// What became of an attempt to write.
pub enum PipeWrite {
    /// All of it, so many bytes, was taken.
    Wrote(usize),
    Failed(i32),
    /// So many bytes were taken, and the pipe is full: try again with the rest.
    Wait(usize),
}

/// What a pipe is to those who use it.
#[verifier::ext_equal]
pub struct PipeView {
    pub used: bool,
    pub data: Seq<u8>,
    pub readers: u8,
    pub writers: u8,
}

/// `n` bytes of the ring from `start` on.
pub open spec fn ring_bytes(ring: Seq<u8>, start: int, n: int) -> Seq<u8> {
    Seq::new(n as nat, |i: int| ring[(start + i) % RING_SIZE as int])
}

impl Pipe {
    pub open spec fn view(&self) -> PipeView {
        PipeView {
            used: self.used,
            data: ring_bytes(self.ring@, self.read_pos as int, self.len as int),
            readers: self.readers,
            writers: self.writers,
        }
    }

    /// The bytes lie between the two positions.
    pub open spec fn wf(&self) -> bool {
        &&& self.ring@.len() == RING_SIZE
        &&& self.len <= RING_SIZE
        &&& self.read_pos < RING_SIZE
        &&& self.write_pos == (self.read_pos + self.len) % RING_SIZE as int
    }

    fn new() -> (r: Pipe)
        ensures
            r.wf(),
            r@ == fresh_pipe(),
    {
        let ring: Vec<u8> = vec![0u8; RING_SIZE];
        let r = Pipe { used: true, ring, len: 0, read_pos: 0, write_pos: 0, readers: 1, writers: 1 };
        assert(r@.data =~= Seq::<u8>::empty());
        r
    }

    /// The first `n` bytes.
    fn front(&self, n: usize) -> (r: Vec<u8>)
        requires
            self.wf(),
            n <= self.len,
        ensures
            r@ == self@.data.take(n as int),
    {
        let mut r: Vec<u8> = Vec::new();
        for i in 0..n
            invariant
                self.wf(),
                n <= self.len,
                r@ == ring_bytes(self.ring@, self.read_pos as int, i as int),
        {
            r.push(self.ring[(self.read_pos + i) % RING_SIZE]);
        }
        assert(r@ =~= self@.data.take(n as int));
        r
    }

    /// Drops the first `n` bytes.
    fn advance(&mut self, n: usize)
        requires
            old(self).wf(),
            n <= old(self).len,
        ensures
            final(self).wf(),
            final(self)@ == (PipeView { data: old(self)@.data.skip(n as int), ..old(self)@ }),
    {
        self.read_pos = (self.read_pos + n) % RING_SIZE;
        self.len = self.len - n;
        assert(self@.data =~= old(self)@.data.skip(n as int));
    }

    /// Puts the first `n` bytes of `d` behind the others.
    fn append(&mut self, d: &[u8], n: usize)
        requires
            old(self).wf(),
            n <= d@.len(),
            old(self).len + n <= RING_SIZE,
        ensures
            final(self).wf(),
            final(self)@ == (PipeView { data: old(self)@.data + d@.take(n as int), ..old(self)@ }),
    {
        let ghost data0 = self@.data;
        let start: usize = self.write_pos;
        let len0: usize = self.len;
        for i in 0..n
            invariant
                n <= d@.len(),
                len0 + n <= RING_SIZE,
                self.ring@.len() == RING_SIZE,
                self.read_pos < RING_SIZE,
                start == (self.read_pos + len0) % RING_SIZE as int,
                self.len == len0,
                self.len == old(self).len,
                self.write_pos == start,
                self.used == old(self).used,
                self.read_pos == old(self).read_pos,
                self.readers == old(self).readers,
                self.writers == old(self).writers,
                data0.len() == len0,
                ring_bytes(self.ring@, self.read_pos as int, len0 + i) == data0 + d@.take(i as int),
        {
            let at: usize = (start + i) % RING_SIZE;
            assert(at == (self.read_pos + len0 + i) % RING_SIZE as int);
            let ghost before = ring_bytes(self.ring@, self.read_pos as int, len0 + i);
            self.ring.set(at, d[i]);
            let ghost after = ring_bytes(self.ring@, self.read_pos as int, len0 + i + 1);
            assert forall|k: int| 0 <= k < len0 + i implies after[k] == before[k] by {
                assert((self.read_pos + k) % RING_SIZE as int != at);
            }
            assert(after =~= data0 + d@.take(i + 1)) by {
                assert forall|k: int| 0 <= k < len0 + i + 1 implies after[k] == (data0 + d@.take(i + 1))[k] by {
                    if k < len0 + i {
                        assert(before[k] == (data0 + d@.take(i as int))[k]);
                    }
                }
            }
        }
        self.len = len0 + n;
        self.write_pos = (start + n) % RING_SIZE;
        assert(self@.data =~= data0 + d@.take(n as int));
    }
}

/// A pipe with one reader and one writer and nothing in it.
pub open spec fn fresh_pipe() -> PipeView {
    PipeView { used: true, data: Seq::empty(), readers: 1, writers: 1 }
}

/// A count one higher, as far as it goes.
pub open spec fn up(c: u8) -> u8 {
    if c == 255 {
        c
    } else {
        (c + 1) as u8
    }
}

/// A count one lower, as far as it goes.
pub open spec fn down(c: u8) -> u8 {
    if c == 0 {
        c
    } else {
        (c - 1) as u8
    }
}

/// The pipe with one more user of that end.
pub open spec fn joined(p: PipeView, dir: u8) -> PipeView {
    if dir == PIPE_DIR_READ {
        PipeView { readers: up(p.readers), ..p }
    } else {
        PipeView { writers: up(p.writers), ..p }
    }
}

/// The pipe with one user of that end less.
pub open spec fn left(p: PipeView, dir: u8) -> PipeView {
    if dir == PIPE_DIR_READ {
        PipeView { readers: down(p.readers), ..p }
    } else {
        PipeView { writers: down(p.writers), ..p }
    }
}

/// The pipe, which is given up once nobody is at either end.
pub open spec fn settled(p: PipeView) -> PipeView {
    if p.readers == 0 && p.writers == 0 {
        PipeView { used: false, ..p }
    } else {
        p
    }
}

/// How many descriptors from `fd` on lead to that end of pipe `p`.
pub open spec fn users(row: FdRow, p: int, reading: bool, fd: int) -> int
    decreases 32 - fd,
{
    if fd >= 32 {
        0
    } else {
        users(row, p, reading, fd + 1) + if row.map@[fd] == p && (row.dir@[fd] == PIPE_DIR_READ) == reading {
            1int
        } else {
            0
        }
    }
}

/// The pipe with the users that the descriptors of a row add to it.
pub open spec fn shared(p: PipeView, row: FdRow, i: int) -> PipeView {
    if p.used {
        PipeView {
            readers: (p.readers + users(row, i, true, 0)) as u8,
            writers: (p.writers + users(row, i, false, 0)) as u8,
            ..p
        }
    } else {
        p
    }
}

/// What can be done with an end: whether it can be read, can be written, has
/// been hung up on.
pub open spec fn poll_status(p: PipeView, dir: u8) -> (bool, bool, bool) {
    if !p.used {
        (false, false, true)
    } else if dir == PIPE_DIR_READ {
        (p.data.len() > 0 || p.writers == 0, false, false)
    } else if p.readers == 0 {
        (false, false, true)
    } else {
        (false, p.data.len() < RING_SIZE, false)
    }
}

/// The pipe after `n` bytes have been taken from its front.
pub open spec fn drained(p: PipeView, n: int) -> PipeView {
    PipeView { data: p.data.skip(n), ..p }
}

/// The pipe after `d` has been put behind its bytes.
pub open spec fn filled(p: PipeView, d: Seq<u8>) -> PipeView {
    PipeView { data: p.data + d, ..p }
}

/// What goes in comes out in the same order: the bytes that were there, and
/// what was written behind them.
pub proof fn lemma_first_in_first_out(p: PipeView, d: Seq<u8>, n: int)
    requires
        0 <= n <= p.data.len() + d.len(),
    ensures
        n <= p.data.len() ==> filled(p, d).data.take(n) == p.data.take(n) && drained(filled(p, d), n)
            == filled(drained(p, n), d),
        n > p.data.len() ==> filled(p, d).data.take(n) == p.data + d.take(n - p.data.len())
            && drained(filled(p, d), n).data == d.skip(n - p.data.len()),
{
    if n <= p.data.len() {
        assert(filled(p, d).data.take(n) =~= p.data.take(n));
        assert(drained(filled(p, d), n).data =~= filled(drained(p, n), d).data);
    } else {
        assert(filled(p, d).data.take(n) =~= p.data + d.take(n - p.data.len()));
        assert(drained(filled(p, d), n).data =~= d.skip(n - p.data.len()));
    }
}

/// Leaving an end that was just joined gives the pipe back as it was.
pub proof fn lemma_join_leave(p: PipeView, dir: u8)
    requires
        dir == PIPE_DIR_READ ==> p.readers < 255,
        dir != PIPE_DIR_READ ==> p.writers < 255,
    ensures
        left(joined(p, dir), dir) == p,
{
}

proof fn lemma_users(row: FdRow, p: int, reading: bool, fd: int)
    requires
        0 <= fd <= 32,
    ensures
        0 <= users(row, p, reading, fd) <= 32 - fd,
    decreases 32 - fd,
{
    if fd < 32 {
        lemma_users(row, p, reading, fd + 1);
    }
}

proof fn lemma_users_grow(row: FdRow, p: int, reading: bool, fd: int)
    requires
        0 <= fd <= 32,
    ensures
        users(row, p, reading, fd) <= users(row, p, reading, 0),
    decreases fd,
{
    if fd > 0 {
        lemma_users_grow(row, p, reading, fd - 1);
    }
}

impl PipeTable {
    /// The pipes.
    pub open spec fn view(&self) -> Seq<PipeView> {
        Seq::new(self.pipes@.len(), |i: int| self.pipes@[i]@)
    }

    /// The tables have their sizes, and descriptors lead to pipes.
    pub open spec fn wf(&self) -> bool {
        &&& self.pipes@.len() == MAX_PIPES
        &&& forall|i: int| 0 <= i < MAX_PIPES ==> (#[trigger] self.pipes@[i]).wf()
        &&& self.rows@.len() == NR_TASKS
        &&& forall|t: int, fd: int|
            0 <= t < NR_TASKS && 0 <= fd < 32 ==> {
                let i = #[trigger] self.rows@[t].map@[fd];
                i < MAX_PIPES || i == NIL
            }
    }

    /// The pipe that a descriptor of a task leads to.
    pub open spec fn pipe_of(&self, task: int, fd: int) -> Option<int> {
        if 0 <= fd < MAX_PIPE_FD && self.rows@[task].map@[fd] != NIL {
            Some(self.rows@[task].map@[fd] as int)
        } else {
            None
        }
    }

    /// The end that a descriptor of a task leads to.
    pub open spec fn dir_of(&self, task: int, fd: int) -> u8 {
        if 0 <= fd < MAX_PIPE_FD {
            self.rows@[task].dir@[fd]
        } else {
            PIPE_DIR_READ
        }
    }

    /// Only the pipes differ, and of those only pipe `i`.
    pub open spec fn changed(&self, new: &PipeTable, i: int, p: PipeView) -> bool {
        &&& new.rows@ == self.rows@
        &&& new@ == self@.update(i, p)
    }

    /// No pipes and no descriptors.
    pub fn new() -> (r: PipeTable)
        ensures
            r.wf(),
            forall|i: int| 0 <= i < MAX_PIPES ==> !(#[trigger] r@[i]).used,
            forall|t: int, fd: int| 0 <= t < NR_TASKS ==> #[trigger] r.pipe_of(t, fd) is None,
    {
        let mut pipes: Vec<Pipe> = Vec::new();
        for i in 0..MAX_PIPES
            invariant
                pipes@.len() == i,
                forall|j: int| 0 <= j < i ==> (#[trigger] pipes@[j]).wf() && !pipes@[j].used,
        {
            let mut p = Pipe::new();
            p.used = false;
            pipes.push(p);
        }
        let row = FdRow { map: [NIL; 32], dir: [0u8; 32] };
        let mut rows: Vec<FdRow> = Vec::new();
        for t in 0..NR_TASKS
            invariant
                rows@.len() == t,
                forall|j: int| 0 <= j < t ==> #[trigger] rows@[j] == row,
                forall|fd: int| 0 <= fd < 32 ==> #[trigger] row.map@[fd] == NIL,
        {
            rows.push(row);
        }
        PipeTable { pipes, rows }
    }

    /// What taking a free pipe comes to.
    pub open spec fn alloc_did(&self, new: &PipeTable, page: bool, r: Option<usize>) -> bool {
        match r {
            Some(i) => {
                &&& page
                &&& i < MAX_PIPES
                &&& !self@[i as int].used
                &&& forall|j: int| 0 <= j < i ==> (#[trigger] self@[j]).used
                &&& self.changed(new, i as int, fresh_pipe())
            },
            None => {
                &&& *new == *self
                &&& !page || forall|j: int| 0 <= j < MAX_PIPES ==> (#[trigger] self@[j]).used
            },
        }
    }

    /// Takes a free pipe, where there is one and a page of memory for it.
    pub fn alloc_pipe(&mut self, page: bool) -> (r: Option<usize>)
        requires
            old(self).wf(),
        ensures
            final(self).wf(),
            old(self).alloc_did(final(self), page, r),
    {
        for i in 0..MAX_PIPES
            invariant
                *self == *old(self),
                self.wf(),
                forall|j: int| 0 <= j < i ==> (#[trigger] self@[j]).used,
        {
            assert(self@[i as int].used == self.pipes@[i as int].used);
            if !self.pipes[i].used {
                if !page {
                    return None;
                }
                self.pipes.set(i, Pipe::new());
                assert(self@ =~= old(self)@.update(i as int, fresh_pipe()));
                return Some(i);
            }
        }
        None
    }

    /// Lets a descriptor of a task lead to an end of a pipe.
    pub fn register_fd(&mut self, task: usize, fd: usize, pipe_idx: usize, dir: u8)
        requires
            old(self).wf(),
            task < NR_TASKS,
            pipe_idx < MAX_PIPES,
        ensures
            final(self).wf(),
            final(self).pipes == old(self).pipes,
            final(self).rows@.len() == NR_TASKS,
            forall|t: int| 0 <= t < NR_TASKS && t != task ==> #[trigger] final(self).rows@[t] == old(self).rows@[t],
            final(self).rows@[task as int].map@ == if fd < MAX_PIPE_FD {
                old(self).rows@[task as int].map@.update(fd as int, pipe_idx)
            } else {
                old(self).rows@[task as int].map@
            },
            final(self).rows@[task as int].dir@ == if fd < MAX_PIPE_FD {
                old(self).rows@[task as int].dir@.update(fd as int, dir)
            } else {
                old(self).rows@[task as int].dir@
            },
    {
        if fd < MAX_PIPE_FD {
            let mut row: FdRow = self.rows[task];
            row.map[fd] = pipe_idx;
            row.dir[fd] = dir;
            self.rows.set(task, row);
        }
    }

    /// Lets a descriptor of a task lead to no pipe.
    pub fn unregister_fd(&mut self, task: usize, fd: usize)
        requires
            old(self).wf(),
            task < NR_TASKS,
        ensures
            final(self).wf(),
            final(self).pipes == old(self).pipes,
            final(self).rows@.len() == NR_TASKS,
            forall|t: int| 0 <= t < NR_TASKS && t != task ==> #[trigger] final(self).rows@[t] == old(self).rows@[t],
            final(self).rows@[task as int].map@ == if fd < MAX_PIPE_FD {
                old(self).rows@[task as int].map@.update(fd as int, NIL)
            } else {
                old(self).rows@[task as int].map@
            },
            final(self).rows@[task as int].dir == old(self).rows@[task as int].dir,
    {
        if fd < MAX_PIPE_FD {
            let mut row: FdRow = self.rows[task];
            row.map[fd] = NIL;
            self.rows.set(task, row);
        }
    }

    pub fn fd_is_pipe(&self, task: usize, fd: usize) -> (r: bool)
        requires
            self.wf(),
            task < NR_TASKS,
        ensures
            r == self.pipe_of(task as int, fd as int) is Some,
    {
        fd < MAX_PIPE_FD && self.rows[task].map[fd] != NIL
    }

    pub fn fd_to_pipe(&self, task: usize, fd: usize) -> (r: Option<usize>)
        requires
            self.wf(),
            task < NR_TASKS,
        ensures
            match r {
                Some(i) => i < MAX_PIPES && self.pipe_of(task as int, fd as int) == Some(i as int),
                None => self.pipe_of(task as int, fd as int) is None,
            },
    {
        if fd < MAX_PIPE_FD && self.rows[task].map[fd] != NIL {
            Some(self.rows[task].map[fd])
        } else {
            None
        }
    }

    pub fn fd_dir(&self, task: usize, fd: usize) -> (r: u8)
        requires
            self.wf(),
            task < NR_TASKS,
        ensures
            r == self.dir_of(task as int, fd as int),
    {
        if fd < MAX_PIPE_FD {
            self.rows[task].dir[fd]
        } else {
            PIPE_DIR_READ
        }
    }

    /// What can be done with a descriptor: read, write, or it was hung up on.
    pub fn fd_poll_status(&self, task: usize, fd: usize) -> (r: (bool, bool, bool))
        requires
            self.wf(),
            task < NR_TASKS,
        ensures
            r == match self.pipe_of(task as int, fd as int) {
                None => (false, false, false),
                Some(i) => poll_status(self@[i], self.dir_of(task as int, fd as int)),
            },
    {
        let i: usize = match self.fd_to_pipe(task, fd) {
            Some(i) => i,
            None => {
                return (false, false, false);
            },
        };
        assert(self@[i as int] == self.pipes@[i as int]@);
        if !self.pipes[i].used {
            return (false, false, true);
        }
        if self.fd_dir(task, fd) == PIPE_DIR_READ {
            (self.pipes[i].len > 0 || self.pipes[i].writers == 0, false, false)
        } else if self.pipes[i].readers == 0 {
            (false, false, true)
        } else {
            (false, self.pipes[i].len < RING_SIZE, false)
        }
    }

    /// Counts one more user of an end.
    fn join(&mut self, i: usize, dir: u8)
        requires
            old(self).wf(),
            i < MAX_PIPES,
        ensures
            final(self).wf(),
            old(self).changed(final(self), i as int, joined(old(self)@[i as int], dir)),
    {
        if dir == PIPE_DIR_READ {
            let c: u8 = self.pipes[i].readers;
            self.pipes[i].readers = if c == 255 { c } else { c + 1 };
        } else {
            let c: u8 = self.pipes[i].writers;
            self.pipes[i].writers = if c == 255 { c } else { c + 1 };
        }
        assert(self@ =~= old(self)@.update(i as int, joined(old(self)@[i as int], dir)));
    }

    /// Counts one user of an end less.
    fn leave(&mut self, i: usize, dir: u8)
        requires
            old(self).wf(),
            i < MAX_PIPES,
        ensures
            final(self).wf(),
            old(self).changed(final(self), i as int, left(old(self)@[i as int], dir)),
    {
        if dir == PIPE_DIR_READ {
            let c: u8 = self.pipes[i].readers;
            self.pipes[i].readers = if c == 0 { c } else { c - 1 };
        } else {
            let c: u8 = self.pipes[i].writers;
            self.pipes[i].writers = if c == 0 { c } else { c - 1 };
        }
        assert(self@ =~= old(self)@.update(i as int, left(old(self)@[i as int], dir)));
    }

    /// Gives a pipe up once nobody is at either end.
    fn settle(&mut self, i: usize)
        requires
            old(self).wf(),
            i < MAX_PIPES,
        ensures
            final(self).wf(),
            old(self).changed(final(self), i as int, settled(old(self)@[i as int])),
    {
        if self.pipes[i].readers == 0 && self.pipes[i].writers == 0 {
            self.pipes[i].used = false;
        }
        assert(self@ =~= old(self)@.update(i as int, settled(old(self)@[i as int])));
    }

    /// What letting `newfd` lead where `oldfd` does comes to.
    pub open spec fn dup_did(&self, new: &PipeTable, task: int, oldfd: int, newfd: int, r: bool) -> bool {
        &&& r == self.pipe_of(task, oldfd) is Some
        &&& (!r ==> *new == *self)
        &&& (r ==> {
            let i = self.pipe_of(task, oldfd)->0;
            let dir = self.dir_of(task, oldfd);
            &&& new@ == if self@[i].used {
                self@.update(i, joined(self@[i], dir))
            } else {
                self@
            }
            &&& newfd < MAX_PIPE_FD ==> new.pipe_of(task, newfd) == Some(i)
                && new.dir_of(task, newfd) == dir
            &&& forall|t: int, fd: int|
                0 <= t < NR_TASKS && (t != task || fd != newfd) ==> #[trigger] new.pipe_of(t, fd)
                    == self.pipe_of(t, fd) && new.dir_of(t, fd) == self.dir_of(t, fd)
        })
    }

    /// Lets `newfd` lead where `oldfd` does, and counts it; false where that
    /// leads to no pipe.
    pub fn dup_fd(&mut self, task: usize, oldfd: usize, newfd: usize) -> (r: bool)
        requires
            old(self).wf(),
            task < NR_TASKS,
        ensures
            final(self).wf(),
            old(self).dup_did(final(self), task as int, oldfd as int, newfd as int, r),
    {
        match self.fd_to_pipe(task, oldfd) {
            None => false,
            Some(i) => {
                let dir: u8 = self.fd_dir(task, oldfd);
                self.register_fd(task, newfd, i, dir);
                assert(self@ == old(self)@);
                assert(self@[i as int] == self.pipes@[i as int]@);
                let ghost t1 = *self;
                if self.pipes[i].used {
                    self.join(i, dir);
                }
                assert(self.rows@ == t1.rows@);
                assert forall|t: int, fd: int|
                    0 <= t < NR_TASKS && (t != task || fd != newfd) implies #[trigger] self.pipe_of(t, fd)
                        == old(self).pipe_of(t, fd) && self.dir_of(t, fd) == old(self).dir_of(t, fd) by {
                    if t != task {
                        assert(t1.rows@[t] == old(self).rows@[t]);
                    }
                }
                true
            },
        }
    }

    /// What closing a descriptor does.
    pub open spec fn close_did(&self, new: &PipeTable, task: int, fd: int) -> bool {
        &&& (self.pipe_of(task, fd) is None ==> *new == *self)
        &&& (self.pipe_of(task, fd) is Some ==> {
            let i = self.pipe_of(task, fd)->0;
            let dir = self.dir_of(task, fd);
            &&& new@ == if self@[i].used {
                self@.update(i, settled(left(self@[i], dir)))
            } else {
                self@
            }
            &&& new.pipe_of(task, fd) is None
            &&& forall|t: int, f: int|
                0 <= t < NR_TASKS && (t != task || f != fd) ==> #[trigger] new.pipe_of(t, f)
                    == self.pipe_of(t, f)
            &&& forall|t: int, f: int|
                0 <= t < NR_TASKS ==> #[trigger] new.dir_of(t, f) == self.dir_of(t, f)
        })
    }

    /// Closes a descriptor: its end has one user less, and a pipe that nobody
    /// uses is given up.
    pub fn close_fd(&mut self, task: usize, fd: usize)
        requires
            old(self).wf(),
            task < NR_TASKS,
        ensures
            final(self).wf(),
            old(self).close_did(final(self), task as int, fd as int),
    {
        match self.fd_to_pipe(task, fd) {
            None => {},
            Some(i) => {
                let dir: u8 = self.fd_dir(task, fd);
                assert(self@[i as int] == self.pipes@[i as int]@);
                if self.pipes[i].used {
                    self.leave(i, dir);
                    self.settle(i);
                    assert(self@ =~= old(self)@.update(i as int, settled(left(old(self)@[i as int], dir))));
                }
                let ghost t1 = *self;
                assert(t1.rows@ == old(self).rows@);
                self.unregister_fd(task, fd);
                assert(self@ == t1@);
                assert forall|t: int, f: int|
                    0 <= t < NR_TASKS && (t != task || f != fd) implies #[trigger] self.pipe_of(t, f)
                        == old(self).pipe_of(t, f) by {
                    if t != task {
                        assert(self.rows@[t] == t1.rows@[t]);
                    }
                }
                assert forall|t: int, f: int|
                    0 <= t < NR_TASKS implies #[trigger] self.dir_of(t, f) == old(self).dir_of(t, f) by {
                    if t != task {
                        assert(self.rows@[t] == t1.rows@[t]);
                    }
                }
            },
        }
    }

    /// What giving task `to` the descriptors of task `from` does.
    pub open spec fn clone_did(&self, new: &PipeTable, from: int, to: int) -> bool {
        &&& (from >= NR_TASKS || to >= NR_TASKS || from == to ==> *new == *self)
        &&& (from < NR_TASKS && to < NR_TASKS && from != to ==> {
            &&& new.rows@ == self.rows@.update(to, self.rows@[from])
            &&& forall|i: int|
                0 <= i < MAX_PIPES ==> #[trigger] new@[i] == shared(
                    self@[i],
                    self.rows@[from],
                    i,
                )
        })
    }

    /// Gives task `to` the descriptors of task `from`, and counts them.
    pub fn clone_pipe_fds(&mut self, from: usize, to: usize)
        requires
            old(self).wf(),
            from < NR_TASKS ==> forall|i: int|
                0 <= i < MAX_PIPES && (#[trigger] old(self)@[i]).used ==> {
                    &&& old(self)@[i].readers + users(old(self).rows@[from as int], i, true, 0) <= 255
                    &&& old(self)@[i].writers + users(old(self).rows@[from as int], i, false, 0) <= 255
                },
        ensures
            final(self).wf(),
            old(self).clone_did(final(self), from as int, to as int),
    {
        if from >= NR_TASKS || to >= NR_TASKS || from == to {
            return;
        }
        let row: FdRow = self.rows[from];
        self.rows.set(to, row);
        let ghost rows1 = self.rows@;
        let ghost s0 = old(self)@;
        for fd in 0..MAX_PIPE_FD
            invariant
                self.wf(),
                self.rows@ == rows1,
                s0.len() == MAX_PIPES,
                forall|f: int| 0 <= f < 32 ==> {
                    let i = #[trigger] row.map@[f];
                    i < MAX_PIPES || i == NIL
                },
                forall|i: int| 0 <= i < MAX_PIPES && (#[trigger] s0[i]).used ==> {
                    &&& s0[i].readers + users(row, i, true, 0) <= 255
                    &&& s0[i].writers + users(row, i, false, 0) <= 255
                },
                forall|i: int| 0 <= i < MAX_PIPES ==> (#[trigger] self@[i]) == if s0[i].used {
                    PipeView {
                        readers: (s0[i].readers + users(row, i, true, 0) - users(row, i, true, fd as int)) as u8,
                        writers: (s0[i].writers + users(row, i, false, 0) - users(row, i, false, fd as int)) as u8,
                        ..s0[i]
                    }
                } else {
                    s0[i]
                },
        {
            let ghost s1 = self@;
            proof {
                assert forall|i: int, b: bool| 0 <= i < MAX_PIPES implies users(row, i, b, fd as int) <= #[trigger] users(
                    row,
                    i,
                    b,
                    0,
                ) && 0 <= users(row, i, b, fd + 1) by {
                    lemma_users_grow(row, i, b, fd as int);
                    lemma_users(row, i, b, fd + 1);
                }
            }
            let i: usize = row.map[fd];
            if i != NIL {
                let dir: u8 = row.dir[fd];
                assert(self@[i as int] == self.pipes@[i as int]@);
                if self.pipes[i].used {
                    assert(s0[i as int].used);
                    self.join(i, dir);
                }
                assert forall|k: int| 0 <= k < MAX_PIPES && k != i implies self@[k] == #[trigger] s1[k] by {}
            }
            assert forall|k: int| 0 <= k < MAX_PIPES implies (#[trigger] self@[k]) == if s0[k].used {
                PipeView {
                    readers: (s0[k].readers + users(row, k, true, 0) - users(row, k, true, fd + 1)) as u8,
                    writers: (s0[k].writers + users(row, k, false, 0) - users(row, k, false, fd + 1)) as u8,
                    ..s0[k]
                }
            } else {
                s0[k]
            } by {
                assert(s1[k].used == s0[k].used);
                assert(users(row, k, true, fd as int) <= users(row, k, true, 0));
                assert(users(row, k, false, fd as int) <= users(row, k, false, 0));
            }
        }
    }

    /// Counts one reader less at the pipe of a descriptor.
    pub fn close_reader(&mut self, task: usize, fd: usize)
        requires
            old(self).wf(),
            task < NR_TASKS,
        ensures
            final(self).wf(),
            final(self).rows@ == old(self).rows@,
            final(self)@ == match old(self).pipe_of(task as int, fd as int) {
                Some(i) if old(self)@[i].used => old(self)@.update(i, left(old(self)@[i], PIPE_DIR_READ)),
                _ => old(self)@,
            },
    {
        if let Some(i) = self.fd_to_pipe(task, fd) {
            assert(self@[i as int] == self.pipes@[i as int]@);
            if self.pipes[i].used {
                self.leave(i, PIPE_DIR_READ);
            }
        }
    }

    /// Counts one writer less at the pipe of a descriptor, and gives up a pipe
    /// that nobody uses.
    pub fn close_writer(&mut self, task: usize, fd: usize)
        requires
            old(self).wf(),
            task < NR_TASKS,
        ensures
            final(self).wf(),
            final(self).rows@ == old(self).rows@,
            final(self)@ == match old(self).pipe_of(task as int, fd as int) {
                Some(i) if old(self)@[i].used => old(self)@.update(
                    i,
                    settled(left(old(self)@[i], PIPE_DIR_WRITE)),
                ),
                _ => old(self)@,
            },
    {
        if let Some(i) = self.fd_to_pipe(task, fd) {
            assert(self@[i as int] == self.pipes@[i as int]@);
            if self.pipes[i].used {
                self.leave(i, PIPE_DIR_WRITE);
                self.settle(i);
                assert(self@ =~= old(self)@.update(i as int, settled(left(old(self)@[i as int], PIPE_DIR_WRITE))));
            }
        }
    }

    /// What an attempt to read up to `count` bytes comes to.
    pub open spec fn read_did(&self, new: &PipeTable, idx: int, count: int, r: PipeRead) -> bool {
        let p = self@[idx];
        if count == 0 || !p.used || p.data.len() == 0 {
            &&& *new == *self
            &&& if count > 0 && p.used && p.writers > 0 {
                r is Wait
            } else {
                r is Bytes && r->Bytes_0@.len() == 0
            }
        } else {
            let n = least(count, p.data.len() as int);
            &&& r is Bytes && r->Bytes_0@ == p.data.take(n)
            &&& self.changed(new, idx, drained(p, n))
        }
    }

    /// Takes up to `count` bytes from the front of a pipe. Where there are
    /// none, the reader has to wait as long as there are writers.
    pub fn pipe_read(&mut self, idx: usize, count: usize) -> (r: PipeRead)
        requires
            old(self).wf(),
            idx < MAX_PIPES,
        ensures
            final(self).wf(),
            old(self).read_did(final(self), idx as int, count as int, r),
    {
        assert(self@[idx as int] == self.pipes@[idx as int]@);
        if count == 0 || !self.pipes[idx].used {
            return PipeRead::Bytes(Vec::new());
        }
        if self.pipes[idx].len > 0 {
            let n: usize = if count < self.pipes[idx].len {
                count
            } else {
                self.pipes[idx].len
            };
            return PipeRead::Bytes(self.take(idx, n));
        }
        if self.pipes[idx].writers == 0 {
            PipeRead::Bytes(Vec::new())
        } else {
            PipeRead::Wait
        }
    }

    /// Takes `n` bytes from the front of a pipe.
    fn take(&mut self, idx: usize, n: usize) -> (r: Vec<u8>)
        requires
            old(self).wf(),
            idx < MAX_PIPES,
            n <= old(self)@[idx as int].data.len(),
        ensures
            final(self).wf(),
            r@ == old(self)@[idx as int].data.take(n as int),
            old(self).changed(final(self), idx as int, drained(old(self)@[idx as int], n as int)),
    {
        assert(self@[idx as int] == self.pipes@[idx as int]@);
        let r = self.pipes[idx].front(n);
        self.pipes[idx].advance(n);
        assert(self@ =~= old(self)@.update(idx as int, drained(old(self)@[idx as int], n as int)));
        r
    }

    /// Puts the first `n` bytes of `d` into a pipe.
    fn give(&mut self, idx: usize, d: &[u8], n: usize)
        requires
            old(self).wf(),
            idx < MAX_PIPES,
            n <= d@.len(),
            old(self)@[idx as int].data.len() + n <= RING_SIZE,
        ensures
            final(self).wf(),
            old(self).changed(final(self), idx as int, filled(old(self)@[idx as int], d@.take(n as int))),
    {
        assert(self@[idx as int] == self.pipes@[idx as int]@);
        self.pipes[idx].append(d, n);
        assert(self@ =~= old(self)@.update(idx as int, filled(old(self)@[idx as int], d@.take(n as int))));
    }

    /// What an attempt to write `d` comes to.
    pub open spec fn write_did(&self, new: &PipeTable, idx: int, d: Seq<u8>, r: PipeWrite) -> bool {
        let p = self@[idx];
        let n = least(d.len() as int, RING_SIZE - p.data.len());
        if d.len() == 0 || !p.used {
            r == PipeWrite::Wrote(0) && *new == *self
        } else if p.readers == 0 {
            r == PipeWrite::Failed(EPIPE) && *new == *self
        } else {
            &&& self.changed(new, idx, filled(p, d.take(n)))
            &&& r == if n == d.len() {
                PipeWrite::Wrote(n as usize)
            } else {
                PipeWrite::Wait(n as usize)
            }
        }
    }

    /// Puts as much of `d` into a pipe as fits. Without readers nothing can be
    /// written; where not all fits, the writer has to wait.
    pub fn pipe_write(&mut self, idx: usize, d: &[u8]) -> (r: PipeWrite)
        requires
            old(self).wf(),
            idx < MAX_PIPES,
        ensures
            final(self).wf(),
            old(self).write_did(final(self), idx as int, d@, r),
    {
        assert(self@[idx as int] == self.pipes@[idx as int]@);
        if d.len() == 0 || !self.pipes[idx].used {
            return PipeWrite::Wrote(0);
        }
        if self.pipes[idx].readers == 0 {
            return PipeWrite::Failed(EPIPE);
        }
        let free: usize = RING_SIZE - self.pipes[idx].len;
        let n: usize = if d.len() < free {
            d.len()
        } else {
            free
        };
        self.give(idx, d, n);
        if n == d.len() {
            PipeWrite::Wrote(n)
        } else {
            PipeWrite::Wait(n)
        }
    }

    /// What taking up to `count` bytes without waiting comes to.
    pub open spec fn read_now(&self, new: &PipeTable, idx: int, count: int, r: Seq<u8>) -> bool {
        let p = self@[idx];
        let n = if p.used {
            least(count, p.data.len() as int)
        } else {
            0
        };
        &&& r == p.data.take(n)
        &&& self.changed(new, idx, drained(p, n))
    }

    /// Takes up to `count` bytes from the front of a pipe, and none where
    /// there are none.
    pub fn pipe_read_kernel(&mut self, idx: usize, count: usize) -> (r: Vec<u8>)
        requires
            old(self).wf(),
            idx < MAX_PIPES,
        ensures
            final(self).wf(),
            old(self).read_now(final(self), idx as int, count as int, r@),
    {
        assert(self@[idx as int] == self.pipes@[idx as int]@);
        let n: usize = if !self.pipes[idx].used {
            0
        } else if count < self.pipes[idx].len {
            count
        } else {
            self.pipes[idx].len
        };
        self.take(idx, n)
    }

    /// What putting in as much of `d` as fits comes to.
    pub open spec fn write_now(&self, new: &PipeTable, idx: int, d: Seq<u8>, r: i64) -> bool {
        let p = self@[idx];
        let n = least(d.len() as int, RING_SIZE - p.data.len());
        if d.len() == 0 || !p.used {
            r == 0 && *new == *self
        } else if p.readers == 0 {
            r == -EPIPE && *new == *self
        } else {
            r == n && self.changed(new, idx, filled(p, d.take(n)))
        }
    }

    /// Puts as much of `d` into a pipe as fits and says how much that was, or
    /// that nobody reads it.
    pub fn pipe_write_kernel(&mut self, idx: usize, d: &[u8]) -> (r: i64)
        requires
            old(self).wf(),
            idx < MAX_PIPES,
        ensures
            final(self).wf(),
            old(self).write_now(final(self), idx as int, d@, r),
    {
        match self.pipe_write(idx, d) {
            PipeWrite::Wrote(n) => n as i64,
            PipeWrite::Wait(n) => n as i64,
            PipeWrite::Failed(e) => -(e as i64),
        }
    }

    /// What looking at up to `count` bytes gives.
    pub open spec fn peeked(&self, idx: int, count: int, r: Seq<u8>) -> bool {
        r == self@[idx].data.take(
            if self@[idx].used {
                least(count, self@[idx].data.len() as int)
            } else {
                0
            },
        )
    }

    /// The first bytes of a pipe, up to `count`, which stay in it.
    pub fn pipe_peek_kernel(&self, idx: usize, count: usize) -> (r: Vec<u8>)
        requires
            self.wf(),
            idx < MAX_PIPES,
        ensures
            self.peeked(idx as int, count as int, r@),
    {
        assert(self@[idx as int] == self.pipes@[idx as int]@);
        let n: usize = if !self.pipes[idx].used {
            0
        } else if count < self.pipes[idx].len {
            count
        } else {
            self.pipes[idx].len
        };
        self.pipes[idx].front(n)
    }
}

} // verus!
