//! Requests for reads and writes that are submitted together and whose outcomes are
//! collected later. They are carried out as they are submitted.

use crate::bytes::{get_le16, get_le32, get_le64, le16, le32, le64};
use crate::errno::{EAGAIN, EFAULT, EINVAL};
use crate::fs::devices::CharCall;
use crate::fs::file_table::File;
use crate::fs::inode::{Inode, NIL};
use crate::fs::open::{fd_file, fd_to_filp};
use crate::fs::proc::ProcTask;
use crate::fs::read_write::{
    can_write, fd_node, fsync, fsync_did, lseek, lseek_did, node_fits, read, read_did, write_did,
    Io,
};
use crate::fs::{oflags, Vfs, NR_TASKS, SEEK_CUR, SEEK_SET};
use vstd::prelude::*;

verus! {

/// How many contexts there can be.
pub const MAX_AIO_CTX: usize = 4;
/// How many outcomes a context keeps.
pub const AIO_RING: usize = 32;

pub const IOCB_CMD_PREAD: u16 = 0;
pub const IOCB_CMD_PWRITE: u16 = 1;
pub const IOCB_CMD_FSYNC: u16 = 2;
pub const IOCB_CMD_FDSYNC: u16 = 3;

/// The outcome of a request.
#[derive(Debug, Clone, Copy, PartialEq, Eq, Structural)]
pub struct IoEvent {
    /// What the request carries for whoever collects the outcome.
    pub data: u64,
    /// The address of the request.
    pub obj: u64,
    pub res: i64,
    pub res2: i64,
}

/// A context: the outcomes that were not collected yet, in a ring.
#[derive(Debug, Clone, Copy)]
pub struct AioCtx {
    pub used: bool,
    pub events: [IoEvent; 32],
    /// Where the oldest outcome is.
    pub head: usize,
    /// How many outcomes there are.
    pub count: usize,
}

impl AioCtx {
    pub open spec fn wf(&self) -> bool {
        self.head < 32 && self.count <= 32
    }

    /// The outcomes, the oldest first.
    pub open spec fn pending(&self) -> Seq<IoEvent> {
        Seq::new(self.count as nat, |k: int| self.events@[(self.head + k) % 32])
    }

    pub fn new() -> (r: AioCtx)
        ensures
            r.wf(),
            !r.used,
            r.pending() == Seq::<IoEvent>::empty(),
    {
        let none = IoEvent { data: 0, obj: 0, res: 0, res2: 0 };
        let r = AioCtx { used: false, events: [none; 32], head: 0, count: 0 };
        assert(r.pending() =~= Seq::<IoEvent>::empty());
        r
    }

    /// Adds an outcome where there is room.
    fn push(&mut self, ev: IoEvent) -> (r: bool)
        requires
            old(self).wf(),
        ensures
            final(self).wf(),
            final(self).used == old(self).used,
            r == (old(self).pending().len() < 32),
            final(self).pending() == if r {
                old(self).pending().push(ev)
            } else {
                old(self).pending()
            },
    {
        if self.count >= AIO_RING {
            return false;
        }
        let at: usize = (self.head + self.count) % AIO_RING;
        self.events[at] = ev;
        self.count = self.count + 1;
        proof {
            let p0 = old(self).pending();
            let p = self.pending();
            assert forall|k: int| 0 <= k < p.len() implies p[k] == p0.push(ev)[k] by {
                if k < p0.len() {
                    assert((self.head + k) % 32 != at);
                }
            }
            assert(p =~= p0.push(ev));
        }
        true
    }

    /// Takes the oldest outcome.
    fn pop(&mut self) -> (r: IoEvent)
        requires
            old(self).wf(),
            old(self).pending().len() > 0,
        ensures
            final(self).wf(),
            final(self).used == old(self).used,
            r == old(self).pending()[0],
            final(self).pending() == old(self).pending().skip(1),
    {
        let ev: IoEvent = self.events[self.head];
        self.head = (self.head + 1) % AIO_RING;
        self.count = self.count - 1;
        proof {
            let p0 = old(self).pending();
            let p = self.pending();
            assert forall|k: int| 0 <= k < p.len() implies p[k] == p0.skip(1)[k] by {
                assert((self.head + k) % 32 == (old(self).head + (k + 1)) % 32);
            }
            assert(p =~= p0.skip(1));
        }
        ev
    }
}

/// The contexts.
pub struct AioTable {
    pub ctxs: Vec<AioCtx>,
}

/// The first free context at `k` or after it, or their number.
pub open spec fn free_ctx_from(s: Seq<AioCtx>, k: int) -> int
    decreases s.len() - k,
{
    if k >= s.len() {
        s.len() as int
    } else if !s[k].used {
        k
    } else {
        free_ctx_from(s, k + 1)
    }
}

impl AioTable {
    pub open spec fn wf(&self) -> bool {
        &&& self.ctxs@.len() == 4
        &&& forall|i: int| 0 <= i < 4 ==> (#[trigger] self.ctxs@[i]).wf()
    }

    /// The context with a handle: handles count from one.
    pub open spec fn slot_of(&self, ctx_id: u64) -> Option<usize> {
        if 1 <= ctx_id <= 4 && self.ctxs@[ctx_id - 1].used {
            Some((ctx_id - 1) as usize)
        } else {
            None
        }
    }

    /// Only context `i` may differ, of which `c` is known.
    pub open spec fn only_ctx(&self, old_table: &AioTable, i: int) -> bool {
        self.ctxs@ == old_table.ctxs@.update(i, self.ctxs@[i])
    }

    pub fn new() -> (r: AioTable)
        ensures
            r.wf(),
            forall|i: int| 0 <= i < 4 ==> !(#[trigger] r.ctxs@[i]).used,
    {
        let mut ctxs: Vec<AioCtx> = Vec::new();
        for i in 0..MAX_AIO_CTX
            invariant
                ctxs@.len() == i,
                forall|k: int| 0 <= k < i ==> (#[trigger] ctxs@[k]).wf() && !ctxs@[k].used,
        {
            ctxs.push(AioCtx::new());
        }
        AioTable { ctxs }
    }

    fn ctx_slot(&self, ctx_id: u64) -> (r: Option<usize>)
        requires
            self.wf(),
        ensures
            r == self.slot_of(ctx_id),
            r is Some ==> r->0 < 4,
    {
        if ctx_id == 0 || ctx_id > MAX_AIO_CTX as u64 {
            return None;
        }
        let i: usize = (ctx_id - 1) as usize;
        if self.ctxs[i].used {
            Some(i)
        } else {
            None
        }
    }

    /// Makes a context and answers its handle, which is to be stored at `ctx_idp`.
    pub fn io_setup(&mut self, nr_events: u64, ctx_idp: u64) -> (r: Result<u64, i32>)
        requires
            old(self).wf(),
        ensures
            final(self).wf(),
            ({
                let n = free_ctx_from(old(self).ctxs@, 0);
                if nr_events == 0 || ctx_idp == 0 {
                    r == Err::<u64, i32>(EINVAL) && *final(self) == *old(self)
                } else if n >= 4 {
                    r == Err::<u64, i32>(EAGAIN) && *final(self) == *old(self)
                } else {
                    &&& r == Ok::<u64, i32>((n + 1) as u64)
                    &&& 0 <= n < 4
                    &&& final(self).only_ctx(old(self), n)
                    &&& final(self).slot_of((n + 1) as u64) == Some(n as usize)
                    &&& final(self).ctxs@[n].pending() == Seq::<IoEvent>::empty()
                }
            }),
    {
        if nr_events == 0 || ctx_idp == 0 {
            return Err(EINVAL);
        }
        for i in 0..MAX_AIO_CTX
            invariant
                self.wf(),
                *self == *old(self),
                nr_events != 0 && ctx_idp != 0,
                free_ctx_from(self.ctxs@, 0) == free_ctx_from(self.ctxs@, i as int),
        {
            if !self.ctxs[i].used {
                let mut c: AioCtx = self.ctxs[i];
                assert(self.ctxs@[i as int].wf());
                c.used = true;
                c.head = 0;
                c.count = 0;
                self.ctxs.set(i, c);
                assert(c.pending() =~= Seq::<IoEvent>::empty());
                assert(self.only_ctx(old(self), i as int));
                return Ok((i + 1) as u64);
            }
        }
        Err(EAGAIN)
    }

    /// Gives a context back, and forgets its outcomes.
    pub fn io_destroy(&mut self, ctx_id: u64) -> (r: i64)
        requires
            old(self).wf(),
        ensures
            final(self).wf(),
            match old(self).slot_of(ctx_id) {
                None => r == -EINVAL && *final(self) == *old(self),
                Some(i) => {
                    &&& r == 0
                    &&& final(self).only_ctx(old(self), i as int)
                    &&& !final(self).ctxs@[i as int].used
                    &&& final(self).ctxs@[i as int].pending() == Seq::<IoEvent>::empty()
                },
            },
    {
        match self.ctx_slot(ctx_id) {
            None => -(EINVAL as i64),
            Some(i) => {
                self.ctxs.set(i, AioCtx::new());
                0
            },
        }
    }

    /// Adds the outcome of a request to context `i` where there is room.
    fn post(&mut self, i: usize, ev: IoEvent) -> (r: bool)
        requires
            old(self).wf(),
            i < 4,
        ensures
            final(self).wf(),
            posted(old(self), final(self), i, ev, r),
    {
        let mut c: AioCtx = self.ctxs[i];
        assert(self.ctxs@[i as int].wf());
        let r: bool = c.push(ev);
        self.ctxs.set(i, c);
        assert(self.only_ctx(old(self), i as int));
        r
    }

    /// Collects up to `nr` outcomes, which are to be stored at `events`. It does not
    /// wait for `min_nr` of them: what is to come is there already.
    pub fn io_getevents(&mut self, ctx_id: u64, min_nr: i64, nr: i64, events: u64) -> (r: Result<Vec<IoEvent>, i32>)
        requires
            old(self).wf(),
        ensures
            final(self).wf(),
            collected(old(self), final(self), ctx_id, min_nr, nr, events, r),
    {
        let i: usize = match self.ctx_slot(ctx_id) {
            None => {
                return Err(EINVAL);
            },
            Some(i) => i,
        };
        if min_nr < 0 || nr < 0 || min_nr > nr || (events == 0 && nr > 0) {
            return Err(EINVAL);
        }
        let mut c: AioCtx = self.ctxs[i];
        assert(self.ctxs@[i as int].wf());
        let n: usize = if (nr as u64) < c.count as u64 {
            nr as usize
        } else {
            c.count
        };
        let mut out: Vec<IoEvent> = Vec::new();
        let ghost p0 = c.pending();
        assert(p0.skip(0) =~= p0);
        assert(p0.take(0) =~= Seq::<IoEvent>::empty());
        for k in 0..n
            invariant
                c.wf(),
                c.used == self.ctxs@[i as int].used,
                n <= p0.len(),
                c.pending() == p0.skip(k as int),
                out@ == p0.take(k as int),
        {
            let ev: IoEvent = c.pop();
            out.push(ev);
            assert(p0.skip(k as int).skip(1) =~= p0.skip(k + 1));
            assert(p0.take(k as int).push(p0[k as int]) =~= p0.take(k + 1));
        }
        self.ctxs.set(i, c);
        assert(self.only_ctx(old(self), i as int));
        Ok(out)
    }

    /// Whether a request can be taken back: what was submitted is done.
    pub fn io_cancel(&self, ctx_id: u64, iocbp: u64, result: u64) -> (r: i64)
        requires
            self.wf(),
        ensures
            r == if self.slot_of(ctx_id) is Some {
                -EAGAIN
            } else {
                -EINVAL
            },
    {
        match self.ctx_slot(ctx_id) {
            None => -(EINVAL as i64),
            Some(_) => -(EAGAIN as i64),
        }
    }

    /// Collects outcomes as `io_getevents` does.
    pub fn io_pgetevents(&mut self, ctx_id: u64, min_nr: i64, nr: i64, events: u64) -> (r: Result<Vec<IoEvent>, i32>)
        requires
            old(self).wf(),
        ensures
            final(self).wf(),
            collected(old(self), final(self), ctx_id, min_nr, nr, events, r),
    {
        self.io_getevents(ctx_id, min_nr, nr, events)
    }

    /// Whether requests can be submitted: the context and how many, to be carried out
    /// one by one with `submit_one`.
    pub fn io_submit(&self, ctx_id: u64, nr: i64, iocbpp: u64) -> (r: Result<(usize, usize), i32>)
        requires
            self.wf(),
        ensures
            match self.slot_of(ctx_id) {
                Some(i) => if nr < 1 || nr > 32 || iocbpp == 0 {
                    r == Err::<(usize, usize), i32>(EINVAL)
                } else {
                    r == Ok::<(usize, usize), i32>((i, nr as usize)) && i < 4
                },
                None => r == Err::<(usize, usize), i32>(EINVAL),
            },
    {
        let i: usize = match self.ctx_slot(ctx_id) {
            None => {
                return Err(EINVAL);
            },
            Some(i) => i,
        };
        if nr < 1 || nr > AIO_RING as i64 || iocbpp == 0 {
            return Err(EINVAL);
        }
        Ok((i, nr as usize))
    }

    /// Carries out request number `k` of those submitted to context `i`. The bytes to
    /// write are in `buf`, and those that were read are there afterwards.
    pub fn submit_one(
        &mut self,
        v: &mut Vfs,
        i: usize,
        k: usize,
        cb: &Iocb,
        buf: &mut Vec<u8>,
        tasks: &Vec<ProcTask>,
        free_pages: u32,
    ) -> (r: Submitted)
        requires
            old(self).wf(),
            old(v).wf(),
            i < 4,
            k < 32,
            tasks@.len() == NR_TASKS,
            can_run(old(v), *cb, old(buf)@.len() as int),
        ensures
            final(self).wf(),
            final(v).wf(),
            if cb.obj == 0 {
                &&& r == Submitted::Ended((-EFAULT) as i64)
                &&& *final(self) == *old(self)
                &&& *final(v) == *old(v)
                &&& final(buf)@ == old(buf)@
            } else {
                exists|run: AioRun|
                    {
                        &&& #[trigger] iocb_run(
                            old(v),
                            final(v),
                            *cb,
                            old(buf)@,
                            final(buf)@,
                            tasks@,
                            free_pages,
                            run,
                        )
                        &&& match run {
                            AioRun::Done(res) => ended(
                                old(self),
                                final(self),
                                i,
                                k,
                                *cb,
                                res,
                                r,
                            ),
                            AioRun::Char(c, at, pos) => r == Submitted::Char(c, at, pos)
                                && *final(self) == *old(self),
                        }
                    }
            },
    {
        if cb.obj == 0 {
            return Submitted::Ended(-(EFAULT as i64));
        }
        let run: AioRun = run_iocb(v, cb, buf, tasks, free_pages);
        assert(iocb_run(
            old(v),
            v,
            *cb,
            old(buf)@,
            buf@,
            tasks@,
            free_pages,
            run,
        ));
        match run {
            AioRun::Done(res) => self.end_one(i, k, cb, res),
            AioRun::Char(c, at, pos) => Submitted::Char(c, at, pos),
        }
    }

    /// Goes on with request number `k` once the driver of a character device gave the
    /// answer `res`: the position is what it was before the request.
    pub fn submit_char(&mut self, v: &mut Vfs, i: usize, k: usize, cb: &Iocb, pos: i64, res: i64) -> (r: Submitted)
        requires
            old(self).wf(),
            old(v).wf(),
            i < 4,
            k < 32,
        ensures
            final(self).wf(),
            final(v).wf(),
            exists|s: i64| #[trigger] lseek_did(old(v), final(v), cb.fd as int, pos, SEEK_SET, s),
            ended(old(self), final(self), i, k, *cb, res, r),
    {
        let s: i64 = lseek(v, cb.fd as usize, pos, SEEK_SET);
        assert(lseek_did(old(v), v, cb.fd as int, pos, SEEK_SET, s));
        self.end_one(i, k, cb, res)
    }

    fn end_one(&mut self, i: usize, k: usize, cb: &Iocb, res: i64) -> (r: Submitted)
        requires
            old(self).wf(),
            i < 4,
            k < 32,
        ensures
            final(self).wf(),
            ended(old(self), final(self), i, k, *cb, res, r),
    {
        if self.post(i, IoEvent { data: cb.data, obj: cb.obj, res, res2: 0 }) {
            Submitted::Next
        } else {
            Submitted::Ended(k as i64)
        }
    }

    /// Whether a context can be made, an outcome goes through it, and it can be given
    /// back.
    pub fn selftest(&mut self) -> (r: bool)
        requires
            old(self).wf(),
        ensures
            final(self).wf(),
            r == (free_ctx_from(old(self).ctxs@, 0) < 4),
            forall|i: int|
                0 <= i < 4 ==> (#[trigger] final(self).ctxs@[i]).used == old(self).ctxs@[i].used,
    {
        proof {
            lemma_free_ctx(self.ctxs@, 0);
        }
        let id: u64 = match self.io_setup(8, 1) {
            Err(_) => {
                return false;
            },
            Ok(id) => id,
        };
        let i: usize = match self.ctx_slot(id) {
            None => {
                return false;
            },
            Some(i) => i,
        };
        let ev = IoEvent { data: 1, obj: 2, res: 3, res2: 0 };
        let p: bool = self.post(i, ev);
        assert(self.ctxs@[i as int].pending() =~= seq![ev]);
        assert(self.slot_of(id) == Some(i));
        let ok: bool = match self.io_getevents(id, 1, 1, 1) {
            Err(_) => false,
            Ok(got) => got.len() == 1 && got[0].data == 1 && got[0].res == 3,
        };
        assert(self.slot_of(id) == Some(i));
        let d: i64 = self.io_destroy(id);
        p && ok && d == 0
    }
}

/// A free context that was found is free.
proof fn lemma_free_ctx(s: Seq<AioCtx>, k: int)
    requires
        0 <= k <= s.len(),
    ensures
        k <= free_ctx_from(s, k) <= s.len(),
        free_ctx_from(s, k) < s.len() ==> !s[free_ctx_from(s, k)].used,
    decreases s.len() - k,
{
    if k < s.len() && s[k].used {
        lemma_free_ctx(s, k + 1);
    }
}

/// The state `t` is that of `t0` after an outcome was added to context `i`, if there
/// was room.
pub open spec fn posted(t0: &AioTable, t: &AioTable, i: usize, ev: IoEvent, r: bool) -> bool {
    let c0 = t0.ctxs@[i as int];
    let c = t.ctxs@[i as int];
    &&& t.only_ctx(t0, i as int)
    &&& c.used == c0.used
    &&& r == (c0.pending().len() < 32)
    &&& c.pending() == if r {
        c0.pending().push(ev)
    } else {
        c0.pending()
    }
}

/// What collecting outcomes does, with the answer `r`: the oldest come first.
pub open spec fn collected(
    t0: &AioTable,
    t: &AioTable,
    ctx_id: u64,
    min_nr: i64,
    nr: i64,
    events: u64,
    r: Result<Vec<IoEvent>, i32>,
) -> bool {
    match t0.slot_of(ctx_id) {
        None => r is Err && r->Err_0 == EINVAL && *t == *t0,
        Some(i) => if min_nr < 0 || nr < 0 || min_nr > nr || (events == 0 && nr > 0) {
            r is Err && r->Err_0 == EINVAL && *t == *t0
        } else {
            let p = t0.ctxs@[i as int].pending();
            let n = if nr < p.len() {
                nr as int
            } else {
                p.len() as int
            };
            &&& r is Ok && r->Ok_0@ == p.take(n)
            &&& t.only_ctx(t0, i as int)
            &&& t.ctxs@[i as int].used
            &&& t.ctxs@[i as int].pending() == p.skip(n)
        },
    }
}

/// A request.
#[derive(Debug, Clone, Copy, PartialEq, Eq, Structural)]
pub struct Iocb {
    /// Its address.
    pub obj: u64,
    pub data: u64,
    pub op: u16,
    pub fd: u32,
    /// The address of the buffer.
    pub buf: u64,
    pub nbytes: u64,
    pub offset: u64,
}

impl Iocb {
    /// The request at address `obj`, from the 64 bytes there.
    pub fn decode(obj: u64, d: &[u8]) -> (r: Iocb)
        requires
            d@.len() >= 64,
        ensures
            r == (Iocb {
                obj,
                data: le64(d@, 0),
                op: le16(d@, 16),
                fd: le32(d@, 20),
                buf: le64(d@, 24),
                nbytes: le64(d@, 32),
                offset: le64(d@, 40),
            }),
    {
        Iocb {
            obj,
            data: get_le64(d, 0),
            op: get_le16(d, 16),
            fd: get_le32(d, 20),
            buf: get_le64(d, 24),
            nbytes: get_le64(d, 32),
            offset: get_le64(d, 40),
        }
    }
}

/// How far a request got.
#[derive(Debug, Clone, Copy, PartialEq, Eq, Structural)]
pub enum AioRun {
    /// It is done, with that answer.
    Done(i64),
    /// The driver of a character device has to do it at a position, the first number;
    /// then the position of the descriptor goes back to the second.
    Char(CharCall, u64, i64),
}

/// How far the submission of several requests got.
#[derive(Debug, Clone, Copy, PartialEq, Eq, Structural)]
pub enum Submitted {
    /// This one is done.
    Next,
    /// No more are carried out, and that is the answer.
    Ended(i64),
    /// The driver of a character device has to do it at a position, the first number;
    /// `submit_char` takes its answer, and the second.
    Char(CharCall, u64, i64),
}

/// What the outcome of a request does: it is kept, or the submission ends where there
/// is no room for it.
pub open spec fn ended(t0: &AioTable, t: &AioTable, i: usize, k: usize, cb: Iocb, res: i64, r: Submitted) -> bool {
    let ev = IoEvent { data: cb.data, obj: cb.obj, res, res2: 0 };
    if t0.ctxs@[i as int].pending().len() < 32 {
        r == Submitted::Next && posted(t0, t, i, ev, true)
    } else {
        r == Submitted::Ended(k as i64) && posted(t0, t, i, ev, false)
    }
}

/// Where a write of the request starts.
pub open spec fn run_pos(file: File, i: Inode, offset: u64) -> u64 {
    if file.f_flags & oflags::O_APPEND != 0 {
        i.i_size as u64
    } else if (offset as i64) >= 0 {
        (offset as i64) as u64
    } else {
        file.f_pos
    }
}

/// The end of what a request writes can be counted.
pub open spec fn can_run(v: &Vfs, cb: Iocb, len: int) -> bool {
    let n = fd_node(v, cb.fd as int);
    let i = v.fs.inodes@[n as int];
    let file = v.files@[fd_file(v, cb.fd as int) as int];
    cb.op == IOCB_CMD_PWRITE && n != NIL ==> can_write(v, i, run_pos(file, i, cb.offset), len)
}

/// Whether the end of what a request writes can be counted.
pub fn request_fits(v: &Vfs, cb: &Iocb, len: usize) -> (r: bool)
    requires
        v.wf(),
    ensures
        r == can_run(v, *cb, len as int),
{
    if cb.op != IOCB_CMD_PWRITE {
        return true;
    }
    let f: usize = fd_to_filp(v, cb.fd as usize);
    if f == NIL {
        return true;
    }
    let file: File = v.files[f];
    assert(v.files@[f as int].links_ok());
    if file.f_inode == NIL {
        return true;
    }
    let i: Inode = v.fs.inodes[file.f_inode];
    let pos: u64 = if file.f_flags & oflags::O_APPEND != 0 {
        i.i_size as u64
    } else if (cb.offset as i64) >= 0 {
        (cb.offset as i64) as u64
    } else {
        file.f_pos
    };
    node_fits(v, &i, pos, len)
}

/// What the read or the write of a request does, at the position of its descriptor.
pub open spec fn transferred(
    v0: &Vfs,
    v: &Vfs,
    cb: Iocb,
    b0: Seq<u8>,
    b: Seq<u8>,
    tasks: Seq<ProcTask>,
    free_pages: u32,
    io: Io,
) -> bool {
    if cb.op == IOCB_CMD_PREAD {
        read_did(v0, v, cb.fd as int, b0, b, tasks, free_pages, io)
    } else {
        b == b0 && write_did(v0, v, cb.fd as int, b0, io)
    }
}

/// The state `v` is that of `v0` after the position went back.
pub open spec fn placed_back(v0: &Vfs, v: &Vfs, fd: int, pos: i64) -> bool {
    exists|s: i64| #[trigger] lseek_did(v0, v, fd, pos, SEEK_SET, s)
}

/// What the read or the write of a request does, and what follows it: the position goes
/// back to `pos`, unless a driver has to be called first.
pub open spec fn ran_at(
    v0: &Vfs,
    v: &Vfs,
    cb: Iocb,
    pos: i64,
    b0: Seq<u8>,
    b: Seq<u8>,
    tasks: Seq<ProcTask>,
    free_pages: u32,
    r: AioRun,
) -> bool {
    exists|v1: Vfs, io: Io|
        {
            &&& #[trigger] transferred(v0, &v1, cb, b0, b, tasks, free_pages, io)
            &&& match io {
                Io::Done(c) => r == AioRun::Done(c) && placed_back(&v1, v, cb.fd as int, pos),
                Io::Char(c, at) => r == AioRun::Char(c, at, pos) && *v == v1,
            }
        }
}

/// What carrying out a request does.
pub open spec fn iocb_run(
    v0: &Vfs,
    v: &Vfs,
    cb: Iocb,
    b0: Seq<u8>,
    b: Seq<u8>,
    tasks: Seq<ProcTask>,
    free_pages: u32,
    r: AioRun,
) -> bool {
    let fd = cb.fd as int;
    if cb.op == IOCB_CMD_PREAD || cb.op == IOCB_CMD_PWRITE {
        if cb.nbytes > 0 && cb.buf == 0 {
            r == AioRun::Done((-EFAULT) as i64) && b == b0 && *v == *v0
        } else {
            exists|v1: Vfs, pos: i64|
                {
                    &&& #[trigger] lseek_did(v0, &v1, fd, 0, SEEK_CUR, pos)
                    &&& if pos < 0 {
                        r == AioRun::Done(pos) && b == b0 && *v == v1
                    } else {
                        exists|v2: Vfs, s: i64|
                            {
                                &&& #[trigger] lseek_did(&v1, &v2, fd, cb.offset as i64, SEEK_SET, s)
                                &&& ran_at(&v2, v, cb, pos, b0, b, tasks, free_pages, r)
                            }
                    }
                }
        }
    } else if cb.op == IOCB_CMD_FSYNC || cb.op == IOCB_CMD_FDSYNC {
        exists|c: i64|
            {
                &&& #[trigger] fsync_did(v0, v, fd, c)
                &&& r == AioRun::Done(c) && b == b0
            }
    } else {
        r == AioRun::Done((-EINVAL) as i64) && b == b0 && *v == *v0
    }
}

/// Carries out a request: a read or a write at its own place, which leaves the
/// position as it is, or a file is written out.
pub fn run_iocb(v: &mut Vfs, cb: &Iocb, buf: &mut Vec<u8>, tasks: &Vec<ProcTask>, free_pages: u32) -> (r: AioRun)
    requires
        old(v).wf(),
        tasks@.len() == NR_TASKS,
        can_run(old(v), *cb, old(buf)@.len() as int),
    ensures
        final(v).wf(),
        iocb_run(old(v), final(v), *cb, old(buf)@, final(buf)@, tasks@, free_pages, r),
{
    let fd: usize = cb.fd as usize;
    if cb.op == IOCB_CMD_PREAD || cb.op == IOCB_CMD_PWRITE {
        if cb.nbytes > 0 && cb.buf == 0 {
            return AioRun::Done(-(EFAULT as i64));
        }
        let pos: i64 = lseek(v, fd, 0, SEEK_CUR);
        let ghost v1 = *v;
        assert(lseek_did(old(v), &v1, fd as int, 0, SEEK_CUR, pos));
        if pos < 0 {
            return AioRun::Done(pos);
        }
        let s: i64 = lseek(v, fd, cb.offset as i64, SEEK_SET);
        let ghost v2 = *v;
        assert(lseek_did(&v1, &v2, fd as int, cb.offset as i64, SEEK_SET, s));
        let ghost b0 = buf@;
        let io: Io = if cb.op == IOCB_CMD_PREAD {
            read(v, fd, buf, tasks, free_pages)
        } else {
            crate::fs::read_write::write(v, fd, buf.as_slice())
        };
        let ghost v3 = *v;
        assert(transferred(&v2, &v3, *cb, b0, buf@, tasks@, free_pages, io));
        let r: AioRun = match io {
            Io::Done(c) => {
                let t: i64 = lseek(v, fd, pos, SEEK_SET);
                assert(lseek_did(&v3, v, fd as int, pos, SEEK_SET, t));
                AioRun::Done(c)
            },
            Io::Char(c, at) => AioRun::Char(c, at, pos),
        };
        assert(ran_at(&v2, v, *cb, pos, b0, buf@, tasks@, free_pages, r));
        r
    } else if cb.op == IOCB_CMD_FSYNC || cb.op == IOCB_CMD_FDSYNC {
        let c: i64 = fsync(v, fd);
        assert(fsync_did(old(v), v, fd as int, c));
        AioRun::Done(c)
    } else {
        AioRun::Done(-(EINVAL as i64))
    }
}


/// A read leaves the descriptors and the inodes of the open files as they are.
proof fn lemma_read_keeps(
    v0: &Vfs,
    v: &Vfs,
    fd: int,
    b0: Seq<u8>,
    b: Seq<u8>,
    tasks: Seq<ProcTask>,
    free_pages: u32,
    io: Io,
)
    requires
        fd_file(v0, fd) == NIL || fd_file(v0, fd) < v0.files@.len(),
        read_did(v0, v, fd, b0, b, tasks, free_pages, io),
    ensures
        v.fds == v0.fds && v.current == v0.current && v.devices == v0.devices,
        v.files@.len() == v0.files@.len(),
        forall|k: int|
            0 <= k < v.files@.len() ==> (#[trigger] v.files@[k]).f_inode == v0.files@[k].f_inode,
{
}

/// A write leaves the descriptors and the inodes of the open files as they are.
proof fn lemma_write_keeps(v0: &Vfs, v: &Vfs, fd: int, data: Seq<u8>, io: Io)
    requires
        fd_file(v0, fd) == NIL || fd_file(v0, fd) < v0.files@.len(),
        write_did(v0, v, fd, data, io),
    ensures
        v.fds == v0.fds && v.current == v0.current && v.devices == v0.devices,
        v.files@.len() == v0.files@.len(),
        forall|k: int|
            0 <= k < v.files@.len() ==> (#[trigger] v.files@[k]).f_inode == v0.files@[k].f_inode,
{
}

/// A request leaves the position of its descriptor as it is, and all descriptors
/// where they lead.
#[verifier::spinoff_prover]
#[verifier::rlimit(60)]
pub proof fn lemma_position_kept(
    v0: &Vfs,
    v: &Vfs,
    cb: Iocb,
    b0: Seq<u8>,
    b: Seq<u8>,
    tasks: Seq<ProcTask>,
    free_pages: u32,
    res: i64,
)
    requires
        v0.wf(),
        fd_file(v0, cb.fd as int) != NIL,
        v0.files@[fd_file(v0, cb.fd as int) as int].f_pos <= i64::MAX,
        iocb_run(v0, v, cb, b0, b, tasks, free_pages, AioRun::Done(res)),
    ensures
        v.fds == v0.fds,
        v.files@[fd_file(v0, cb.fd as int) as int].f_pos == v0.files@[fd_file(
            v0,
            cb.fd as int,
        ) as int].f_pos,
{
    let fd = cb.fd as int;
    let f = fd_file(v0, fd);
    assert(v0.fds@[v0.current as int]@[fd] == f);
    let is_move = cb.op == IOCB_CMD_PREAD || cb.op == IOCB_CMD_PWRITE;
    if is_move && !(cb.nbytes > 0 && cb.buf == 0) {
        let done = AioRun::Done(res);
        let (v1, pos) = choose|v1: Vfs, pos: i64|
            {
                &&& #[trigger] lseek_did(v0, &v1, fd, 0, SEEK_CUR, pos)
                &&& if pos < 0 {
                    done == AioRun::Done(pos) && b == b0 && *v == v1
                } else {
                    exists|v2: Vfs, s: i64|
                        {
                            &&& #[trigger] lseek_did(&v1, &v2, fd, cb.offset as i64, SEEK_SET, s)
                            &&& ran_at(&v2, v, cb, pos, b0, b, tasks, free_pages, done)
                        }
                }
            };
        if pos >= 0 {
            let (v2, s) = choose|v2: Vfs, s: i64|
                {
                    &&& #[trigger] lseek_did(&v1, &v2, fd, cb.offset as i64, SEEK_SET, s)
                    &&& ran_at(&v2, v, cb, pos, b0, b, tasks, free_pages, done)
                };
            let (v3, io) = choose|v3: Vfs, io: Io|
                {
                    &&& #[trigger] transferred(&v2, &v3, cb, b0, b, tasks, free_pages, io)
                    &&& match io {
                        Io::Done(c) => done == AioRun::Done(c) && placed_back(&v3, v, fd, pos),
                        Io::Char(c, at) => done == AioRun::Char(c, at, pos) && *v == v3,
                    }
                };
            let file = v0.files@[f as int];
            assert(v0.files@[f as int].links_ok());
            if cb.op == IOCB_CMD_PREAD {
                lemma_read_keeps(&v2, &v3, fd, b0, b, tasks, free_pages, io);
            } else {
                lemma_write_keeps(&v2, &v3, fd, b0, io);
            }
            assert(file.f_inode != NIL && pos == file.f_pos);
            assert(v3.fds == v0.fds && v3.files@.len() == 32);
            assert(v3.files@[f as int].f_inode == file.f_inode);
        }
    }
}

} // verus!
