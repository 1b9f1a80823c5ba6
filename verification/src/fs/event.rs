//! Descriptors without files: counters, timers, signals, sets of descriptors to
//! wait for, and notices of what happens in directories.

use crate::bytes::{
    copy_range, cut_at_zero, least, overlay, padded, put_bytes, put_le16, put_le32, put_le64,
    same_bytes, with_le16, with_le32, with_le64, zero_at, zeroed, zeros,
};
use crate::errno::{
    EAGAIN, EBADF, EEXIST, EINVAL, EMFILE, ENAMETOOLONG, ENOENT, ENOSPC,
};
use crate::fs::pipe::{poll_status, PipeTable, NR_TASKS};
use vstd::prelude::*;

verus! {

/// How many descriptors a task has here.
pub const MAX_EV_FD: usize = 32;
/// How many objects there can be.
pub const MAX_OBJS: usize = 16;
/// How many descriptors an epoll object can watch.
pub const MAX_EPOLL_INTEREST: usize = 16;
/// How many watches an inotify object can have.
pub const MAX_WATCHES: usize = 8;
/// The longest watched path, with the zero byte that ends it.
pub const MAX_WATCH_PATH: usize = 128;
/// The longest name in a notice, with the zero byte that ends it.
pub const MAX_EV_NAME: usize = 64;
/// How many notices an inotify object can hold.
pub const MAX_INOTIFY_EVENTS: usize = 16;

/// Clock ticks in a second.
pub const HZ: u64 = 100;
/// Nanoseconds in a clock tick.
pub const TICK_NSEC: u64 = 10_000_000;

/// The flag with which a caller asks not to wait.
pub const NONBLOCK: u32 = 0x800;

pub const EPOLL_CTL_ADD: u32 = 1;
pub const EPOLL_CTL_DEL: u32 = 2;
pub const EPOLL_CTL_MOD: u32 = 3;

pub const EPOLLIN: u32 = 0x1;
pub const EPOLLOUT: u32 = 0x4;
pub const EPOLLERR: u32 = 0x8;
pub const EPOLLHUP: u32 = 0x10;

pub const IN_ACCESS: u32 = 0x1;
pub const IN_MODIFY: u32 = 0x2;
pub const IN_CREATE: u32 = 0x100;
pub const IN_DELETE: u32 = 0x200;
pub const IN_MOVED_FROM: u32 = 0x40;
pub const IN_MOVED_TO: u32 = 0x80;
pub const IN_ISDIR: u32 = 0x4000_0000;

/// The size of a signal record.
pub const SIGINFO_SIZE: usize = 128;

/// What an object is.
#[derive(Clone, Copy, PartialEq, Eq, Debug, Structural)]
pub enum EvKind {
    /// A counter: writing adds to it, reading empties it.
    Event,
    /// A timer: it can be read once it has run out.
    Timer,
    /// Pending signals.
    Signal,
    /// A set of descriptors to wait for.
    Epoll,
    /// Notices of what happens in directories.
    Inotify,
}

/// An object behind a descriptor.
#[derive(Clone, Copy, PartialEq, Eq, Debug, Structural)]
pub struct EvObj {
    pub kind: EvKind,
    /// The counter, or how often the timer has run out.
    pub val: u64,
    /// When the timer runs out next, in ticks; 0 while it is off.
    pub deadline: u64,
    /// How many ticks apart it runs out; 0 if it does so once.
    pub interval: u64,
    /// The signals that can be read, bit by bit.
    pub sigmask: u64,
    /// Whether a caller does not wait.
    pub nonblock: bool,
}

/// When a timer runs out first and how far apart then, in seconds and
/// nanoseconds.
#[derive(Clone, Copy, PartialEq, Eq, Debug, Structural)]
pub struct ItimerSpec {
    pub it_interval_sec: i64,
    pub it_interval_nsec: i64,
    pub it_value_sec: i64,
    pub it_value_nsec: i64,
}

/// A signal as it is read.
#[derive(Clone, Copy, Debug)]
pub struct SignalfdSiginfo {
    pub ssi_signo: u32,
    pub ssi_errno: i32,
    pub ssi_code: i32,
    pub ssi_pid: u32,
    pub ssi_uid: u32,
    pub ssi_fd: i32,
    pub ssi_tid: u32,
    pub ssi_band: u32,
    pub ssi_overrun: u32,
    pub ssi_trapno: u32,
    pub ssi_status: i32,
    pub ssi_int: i32,
    pub ssi_ptr: u64,
    pub ssi_utime: u64,
    pub ssi_stime: u64,
    pub ssi_addr: u64,
    pub ssi_addr_lsb: u16,
    pub __pad0: [u8; 2],
    pub ssi_syscall: i32,
    pub ssi_call_addr: u64,
    pub ssi_arch: u32,
    pub __pad: [u8; 28],
}

/// What to wait for at a descriptor, or what has come of it.
#[derive(Clone, Copy, PartialEq, Eq, Debug, Structural)]
pub struct EpollEvent {
    pub events: u32,
    pub data: u64,
}

/// A descriptor that an epoll object watches.
#[derive(Clone, Copy, PartialEq, Eq, Debug, Structural)]
pub struct EpollInterest {
    pub used: bool,
    pub fd: usize,
    pub events: u32,
    pub data: u64,
}

/// A directory that an inotify object watches.
#[derive(Clone, Copy, Debug)]
pub struct Watch {
    pub used: bool,
    pub wd: u32,
    pub mask: u32,
    pub path: [u8; 128],
}

/// A notice.
#[derive(Clone, Copy, Debug)]
pub struct InotifyEvent {
    pub wd: u32,
    pub mask: u32,
    pub cookie: u32,
    pub name: [u8; 64],
}

/// The objects, the descriptors of each task that lead to them, and what the
/// epoll and inotify objects watch.
pub struct EventTable {
    pub objs: Vec<EvObj>,
    /// The object of each descriptor, counted from one; 0 where there is none.
    pub fds: Vec<[usize; 32]>,
    pub epoll: Vec<[EpollInterest; 16]>,
    pub watches: Vec<[Watch; 8]>,
    /// The notices of each object, the oldest first.
    pub notices: Vec<Vec<InotifyEvent>>,
    pub next_wd: u32,
}

/// What else there is to know when asking whether a descriptor is ready.
pub struct PollEnv {
    pub task: usize,
    /// The time in ticks.
    pub now: u64,
    /// The pending signals of the task.
    pub signal: u64,
    /// Which descriptors are sockets.
    pub sockets: [bool; 32],
    /// Which descriptors are open files.
    pub files: [bool; 32],
}

/// What became of an attempt.
pub enum Attempt {
    Done(i64),
    /// It is not time yet: try again later.
    Wait,
}

/// What became of an attempt to wait for descriptors.
pub enum Collected {
    Failed(i32),
    Events(Vec<EpollEvent>),
    /// Nothing yet, and there is time left.
    Wait,
}

/// An object without a use.
pub open spec fn empty_obj() -> EvObj {
    fresh_obj(EvKind::Event, false)
}

/// A new object.
pub open spec fn fresh_obj(kind: EvKind, nonblock: bool) -> EvObj {
    EvObj { kind, val: 0, deadline: 0, interval: 0, sigmask: 0, nonblock }
}

pub open spec fn empty_interest() -> EpollInterest {
    EpollInterest { used: false, fd: 0, events: 0, data: 0 }
}

/// Whether a descriptor of any task leads to object `i`.
pub open spec fn in_use(fds: Seq<[usize; 32]>, i: int) -> bool {
    exists|t: int, fd: int| 0 <= t < fds.len() && 0 <= fd < 32 && #[trigger] fds[t]@[fd] == i + 1
}

/// The first object at `k` or after it to which no descriptor leads, or the
/// number of objects.
pub open spec fn free_from(fds: Seq<[usize; 32]>, k: int) -> int
    decreases MAX_OBJS - k,
{
    if k >= MAX_OBJS {
        MAX_OBJS as int
    } else if !in_use(fds, k) {
        k
    } else {
        free_from(fds, k + 1)
    }
}

/// The ticks in a time, rounded up, and at least one; none in a time that is
/// none.
pub open spec fn ticks(sec: i64, nsec: i64) -> int {
    if sec < 0 || nsec < 0 {
        0
    } else {
        let t = sec * HZ + (nsec + TICK_NSEC - 1) / TICK_NSEC as int;
        if t == 0 {
            1
        } else {
            t
        }
    }
}

/// How often a timer has run out by `now` since it was last read.
pub open spec fn expirations(o: EvObj, now: u64) -> int {
    if o.interval == 0 {
        1
    } else {
        (now - o.deadline) / o.interval as int + 1
    }
}

/// Whether a timer has run out.
pub open spec fn has_expired(o: EvObj, now: u64) -> bool {
    o.deadline != 0 && o.deadline <= now
}

/// A timer that has run out, once it is read.
pub open spec fn rearmed(o: EvObj, now: u64) -> EvObj {
    EvObj {
        deadline: if o.interval == 0 {
            0
        } else {
            (o.deadline + expirations(o, now) * o.interval) as u64
        },
        val: (o.val + expirations(o, now)) as u64,
        ..o
    }
}

/// The counts and times of a timer stay within 64 bits when it is read.
pub open spec fn timer_fits(o: EvObj, now: u64) -> bool {
    has_expired(o, now) ==> {
        &&& o.val + expirations(o, now) < u64::MAX
        &&& o.deadline + expirations(o, now) * o.interval <= u64::MAX
    }
}

/// A time in ticks as seconds and nanoseconds.
pub open spec fn as_spec(interval: u64, rem: u64) -> ItimerSpec {
    ItimerSpec {
        it_interval_sec: (interval / HZ) as i64,
        it_interval_nsec: (interval % HZ * TICK_NSEC) as i64,
        it_value_sec: (rem / HZ) as i64,
        it_value_nsec: (rem % HZ * TICK_NSEC) as i64,
    }
}

/// A timer that is read runs out again only after `now`.
pub proof fn lemma_rearmed(o: EvObj, now: u64)
    requires
        has_expired(o, now),
        timer_fits(o, now),
    ensures
        o.interval == 0 ==> rearmed(o, now).deadline == 0,
        o.interval > 0 ==> now < rearmed(o, now).deadline <= now + o.interval,
        !has_expired(rearmed(o, now), now),
{
    if o.interval > 0 {
        let iv = o.interval as int;
        let e = now - o.deadline;
        vstd::arithmetic::div_mod::lemma_fundamental_div_mod(e, iv);
        assert((e / iv + 1) * iv == iv * (e / iv) + iv) by (nonlinear_arith);
        assert(0 <= e % iv < iv) by (nonlinear_arith)
            requires
                iv > 0,
        ;
    }
}

impl SignalfdSiginfo {
    /// The record in memory.
    pub open spec fn bytes(self) -> Seq<u8> {
        let b = with_le32(zeros(128), 0, self.ssi_signo);
        let b = with_le32(b, 4, self.ssi_errno as u32);
        let b = with_le32(b, 8, self.ssi_code as u32);
        let b = with_le32(b, 12, self.ssi_pid);
        let b = with_le32(b, 16, self.ssi_uid);
        let b = with_le32(b, 20, self.ssi_fd as u32);
        let b = with_le32(b, 24, self.ssi_tid);
        let b = with_le32(b, 28, self.ssi_band);
        let b = with_le32(b, 32, self.ssi_overrun);
        let b = with_le32(b, 36, self.ssi_trapno);
        let b = with_le32(b, 40, self.ssi_status as u32);
        let b = with_le32(b, 44, self.ssi_int as u32);
        let b = with_le64(b, 48, self.ssi_ptr);
        let b = with_le64(b, 56, self.ssi_utime);
        let b = with_le64(b, 64, self.ssi_stime);
        let b = with_le64(b, 72, self.ssi_addr);
        let b = with_le16(b, 80, self.ssi_addr_lsb);
        let b = overlay(b, 82, self.__pad0@);
        let b = with_le32(b, 84, self.ssi_syscall as u32);
        let b = with_le64(b, 88, self.ssi_call_addr);
        let b = with_le32(b, 96, self.ssi_arch);
        overlay(b, 100, self.__pad@)
    }

    /// Only the number of the signal and the process are known.
    pub open spec fn is_of(self, signo: u32, pid: u32) -> bool {
        self.bytes() == with_le32(with_le32(zeros(128), 0, signo), 12, pid)
    }

    pub fn new(signo: u32, pid: u32) -> (r: SignalfdSiginfo)
        ensures
            r.ssi_signo == signo,
            r.ssi_pid == pid,
            r.is_of(signo, pid),
    {
        let r = SignalfdSiginfo {
            ssi_signo: signo,
            ssi_errno: 0,
            ssi_code: 0,
            ssi_pid: pid,
            ssi_uid: 0,
            ssi_fd: 0,
            ssi_tid: 0,
            ssi_band: 0,
            ssi_overrun: 0,
            ssi_trapno: 0,
            ssi_status: 0,
            ssi_int: 0,
            ssi_ptr: 0,
            ssi_utime: 0,
            ssi_stime: 0,
            ssi_addr: 0,
            ssi_addr_lsb: 0,
            __pad0: [0u8; 2],
            ssi_syscall: 0,
            ssi_call_addr: 0,
            ssi_arch: 0,
            __pad: [0u8; 28],
        };
        proof {
            let b1 = with_le32(zeros(128), 0, signo);
            assert(with_le32(b1, 4, 0) =~= b1);
            assert(with_le32(b1, 8, 0) =~= b1);
            let b = with_le32(b1, 12, pid);
            assert(with_le32(b, 16, 0) =~= b);
            assert(with_le32(b, 20, 0) =~= b);
            assert(with_le32(b, 24, 0) =~= b);
            assert(with_le32(b, 28, 0) =~= b);
            assert(with_le32(b, 32, 0) =~= b);
            assert(with_le32(b, 36, 0) =~= b);
            assert(with_le32(b, 40, 0) =~= b);
            assert(with_le32(b, 44, 0) =~= b);
            assert(with_le64(b, 48, 0) =~= b);
            assert(with_le64(b, 56, 0) =~= b);
            assert(with_le64(b, 64, 0) =~= b);
            assert(with_le64(b, 72, 0) =~= b);
            assert(with_le16(b, 80, 0) =~= b);
            assert(overlay(b, 82, r.__pad0@) =~= b);
            assert(with_le32(b, 84, 0) =~= b);
            assert(with_le64(b, 88, 0) =~= b);
            assert(with_le32(b, 96, 0) =~= b);
            assert(overlay(b, 100, r.__pad@) =~= b);
        }
        r
    }

    pub fn to_bytes(&self) -> (r: Vec<u8>)
        ensures
            r@ == self.bytes(),
            r@.len() == SIGINFO_SIZE,
    {
        let mut b: Vec<u8> = zeroed(128);
        put_le32(&mut b, 0, self.ssi_signo);
        put_le32(&mut b, 4, self.ssi_errno as u32);
        put_le32(&mut b, 8, self.ssi_code as u32);
        put_le32(&mut b, 12, self.ssi_pid);
        put_le32(&mut b, 16, self.ssi_uid);
        put_le32(&mut b, 20, self.ssi_fd as u32);
        put_le32(&mut b, 24, self.ssi_tid);
        put_le32(&mut b, 28, self.ssi_band);
        put_le32(&mut b, 32, self.ssi_overrun);
        put_le32(&mut b, 36, self.ssi_trapno);
        put_le32(&mut b, 40, self.ssi_status as u32);
        put_le32(&mut b, 44, self.ssi_int as u32);
        put_le64(&mut b, 48, self.ssi_ptr);
        put_le64(&mut b, 56, self.ssi_utime);
        put_le64(&mut b, 64, self.ssi_stime);
        put_le64(&mut b, 72, self.ssi_addr);
        put_le16(&mut b, 80, self.ssi_addr_lsb);
        put_bytes(&mut b, 82, self.__pad0.as_slice());
        put_le32(&mut b, 84, self.ssi_syscall as u32);
        put_le64(&mut b, 88, self.ssi_call_addr);
        put_le32(&mut b, 96, self.ssi_arch);
        put_bytes(&mut b, 100, self.__pad.as_slice());
        b
    }
}

/// The counter with `add` more in it, where that fits.
pub open spec fn counted(val: u64, add: u64) -> Option<u64> {
    if add == u64::MAX || val + add > u64::MAX - 1 {
        None
    } else {
        Some((val + add) as u64)
    }
}

/// What is written to a counter adds up, whatever is written first.
pub proof fn lemma_counted(val: u64, a: u64, b: u64)
    requires
        counted(val, a) is Some,
        counted(counted(val, a)->0, b) is Some,
    ensures
        counted(counted(val, a)->0, b)->0 == val + a + b,
        counted(val, b) is Some,
        counted(counted(val, b)->0, a) == counted(counted(val, a)->0, b),
{
}

/// The first entry at `k` or after it for that descriptor, or the number of
/// entries.
pub open spec fn interest_from(tab: Seq<EpollInterest>, fd: usize, k: int) -> int
    decreases tab.len() - k,
{
    if k >= tab.len() {
        tab.len() as int
    } else if tab[k].used && tab[k].fd == fd {
        k
    } else {
        interest_from(tab, fd, k + 1)
    }
}

/// The first free entry at `k` or after it, or the number of entries.
pub open spec fn free_interest_from(tab: Seq<EpollInterest>, k: int) -> int
    decreases tab.len() - k,
{
    if k >= tab.len() {
        tab.len() as int
    } else if !tab[k].used {
        k
    } else {
        free_interest_from(tab, k + 1)
    }
}

/// The entries after one has been added, changed or removed.
pub open spec fn controlled(tab: Seq<EpollInterest>, op: u32, fd: usize, ev: Option<EpollEvent>) -> Result<
    Seq<EpollInterest>,
    i32,
> {
    let pos = interest_from(tab, fd, 0);
    if op == EPOLL_CTL_ADD {
        if pos < tab.len() {
            Err(EEXIST)
        } else {
            match ev {
                None => Err(EINVAL),
                Some(e) => {
                    let slot = free_interest_from(tab, 0);
                    if slot < tab.len() {
                        Ok(
                            tab.update(
                                slot,
                                EpollInterest { used: true, fd, events: e.events, data: e.data },
                            ),
                        )
                    } else {
                        Err(ENOSPC)
                    }
                },
            }
        }
    } else if op == EPOLL_CTL_MOD {
        if pos >= tab.len() {
            Err(ENOENT)
        } else {
            match ev {
                None => Err(EINVAL),
                Some(e) => Ok(
                    tab.update(pos, EpollInterest { events: e.events, data: e.data, ..tab[pos] }),
                ),
            }
        }
    } else if op == EPOLL_CTL_DEL {
        if pos >= tab.len() {
            Err(ENOENT)
        } else {
            Ok(tab.update(pos, empty_interest()))
        }
    } else {
        Err(EINVAL)
    }
}

/// Where an entry is missing, none of those passed over is it.
proof fn lemma_interest_from(tab: Seq<EpollInterest>, fd: usize, k: int)
    requires
        0 <= k <= tab.len(),
    ensures
        k <= interest_from(tab, fd, k) <= tab.len(),
        forall|j: int|
            k <= j < interest_from(tab, fd, k) ==> !((#[trigger] tab[j]).used && tab[j].fd == fd),
        interest_from(tab, fd, k) < tab.len() ==> tab[interest_from(tab, fd, k)].used
            && tab[interest_from(tab, fd, k)].fd == fd,
    decreases tab.len() - k,
{
    if k < tab.len() {
        lemma_interest_from(tab, fd, k + 1);
    }
}

proof fn lemma_free_interest_from(tab: Seq<EpollInterest>, k: int)
    requires
        0 <= k <= tab.len(),
    ensures
        k <= free_interest_from(tab, k) <= tab.len(),
        free_interest_from(tab, k) < tab.len() ==> !tab[free_interest_from(tab, k)].used,
    decreases tab.len() - k,
{
    if k < tab.len() {
        lemma_free_interest_from(tab, k + 1);
    }
}

/// Removing a descriptor that was just added gives the entries back as they
/// were; adding it twice is refused.
pub proof fn lemma_add_then_delete(tab: Seq<EpollInterest>, fd: usize, ev: EpollEvent)
    requires
        controlled(tab, EPOLL_CTL_ADD, fd, Some(ev)) is Ok,
        forall|k: int| 0 <= k < tab.len() && !(#[trigger] tab[k]).used ==> tab[k] == empty_interest(),
    ensures
        ({
            let added = controlled(tab, EPOLL_CTL_ADD, fd, Some(ev))->Ok_0;
            &&& controlled(added, EPOLL_CTL_DEL, fd, None) == Ok::<Seq<EpollInterest>, i32>(tab)
            &&& controlled(added, EPOLL_CTL_ADD, fd, Some(ev)) == Err::<Seq<EpollInterest>, i32>(EEXIST)
        }),
{
    let slot = free_interest_from(tab, 0);
    let added = controlled(tab, EPOLL_CTL_ADD, fd, Some(ev))->Ok_0;
    lemma_interest_from(tab, fd, 0);
    lemma_free_interest_from(tab, 0);
    lemma_interest_from(added, fd, 0);
    let pos = interest_from(added, fd, 0);
    assert(added[slot].used && added[slot].fd == fd);
    assert(pos <= slot);
    if pos < slot {
        assert(added[pos] == tab[pos]);
    }
    assert(added.update(slot, empty_interest()) =~= tab);
}

/// What has come at a descriptor that can be read, can be written or was hung
/// up on, as far as `events` asks for it; an error or a hang-up is always told.
pub open spec fn revents(ready: (bool, bool, bool), events: u32) -> u32 {
    let r: u32 = if ready.0 {
        EPOLLIN
    } else {
        0
    };
    let w: u32 = if ready.1 {
        EPOLLOUT
    } else {
        0
    };
    let h: u32 = if ready.2 {
        EPOLLHUP
    } else {
        0
    };
    (r | w | h) & (events | EPOLLERR | EPOLLHUP)
}

/// Whether a watch is for what happens in `dir`, which a zero byte may end.
pub open spec fn is_hit(w: Watch, dir: Seq<u8>, mask: u32) -> bool {
    w.used && w.mask & mask != 0 && cut_at_zero(w.path@) == cut_at_zero(dir)
}

/// The first watch at `k` or after it for what happens in `dir`, or the number
/// of watches.
pub open spec fn hit_from(ws: Seq<Watch>, dir: Seq<u8>, mask: u32, k: int) -> int
    decreases ws.len() - k,
{
    if k >= ws.len() {
        ws.len() as int
    } else if is_hit(ws[k], dir, mask) {
        k
    } else {
        hit_from(ws, dir, mask, k + 1)
    }
}

/// The first watch at `k` or after it for that path, or the number of watches.
pub open spec fn path_from(ws: Seq<Watch>, path: Seq<u8>, k: int) -> int
    decreases ws.len() - k,
{
    if k >= ws.len() {
        ws.len() as int
    } else if ws[k].used && ws[k].path@ == path {
        k
    } else {
        path_from(ws, path, k + 1)
    }
}

/// The first watch at `k` or after it with that number, or the number of
/// watches.
pub open spec fn wd_from(ws: Seq<Watch>, wd: u32, k: int) -> int
    decreases ws.len() - k,
{
    if k >= ws.len() {
        ws.len() as int
    } else if ws[k].used && ws[k].wd == wd {
        k
    } else {
        wd_from(ws, wd, k + 1)
    }
}

/// The first free watch at `k` or after it, or the number of watches.
pub open spec fn free_watch_from(ws: Seq<Watch>, k: int) -> int
    decreases ws.len() - k,
{
    if k >= ws.len() {
        ws.len() as int
    } else if !ws[k].used {
        k
    } else {
        free_watch_from(ws, k + 1)
    }
}

/// Whether `e` is the notice of what happened to `name`.
pub open spec fn is_notice(e: InotifyEvent, wd: u32, mask: u32, name: Seq<u8>, cookie: u32) -> bool {
    &&& e.wd == wd
    &&& e.mask == mask
    &&& e.cookie == cookie
    &&& e.name@ == padded(name.take(least(name.len() as int, 63)), 64)
}

/// The notices with one more, the oldest of which goes where there are too
/// many.
pub open spec fn noticed(q: Seq<InotifyEvent>, e: InotifyEvent) -> Seq<InotifyEvent> {
    if q.len() >= MAX_INOTIFY_EVENTS {
        q.skip(1).push(e)
    } else {
        q.push(e)
    }
}

/// How many bytes the name of a notice takes, with the zero byte.
pub open spec fn name_size(e: InotifyEvent) -> int {
    cut_at_zero(e.name@).len() as int + 1
}

/// How many bytes a notice takes: 16, and the name filled up to 16.
pub open spec fn record_size(e: InotifyEvent) -> int {
    16 + (name_size(e) + 15) / 16 * 16
}

/// How many bytes the first `k` notices take.
pub open spec fn records_size(q: Seq<InotifyEvent>, k: int) -> int
    decreases k,
{
    if k <= 0 {
        0
    } else {
        records_size(q, k - 1) + record_size(q[k - 1])
    }
}

/// How many notices fit, of which `k` do.
pub open spec fn fit_from(q: Seq<InotifyEvent>, cap: int, k: int) -> int
    decreases q.len() - k,
{
    if k < q.len() && records_size(q, k + 1) <= cap {
        fit_from(q, cap, k + 1)
    } else {
        k
    }
}

/// `b` with a notice at `o`.
pub open spec fn with_record(b: Seq<u8>, o: int, e: InotifyEvent) -> Seq<u8> {
    let b = with_le32(b, o, e.wd);
    let b = with_le32(b, o + 4, e.mask);
    let b = with_le32(b, o + 8, e.cookie);
    let b = with_le32(b, o + 12, name_size(e) as u32);
    overlay(b, o + 16, e.name@.take(name_size(e)))
}

/// `b` with the first `k` notices.
pub open spec fn with_records(b: Seq<u8>, q: Seq<InotifyEvent>, k: int) -> Seq<u8>
    decreases k,
{
    if k <= 0 {
        b
    } else {
        with_record(with_records(b, q, k - 1), records_size(q, k - 1), q[k - 1])
    }
}

/// What one read of notices comes to: what is returned, what stands in the
/// buffer and what is left.
pub open spec fn notices_read(q: Seq<InotifyEvent>, b: Seq<u8>) -> (int, Seq<u8>, Seq<InotifyEvent>) {
    let k = fit_from(q, b.len() as int, 0);
    if q.len() == 0 {
        (-EAGAIN as int, b, q)
    } else if k == 0 {
        (-EINVAL as int, b, q)
    } else {
        (records_size(q, k), with_records(b, q, k), q.skip(k))
    }
}

impl EventTable {
    /// The tables have their sizes and lead into each other.
    pub open spec fn wf(&self) -> bool {
        &&& self.objs@.len() == MAX_OBJS
        &&& self.fds@.len() == NR_TASKS
        &&& self.epoll@.len() == MAX_OBJS
        &&& self.watches@.len() == MAX_OBJS
        &&& self.notices@.len() == MAX_OBJS
        &&& forall|i: int| 0 <= i < MAX_OBJS ==> (#[trigger] self.objs@[i]).val < u64::MAX
        &&& forall|t: int, fd: int|
            0 <= t < NR_TASKS && 0 <= fd < 32 ==> #[trigger] self.fds@[t]@[fd] <= MAX_OBJS
        &&& forall|i: int, k: int|
            0 <= i < MAX_OBJS && 0 <= k < MAX_EPOLL_INTEREST ==> {
                let e = #[trigger] self.epoll@[i]@[k];
                &&& e.used ==> e.fd < MAX_EV_FD
                &&& !e.used ==> e == empty_interest()
            }
        &&& forall|i: int| 0 <= i < MAX_OBJS ==> (#[trigger] self.notices@[i])@.len() <= MAX_INOTIFY_EVENTS
        &&& forall|i: int, k: int|
            0 <= i < MAX_OBJS && 0 <= k < self.notices@[i]@.len() ==> cut_at_zero(
                (#[trigger] self.notices@[i]@[k]).name@,
            ).len() < MAX_EV_NAME
    }

    /// The object that a descriptor of a task leads to.
    pub open spec fn obj_of(&self, task: int, fd: int) -> Option<int> {
        if 0 <= fd < MAX_EV_FD && self.fds@[task]@[fd] != 0 {
            Some(self.fds@[task]@[fd] - 1)
        } else {
            None
        }
    }

    /// Only object `i` differs.
    pub open spec fn changed(&self, new: &EventTable, i: int, o: EvObj) -> bool {
        &&& *new == (EventTable { objs: new.objs, ..*self })
        &&& new.objs@ == self.objs@.update(i, o)
    }

    /// A new object was made, or there is no room for it.
    pub open spec fn created(&self, new: &EventTable, o: EvObj, r: i64) -> bool {
        let i = free_from(self.fds@, 0);
        if i < MAX_OBJS {
            r == i && self.changed(new, i, o)
        } else {
            r == -EMFILE && *new == *self
        }
    }

    /// Whether a descriptor can be read, can be written, or was hung up on.
    pub open spec fn ready(&self, pipes: &PipeTable, env: &PollEnv, fd: int) -> (bool, bool, bool) {
        let task = env.task as int;
        if pipes.pipe_of(task, fd) is Some {
            poll_status(pipes@[pipes.pipe_of(task, fd)->0], pipes.dir_of(task, fd))
        } else if self.obj_of(task, fd) is Some {
            let i = self.obj_of(task, fd)->0;
            let o = self.objs@[i];
            (
                match o.kind {
                    EvKind::Event => o.val > 0,
                    EvKind::Timer => has_expired(o, env.now),
                    EvKind::Signal => env.signal & o.sigmask != 0,
                    EvKind::Inotify => self.notices@[i]@.len() > 0,
                    EvKind::Epoll => false,
                },
                true,
                false,
            )
        } else if env.sockets@[fd] {
            (false, true, false)
        } else if env.files@[fd] {
            (true, true, false)
        } else {
            (false, false, false)
        }
    }

    /// What has come of entry `e`.
    pub open spec fn come(&self, pipes: &PipeTable, env: &PollEnv, e: EpollInterest) -> u32 {
        if e.used {
            revents(self.ready(pipes, env, e.fd as int), e.events)
        } else {
            0
        }
    }

    /// What has come of the entries from `k` on, as many as `max` of them.
    pub open spec fn come_from(&self, pipes: &PipeTable, env: &PollEnv, tab: Seq<EpollInterest>, k: int, max: int) -> Seq<
        EpollEvent,
    >
        decreases tab.len() - k,
    {
        if k >= tab.len() || max <= 0 {
            Seq::empty()
        } else if self.come(pipes, env, tab[k]) != 0 {
            seq![EpollEvent { events: self.come(pipes, env, tab[k]), data: tab[k].data }]
                + self.come_from(pipes, env, tab, k + 1, max - 1)
        } else {
            self.come_from(pipes, env, tab, k + 1, max)
        }
    }

    /// Reading a counter: what it gives, and what it does.
    pub open spec fn counter_read(&self, new: &EventTable, task: int, fd: int, b0: Seq<u8>, b1: Seq<u8>, r: int) -> bool {
        match self.obj_of(task, fd) {
            Some(i) if b0.len() >= 8 && self.objs@[i].val > 0 => {
                &&& r == 8
                &&& b1 == with_le64(b0, 0, self.objs@[i].val)
                &&& self.changed(new, i, EvObj { val: 0, ..self.objs@[i] })
            },
            o => {
                &&& r == if b0.len() < 8 {
                    -EINVAL
                } else if o is None {
                    -EBADF
                } else {
                    -EAGAIN
                }
                &&& b1 == b0
                &&& *new == *self
            },
        }
    }

    /// Reading a timer: what it gives, and what it does.
    pub open spec fn timer_read(&self, new: &EventTable, task: int, fd: int, b0: Seq<u8>, b1: Seq<u8>, now: u64, r: int) -> bool {
        match self.obj_of(task, fd) {
            Some(i) if b0.len() >= 8 && has_expired(self.objs@[i], now) => {
                &&& r == 8
                &&& b1 == with_le64(
                    b0,
                    0,
                    expirations(self.objs@[i], now) as u64,
                )
                &&& self.changed(new, i, rearmed(self.objs@[i], now))
            },
            o => {
                &&& r == if b0.len() < 8 {
                    -EINVAL
                } else if o is None {
                    -EBADF
                } else {
                    -EAGAIN
                }
                &&& b1 == b0
                &&& *new == *self
            },
        }
    }

    /// Reading a signal: what it gives, and what it does to the pending ones.
    pub open spec fn signal_read(&self, task: int, fd: int, b0: Seq<u8>, b1: Seq<u8>, s0: u64, s1: u64, pid: u32, r: int) -> bool {
        match self.obj_of(task, fd) {
            Some(i) if b0.len() >= SIGINFO_SIZE && s0 & self.objs@[i].sigmask != 0 => {
                let signo = (s0 & self.objs@[i].sigmask).trailing_zeros();
                &&& r == SIGINFO_SIZE
                &&& b1 == overlay(
                    b0,
                    0,
                    with_le32(with_le32(zeros(128), 0, signo), 12, pid),
                )
                &&& s1 == s0 & !(1u64 << signo)
            },
            o => {
                &&& r == if b0.len() < SIGINFO_SIZE {
                    -EINVAL
                } else if o is None {
                    -EBADF
                } else {
                    -EAGAIN
                }
                &&& b1 == b0
                &&& s1 == s0
            },
        }
    }

    /// Reading notices: what it gives, and what it does.
    pub open spec fn notices_taken(&self, new: &EventTable, task: int, fd: int, b0: Seq<u8>, b1: Seq<u8>, r: int) -> bool {
        match self.obj_of(task, fd) {
            None => r == -EBADF && *new == *self && b1 == b0,
            Some(i) => {
                let (n, b, left) = notices_read(self.notices@[i]@, b0);
                &&& r == n
                &&& b1 == b
                &&& *new == (EventTable { notices: new.notices, ..*self })
                &&& new.notices@ == self.notices@.update(i, new.notices@[i])
                &&& new.notices@[i]@ == left
            },
        }
    }

    /// Reading object `i`, of whatever kind it is.
    pub open spec fn object_read(
        &self,
        new: &EventTable,
        env: (int, int, u64, u32),
        i: int,
        b0: Seq<u8>,
        b1: Seq<u8>,
        s0: u64,
        s1: u64,
        r: int,
    ) -> bool {
        let (task, fd, now, pid) = env;
        match self.objs@[i].kind {
            EvKind::Event => s1 == s0 && self.counter_read(new, task, fd, b0, b1, r),
            EvKind::Timer => s1 == s0 && self.timer_read(new, task, fd, b0, b1, now, r),
            EvKind::Signal => *new == *self && self.signal_read(task, fd, b0, b1, s0, s1, pid, r),
            EvKind::Inotify => s1 == s0 && self.notices_taken(new, task, fd, b0, b1, r),
            EvKind::Epoll => s1 == s0 && *new == *self && b1 == b0 && r == -EINVAL,
        }
    }

    /// No objects and no descriptors.
    pub fn new() -> (r: EventTable)
        ensures
            r.wf(),
            r.next_wd == 1,
            forall|t: int, fd: int| 0 <= t < NR_TASKS ==> #[trigger] r.obj_of(t, fd) is None,
    {
        let o = EvObj {
            kind: EvKind::Event,
            val: 0,
            deadline: 0,
            interval: 0,
            sigmask: 0,
            nonblock: false,
        };
        let e = EpollInterest { used: false, fd: 0, events: 0, data: 0 };
        let w = Watch { used: false, wd: 0, mask: 0, path: [0u8; 128] };
        let mut objs: Vec<EvObj> = Vec::new();
        let mut epoll: Vec<[EpollInterest; 16]> = Vec::new();
        let mut watches: Vec<[Watch; 8]> = Vec::new();
        let mut notices: Vec<Vec<InotifyEvent>> = Vec::new();
        for i in 0..MAX_OBJS
            invariant
                objs@.len() == i,
                epoll@.len() == i,
                watches@.len() == i,
                notices@.len() == i,
                o.val == 0,
                e == empty_interest(),
                forall|j: int| 0 <= j < i ==> (#[trigger] objs@[j]).val == 0,
                forall|j: int, k: int| 0 <= j < i && 0 <= k < 16 ==> #[trigger] epoll@[j]@[k] == empty_interest(),
                forall|j: int| 0 <= j < i ==> (#[trigger] notices@[j])@.len() == 0,
        {
            objs.push(o);
            epoll.push([e; 16]);
            watches.push([w; 8]);
            notices.push(Vec::new());
        }
        let mut fds: Vec<[usize; 32]> = Vec::new();
        for t in 0..NR_TASKS
            invariant
                fds@.len() == t,
                forall|j: int, k: int| 0 <= j < t && 0 <= k < 32 ==> #[trigger] fds@[j]@[k] == 0,
        {
            fds.push([0usize; 32]);
        }
        EventTable { objs, fds, epoll, watches, notices, next_wd: 1 }
    }

    /// Whether a descriptor of any task leads to object `idx`.
    fn slot_used(&self, idx: usize) -> (r: bool)
        requires
            self.wf(),
            idx < MAX_OBJS,
        ensures
            r == in_use(self.fds@, idx as int),
    {
        for t in 0..NR_TASKS
            invariant
                self.wf(),
                idx < MAX_OBJS,
                forall|j: int, k: int| 0 <= j < t && 0 <= k < 32 ==> #[trigger] self.fds@[j]@[k] != idx + 1,
        {
            for fd in 0..MAX_EV_FD
                invariant
                    self.wf(),
                    idx < MAX_OBJS,
                    t < NR_TASKS,
                    forall|j: int, k: int| 0 <= j < t && 0 <= k < 32 ==> #[trigger] self.fds@[j]@[k] != idx + 1,
                    forall|k: int| 0 <= k < fd ==> #[trigger] self.fds@[t as int]@[k] != idx + 1,
            {
                if self.fds[t][fd] == idx + 1 {
                    return true;
                }
            }
        }
        false
    }

    /// Takes an object to which no descriptor leads.
    pub fn alloc_obj(&mut self, kind: EvKind, nonblock: bool) -> (r: Option<usize>)
        requires
            old(self).wf(),
        ensures
            final(self).wf(),
            match r {
                Some(i) => {
                    &&& i < MAX_OBJS
                    &&& i == free_from(old(self).fds@, 0)
                    &&& old(self).changed(final(self), i as int, fresh_obj(kind, nonblock))
                },
                None => free_from(old(self).fds@, 0) == MAX_OBJS && *final(self) == *old(self),
            },
    {
        for i in 0..MAX_OBJS
            invariant
                self.wf(),
                *self == *old(self),
                free_from(self.fds@, 0) == free_from(self.fds@, i as int),
        {
            if !self.slot_used(i) {
                self.objs.set(
                    i,
                    EvObj { kind, val: 0, deadline: 0, interval: 0, sigmask: 0, nonblock },
                );
                return Some(i);
            }
        }
        None
    }

    /// Lets a descriptor of a task lead to an object.
    pub fn register_fd(&mut self, task: usize, fd: usize, obj_idx: usize)
        requires
            old(self).wf(),
            task < NR_TASKS,
            obj_idx < MAX_OBJS,
        ensures
            final(self).wf(),
            *final(self) == (EventTable { fds: final(self).fds, ..*old(self) }),
            final(self).fds@ == old(self).fds@.update(task as int, final(self).fds@[task as int]),
            final(self).fds@[task as int]@ == if fd < MAX_EV_FD {
                old(self).fds@[task as int]@.update(fd as int, (obj_idx + 1) as usize)
            } else {
                old(self).fds@[task as int]@
            },
    {
        if fd < MAX_EV_FD {
            let mut row = self.fds[task];
            row[fd] = obj_idx + 1;
            self.fds.set(task, row);
        }
        assert(self.fds@ =~= old(self).fds@.update(task as int, self.fds@[task as int]));
    }

    /// Lets a descriptor of a task lead to no object.
    pub fn unregister_fd(&mut self, task: usize, fd: usize)
        requires
            old(self).wf(),
            task < NR_TASKS,
        ensures
            final(self).wf(),
            *final(self) == (EventTable { fds: final(self).fds, ..*old(self) }),
            final(self).fds@ == old(self).fds@.update(task as int, final(self).fds@[task as int]),
            final(self).fds@[task as int]@ == if fd < MAX_EV_FD {
                old(self).fds@[task as int]@.update(fd as int, 0usize)
            } else {
                old(self).fds@[task as int]@
            },
    {
        if fd < MAX_EV_FD {
            let mut row = self.fds[task];
            row[fd] = 0;
            self.fds.set(task, row);
        }
        assert(self.fds@ =~= old(self).fds@.update(task as int, self.fds@[task as int]));
    }

    /// Binds an object to a descriptor.
    pub fn bind_fd(&mut self, task: usize, obj_idx: usize, fd: usize)
        requires
            old(self).wf(),
            task < NR_TASKS,
            obj_idx < MAX_OBJS,
        ensures
            final(self).wf(),
            *final(self) == (EventTable { fds: final(self).fds, ..*old(self) }),
            final(self).fds@ == old(self).fds@.update(task as int, final(self).fds@[task as int]),
            final(self).fds@[task as int]@ == if fd < MAX_EV_FD {
                old(self).fds@[task as int]@.update(fd as int, (obj_idx + 1) as usize)
            } else {
                old(self).fds@[task as int]@
            },
    {
        self.register_fd(task, fd, obj_idx);
    }

    pub fn fd_is_event(&self, task: usize, fd: usize) -> (r: bool)
        requires
            self.wf(),
            task < NR_TASKS,
        ensures
            r == self.obj_of(task as int, fd as int) is Some,
    {
        fd < MAX_EV_FD && self.fds[task][fd] != 0
    }

    pub fn fd_to_obj(&self, task: usize, fd: usize) -> (r: Option<usize>)
        requires
            self.wf(),
            task < NR_TASKS,
        ensures
            match r {
                Some(i) => i < MAX_OBJS && self.obj_of(task as int, fd as int) == Some(i as int),
                None => self.obj_of(task as int, fd as int) is None,
            },
    {
        if fd < MAX_EV_FD && self.fds[task][fd] != 0 {
            Some(self.fds[task][fd] - 1)
        } else {
            None
        }
    }

    /// What closing a descriptor does.
    pub open spec fn closed_did(&self, new: &EventTable, task: int, fd: int) -> bool {
        match self.obj_of(task, fd) {
            None => *new == *self,
            Some(i) => {
                &&& *new == (EventTable {
                    fds: new.fds,
                    objs: new.objs,
                    ..*self
                })
                &&& new.fds@ == self.fds@.update(task, new.fds@[task])
                &&& new.fds@[task]@ == self.fds@[task]@.update(
                    fd,
                    0usize,
                )
                &&& new.objs@ == if in_use(new.fds@, i) {
                    self.objs@
                } else {
                    self.objs@.update(i, empty_obj())
                }
            },
        }
    }

    /// Closes a descriptor; an object to which none leads then is emptied.
    pub fn close(&mut self, task: usize, fd: usize)
        requires
            old(self).wf(),
            task < NR_TASKS,
        ensures
            final(self).wf(),
            old(self).closed_did(final(self), task as int, fd as int),
    {
        let i: usize = match self.fd_to_obj(task, fd) {
            Some(i) => i,
            None => {
                return;
            },
        };
        self.unregister_fd(task, fd);
        if !self.slot_used(i) {
            self.objs.set(
                i,
                EvObj {
                    kind: EvKind::Event,
                    val: 0,
                    deadline: 0,
                    interval: 0,
                    sigmask: 0,
                    nonblock: false,
                },
            );
        }
    }

    /// Makes an object and gives its number.
    fn create(&mut self, kind: EvKind, flags: u32) -> (r: i64)
        requires
            old(self).wf(),
        ensures
            final(self).wf(),
            old(self).created(final(self), fresh_obj(kind, flags & NONBLOCK != 0), r),
    {
        match self.alloc_obj(kind, flags & NONBLOCK != 0) {
            Some(i) => i as i64,
            None => -(EMFILE as i64),
        }
    }

    /// Makes a counter.
    pub fn eventfd_create(&mut self, initval: u32, flags: u32) -> (r: i64)
        requires
            old(self).wf(),
        ensures
            final(self).wf(),
            old(self).created(
                final(self),
                EvObj { val: initval as u64, ..fresh_obj(EvKind::Event, flags & NONBLOCK != 0) },
                r,
            ),
    {
        match self.alloc_obj(EvKind::Event, flags & NONBLOCK != 0) {
            Some(i) => {
                self.objs[i].val = initval as u64;
                assert(self.objs@ =~= old(self).objs@.update(
                    i as int,
                    EvObj { val: initval as u64, ..fresh_obj(EvKind::Event, flags & NONBLOCK != 0) },
                ));
                i as i64
            },
            None => -(EMFILE as i64),
        }
    }

    /// Reads a counter into a buffer of at least eight bytes, and empties it.
    pub fn eventfd_read(&mut self, task: usize, fd: usize, buf: &mut Vec<u8>) -> (r: i64)
        requires
            old(self).wf(),
            task < NR_TASKS,
        ensures
            final(self).wf(),
            old(self).counter_read(final(self), task as int, fd as int, old(buf)@, final(buf)@, r as int),
    {
        if buf.len() < 8 {
            return -(EINVAL as i64);
        }
        let i: usize = match self.fd_to_obj(task, fd) {
            Some(i) => i,
            None => {
                return -(EBADF as i64);
            },
        };
        let v: u64 = self.objs[i].val;
        if v == 0 {
            return -(EAGAIN as i64);
        }
        self.objs[i].val = 0;
        assert(self.objs@ =~= old(self).objs@.update(
            i as int,
            EvObj { val: 0, ..old(self).objs@[i as int] },
        ));
        put_le64(buf, 0, v);
        8
    }

    /// Writing to a counter: what it gives, and what it does.
    pub open spec fn counter_written(&self, new: &EventTable, task: int, fd: int, add: u64, len: int, r: i64) -> bool {
        match self.obj_of(task, fd) {
            Some(i) if len >= 8 && counted(self.objs@[i].val, add) is Some => {
                &&& r == 8
                &&& self.changed(
                    new,
                    i,
                    EvObj { val: counted(self.objs@[i].val, add)->0, ..self.objs@[i] },
                )
            },
            o => {
                &&& r == if len < 8 {
                    -EINVAL
                } else if add != u64::MAX && o is None {
                    -EBADF
                } else {
                    -EAGAIN
                }
                &&& *new == *self
            },
        }
    }

    /// Adds the number in the first eight of `len` bytes to a counter.
    pub fn eventfd_write(&mut self, task: usize, fd: usize, add: u64, len: usize) -> (r: i64)
        requires
            old(self).wf(),
            task < NR_TASKS,
        ensures
            final(self).wf(),
            old(self).counter_written(final(self), task as int, fd as int, add, len as int, r),
    {
        if len < 8 {
            return -(EINVAL as i64);
        }
        if add == u64::MAX {
            return -(EAGAIN as i64);
        }
        let i: usize = match self.fd_to_obj(task, fd) {
            Some(i) => i,
            None => {
                return -(EBADF as i64);
            },
        };
        let was: u64 = self.objs[i].val;
        assert(self.objs@[i as int].val < u64::MAX);
        if add > (u64::MAX - 1) - was {
            return -(EAGAIN as i64);
        }
        self.objs[i].val = was + add;
        assert(self.objs@ =~= old(self).objs@.update(
            i as int,
            EvObj { val: (was + add) as u64, ..old(self).objs@[i as int] },
        ));
        8
    }

    /// Makes a timer, whichever clock is asked for.
    pub fn timerfd_create(&mut self, _clockid: u32, flags: u32) -> (r: i64)
        requires
            old(self).wf(),
        ensures
            final(self).wf(),
            old(self).created(final(self), fresh_obj(EvKind::Timer, flags & NONBLOCK != 0), r),
    {
        self.create(EvKind::Timer, flags)
    }

    /// Starting a timer at `now`: what it gives, and what it does.
    pub open spec fn timer_set(&self, new: &EventTable, task: int, fd: int, spec: ItimerSpec, now: u64, r: i64) -> bool {
        match self.obj_of(task, fd) {
            None => r == -EBADF && *new == *self,
            Some(i) => {
                &&& r == 0
                &&& self.changed(
                    new,
                    i,
                    EvObj {
                        interval: ticks(spec.it_interval_sec, spec.it_interval_nsec) as u64,
                        deadline: if ticks(spec.it_value_sec, spec.it_value_nsec) == 0 {
                            0
                        } else {
                            (now + ticks(spec.it_value_sec, spec.it_value_nsec)) as u64
                        },
                        val: 0,
                        ..self.objs@[i]
                    },
                )
            },
        }
    }

    /// Starts a timer, or stops it where the time is none.
    pub fn timerfd_settime(&mut self, task: usize, fd: usize, spec: &ItimerSpec, now: u64) -> (r: i64)
        requires
            old(self).wf(),
            task < NR_TASKS,
            ticks(spec.it_interval_sec, spec.it_interval_nsec) <= u64::MAX,
            now + ticks(spec.it_value_sec, spec.it_value_nsec) <= u64::MAX,
        ensures
            final(self).wf(),
            old(self).timer_set(final(self), task as int, fd as int, *spec, now, r),
    {
        let i: usize = match self.fd_to_obj(task, fd) {
            Some(i) => i,
            None => {
                return -(EBADF as i64);
            },
        };
        let interval: u64 = to_jiffies(spec.it_interval_sec, spec.it_interval_nsec);
        let value: u64 = to_jiffies(spec.it_value_sec, spec.it_value_nsec);
        let mut o: EvObj = self.objs[i];
        o.interval = interval;
        o.deadline = if value == 0 {
            0
        } else {
            now + value
        };
        o.val = 0;
        self.objs.set(i, o);
        0
    }

    /// What is told of a timer at `now`.
    pub open spec fn timer_told(&self, task: int, fd: int, now: u64, r: Result<ItimerSpec, i32>) -> bool {
        r == match self.obj_of(task, fd) {
            None => Err::<ItimerSpec, i32>(EBADF),
            Some(i) => Ok(
                as_spec(
                    self.objs@[i].interval,
                    if self.objs@[i].deadline > now {
                        (self.objs@[i].deadline - now) as u64
                    } else {
                        0
                    },
                ),
            ),
        }
    }

    /// How long a timer still runs, and how far apart it runs out.
    pub fn timerfd_gettime(&self, task: usize, fd: usize, now: u64) -> (r: Result<ItimerSpec, i32>)
        requires
            self.wf(),
            task < NR_TASKS,
        ensures
            self.timer_told(task as int, fd as int, now, r),
    {
        let i: usize = match self.fd_to_obj(task, fd) {
            Some(i) => i,
            None => {
                return Err(EBADF);
            },
        };
        let interval: u64 = self.objs[i].interval;
        let rem: u64 = if self.objs[i].deadline > now {
            self.objs[i].deadline - now
        } else {
            0
        };
        Ok(
            ItimerSpec {
                it_interval_sec: (interval / HZ) as i64,
                it_interval_nsec: (interval % HZ * TICK_NSEC) as i64,
                it_value_sec: (rem / HZ) as i64,
                it_value_nsec: (rem % HZ * TICK_NSEC) as i64,
            },
        )
    }

    /// Reads how often a timer has run out into a buffer of at least eight
    /// bytes.
    pub fn timerfd_read(&mut self, task: usize, fd: usize, buf: &mut Vec<u8>, now: u64) -> (r: i64)
        requires
            old(self).wf(),
            task < NR_TASKS,
            old(self).obj_of(task as int, fd as int) is Some ==> timer_fits(
                old(self).objs@[old(self).obj_of(task as int, fd as int)->0],
                now,
            ),
        ensures
            final(self).wf(),
            old(self).timer_read(final(self), task as int, fd as int, old(buf)@, final(buf)@, now, r as int),
    {
        if buf.len() < 8 {
            return -(EINVAL as i64);
        }
        let i: usize = match self.fd_to_obj(task, fd) {
            Some(i) => i,
            None => {
                return -(EBADF as i64);
            },
        };
        let mut o: EvObj = self.objs[i];
        if o.deadline == 0 || o.deadline > now {
            return -(EAGAIN as i64);
        }
        let exp: u64 = if o.interval == 0 {
            1
        } else {
            (now - o.deadline) / o.interval + 1
        };
        o.deadline = if o.interval == 0 {
            0
        } else {
            let step: u64 = exp * o.interval;
            o.deadline + step
        };
        o.val = o.val + exp;
        self.objs.set(i, o);
        put_le64(buf, 0, exp);
        8
    }

    /// Makes an object for pending signals.
    pub fn signalfd_alloc(&mut self, flags: u32) -> (r: i64)
        requires
            old(self).wf(),
        ensures
            final(self).wf(),
            old(self).created(final(self), fresh_obj(EvKind::Signal, flags & NONBLOCK != 0), r),
    {
        self.create(EvKind::Signal, flags)
    }

    /// Saying which signals can be read: what it gives, and what it does.
    pub open spec fn mask_set(&self, new: &EventTable, task: int, fd: int, mask: u64, r: i64) -> bool {
        match self.obj_of(task, fd) {
            None => r == -EBADF && *new == *self,
            Some(i) => {
                &&& r == 0
                &&& self.changed(
                    new,
                    i,
                    EvObj { kind: EvKind::Signal, sigmask: mask, ..self.objs@[i] },
                )
            },
        }
    }

    /// Says which signals can be read.
    pub fn signalfd_set_mask(&mut self, task: usize, fd: usize, mask: u64) -> (r: i64)
        requires
            old(self).wf(),
            task < NR_TASKS,
        ensures
            final(self).wf(),
            old(self).mask_set(final(self), task as int, fd as int, mask, r),
    {
        let i: usize = match self.fd_to_obj(task, fd) {
            Some(i) => i,
            None => {
                return -(EBADF as i64);
            },
        };
        let mut o: EvObj = self.objs[i];
        o.kind = EvKind::Signal;
        o.sigmask = mask;
        self.objs.set(i, o);
        0
    }

    /// Reads the lowest pending signal of those asked for into a buffer, and
    /// takes it from `signal`.
    pub fn signalfd_read(&self, task: usize, fd: usize, buf: &mut Vec<u8>, signal: &mut u64, pid: u32) -> (r: i64)
        requires
            self.wf(),
            task < NR_TASKS,
        ensures
            self.signal_read(task as int, fd as int, old(buf)@, final(buf)@, *old(signal), *final(signal), pid, r as int),
    {
        if buf.len() < SIGINFO_SIZE {
            return -(EINVAL as i64);
        }
        let i: usize = match self.fd_to_obj(task, fd) {
            Some(i) => i,
            None => {
                return -(EBADF as i64);
            },
        };
        let pending: u64 = *signal & self.objs[i].sigmask;
        if pending == 0 {
            return -(EAGAIN as i64);
        }
        let signo: u32 = pending.trailing_zeros();
        proof {
            vstd::std_specs::bits::axiom_u64_trailing_zeros(pending);
        }
        *signal = *signal & !(1u64 << signo);
        let si = SignalfdSiginfo::new(signo, pid);
        let b: Vec<u8> = si.to_bytes();
        put_bytes(buf, 0, b.as_slice());
        SIGINFO_SIZE as i64
    }

    /// Makes a set of descriptors to wait for.
    pub fn epoll_create(&mut self, flags: u32) -> (r: i64)
        requires
            old(self).wf(),
        ensures
            final(self).wf(),
            old(self).created(final(self), fresh_obj(EvKind::Epoll, flags & NONBLOCK != 0), r),
    {
        self.create(EvKind::Epoll, flags)
    }

    /// The entry for a descriptor.
    fn find_interest(&self, i: usize, fd: usize) -> (r: Option<usize>)
        requires
            self.wf(),
            i < MAX_OBJS,
        ensures
            match r {
                Some(k) => k < 16 && interest_from(self.epoll@[i as int]@, fd, 0) == k,
                None => interest_from(self.epoll@[i as int]@, fd, 0) == 16,
            },
    {
        for k in 0..MAX_EPOLL_INTEREST
            invariant
                self.wf(),
                i < MAX_OBJS,
                interest_from(self.epoll@[i as int]@, fd, 0) == interest_from(
                    self.epoll@[i as int]@,
                    fd,
                    k as int,
                ),
        {
            if self.epoll[i][k].used && self.epoll[i][k].fd == fd {
                return Some(k);
            }
        }
        None
    }

    /// A free entry.
    fn find_free_interest(&self, i: usize) -> (r: Option<usize>)
        requires
            self.wf(),
            i < MAX_OBJS,
        ensures
            match r {
                Some(k) => k < 16 && free_interest_from(self.epoll@[i as int]@, 0) == k,
                None => free_interest_from(self.epoll@[i as int]@, 0) == 16,
            },
    {
        for k in 0..MAX_EPOLL_INTEREST
            invariant
                self.wf(),
                i < MAX_OBJS,
                free_interest_from(self.epoll@[i as int]@, 0) == free_interest_from(
                    self.epoll@[i as int]@,
                    k as int,
                ),
        {
            if !self.epoll[i][k].used {
                return Some(k);
            }
        }
        None
    }

    /// Replaces an entry.
    fn put_interest(&mut self, i: usize, k: usize, e: EpollInterest)
        requires
            old(self).wf(),
            i < MAX_OBJS,
            k < MAX_EPOLL_INTEREST,
            e.used ==> e.fd < MAX_EV_FD,
            !e.used ==> e == empty_interest(),
        ensures
            final(self).wf(),
            *final(self) == (EventTable { epoll: final(self).epoll, ..*old(self) }),
            final(self).epoll@ == old(self).epoll@.update(i as int, final(self).epoll@[i as int]),
            final(self).epoll@[i as int]@ == old(self).epoll@[i as int]@.update(k as int, e),
    {
        let mut tab = self.epoll[i];
        tab[k] = e;
        self.epoll.set(i, tab);
        assert(self.epoll@ =~= old(self).epoll@.update(i as int, self.epoll@[i as int]));
        assert forall|a: int, b: int| 0 <= a < MAX_OBJS && 0 <= b < MAX_EPOLL_INTEREST implies {
            let x = #[trigger] self.epoll@[a]@[b];
            &&& x.used ==> x.fd < MAX_EV_FD
            &&& !x.used ==> x == empty_interest()
        } by {
            assert(a != i || b != k ==> self.epoll@[a]@[b] == old(self).epoll@[a]@[b]);
        }
    }

    /// Adding, changing or removing a descriptor to wait for: what it gives, and what it does.
    pub open spec fn watching_did(&self, new: &EventTable, task: int, epfd: int, op: u32, fd: usize, ev: Option<EpollEvent>, r: i64) -> bool {
        match self.obj_of(task, epfd) {
            Some(i) if self.objs@[i].kind == EvKind::Epoll && fd < MAX_EV_FD => {
                match controlled(self.epoll@[i]@, op, fd, ev) {
                    Ok(tab) => {
                        &&& r == 0
                        &&& *new == (EventTable { epoll: new.epoll, ..*self })
                        &&& new.epoll@ == self.epoll@.update(i, new.epoll@[i])
                        &&& new.epoll@[i]@ == tab
                    },
                    Err(e) => r == -e && *new == *self,
                }
            },
            o => {
                &&& r == if o is Some && self.objs@[o->0].kind != EvKind::Epoll {
                    -EINVAL
                } else {
                    -EBADF
                }
                &&& *new == *self
            },
        }
    }

    /// Adds, changes or removes a descriptor to wait for.
    pub fn epoll_ctl(&mut self, task: usize, epfd: usize, op: u32, fd: usize, ev: Option<EpollEvent>) -> (r: i64)
        requires
            old(self).wf(),
            task < NR_TASKS,
        ensures
            final(self).wf(),
            old(self).watching_did(final(self), task as int, epfd as int, op, fd, ev, r),
    {
        let i: usize = match self.fd_to_obj(task, epfd) {
            Some(i) => i,
            None => {
                return -(EBADF as i64);
            },
        };
        if self.objs[i].kind != EvKind::Epoll {
            return -(EINVAL as i64);
        }
        if fd >= MAX_EV_FD {
            return -(EBADF as i64);
        }
        let pos = self.find_interest(i, fd);
        proof {
            lemma_interest_from(self.epoll@[i as int]@, fd, 0);
        }
        if op == EPOLL_CTL_ADD {
            if pos.is_some() {
                return -(EEXIST as i64);
            }
            let e: EpollEvent = match ev {
                Some(e) => e,
                None => {
                    return -(EINVAL as i64);
                },
            };
            match self.find_free_interest(i) {
                None => -(ENOSPC as i64),
                Some(k) => {
                    self.put_interest(
                        i,
                        k,
                        EpollInterest { used: true, fd, events: e.events, data: e.data },
                    );
                    0
                },
            }
        } else if op == EPOLL_CTL_MOD {
            let k: usize = match pos {
                Some(k) => k,
                None => {
                    return -(ENOENT as i64);
                },
            };
            let e: EpollEvent = match ev {
                Some(e) => e,
                None => {
                    return -(EINVAL as i64);
                },
            };
            self.put_interest(i, k, EpollInterest { used: true, fd, events: e.events, data: e.data });
            0
        } else if op == EPOLL_CTL_DEL {
            match pos {
                None => -(ENOENT as i64),
                Some(k) => {
                    self.put_interest(
                        i,
                        k,
                        EpollInterest { used: false, fd: 0, events: 0, data: 0 },
                    );
                    0
                },
            }
        } else {
            -(EINVAL as i64)
        }
    }

    /// Whether a descriptor can be read, can be written, or was hung up on.
    pub fn fd_ready(&self, pipes: &PipeTable, env: &PollEnv, fd: usize) -> (r: (bool, bool, bool))
        requires
            self.wf(),
            pipes.wf(),
            env.task < NR_TASKS,
            fd < MAX_EV_FD,
        ensures
            r == self.ready(pipes, env, fd as int),
    {
        if pipes.fd_is_pipe(env.task, fd) {
            return pipes.fd_poll_status(env.task, fd);
        }
        match self.fd_to_obj(env.task, fd) {
            Some(i) => {
                let o: EvObj = self.objs[i];
                let readable: bool = match o.kind {
                    EvKind::Event => o.val > 0,
                    EvKind::Timer => o.deadline != 0 && o.deadline <= env.now,
                    EvKind::Signal => env.signal & o.sigmask != 0,
                    EvKind::Inotify => self.inotify_has_events(i),
                    EvKind::Epoll => false,
                };
                (readable, true, false)
            },
            None => {
                if env.sockets[fd] {
                    (false, true, false)
                } else if env.files[fd] {
                    (true, true, false)
                } else {
                    (false, false, false)
                }
            },
        }
    }

    /// What has come of the descriptors of object `i`, as many as `max` of
    /// them.
    fn epoll_collect(&self, i: usize, max: u32, pipes: &PipeTable, env: &PollEnv) -> (r: Vec<EpollEvent>)
        requires
            self.wf(),
            pipes.wf(),
            env.task < NR_TASKS,
            i < MAX_OBJS,
        ensures
            r@ == self.come_from(pipes, env, self.epoll@[i as int]@, 0, max as int),
    {
        let mut r: Vec<EpollEvent> = Vec::new();
        let ghost tab = self.epoll@[i as int]@;
        for k in 0..MAX_EPOLL_INTEREST
            invariant
                self.wf(),
                pipes.wf(),
                env.task < NR_TASKS,
                i < MAX_OBJS,
                tab == self.epoll@[i as int]@,
                r@.len() <= k,
                r@.len() <= max,
                self.come_from(pipes, env, tab, 0, max as int) == r@ + self.come_from(
                    pipes,
                    env,
                    tab,
                    k as int,
                    max - r@.len(),
                ),
        {
            let e: EpollInterest = self.epoll[i][k];
            assert(e == tab[k as int]);
            if e.used && r.len() < max as usize {
                let (readable, writable, hup) = self.fd_ready(pipes, env, e.fd);
                let a: u32 = if readable {
                    EPOLLIN
                } else {
                    0
                };
                let b: u32 = if writable {
                    EPOLLOUT
                } else {
                    0
                };
                let c: u32 = if hup {
                    EPOLLHUP
                } else {
                    0
                };
                let events: u32 = (a | b | c) & (e.events | EPOLLERR | EPOLLHUP);
                assert(events == self.come(pipes, env, e));
                if events != 0 {
                    let ghost rest = self.come_from(pipes, env, tab, k + 1, max - r@.len() - 1);
                    let ev = EpollEvent { events, data: e.data };
                    assert(r@ + (seq![ev] + rest) =~= r@.push(ev) + rest);
                    r.push(ev);
                }
            }
        }
        assert(self.come_from(pipes, env, tab, 0, max as int) =~= r@);
        r
    }

    /// What an attempt to wait for descriptors comes to.
    pub open spec fn waited(&self, epfd: int, buf: bool, maxevents: u32, deadline: u64, pipes: &PipeTable, env: &PollEnv, r: Collected) -> bool {
        match self.obj_of(env.task as int, epfd) {
            Some(i) if self.objs@[i].kind == EvKind::Epoll && maxevents > 0 && buf => {
                let come = self.come_from(pipes, env, self.epoll@[i]@, 0, maxevents as int);
                if come.len() > 0 || env.now >= deadline {
                    r is Events && r->Events_0@ == come
                } else {
                    r is Wait
                }
            },
            o => r == Collected::Failed(
                if o is None {
                    EBADF
                } else {
                    EINVAL
                },
            ),
        }
    }

    /// One attempt to wait until `deadline` for descriptors to become ready,
    /// and to say what has come of `maxevents` of them at most.
    pub fn epoll_wait(
        &self,
        epfd: usize,
        buf: bool,
        maxevents: u32,
        deadline: u64,
        pipes: &PipeTable,
        env: &PollEnv,
    ) -> (r: Collected)
        requires
            self.wf(),
            pipes.wf(),
            env.task < NR_TASKS,
        ensures
            self.waited(epfd as int, buf, maxevents, deadline, pipes, env, r),
    {
        let i: usize = match self.fd_to_obj(env.task, epfd) {
            Some(i) => i,
            None => {
                return Collected::Failed(EBADF);
            },
        };
        if self.objs[i].kind != EvKind::Epoll {
            return Collected::Failed(EINVAL);
        }
        if maxevents == 0 || !buf {
            return Collected::Failed(EINVAL);
        }
        let r: Vec<EpollEvent> = self.epoll_collect(i, maxevents, pipes, env);
        if r.len() > 0 || env.now >= deadline {
            Collected::Events(r)
        } else {
            Collected::Wait
        }
    }

    /// Makes an object for notices of what happens in directories.
    pub fn inotify_init(&mut self, flags: u32) -> (r: i64)
        requires
            old(self).wf(),
        ensures
            final(self).wf(),
            old(self).created(final(self), fresh_obj(EvKind::Inotify, flags & NONBLOCK != 0), r),
    {
        self.create(EvKind::Inotify, flags)
    }

    /// Whether an object has notices.
    pub fn inotify_has_events(&self, idx: usize) -> (r: bool)
        requires
            self.wf(),
        ensures
            r == (idx < MAX_OBJS && self.notices@[idx as int]@.len() > 0),
    {
        idx < MAX_OBJS && self.notices[idx].len() > 0
    }
}

fn to_jiffies(sec: i64, nsec: i64) -> (r: u64)
    requires
        ticks(sec, nsec) <= u64::MAX,
    ensures
        r == ticks(sec, nsec),
{
    if sec < 0 || nsec < 0 {
        return 0;
    }
    let part: u64 = (nsec as u64 + (TICK_NSEC - 1)) / TICK_NSEC;
    let t: u64 = sec as u64 * HZ + part;
    if t == 0 {
        1
    } else {
        t
    }
}

/// Waiting from `now` for `timeout` milliseconds ends at `r`; a negative time never ends.
pub open spec fn waits_until(now: u64, timeout: i32, r: u64) -> bool {
    r == if timeout < 0 {
        u64::MAX as int
    } else {
        now + (timeout * HZ + 999) / 1000
    }
}

/// When waiting for `timeout` milliseconds ends; a negative time never does.
pub fn epoll_deadline(now: u64, timeout: i32) -> (r: u64)
    requires
        timeout >= 0 ==> now + (timeout * HZ + 999) / 1000 <= u64::MAX,
    ensures
        waits_until(now, timeout, r),
{
    if timeout < 0 {
        u64::MAX
    } else {
        now + (timeout as u64 * HZ + 999) / 1000
    }
}

/// Adding a watch for `path`, a path filled up with zero bytes: what it gives,
/// and how it changes the watches.
pub open spec fn watch_added(ws: Seq<Watch>, new: Seq<Watch>, path: Seq<u8>, mask: u32, wd: u32, r: i64) -> bool {
    let k = path_from(ws, path, 0);
    let f = free_watch_from(ws, 0);
    if k < ws.len() {
        r == ws[k].wd && new == ws.update(k, Watch { mask, ..ws[k] })
    } else if f < ws.len() {
        &&& r == wd
        &&& new == ws.update(f, new[f])
        &&& new[f].used && new[f].wd == wd && new[f].mask == mask && new[f].path@ == path
    } else {
        r == -ENOSPC && new == ws
    }
}

/// The notices of one object after something happened in `dir`.
pub open spec fn told(
    ws: Seq<Watch>,
    q: Seq<InotifyEvent>,
    new: Seq<InotifyEvent>,
    dir: Seq<u8>,
    mask: u32,
    name: Seq<u8>,
    cookie: u32,
) -> bool {
    let h = hit_from(ws, dir, mask, 0);
    if h < ws.len() {
        &&& is_notice(new.last(), ws[h].wd, mask, name, cookie)
        &&& new == noticed(q, new.last())
    } else {
        new == q
    }
}

fn fill_path(d: &[u8], n: usize) -> (r: [u8; 128])
    requires
        n <= d@.len(),
        n <= 128,
    ensures
        r@ == padded(d@.take(n as int), 128),
{
    let mut r: [u8; 128] = [0u8; 128];
    for i in 0..n
        invariant
            n <= d@.len(),
            n <= 128,
            r@ == padded(d@.take(i as int), 128),
    {
        r[i] = d[i];
        assert(r@ =~= padded(d@.take(i + 1), 128));
    }
    r
}

fn fill_name(d: &[u8], n: usize) -> (r: [u8; 64])
    requires
        n <= d@.len(),
        n <= 64,
    ensures
        r@ == padded(d@.take(n as int), 64),
{
    let mut r: [u8; 64] = [0u8; 64];
    for i in 0..n
        invariant
            n <= d@.len(),
            n <= 64,
            r@ == padded(d@.take(i as int), 64),
    {
        r[i] = d[i];
        assert(r@ =~= padded(d@.take(i + 1), 64));
    }
    r
}

proof fn lemma_cut_before(s: Seq<u8>, n: int)
    requires
        0 <= n < s.len(),
        s[n] == 0,
    ensures
        cut_at_zero(s).len() <= n,
    decreases n,
{
    if n > 0 && s[0] != 0 {
        assert(s.skip(1)[n - 1] == 0);
        lemma_cut_before(s.skip(1), n - 1);
    }
}

impl EventTable {
    /// Watching a directory: what it gives, and what it does.
    pub open spec fn watch_did(&self, new: &EventTable, task: int, fd: int, path: Option<Seq<u8>>, mask: u32, r: i64) -> bool {
        match (self.obj_of(task, fd), path) {
            (Some(i), Some(p)) if self.objs@[i].kind == EvKind::Inotify && mask != 0
                && cut_at_zero(p).len() < MAX_WATCH_PATH => {
                let full = padded(cut_at_zero(p), 128);
                let ws = self.watches@[i]@;
                &&& watch_added(ws, new.watches@[i]@, full, mask, self.next_wd, r)
                &&& new.watches@ == self.watches@.update(i, new.watches@[i])
                &&& *new == (EventTable {
                    watches: new.watches,
                    next_wd: if path_from(ws, full, 0) == 8 && free_watch_from(ws, 0) < 8 {
                        (self.next_wd + 1) as u32
                    } else {
                        self.next_wd
                    },
                    ..*self
                })
            },
            (o, p) => {
                &&& r == if o is None {
                    -EBADF
                } else if self.objs@[o->0].kind != EvKind::Inotify || p is None || mask == 0 {
                    -EINVAL
                } else {
                    -ENAMETOOLONG
                }
                &&& *new == *self
            },
        }
    }

    /// Watches a directory; a second watch for the same path takes the place
    /// of the first and keeps its number.
    pub fn inotify_add_watch(&mut self, task: usize, fd: usize, path: Option<&[u8]>, mask: u32) -> (r: i64)
        requires
            old(self).wf(),
            task < NR_TASKS,
            old(self).next_wd < u32::MAX,
        ensures
            final(self).wf(),
            old(self).watch_did(final(self), task as int, fd as int, match path {
                Some(p) => Some(p@),
                None => None,
            }, mask, r),
    {
        let i: usize = match self.fd_to_obj(task, fd) {
            Some(i) => i,
            None => {
                return -(EBADF as i64);
            },
        };
        if self.objs[i].kind != EvKind::Inotify || mask == 0 {
            return -(EINVAL as i64);
        }
        let p: &[u8] = match path {
            Some(p) => p,
            None => {
                return -(EINVAL as i64);
            },
        };
        let n: usize = zero_at(p);
        if n >= MAX_WATCH_PATH {
            return -(ENAMETOOLONG as i64);
        }
        let full: [u8; 128] = fill_path(p, n);
        let mut ws = self.watches[i];
        let ghost ws0 = ws@;
        for k in 0..MAX_WATCHES
            invariant
                ws@ == ws0,
                i < MAX_OBJS,
                self.wf(),
                *self == *old(self),
                ws0 == old(self).watches@[i as int]@,
                path_from(ws0, full@, 0) == path_from(ws0, full@, k as int),
                path is Some && full@ == padded(cut_at_zero(path->0@), 128),
                old(self).objs@[i as int].kind == EvKind::Inotify,
                mask != 0,
                cut_at_zero(path->0@).len() < MAX_WATCH_PATH,
                old(self).obj_of(task as int, fd as int) == Some(i as int),
        {
            let mut w: Watch = ws[k];
            if w.used && same_bytes(w.path.as_slice(), full.as_slice()) {
                let wd: u32 = w.wd;
                w.mask = mask;
                ws[k] = w;
                self.watches.set(i, ws);
                assert(ws@ =~= ws0.update(k as int, Watch { mask, ..ws0[k as int] }));
                assert(self.watches@ =~= old(self).watches@.update(i as int, ws));
                return wd as i64;
            }
        }
        for k in 0..MAX_WATCHES
            invariant
                ws@ == ws0,
                i < MAX_OBJS,
                self.wf(),
                *self == *old(self),
                self.next_wd < u32::MAX,
                ws0 == old(self).watches@[i as int]@,
                path_from(ws0, full@, 0) == 8,
                free_watch_from(ws0, 0) == free_watch_from(ws0, k as int),
                path is Some && full@ == padded(cut_at_zero(path->0@), 128),
                old(self).objs@[i as int].kind == EvKind::Inotify,
                mask != 0,
                cut_at_zero(path->0@).len() < MAX_WATCH_PATH,
                old(self).obj_of(task as int, fd as int) == Some(i as int),
        {
            if !ws[k].used {
                let wd: u32 = self.next_wd;
                self.next_wd = wd + 1;
                ws[k] = Watch { used: true, wd, mask, path: full };
                self.watches.set(i, ws);
                assert(ws@ =~= ws0.update(k as int, ws@[k as int]));
                assert(self.watches@ =~= old(self).watches@.update(i as int, ws));
                return wd as i64;
            }
        }
        assert(self.watches@ =~= old(self).watches@.update(i as int, self.watches@[i as int]));
        -(ENOSPC as i64)
    }

    /// Ending a watch: what it gives, and what it does.
    pub open spec fn unwatch_did(&self, new: &EventTable, task: int, fd: int, wd: u32, r: i64) -> bool {
        match self.obj_of(task, fd) {
            Some(i) if wd_from(self.watches@[i]@, wd, 0) < MAX_WATCHES => {
                let k = wd_from(self.watches@[i]@, wd, 0);
                let w = new.watches@[i]@[k];
                &&& r == 0
                &&& *new == (EventTable { watches: new.watches, ..*self })
                &&& new.watches@ == self.watches@.update(i, new.watches@[i])
                &&& new.watches@[i]@ == self.watches@[i]@.update(k, w)
                &&& !w.used && w.wd == 0 && w.mask == 0 && w.path@ == zeros(128)
            },
            o => {
                &&& r == if o is None {
                    -EBADF
                } else {
                    -EINVAL
                }
                &&& *new == *self
            },
        }
    }

    /// Ends a watch.
    pub fn inotify_rm_watch(&mut self, task: usize, fd: usize, wd: u32) -> (r: i64)
        requires
            old(self).wf(),
            task < NR_TASKS,
        ensures
            final(self).wf(),
            old(self).unwatch_did(final(self), task as int, fd as int, wd, r),
    {
        let i: usize = match self.fd_to_obj(task, fd) {
            Some(i) => i,
            None => {
                return -(EBADF as i64);
            },
        };
        let mut ws = self.watches[i];
        let ghost ws0 = ws@;
        for k in 0..MAX_WATCHES
            invariant
                ws@ == ws0,
                i < MAX_OBJS,
                self.wf(),
                *self == *old(self),
                ws0 == old(self).watches@[i as int]@,
                wd_from(ws0, wd, 0) == wd_from(ws0, wd, k as int),
                old(self).obj_of(task as int, fd as int) == Some(i as int),
        {
            if ws[k].used && ws[k].wd == wd {
                let w = Watch { used: false, wd: 0, mask: 0, path: [0u8; 128] };
                assert(w.path@ =~= zeros(128));
                ws[k] = w;
                self.watches.set(i, ws);
                assert(ws@ =~= ws0.update(k as int, w));
                assert(self.watches@ =~= old(self).watches@.update(i as int, ws));
                return 0;
            }
        }
        -(EINVAL as i64)
    }

    /// The first watch of object `i` for what happens in `dir`.
    fn find_hit(&self, i: usize, dir: &[u8], mask: u32) -> (r: Option<usize>)
        requires
            self.wf(),
            i < MAX_OBJS,
        ensures
            match r {
                Some(k) => k < 8 && hit_from(self.watches@[i as int]@, dir@, mask, 0) == k,
                None => hit_from(self.watches@[i as int]@, dir@, mask, 0) == 8,
            },
    {
        let end: usize = zero_at(dir);
        let short: Vec<u8> = copy_range(dir, 0, end);
        assert(short@ =~= dir@.take(end as int));
        for k in 0..MAX_WATCHES
            invariant
                self.wf(),
                i < MAX_OBJS,
                short@ == cut_at_zero(dir@),
                hit_from(self.watches@[i as int]@, dir@, mask, 0) == hit_from(
                    self.watches@[i as int]@,
                    dir@,
                    mask,
                    k as int,
                ),
        {
            let w: Watch = self.watches[i][k];
            if w.used && w.mask & mask != 0 {
                let n: usize = zero_at(w.path.as_slice());
                let p: Vec<u8> = copy_range(w.path.as_slice(), 0, n);
                assert(p@ =~= w.path@.take(n as int));
                if same_bytes(p.as_slice(), short.as_slice()) {
                    return Some(k);
                }
            }
        }
        None
    }

    /// Telling what happened to `name` in `dir`: every object that watches for it gets a notice.
    pub open spec fn notified(&self, new: &EventTable, dir: Seq<u8>, mask: u32, name: Seq<u8>, cookie: u32) -> bool {
        &&& *new == (EventTable { notices: new.notices, ..*self })
        &&& (forall|i: int| 0 <= i < MAX_OBJS ==> told(
            self.watches@[i]@,
            self.notices@[i]@,
            (#[trigger] new.notices@[i])@,
            dir,
            mask,
            name,
            cookie,
        ))
    }

    /// Tells every object that watches `dir` for it what happened to `name`.
    pub fn inotify_notify(&mut self, dir: &[u8], mask: u32, name: &[u8], cookie: u32)
        requires
            old(self).wf(),
        ensures
            final(self).wf(),
            old(self).notified(final(self), dir@, mask, name@, cookie),
    {
        let n: usize = if name.len() < MAX_EV_NAME - 1 {
            name.len()
        } else {
            MAX_EV_NAME - 1
        };
        let full: [u8; 64] = fill_name(name, n);
        proof {
            lemma_cut_before(full@, 63);
        }
        for i in 0..MAX_OBJS
            invariant
                self.wf(),
                *self == (EventTable { notices: self.notices, ..*old(self) }),
                old(self).wf(),
                full@ == padded(name@.take(least(name@.len() as int, 63)), 64),
                cut_at_zero(full@).len() < 64,
                forall|j: int| 0 <= j < i ==> told(
                    old(self).watches@[j]@,
                    old(self).notices@[j]@,
                    (#[trigger] self.notices@[j])@,
                    dir@,
                    mask,
                    name@,
                    cookie,
                ),
                forall|j: int| i <= j < MAX_OBJS ==> #[trigger] self.notices@[j] == old(self).notices@[j],
        {
            match self.find_hit(i, dir, mask) {
                None => {},
                Some(k) => {
                    let wd: u32 = self.watches[i][k].wd;
                    let e = InotifyEvent { wd, mask, cookie, name: full };
                    let ghost q0 = self.notices@[i as int]@;
                    let ghost t0 = *self;
                    if self.notices[i].len() >= MAX_INOTIFY_EVENTS {
                        self.notices[i].remove(0);
                        assert(self.notices@[i as int]@ =~= q0.skip(1));
                    }
                    self.notices[i].push(e);
                    assert(self.notices@[i as int]@ == noticed(q0, e));
                    assert(self.notices@[i as int]@.last() == e);
                    assert forall|a: int, b: int|
                        0 <= a < MAX_OBJS && 0 <= b < self.notices@[a]@.len() implies cut_at_zero(
                        (#[trigger] self.notices@[a]@[b]).name@,
                    ).len() < MAX_EV_NAME by {
                        if a != i {
                            assert(self.notices@[a]@[b] == t0.notices@[a]@[b]);
                        } else if b < self.notices@[a]@.len() - 1 {
                            if q0.len() >= MAX_INOTIFY_EVENTS {
                                assert(self.notices@[a]@[b] == t0.notices@[a]@[b + 1]);
                            } else {
                                assert(self.notices@[a]@[b] == t0.notices@[a]@[b]);
                            }
                        }
                    }
                },
            }
        }
    }

    /// Reads as many notices as fit into a buffer, the oldest first.
    pub fn inotify_read(&mut self, task: usize, fd: usize, buf: &mut Vec<u8>) -> (r: i64)
        requires
            old(self).wf(),
            task < NR_TASKS,
        ensures
            final(self).wf(),
            old(self).notices_taken(final(self), task as int, fd as int, old(buf)@, final(buf)@, r as int),
    {
        let i: usize = match self.fd_to_obj(task, fd) {
            Some(i) => i,
            None => {
                return -(EBADF as i64);
            },
        };
        let ghost q = self.notices@[i as int]@;
        let ghost b0 = buf@;
        let n: usize = self.notices[i].len();
        let cap: usize = buf.len();
        assert(self.notices@[i as int]@.len() <= MAX_INOTIFY_EVENTS);
        assert(self.notices@ =~= old(self).notices@.update(i as int, self.notices@[i as int]));
        if n == 0 {
            return -(EAGAIN as i64);
        }
        let mut k: usize = 0;
        let mut off: usize = 0;
        while k < n
            invariant_except_break
                fit_from(q, cap as int, 0) == fit_from(q, cap as int, k as int),
            invariant
                self.wf(),
                *self == *old(self),
                i < MAX_OBJS,
                q == self.notices@[i as int]@,
                n == q.len(),
                k <= n <= 16,
                off == records_size(q, k as int),
                off <= cap,
                cap == b0.len(),
                buf@ == with_records(b0, q, k as int),
                buf@.len() == cap,
            ensures
                k == fit_from(q, cap as int, 0),
            decreases n - k,
        {
            let e: InotifyEvent = self.notices[i][k];
            assert(e == q[k as int]);
            assert(cut_at_zero(self.notices@[i as int]@[k as int].name@).len() < MAX_EV_NAME);
            let nlen: usize = zero_at(e.name.as_slice()) + 1;
            let rec: usize = 16 + (nlen + 15) / 16 * 16;
            assert(rec == record_size(e));
            if rec > cap - off {
                break;
            }
            put_le32(buf, off, e.wd);
            put_le32(buf, off + 4, e.mask);
            put_le32(buf, off + 8, e.cookie);
            put_le32(buf, off + 12, nlen as u32);
            let name: Vec<u8> = copy_range(e.name.as_slice(), 0, nlen);
            assert(name@ =~= e.name@.take(nlen as int));
            put_bytes(buf, off + 16, name.as_slice());
            assert(buf@ == with_record(with_records(b0, q, k as int), off as int, e));
            off = off + rec;
            k = k + 1;
        }
        if k == 0 {
            assert(buf@ =~= b0);
            return -(EINVAL as i64);
        }
        let mut rest: Vec<InotifyEvent> = Vec::new();
        for j in k..n
            invariant
                i < MAX_OBJS,
                self.wf(),
                q == self.notices@[i as int]@,
                n == q.len(),
                k <= n,
                rest@ == q.subrange(k as int, j as int),
        {
            rest.push(self.notices[i][j]);
        }
        assert(rest@ =~= q.skip(k as int));
        let ghost t0 = *self;
        self.notices.set(i, rest);
        assert(self.notices@ =~= old(self).notices@.update(i as int, rest));
        assert forall|a: int, b: int| 0 <= a < MAX_OBJS && 0 <= b < self.notices@[a]@.len() implies cut_at_zero(
            (#[trigger] self.notices@[a]@[b]).name@,
        ).len() < MAX_EV_NAME by {
            if a != i {
                assert(self.notices@[a]@[b] == t0.notices@[a]@[b]);
            } else {
                assert(self.notices@[a]@[b] == t0.notices@[a]@[b + k]);
            }
        }
        proof {
            lemma_records_bound(q, k as int);
        }
        off as i64
    }
}

proof fn lemma_records_bound(q: Seq<InotifyEvent>, k: int)
    requires
        0 <= k <= q.len() <= 16,
        forall|j: int| 0 <= j < q.len() ==> cut_at_zero((#[trigger] q[j]).name@).len() < 64,
    ensures
        records_size(q, k) <= 80 * k,
    decreases k,
{
    if k > 0 {
        lemma_records_bound(q, k - 1);
        assert(cut_at_zero(q[k - 1].name@).len() < 64);
    }
}

/// How an attempt that came to `r` ends: where it would have to be tried again,
/// the caller waits, unless that is not wanted.
pub open spec fn ends_as(nonblock: bool, r: i64, a: Attempt) -> bool {
    if r == -EAGAIN && !nonblock {
        a is Wait
    } else {
        a == Attempt::Done(r)
    }
}

fn end_of(nonblock: bool, r: i64) -> (a: Attempt)
    ensures
        ends_as(nonblock, r, a),
{
    if r == -(EAGAIN as i64) && !nonblock {
        Attempt::Wait
    } else {
        Attempt::Done(r)
    }
}

impl EventTable {
    /// What an attempt to read a descriptor comes to.
    pub open spec fn read_did(&self, new: &EventTable, env: (int, int, u64, u32), b0: Seq<u8>, b1: Seq<u8>, s0: u64, s1: u64, a: Attempt) -> bool {
        match self.obj_of(env.0, env.1) {
            None => {
                &&& a == Attempt::Done(-EBADF as i64)
                &&& *new == *self
                &&& b1 == b0
                &&& s1 == s0
            },
            Some(i) => exists|r: i64|
                {
                    &&& #[trigger] ends_as(self.objs@[i].nonblock, r, a)
                    &&& self.object_read(
                        new,
                        env,
                        i,
                        b0,
                        b1,
                        s0,
                        s1,
                        r as int,
                    )
                },
        }
    }

    /// One attempt to read a descriptor into a buffer.
    pub fn read(
        &mut self,
        task: usize,
        fd: usize,
        buf: &mut Vec<u8>,
        signal: &mut u64,
        pid: u32,
        now: u64,
    ) -> (a: Attempt)
        requires
            old(self).wf(),
            task < NR_TASKS,
            old(self).obj_of(task as int, fd as int) is Some ==> {
                let o = old(self).objs@[old(self).obj_of(task as int, fd as int)->0];
                o.kind == EvKind::Timer ==> timer_fits(o, now)
            },
        ensures
            final(self).wf(),
            old(self).read_did(final(self), (task as int, fd as int, now, pid), old(buf)@, final(buf)@, *old(signal), *final(signal), a),
    {
        let i: usize = match self.fd_to_obj(task, fd) {
            Some(i) => i,
            None => {
                return Attempt::Done(-(EBADF as i64));
            },
        };
        let kind: EvKind = self.objs[i].kind;
        let nonblock: bool = self.objs[i].nonblock;
        let r: i64 = match kind {
            EvKind::Event => self.eventfd_read(task, fd, buf),
            EvKind::Timer => self.timerfd_read(task, fd, buf, now),
            EvKind::Signal => self.signalfd_read(task, fd, buf, signal, pid),
            EvKind::Inotify => self.inotify_read(task, fd, buf),
            EvKind::Epoll => -(EINVAL as i64),
        };
        end_of(nonblock, r)
    }

    /// What an attempt to write to a descriptor comes to.
    pub open spec fn write_did(&self, new: &EventTable, task: int, fd: int, add: u64, len: int, a: Attempt) -> bool {
        match self.obj_of(task, fd) {
            Some(i) if self.objs@[i].kind == EvKind::Event && len >= 8 => {
                match counted(self.objs@[i].val, add) {
                    Some(v) => {
                        &&& a == Attempt::Done(8)
                        &&& self.changed(new, i, EvObj { val: v, ..self.objs@[i] })
                    },
                    None => {
                        &&& ends_as(self.objs@[i].nonblock, -EAGAIN as i64, a)
                        &&& *new == *self
                    },
                }
            },
            o => {
                &&& a == Attempt::Done(
                    if o is None {
                        -EBADF as i64
                    } else {
                        -EINVAL as i64
                    },
                )
                &&& *new == *self
            },
        }
    }

    /// One attempt to write the number in the first eight of `len` bytes to a
    /// descriptor, which has to be a counter.
    pub fn write(&mut self, task: usize, fd: usize, add: u64, len: usize) -> (a: Attempt)
        requires
            old(self).wf(),
            task < NR_TASKS,
        ensures
            final(self).wf(),
            old(self).write_did(final(self), task as int, fd as int, add, len as int, a),
    {
        let i: usize = match self.fd_to_obj(task, fd) {
            Some(i) => i,
            None => {
                return Attempt::Done(-(EBADF as i64));
            },
        };
        let nonblock: bool = self.objs[i].nonblock;
        if self.objs[i].kind != EvKind::Event {
            return Attempt::Done(-(EINVAL as i64));
        }
        let r: i64 = self.eventfd_write(task, fd, add, len);
        end_of(nonblock, r)
    }
}

} // verus!
