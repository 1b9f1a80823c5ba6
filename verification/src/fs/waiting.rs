//! What holds of descriptors without files, and of waiting for them.

use crate::bytes::{
    cut_at_zero, le32, le64, least, lemma_with_le32, lemma_with_le64, overlay, padded, with_le32,
    zeros,
};
use crate::errno::{EAGAIN, EEXIST, EINVAL, EMFILE, ENOENT, ENOSPC};
use crate::fs::event::{
    expirations, fit_from, free_from, free_interest_from, free_watch_from, hit_from, in_use,
    interest_from, is_hit, name_size, path_from, record_size, records_size, revents, ticks, told,
    waits_until, wd_from, with_record, with_records, controlled, Attempt, Collected, EpollEvent,
    EpollInterest, EvKind, EvObj, EventTable, InotifyEvent, ItimerSpec, PollEnv, Watch, EPOLLHUP,
    EPOLLIN, EPOLLOUT, EPOLL_CTL_ADD, EPOLL_CTL_DEL, EPOLL_CTL_MOD,
};
use crate::fs::pipe::{
    poll_status, PipeRead, PipeTable, PipeWrite, PIPE_DIR_READ, PIPE_DIR_WRITE, NR_TASKS,
};
use vstd::prelude::*;

verus! {

// ---- timers ----

/// A timer that was started at `now` can be read at a later tick exactly where the
/// nanoseconds that were asked for have passed by then.
pub proof fn lemma_timer_runs_out(
    t0: &EventTable,
    t1: &EventTable,
    pipes: &PipeTable,
    env: &PollEnv,
    fd: int,
    spec: ItimerSpec,
    now: u64,
    r: i64,
)
    requires
        t0.wf(),
        t0.timer_set(t1, env.task as int, fd, spec, now, r),
        r == 0,
        env.task < NR_TASKS,
        pipes.pipe_of(env.task as int, fd) is None,
        t0.objs@[t0.obj_of(env.task as int, fd)->0].kind == EvKind::Timer,
        spec.it_value_sec >= 0,
        spec.it_value_nsec >= 0,
        spec.it_value_sec > 0 || spec.it_value_nsec > 0,
        now + 100 * spec.it_value_sec + spec.it_value_nsec + 1 <= u64::MAX,
        now <= env.now,
    ensures
        t1.ready(pipes, env, fd).0 <==> (env.now - now) * 10_000_000 >= spec.it_value_sec * 1_000_000_000
            + spec.it_value_nsec,
{
    let i = t0.obj_of(env.task as int, fd)->0;
    assert(0 <= t0.fds@[env.task as int]@[fd] <= 16);
    assert(t1.obj_of(env.task as int, fd) == Some(i));
    let n = spec.it_value_nsec as int;
    assert((n + 9_999_999) / 10_000_000 <= n);
}

/// A timer that was stopped, by a time below zero, cannot be read at any tick.
pub proof fn lemma_timer_stopped(
    t0: &EventTable,
    t1: &EventTable,
    pipes: &PipeTable,
    env: &PollEnv,
    fd: int,
    spec: ItimerSpec,
    now: u64,
    r: i64,
)
    requires
        t0.wf(),
        t0.timer_set(t1, env.task as int, fd, spec, now, r),
        r == 0,
        env.task < NR_TASKS,
        pipes.pipe_of(env.task as int, fd) is None,
        t0.objs@[t0.obj_of(env.task as int, fd)->0].kind == EvKind::Timer,
        spec.it_value_sec < 0 || spec.it_value_nsec < 0,
    ensures
        !t1.ready(pipes, env, fd).0,
{
    let i = t0.obj_of(env.task as int, fd)->0;
    assert(0 <= t0.fds@[env.task as int]@[fd] <= 16);
    assert(t1.obj_of(env.task as int, fd) == Some(i));
}

/// What is told of a timer that was started: the nanoseconds that are left of its
/// ticks, and how far apart it runs out, both in whole ticks.
pub proof fn lemma_time_left(
    t0: &EventTable,
    t1: &EventTable,
    task: int,
    fd: int,
    spec: ItimerSpec,
    now: u64,
    r: i64,
    then: u64,
    told: Result<ItimerSpec, i32>,
)
    requires
        t0.wf(),
        0 <= task < NR_TASKS,
        t0.timer_set(t1, task, fd, spec, now, r),
        r == 0,
        t1.timer_told(task, fd, then, told),
        spec.it_value_sec >= 0,
        spec.it_value_nsec >= 0,
        spec.it_interval_sec >= 0,
        spec.it_interval_nsec >= 0,
        spec.it_value_sec > 0 || spec.it_value_nsec > 0,
        spec.it_interval_sec > 0 || spec.it_interval_nsec > 0,
        spec.it_value_sec <= 0xFFFF_FFFF_FFFF,
        spec.it_value_nsec < 1_000_000_000,
        spec.it_interval_sec <= 0xFFFF_FFFF_FFFF,
        spec.it_interval_nsec < 1_000_000_000,
        now <= then,
        now <= 0x7FFF_FFFF_FFFF_FFFF,
    ensures
        told is Ok,
        ({
            let x = told->Ok_0;
            let asked = spec.it_value_sec * 1_000_000_000 + spec.it_value_nsec;
            let left = x.it_value_sec * 1_000_000_000 + x.it_value_nsec;
            let passed = (then - now) * 10_000_000;
            let apart = x.it_interval_sec * 1_000_000_000 + x.it_interval_nsec;
            let wanted = spec.it_interval_sec * 1_000_000_000 + spec.it_interval_nsec;
            &&& 0 <= x.it_value_nsec < 1_000_000_000
            &&& 0 <= x.it_interval_nsec < 1_000_000_000
            &&& passed < asked ==> 0 <= left + passed - asked < 10_000_000
            &&& passed >= asked ==> left == 0
            &&& 0 <= apart - wanted < 10_000_000
        }),
{
    let i = t0.obj_of(task, fd)->0;
    assert(0 <= t0.fds@[task]@[fd] <= 16);
    assert(t1.obj_of(task, fd) == Some(i));
}

/// What reading a timer gives is how often it has run out: that many times, and no
/// more, its moment had come by `now`. It then waits for the next moment.
pub proof fn lemma_timer_count(
    t0: &EventTable,
    t1: &EventTable,
    task: int,
    fd: int,
    b0: Seq<u8>,
    b1: Seq<u8>,
    now: u64,
    r: int,
)
    requires
        t0.timer_read(t1, task, fd, b0, b1, now, r),
        t0.wf(),
        0 <= task < NR_TASKS,
        r > 0,
        t0.obj_of(task, fd) is Some ==> crate::fs::event::timer_fits(
            t0.objs@[t0.obj_of(task, fd)->0],
            now,
        ),
    ensures
        r == 8,
        t0.obj_of(task, fd) is Some,
        ({
            let o = t0.objs@[t0.obj_of(task, fd)->0];
            let o1 = t1.objs@[t0.obj_of(task, fd)->0];
            let n = le64(b1, 0);
            &&& n >= 1
            &&& o.deadline + (n - 1) * o.interval <= now
            &&& o.interval > 0 ==> now < o.deadline + n * o.interval
            &&& o.interval > 0 ==> o1.deadline == o.deadline + n * o.interval
            &&& o.interval == 0 ==> n == 1 && o1.deadline == 0
            &&& o1.interval == o.interval
        }),
        b1.skip(8) == b0.skip(8),
{
    let i = t0.obj_of(task, fd)->0;
    assert(0 <= t0.fds@[task]@[fd] <= 16);
    let o = t0.objs@[i];
    let e = expirations(o, now);
    if o.interval > 0 {
        let iv = o.interval as int;
        let d = now - o.deadline;
        vstd::arithmetic::div_mod::lemma_fundamental_div_mod(d, iv);
        assert(0 <= d % iv < iv) by (nonlinear_arith)
            requires
                iv > 0,
        ;
        assert((d / iv + 1) * iv == iv * (d / iv) + iv) by (nonlinear_arith);
        assert((e - 1) * iv == iv * (d / iv)) by (nonlinear_arith)
            requires
                e == d / iv + 1,
        ;
        assert(d / iv >= 0) by (nonlinear_arith)
            requires
                d >= 0,
                iv > 0,
        ;
    }
    lemma_with_le64(b0, 0, e as u64);
    assert(b1.skip(8) =~= b0.skip(8));
}

// ---- counters ----

/// What was written to a counter is what a read gives, added to what was in it;
/// another read finds nothing.
pub proof fn lemma_counter(
    t0: &EventTable,
    t1: &EventTable,
    t2: &EventTable,
    t3: &EventTable,
    task: int,
    fd: int,
    add: u64,
    w: i64,
    b0: Seq<u8>,
    b1: Seq<u8>,
    r: int,
    b2: Seq<u8>,
    again: int,
)
    requires
        t0.wf(),
        0 <= task < NR_TASKS,
        t0.counter_written(t1, task, fd, add, 8, w),
        w == 8,
        add > 0,
        t1.counter_read(t2, task, fd, b0, b1, r),
        b0.len() >= 8,
        t2.counter_read(t3, task, fd, b1, b2, again),
    ensures
        r == 8,
        t0.obj_of(task, fd) is Some,
        le64(b1, 0) == t0.objs@[t0.obj_of(task, fd)->0].val + add,
        b1.skip(8) == b0.skip(8),
        again == -EAGAIN,
        b2 == b1,
        *t3 == *t2,
        forall|j: int|
            0 <= j < 16 && j != t0.obj_of(task, fd)->0 ==> #[trigger] t2.objs@[j] == t0.objs@[j],
        t2.objs@[t0.obj_of(task, fd)->0] == (EvObj { val: 0, ..t0.objs@[t0.obj_of(task, fd)->0] }),
{
    let i = t0.obj_of(task, fd)->0;
    assert(0 <= t0.fds@[task]@[fd] <= 16);
    assert(t1.obj_of(task, fd) == Some(i));
    assert(t2.obj_of(task, fd) == Some(i));
    let v = t1.objs@[i].val;
    lemma_with_le64(b0, 0, v);
    assert(b1.skip(8) =~= b0.skip(8));
}

/// A counter takes a number exactly where the sum stays below the largest number;
/// where it does not, nothing changes.
pub proof fn lemma_counter_full(t0: &EventTable, t1: &EventTable, task: int, fd: int, add: u64, w: i64)
    requires
        t0.wf(),
        0 <= task < NR_TASKS,
        t0.obj_of(task, fd) is Some,
        t0.counter_written(t1, task, fd, add, 8, w),
    ensures
        w == 8 <==> t0.objs@[t0.obj_of(task, fd)->0].val + add < 0xFFFF_FFFF_FFFF_FFFF,
        w != 8 ==> w == -EAGAIN && *t1 == *t0,
{
    assert(0 <= t0.fds@[task]@[fd] <= 16);
}

// ---- signals ----

proof fn lemma_bits_of(x: u64, y: u64, n: u64, k: u64)
    by (bit_vector)
    requires
        n < 64,
        k < 64,
    ensures
        (((x & !(1u64 << n)) >> k) & 1 == 1) == ((x >> k) & 1 == 1 && k != n),
        ((x & y) >> k) & 1 == ((x >> k) & 1) & ((y >> k) & 1),
        (x >> k) & 1 == 0 || (x >> k) & 1 == 1,
{
}

proof fn lemma_one_bit(a: u64, b: u64)
    by (bit_vector)
    requires
        a == 0 || a == 1,
        b == 0 || b == 1,
    ensures
        a & b == 1 <==> a == 1 && b == 1,
{
}

/// What reading signals gives is the lowest signal that is pending and asked for.
/// It is pending no more, and the others are as before.
pub proof fn lemma_lowest_signal(
    t: &EventTable,
    task: int,
    fd: int,
    b0: Seq<u8>,
    b1: Seq<u8>,
    s0: u64,
    s1: u64,
    pid: u32,
    r: int,
)
    requires
        t.wf(),
        0 <= task < NR_TASKS,
        t.signal_read(task, fd, b0, b1, s0, s1, pid, r),
        r > 0,
    ensures
        r == 128,
        ({
            let mask = t.objs@[t.obj_of(task, fd)->0].sigmask;
            let n = le32(b1, 0) as u64;
            &&& n < 64
            &&& (s0 >> n) & 1 == 1 && (mask >> n) & 1 == 1
            &&& forall|k: u64|
                k < n ==> !((#[trigger] (s0 >> k)) & 1 == 1 && (mask >> k) & 1 == 1)
            &&& forall|k: u64|
                k < 64 ==> ((#[trigger] (s1 >> k)) & 1 == 1) == ((s0 >> k) & 1 == 1 && k != n)
        }),
        le32(b1, 12) == pid,
        forall|p: int| 16 <= p < 128 ==> #[trigger] b1[p] == 0,
        b1.skip(128) == b0.skip(128),
{
    assert(0 <= t.fds@[task]@[fd] <= 16);
    let mask = t.objs@[t.obj_of(task, fd)->0].sigmask;
    let p = s0 & mask;
    let n = p.trailing_zeros();
    vstd::std_specs::bits::axiom_u64_trailing_zeros(p);
    let z = with_le32(zeros(128), 0, n);
    lemma_with_le32(zeros(128), 0, n);
    lemma_with_le32(z, 12, pid);
    let w = with_le32(z, 12, pid);
    assert(w[0] == z[0] && w[1] == z[1] && w[2] == z[2] && w[3] == z[3]);
    assert forall|q: int| 0 <= q < 128 implies b1[q] == w[q] by {}
    assert(le32(b1, 0) == n);
    assert(le32(b1, 12) == pid);
    assert forall|q: int| 16 <= q < 128 implies #[trigger] b1[q] == 0 by {
        assert(w[q] == z[q]);
    }
    assert(b1.skip(128) =~= b0.skip(128));
    assert(n < 64) by {
        if n >= 64 {
            assert(p == 0);
        }
    }
    let m = n as u64;
    assert((p >> m) & 1 == 1);
    lemma_bits_of(s0, mask, m, m);
    lemma_bits_of(mask, s0, m, m);
    lemma_one_bit((s0 >> m) & 1, (mask >> m) & 1);
    assert forall|k: u64| k < m implies !((#[trigger] (s0 >> k)) & 1 == 1 && (mask >> k) & 1 == 1) by {
        lemma_bits_of(s0, mask, m, k);
        lemma_bits_of(mask, s0, m, k);
        lemma_one_bit((s0 >> k) & 1, (mask >> k) & 1);
        assert((p >> k) & 1 == 0);
    }
    assert forall|k: u64| k < 64 implies ((#[trigger] (s1 >> k)) & 1 == 1) == ((s0 >> k) & 1 == 1 && k
        != m) by {
        lemma_bits_of(s0, mask, m, k);
    }
}

// ---- what is ready ----

proof fn lemma_fit_from(q: Seq<InotifyEvent>, cap: int, k: int)
    requires
        0 <= k <= q.len(),
        records_size(q, k) <= cap,
    ensures
        k <= fit_from(q, cap, k) <= q.len(),
        records_size(q, fit_from(q, cap, k)) <= cap,
        fit_from(q, cap, k) < q.len() ==> records_size(q, fit_from(q, cap, k) + 1) > cap,
    decreases q.len() - k,
{
    if k < q.len() && records_size(q, k + 1) <= cap {
        lemma_fit_from(q, cap, k + 1);
    }
}

proof fn lemma_records_grow(q: Seq<InotifyEvent>, a: int, b: int)
    requires
        0 <= a <= b <= q.len(),
    ensures
        0 <= records_size(q, a),
        records_size(q, a) + 32 * (b - a) <= records_size(q, b),
    decreases b,
{
    if a < b {
        lemma_records_grow(q, a, b - 1);
    } else if a > 0 {
        lemma_records_grow(q, a - 1, a - 1);
    }
}

/// A descriptor that leads to a counter, a timer, signals or notices is told as
/// readable exactly where reading it gives something; where it is not, reading it
/// says to try again.
pub proof fn lemma_readable(
    t: &EventTable,
    new: &EventTable,
    pipes: &PipeTable,
    env: &PollEnv,
    fd: int,
    pid: u32,
    b0: Seq<u8>,
    b1: Seq<u8>,
    s1: u64,
    r: int,
)
    requires
        t.wf(),
        env.task < NR_TASKS,
        pipes.pipe_of(env.task as int, fd) is None,
        t.obj_of(env.task as int, fd) is Some,
        t.objs@[t.obj_of(env.task as int, fd)->0].kind != EvKind::Epoll,
        b0.len() >= 128,
        t.object_read(
            new,
            (env.task as int, fd, env.now, pid),
            t.obj_of(env.task as int, fd)->0,
            b0,
            b1,
            env.signal,
            s1,
            r,
        ),
    ensures
        t.ready(pipes, env, fd).0 <==> r > 0,
        !t.ready(pipes, env, fd).0 <==> r == -EAGAIN,
{
    let i = t.obj_of(env.task as int, fd)->0;
    assert(0 <= t.fds@[env.task as int]@[fd] <= 16);
    if t.objs@[i].kind == EvKind::Inotify {
        let q = t.notices@[i]@;
        if q.len() > 0 {
            assert(cut_at_zero(t.notices@[i]@[0].name@).len() < 64);
            assert(records_size(q, 1) == records_size(q, 0) + record_size(q[0]));
            lemma_fit_from(q, b0.len() as int, 0);
            lemma_records_grow(q, 0, fit_from(q, b0.len() as int, 0));
        }
    }
}

/// A counter into which something was written, a timer whose moment has come, a
/// pending signal that is asked for and a notice make a descriptor readable, and
/// nothing else does; every one of them can be written.
pub proof fn lemma_ready_when(t: &EventTable, pipes: &PipeTable, env: &PollEnv, fd: int)
    requires
        t.wf(),
        env.task < NR_TASKS,
        pipes.pipe_of(env.task as int, fd) is None,
        t.obj_of(env.task as int, fd) is Some,
    ensures
        ({
            let i = t.obj_of(env.task as int, fd)->0;
            let o = t.objs@[i];
            let (readable, writable, hung) = t.ready(pipes, env, fd);
            &&& writable && !hung
            &&& o.kind == EvKind::Event ==> readable == (o.val != 0)
            &&& o.kind == EvKind::Timer ==> readable == (0 < o.deadline <= env.now)
            &&& o.kind == EvKind::Signal ==> readable == (env.signal & o.sigmask != 0)
            &&& o.kind == EvKind::Inotify ==> readable == (t.notices@[i]@.len() != 0)
            &&& o.kind == EvKind::Epoll ==> !readable
        }),
{
}

proof fn lemma_flags(e: u32)
    by (bit_vector)
    ensures
        (1u32 | 4u32 | 16u32) & (e | 8 | 16) & 1 == e & 1,
        (1u32 | 4u32 | 16u32) & (e | 8 | 16) & 4 == e & 4,
        (1u32 | 4u32 | 16u32) & (e | 8 | 16) & 16 == 16,
        (1u32 | 4u32 | 16u32) & (e | 8 | 16) & !21u32 == 0,
        (1u32 | 4u32 | 0u32) & (e | 8 | 16) & 1 == e & 1,
        (1u32 | 4u32 | 0u32) & (e | 8 | 16) & 4 == e & 4,
        (1u32 | 4u32 | 0u32) & (e | 8 | 16) & 16 == 0,
        (1u32 | 4u32 | 0u32) & (e | 8 | 16) & !21u32 == 0,
        (1u32 | 0u32 | 16u32) & (e | 8 | 16) & 1 == e & 1,
        (1u32 | 0u32 | 16u32) & (e | 8 | 16) & 4 == 0,
        (1u32 | 0u32 | 16u32) & (e | 8 | 16) & 16 == 16,
        (1u32 | 0u32 | 16u32) & (e | 8 | 16) & !21u32 == 0,
        (1u32 | 0u32 | 0u32) & (e | 8 | 16) & 1 == e & 1,
        (1u32 | 0u32 | 0u32) & (e | 8 | 16) & 4 == 0,
        (1u32 | 0u32 | 0u32) & (e | 8 | 16) & 16 == 0,
        (1u32 | 0u32 | 0u32) & (e | 8 | 16) & !21u32 == 0,
        (0u32 | 4u32 | 16u32) & (e | 8 | 16) & 1 == 0,
        (0u32 | 4u32 | 16u32) & (e | 8 | 16) & 4 == e & 4,
        (0u32 | 4u32 | 16u32) & (e | 8 | 16) & 16 == 16,
        (0u32 | 4u32 | 16u32) & (e | 8 | 16) & !21u32 == 0,
        (0u32 | 4u32 | 0u32) & (e | 8 | 16) & 1 == 0,
        (0u32 | 4u32 | 0u32) & (e | 8 | 16) & 4 == e & 4,
        (0u32 | 4u32 | 0u32) & (e | 8 | 16) & 16 == 0,
        (0u32 | 4u32 | 0u32) & (e | 8 | 16) & !21u32 == 0,
        (0u32 | 0u32 | 16u32) & (e | 8 | 16) & 1 == 0,
        (0u32 | 0u32 | 16u32) & (e | 8 | 16) & 4 == 0,
        (0u32 | 0u32 | 16u32) & (e | 8 | 16) & 16 == 16,
        (0u32 | 0u32 | 16u32) & (e | 8 | 16) & !21u32 == 0,
        (0u32 | 0u32 | 0u32) & (e | 8 | 16) == 0,
        0u32 & 1 == 0,
        0u32 & 4 == 0,
        0u32 & 16 == 0,
        0u32 & !21u32 == 0,
{
}

/// What is told of a descriptor: that it can be read or written where it can and
/// that was asked for, that it was hung up on whether asked for or not, and nothing
/// else.
pub proof fn lemma_revents(ready: (bool, bool, bool), events: u32)
    ensures
        (revents(ready, events) & EPOLLIN != 0) == (ready.0 && events & EPOLLIN != 0),
        (revents(ready, events) & EPOLLOUT != 0) == (ready.1 && events & EPOLLOUT != 0),
        (revents(ready, events) & EPOLLHUP != 0) == ready.2,
        revents(ready, events) & !21u32 == 0,
        revents(ready, events) != 0 <==> ready.0 && events & EPOLLIN != 0 || ready.1 && events
            & EPOLLOUT != 0 || ready.2,
{
    lemma_flags(events);
    let r = revents(ready, events);
    assert(r & 1 == 0 && r & 4 == 0 && r & 16 == 0 && r & !21u32 == 0 ==> r == 0) by (bit_vector);
}

/// Something has come of the descriptor of entry `e`: it can be read or written and
/// that was asked for, or it was hung up on.
pub open spec fn has_come(t: &EventTable, pipes: &PipeTable, env: &PollEnv, e: EpollInterest) -> bool {
    let (readable, writable, hung) = t.ready(pipes, env, e.fd as int);
    e.used && (readable && e.events & EPOLLIN != 0 || writable && e.events & EPOLLOUT != 0 || hung)
}

proof fn lemma_come_from(
    t: &EventTable,
    pipes: &PipeTable,
    env: &PollEnv,
    tab: Seq<EpollInterest>,
    k: int,
    max: int,
)
    requires
        0 <= k <= tab.len(),
        0 <= max,
    ensures
        ({
            let all = tab.skip(k).filter(|e: EpollInterest| has_come(t, pipes, env, e));
            let r = t.come_from(pipes, env, tab, k, max);
            &&& r.len() == least(max, all.len() as int)
            &&& forall|j: int|
                0 <= j < r.len() ==> (#[trigger] r[j]).data == all[j].data && r[j].events == revents(
                    t.ready(pipes, env, all[j].fd as int),
                    all[j].events,
                )
        }),
    decreases tab.len() - k,
{
    let p = |e: EpollInterest| has_come(t, pipes, env, e);
    let all = tab.skip(k).filter(p);
    let r = t.come_from(pipes, env, tab, k, max);
    reveal(Seq::filter);
    if k < tab.len() {
        let e = tab[k];
        let ready = t.ready(pipes, env, e.fd as int);
        lemma_revents(ready, e.events);
        assert(p(e) == (t.come(pipes, env, e) != 0));
        let one = seq![e];
        let rest = tab.skip(k + 1);
        assert(tab.skip(k) =~= one + rest);
        Seq::filter_distributes_over_add(one, rest, p);
        assert(one.drop_last() =~= Seq::<EpollInterest>::empty());
        assert(one.drop_last().filter(p) =~= Seq::<EpollInterest>::empty());
        assert(one.filter(p) =~= if p(e) {
            one
        } else {
            Seq::empty()
        });
        if max > 0 {
            if p(e) {
                lemma_come_from(t, pipes, env, tab, k + 1, max - 1);
                let r1 = t.come_from(pipes, env, tab, k + 1, max - 1);
                let a1 = rest.filter(p);
                assert(all =~= one + a1);
                assert forall|j: int| 0 <= j < r.len() implies (#[trigger] r[j]).data == all[j].data
                    && r[j].events == revents(t.ready(pipes, env, all[j].fd as int), all[j].events) by {
                    if j > 0 {
                        assert(r[j] == r1[j - 1]);
                        assert(all[j] == a1[j - 1]);
                    }
                }
            } else {
                lemma_come_from(t, pipes, env, tab, k + 1, max);
                assert(all =~= rest.filter(p));
            }
        }
    } else {
        assert(tab.skip(k) =~= Seq::<EpollInterest>::empty());
        assert(all =~= Seq::<EpollInterest>::empty());
    }
}

/// Waiting tells, in the order of the entries and as far as there is room, exactly
/// the descriptors of which something has come, each with its data. It goes on
/// waiting exactly where nothing has come and the time is not over.
pub proof fn lemma_waited(
    t: &EventTable,
    epfd: int,
    max: u32,
    deadline: u64,
    pipes: &PipeTable,
    env: &PollEnv,
    r: Collected,
)
    requires
        t.wf(),
        env.task < NR_TASKS,
        t.obj_of(env.task as int, epfd) is Some,
        t.objs@[t.obj_of(env.task as int, epfd)->0].kind == EvKind::Epoll,
        max > 0,
        t.waited(epfd, true, max, deadline, pipes, env, r),
    ensures
        ({
            let tab = t.epoll@[t.obj_of(env.task as int, epfd)->0]@;
            let all = tab.filter(|e: EpollInterest| has_come(t, pipes, env, e));
            &&& r is Wait <==> all.len() == 0 && env.now < deadline
            &&& !(r is Wait) ==> {
                &&& r is Events
                &&& r->Events_0@.len() == least(max as int, all.len() as int)
                &&& forall|j: int|
                    0 <= j < r->Events_0@.len() ==> {
                        let told = #[trigger] r->Events_0@[j];
                        let (readable, writable, hung) = t.ready(pipes, env, all[j].fd as int);
                        &&& told.data == all[j].data
                        &&& (told.events & EPOLLIN != 0) == (readable && all[j].events & EPOLLIN != 0)
                        &&& (told.events & EPOLLOUT != 0) == (writable && all[j].events & EPOLLOUT
                            != 0)
                        &&& (told.events & EPOLLHUP != 0) == hung
                    }
            }
        }),
{
    let tab = t.epoll@[t.obj_of(env.task as int, epfd)->0]@;
    assert(tab.skip(0) =~= tab);
    lemma_come_from(t, pipes, env, tab, 0, max as int);
    let all = tab.filter(|e: EpollInterest| has_come(t, pipes, env, e));
    if r is Events {
        assert forall|j: int| 0 <= j < r->Events_0@.len() implies {
            let told = #[trigger] r->Events_0@[j];
            let (readable, writable, hung) = t.ready(pipes, env, all[j].fd as int);
            &&& told.data == all[j].data
            &&& (told.events & EPOLLIN != 0) == (readable && all[j].events & EPOLLIN != 0)
            &&& (told.events & EPOLLOUT != 0) == (writable && all[j].events & EPOLLOUT != 0)
            &&& (told.events & EPOLLHUP != 0) == hung
        } by {
            lemma_revents(t.ready(pipes, env, all[j].fd as int), all[j].events);
        }
    }
}

/// Waiting for so many milliseconds ends at the first tick by which they have passed.
pub proof fn lemma_waits_until(now: u64, timeout: i32, r: u64)
    requires
        waits_until(now, timeout, r),
        timeout >= 0,
    ensures
        now <= r,
        (r - now) * 10 >= timeout,
        r > now ==> (r - now - 1) * 10 < timeout,
{
}

// ---- which descriptors are waited for ----

/// Entry `k` is for descriptor `fd`.
pub open spec fn is_for(tab: Seq<EpollInterest>, fd: usize, k: int) -> bool {
    0 <= k < tab.len() && tab[k].used && tab[k].fd == fd
}

proof fn lemma_interest(tab: Seq<EpollInterest>, fd: usize, k: int)
    requires
        0 <= k <= tab.len(),
    ensures
        k <= interest_from(tab, fd, k) <= tab.len(),
        forall|j: int| k <= j < interest_from(tab, fd, k) ==> !#[trigger] is_for(tab, fd, j),
        interest_from(tab, fd, k) < tab.len() ==> is_for(tab, fd, interest_from(tab, fd, k)),
    decreases tab.len() - k,
{
    if k < tab.len() {
        lemma_interest(tab, fd, k + 1);
    }
}

proof fn lemma_free_interest(tab: Seq<EpollInterest>, k: int)
    requires
        0 <= k <= tab.len(),
    ensures
        k <= free_interest_from(tab, k) <= tab.len(),
        forall|j: int| k <= j < free_interest_from(tab, k) ==> (#[trigger] tab[j]).used,
        free_interest_from(tab, k) < tab.len() ==> !tab[free_interest_from(tab, k)].used,
    decreases tab.len() - k,
{
    if k < tab.len() {
        lemma_free_interest(tab, k + 1);
    }
}

/// A descriptor can be added exactly where it has no entry and there is a free one.
/// It then has one with what was asked for, and no other entry has changed.
pub proof fn lemma_interest_added(tab: Seq<EpollInterest>, fd: usize, ev: EpollEvent)
    ensures
        ({
            let r = controlled(tab, EPOLL_CTL_ADD, fd, Some(ev));
            let known = exists|k: int| #[trigger] is_for(tab, fd, k);
            let full = forall|k: int| 0 <= k < tab.len() ==> (#[trigger] tab[k]).used;
            &&& known <==> r == Err::<Seq<EpollInterest>, i32>(EEXIST)
            &&& !known && full <==> r == Err::<Seq<EpollInterest>, i32>(ENOSPC)
            &&& !known && !full ==> r is Ok && r->Ok_0.len() == tab.len() && exists|k: int|
                {
                    &&& #[trigger] is_for(r->Ok_0, fd, k)
                    &&& !tab[k].used
                    &&& r->Ok_0[k].events == ev.events && r->Ok_0[k].data == ev.data
                    &&& forall|j: int| 0 <= j < tab.len() && j != k ==> #[trigger] r->Ok_0[j] == tab[j]
                }
        }),
{
    lemma_interest(tab, fd, 0);
    lemma_free_interest(tab, 0);
    let r = controlled(tab, EPOLL_CTL_ADD, fd, Some(ev));
    if r is Ok {
        assert(is_for(r->Ok_0, fd, free_interest_from(tab, 0)));
    }
}

/// A descriptor that has an entry, and only such a one, can be changed or removed;
/// where it has but one entry, that one is changed or gone, and no other.
pub proof fn lemma_interest_changed(tab: Seq<EpollInterest>, fd: usize, ev: EpollEvent, k: int)
    requires
        forall|j: int| #[trigger] is_for(tab, fd, j) ==> j == k,
    ensures
        ({
            let m = controlled(tab, EPOLL_CTL_MOD, fd, Some(ev));
            let d = controlled(tab, EPOLL_CTL_DEL, fd, None);
            if is_for(tab, fd, k) {
                &&& m is Ok && m->Ok_0.len() == tab.len()
                &&& is_for(m->Ok_0, fd, k)
                &&& m->Ok_0[k].events == ev.events && m->Ok_0[k].data == ev.data
                &&& forall|j: int| 0 <= j < tab.len() && j != k ==> #[trigger] m->Ok_0[j] == tab[j]
                &&& d is Ok && d->Ok_0.len() == tab.len()
                &&& forall|j: int| !#[trigger] is_for(d->Ok_0, fd, j)
                &&& forall|j: int| 0 <= j < tab.len() && j != k ==> #[trigger] d->Ok_0[j] == tab[j]
            } else {
                &&& m == Err::<Seq<EpollInterest>, i32>(ENOENT)
                &&& d == Err::<Seq<EpollInterest>, i32>(ENOENT)
            }
        }),
{
    lemma_interest(tab, fd, 0);
    let d = controlled(tab, EPOLL_CTL_DEL, fd, None);
    let p = interest_from(tab, fd, 0);
    if p < tab.len() {
        assert(is_for(tab, fd, p));
        assert forall|j: int| !#[trigger] is_for(d->Ok_0, fd, j) by {
            if 0 <= j < tab.len() && j != k {
                assert(!is_for(tab, fd, j));
            }
        }
    }
}

/// What was added to an epoll object is what it then waits for: its entries are
/// those that adding, changing or removing leaves, and nothing else has changed.
pub proof fn lemma_watching(
    t0: &EventTable,
    t1: &EventTable,
    task: int,
    epfd: int,
    fd: usize,
    ev: EpollEvent,
    r: i64,
)
    requires
        t0.wf(),
        0 <= task < NR_TASKS,
        t0.watching_did(t1, task, epfd, EPOLL_CTL_ADD, fd, Some(ev), r),
    ensures
        r == 0 ==> {
            &&& t0.obj_of(task, epfd) is Some
            &&& t1.obj_of(task, epfd) == t0.obj_of(task, epfd)
            &&& t1.objs@ == t0.objs@
            &&& exists|k: int|
                {
                    let e = t1.epoll@[t0.obj_of(task, epfd)->0]@[k];
                    #[trigger] is_for(t1.epoll@[t0.obj_of(task, epfd)->0]@, fd, k) && e.events
                        == ev.events && e.data == ev.data
                }
        },
        r != 0 ==> *t1 == *t0,
{
    if r == 0 {
        assert(0 <= t0.fds@[task]@[epfd] <= 16);
        lemma_interest_added(t0.epoll@[t0.obj_of(task, epfd)->0]@, fd, ev);
    }
}

// ---- objects and their descriptors ----

proof fn lemma_free_obj(fds: Seq<[usize; 32]>, k: int)
    requires
        0 <= k <= 16,
    ensures
        k <= free_from(fds, k) <= 16,
        forall|j: int| k <= j < free_from(fds, k) ==> #[trigger] in_use(fds, j),
        free_from(fds, k) < 16 ==> !in_use(fds, free_from(fds, k)),
    decreases 16 - k,
{
    if k < 16 {
        lemma_free_obj(fds, k + 1);
    }
}

/// A new object is one to which no descriptor led, and no other has changed. There
/// is none exactly where descriptors lead to all of them.
pub proof fn lemma_created(t0: &EventTable, t1: &EventTable, o: EvObj, r: i64)
    requires
        t0.wf(),
        t0.created(t1, o, r),
    ensures
        r >= 0 ==> {
            &&& r < 16 && !in_use(t0.fds@, r as int)
            &&& t1.objs@[r as int] == o
            &&& forall|j: int| 0 <= j < 16 && j != r ==> #[trigger] t1.objs@[j] == t0.objs@[j]
            &&& t1.fds@ == t0.fds@
        },
        r < 0 <==> forall|j: int| 0 <= j < 16 ==> #[trigger] in_use(t0.fds@, j),
        r < 0 ==> r == -EMFILE && *t1 == *t0,
{
    lemma_free_obj(t0.fds@, 0);
}

/// A descriptor that was closed leads to no object, and the others lead where they
/// led, to objects that have not changed.
pub proof fn lemma_event_closed(t0: &EventTable, t1: &EventTable, task: int, fd: int, task2: int, fd2: int)
    requires
        t0.wf(),
        0 <= task < NR_TASKS,
        0 <= task2 < NR_TASKS,
        t0.closed_did(t1, task, fd),
    ensures
        t1.obj_of(task, fd) is None,
        (task, fd) != (task2, fd2) ==> t1.obj_of(task2, fd2) == t0.obj_of(task2, fd2),
        (task, fd) != (task2, fd2) && t0.obj_of(task2, fd2) is Some ==> t1.objs@[t0.obj_of(
            task2,
            fd2,
        )->0] == t0.objs@[t0.obj_of(task2, fd2)->0],
{
    if t0.obj_of(task, fd) is Some {
        let i = t0.obj_of(task, fd)->0;
        assert(0 <= t0.fds@[task]@[fd] <= 16);
        if (task, fd) != (task2, fd2) && t0.obj_of(task2, fd2) is Some {
            assert(0 <= t0.fds@[task2]@[fd2] <= 16);
            let k = t0.obj_of(task2, fd2)->0;
            assert(t1.fds@[task2]@[fd2] == k + 1);
            if k == i {
                assert(in_use(t1.fds@, i));
            }
        }
    }
}

// ---- notices ----

proof fn lemma_hit(ws: Seq<Watch>, dir: Seq<u8>, mask: u32, k: int)
    requires
        0 <= k <= ws.len(),
    ensures
        k <= hit_from(ws, dir, mask, k) <= ws.len(),
        forall|j: int| k <= j < hit_from(ws, dir, mask, k) ==> !is_hit(#[trigger] ws[j], dir, mask),
        hit_from(ws, dir, mask, k) < ws.len() ==> is_hit(ws[hit_from(ws, dir, mask, k)], dir, mask),
    decreases ws.len() - k,
{
    if k < ws.len() {
        lemma_hit(ws, dir, mask, k + 1);
    }
}

proof fn lemma_path(ws: Seq<Watch>, path: Seq<u8>, k: int)
    requires
        0 <= k <= ws.len(),
    ensures
        k <= path_from(ws, path, k) <= ws.len(),
        forall|j: int|
            k <= j < path_from(ws, path, k) ==> !((#[trigger] ws[j]).used && ws[j].path@ == path),
        path_from(ws, path, k) < ws.len() ==> ws[path_from(ws, path, k)].used && ws[path_from(
            ws,
            path,
            k,
        )].path@ == path,
    decreases ws.len() - k,
{
    if k < ws.len() {
        lemma_path(ws, path, k + 1);
    }
}

proof fn lemma_free_watch(ws: Seq<Watch>, k: int)
    requires
        0 <= k <= ws.len(),
    ensures
        k <= free_watch_from(ws, k) <= ws.len(),
        forall|j: int| k <= j < free_watch_from(ws, k) ==> (#[trigger] ws[j]).used,
        free_watch_from(ws, k) < ws.len() ==> !ws[free_watch_from(ws, k)].used,
    decreases ws.len() - k,
{
    if k < ws.len() {
        lemma_free_watch(ws, k + 1);
    }
}

proof fn lemma_wd(ws: Seq<Watch>, wd: u32, k: int)
    requires
        0 <= k <= ws.len(),
    ensures
        k <= wd_from(ws, wd, k) <= ws.len(),
        forall|j: int| k <= j < wd_from(ws, wd, k) ==> !((#[trigger] ws[j]).used && ws[j].wd == wd),
        wd_from(ws, wd, k) < ws.len() ==> ws[wd_from(ws, wd, k)].used && ws[wd_from(ws, wd, k)].wd == wd,
    decreases ws.len() - k,
{
    if k < ws.len() {
        lemma_wd(ws, wd, k + 1);
    }
}

/// An object gets a notice exactly where one of its watches is for that directory and
/// for what happened there. The notice, which is the last, tells the number of such
/// a watch, what happened, and the name; older ones stay as far as there is room.
pub proof fn lemma_notified(
    t0: &EventTable,
    t1: &EventTable,
    dir: Seq<u8>,
    mask: u32,
    name: Seq<u8>,
    cookie: u32,
    i: int,
)
    requires
        t0.wf(),
        t0.notified(t1, dir, mask, name, cookie),
        0 <= i < 16,
        name.len() <= 63,
    ensures
        ({
            let ws = t0.watches@[i]@;
            let q0 = t0.notices@[i]@;
            let q1 = t1.notices@[i]@;
            let asked = exists|k: int|
                0 <= k < 8 && (#[trigger] ws[k]).used && ws[k].mask & mask != 0 && cut_at_zero(
                    ws[k].path@,
                ) == cut_at_zero(dir);
            if asked {
                &&& q1.len() > 0
                &&& q1.last().mask == mask && q1.last().cookie == cookie
                &&& forall|j: int| 0 <= j < name.len() ==> #[trigger] q1.last().name@[j] == name[j]
                &&& forall|j: int| name.len() <= j < 64 ==> #[trigger] q1.last().name@[j] == 0
                &&& exists|k: int|
                    0 <= k < 8 && (#[trigger] ws[k]).used && ws[k].mask & mask != 0 && cut_at_zero(
                        ws[k].path@,
                    ) == cut_at_zero(dir) && q1.last().wd == ws[k].wd
                &&& q1.drop_last() == (if q0.len() == 16 {
                    q0.drop_first()
                } else {
                    q0
                })
            } else {
                q1 == q0
            }
        }),
{
    let ws = t0.watches@[i]@;
    lemma_hit(ws, dir, mask, 0);
    let q0 = t0.notices@[i]@;
    let q1 = t1.notices@[i]@;
    assert(told(ws, q0, t1.notices@[i]@, dir, mask, name, cookie));
    assert(t0.notices@[i]@.len() <= 16);
    let h = hit_from(ws, dir, mask, 0);
    assert(name.take(least(name.len() as int, 63)) =~= name);
    if h < ws.len() {
        assert(is_hit(ws[h], dir, mask));
        assert(q1.drop_last() =~= if q0.len() == 16 {
            q0.drop_first()
        } else {
            q0
        });
    }
}

/// A watch that was just added for what happens in a directory, and no other, is the
/// one that the next notice of it tells.
pub proof fn lemma_watch_then_notice(
    t0: &EventTable,
    t1: &EventTable,
    t2: &EventTable,
    task: int,
    fd: int,
    path: Seq<u8>,
    mask: u32,
    wd: i64,
    what: u32,
    name: Seq<u8>,
    cookie: u32,
)
    requires
        t0.wf(),
        0 <= task < NR_TASKS,
        t0.watch_did(t1, task, fd, Some(path), mask, wd),
        wd >= 0,
        mask & what != 0,
        t1.notified(t2, path, what, name, cookie),
        t0.obj_of(task, fd) is Some,
        forall|k: int|
            0 <= k < 8 && (#[trigger] t0.watches@[t0.obj_of(task, fd)->0]@[k]).used ==> padded(
                cut_at_zero(t0.watches@[t0.obj_of(task, fd)->0]@[k].path@),
                128,
            ) == t0.watches@[t0.obj_of(task, fd)->0]@[k].path@,
        t1.notices@ == t0.notices@,
    ensures
        ({
            let q = t2.notices@[t0.obj_of(task, fd)->0]@;
            q.len() > 0 && q.last().wd == wd && q.last().mask == what && q.last().cookie == cookie
        }),
{
    let i = t0.obj_of(task, fd)->0;
    assert(0 <= t0.fds@[task]@[fd] <= 16);
    let ws = t0.watches@[i]@;
    let new = t1.watches@[i]@;
    let full = padded(cut_at_zero(path), 128);
    lemma_path(ws, full, 0);
    lemma_free_watch(ws, 0);
    lemma_cut_padded(cut_at_zero(path), 128);
    lemma_cut_whole(path);
    let k = if path_from(ws, full, 0) < 8 {
        path_from(ws, full, 0)
    } else {
        free_watch_from(ws, 0)
    };
    assert(new[k].used && new[k].wd == wd && new[k].mask == mask && new[k].path@ == full);
    assert(is_hit(new[k], path, what));
    lemma_hit(new, path, what, 0);
    assert forall|j: int| 0 <= j < 8 && j != k implies !is_hit(#[trigger] new[j], path, what) || j > k by {
        assert(new[j] == ws[j]);
        if ws[j].used && cut_at_zero(ws[j].path@) == cut_at_zero(path) {
            assert(ws[j].path@ == full);
        }
    }
    assert(told(new, t1.notices@[i]@, t2.notices@[i]@, path, what, name, cookie));
}

proof fn lemma_cut_whole(s: Seq<u8>)
    ensures
        cut_at_zero(s).len() <= s.len(),
        forall|i: int| 0 <= i < cut_at_zero(s).len() ==> #[trigger] cut_at_zero(s)[i] != 0,
    decreases s.len(),
{
    if s.len() > 0 && s[0] != 0 {
        lemma_cut_whole(s.skip(1));
        let t = cut_at_zero(s.skip(1));
        assert forall|i: int| 0 <= i < cut_at_zero(s).len() implies #[trigger] cut_at_zero(s)[i] != 0 by {
            if i > 0 {
                assert(cut_at_zero(s)[i] == t[i - 1]);
            }
        }
    }
}

proof fn lemma_cut_padded(s: Seq<u8>, n: nat)
    ensures
        s.len() < n && (forall|i: int| 0 <= i < s.len() ==> #[trigger] s[i] != 0) ==> cut_at_zero(
            padded(s, n),
        ) == s,
{
    if s.len() < n && (forall|i: int| 0 <= i < s.len() ==> #[trigger] s[i] != 0) {
        let p = padded(s, n);
        assert forall|i: int| 0 <= i < s.len() implies p[i] != 0 by {
            assert(s[i] != 0);
        }
        crate::bytes::lemma_cut_at(p, s.len() as int);
        assert(p.take(s.len() as int) =~= s);
    }
}

/// A watch that was ended is gone: where no two watches have one number, none of the
/// object has that number, and all others are as before.
pub proof fn lemma_unwatched(t0: &EventTable, t1: &EventTable, task: int, fd: int, wd: u32, r: i64)
    requires
        t0.wf(),
        0 <= task < NR_TASKS,
        t0.unwatch_did(t1, task, fd, wd, r),
        t0.obj_of(task, fd) is Some,
        forall|a: int, b: int|
            #![trigger t0.watches@[t0.obj_of(task, fd)->0]@[a], t0.watches@[t0.obj_of(task, fd)->0]@[b]]
            0 <= a < b < 8 && t0.watches@[t0.obj_of(task, fd)->0]@[a].used && t0.watches@[t0.obj_of(
                task,
                fd,
            )->0]@[b].used ==> t0.watches@[t0.obj_of(task, fd)->0]@[a].wd != t0.watches@[t0.obj_of(
                task,
                fd,
            )->0]@[b].wd,
    ensures
        ({
            let ws = t0.watches@[t0.obj_of(task, fd)->0]@;
            let new = t1.watches@[t0.obj_of(task, fd)->0]@;
            &&& r == 0 <==> exists|k: int| 0 <= k < 8 && (#[trigger] ws[k]).used && ws[k].wd == wd
            &&& forall|k: int|
                0 <= k < 8 ==> if ws[k].used && ws[k].wd == wd {
                    !(#[trigger] new[k]).used
                } else {
                    new[k] == ws[k]
                }
        }),
        r != 0 ==> r == -EINVAL && *t1 == *t0,
{
    assert(0 <= t0.fds@[task]@[fd] <= 16);
    lemma_wd(t0.watches@[t0.obj_of(task, fd)->0]@, wd, 0);
}

/// Record `e` stands at `o` in `b`: the number of the watch, what happened, the tie to
/// another notice, how long the name is with its zero byte, and the name.
pub open spec fn record_at(b: Seq<u8>, o: int, e: InotifyEvent) -> bool {
    &&& le32(b, o) == e.wd
    &&& le32(b, o + 4) == e.mask
    &&& le32(b, o + 8) == e.cookie
    &&& le32(b, o + 12) == cut_at_zero(e.name@).len() + 1
    &&& forall|j: int|
        0 <= j < cut_at_zero(e.name@).len() ==> #[trigger] b[o + 16 + j] == cut_at_zero(e.name@)[j]
    &&& b[o + 16 + cut_at_zero(e.name@).len()] == 0
}

proof fn lemma_cut_take(s: Seq<u8>)
    ensures
        cut_at_zero(s).len() < s.len() ==> s[cut_at_zero(s).len() as int] == 0,
        cut_at_zero(s).len() <= s.len(),
        cut_at_zero(s) == s.take(cut_at_zero(s).len() as int),
    decreases s.len(),
{
    if s.len() > 0 && s[0] != 0 {
        lemma_cut_take(s.skip(1));
        let n = cut_at_zero(s.skip(1)).len() as int;
        assert(cut_at_zero(s) =~= s.take(n + 1));
    } else {
        assert(s.take(0) =~= Seq::<u8>::empty());
    }
}

proof fn lemma_record(b: Seq<u8>, o: int, e: InotifyEvent)
    requires
        0 <= o,
        cut_at_zero(e.name@).len() < 64,
        o + record_size(e) <= b.len(),
    ensures
        with_record(b, o, e).len() == b.len(),
        record_at(with_record(b, o, e), o, e),
        forall|p: int| 0 <= p < o ==> #[trigger] with_record(b, o, e)[p] == b[p],
        forall|p: int| o + record_size(e) <= p < b.len() ==> #[trigger] with_record(b, o, e)[p] == b[p],
{
    let n = name_size(e);
    lemma_cut_take(e.name@);
    let b1 = with_le32(b, o, e.wd);
    let b2 = with_le32(b1, o + 4, e.mask);
    let b3 = with_le32(b2, o + 8, e.cookie);
    let b4 = with_le32(b3, o + 12, n as u32);
    lemma_with_le32(b, o, e.wd);
    lemma_with_le32(b1, o + 4, e.mask);
    lemma_with_le32(b2, o + 8, e.cookie);
    lemma_with_le32(b3, o + 12, n as u32);
    let b5 = overlay(b4, o + 16, e.name@.take(n));
    assert(b5[o] == b1[o] && b5[o + 1] == b1[o + 1] && b5[o + 2] == b1[o + 2] && b5[o + 3] == b1[o + 3]);
    assert(b5[o + 4] == b2[o + 4] && b5[o + 5] == b2[o + 5] && b5[o + 6] == b2[o + 6] && b5[o + 7] == b2[o
        + 7]);
    assert(b5[o + 8] == b3[o + 8] && b5[o + 9] == b3[o + 9] && b5[o + 10] == b3[o + 10] && b5[o + 11]
        == b3[o + 11]);
    assert(b5[o + 12] == b4[o + 12] && b5[o + 13] == b4[o + 13] && b5[o + 14] == b4[o + 14] && b5[o + 15]
        == b4[o + 15]);
    assert forall|j: int| 0 <= j < n implies b5[o + 16 + j] == e.name@[j] by {}
}

proof fn lemma_records(b: Seq<u8>, q: Seq<InotifyEvent>, k: int)
    requires
        0 <= k <= q.len(),
        records_size(q, k) <= b.len(),
        forall|j: int| 0 <= j < q.len() ==> cut_at_zero((#[trigger] q[j]).name@).len() < 64,
    ensures
        with_records(b, q, k).len() == b.len(),
        forall|j: int| 0 <= j < k ==> record_at(with_records(b, q, k), #[trigger] records_size(q, j), q[j]),
        forall|p: int| records_size(q, k) <= p < b.len() ==> #[trigger] with_records(b, q, k)[p] == b[p],
    decreases k,
{
    if k > 0 {
        lemma_records_grow(q, k - 1, k);
        lemma_records(b, q, k - 1);
        let w0 = with_records(b, q, k - 1);
        let w = with_records(b, q, k);
        let o = records_size(q, k - 1);
        assert(cut_at_zero(q[k - 1].name@).len() < 64);
        lemma_record(w0, o, q[k - 1]);
        assert forall|j: int| 0 <= j < k implies record_at(w, #[trigger] records_size(q, j), q[j]) by {
            if j < k - 1 {
                let oj = records_size(q, j);
                assert(cut_at_zero(q[j].name@).len() < 64);
                lemma_records_grow(q, 0, j);
                lemma_records_grow(q, j + 1, k - 1);
                assert(record_at(w0, oj, q[j]));
                assert(records_size(q, j + 1) == oj + record_size(q[j]));
                let n = cut_at_zero(q[j].name@).len() as int;
                assert(oj + 16 + n < o);
                assert forall|p: int| 0 <= p < o implies #[trigger] w[p] == w0[p] by {}
                assert(le32(w, oj) == le32(w0, oj));
                assert(le32(w, oj + 4) == le32(w0, oj + 4));
                assert(le32(w, oj + 8) == le32(w0, oj + 8));
                assert(le32(w, oj + 12) == le32(w0, oj + 12));
                assert forall|x: int| 0 <= x < n implies #[trigger] w[oj + 16 + x] == cut_at_zero(
                    q[j].name@,
                )[x] by {
                    assert(w0[oj + 16 + x] == cut_at_zero(q[j].name@)[x]);
                }
            }
        }
    }
}

/// Reading notices gives the oldest ones, one record behind the other from the start
/// of the buffer on, and takes away those and no others: `at` says where each starts.
/// A record is followed by the next at a multiple of sixteen.
pub proof fn lemma_notices_read(t0: &EventTable, t1: &EventTable, task: int, fd: int, b0: Seq<u8>, b1: Seq<u8>, r: int)
    requires
        t0.wf(),
        0 <= task < NR_TASKS,
        t0.notices_taken(t1, task, fd, b0, b1, r),
        r > 0,
    ensures
        t0.obj_of(task, fd) is Some,
        ({
            let i = t0.obj_of(task, fd)->0;
            let q = t0.notices@[i]@;
            exists|at: Seq<int>|
                {
                    &&& 2 <= #[trigger] at.len() <= q.len() + 1
                    &&& at[0] == 0 && at.last() == r && r <= b0.len()
                    &&& forall|j: int|
                        0 <= j < at.len() - 1 ==> record_at(b1, #[trigger] at[j], q[j]) && at[j] % 16 == 0
                            && at[j] + 16 + cut_at_zero(q[j].name@).len() < at[j + 1] && at[j + 1] <= at[j]
                            + 32 + cut_at_zero(q[j].name@).len()
                    &&& t1.notices@[i]@ == q.skip(at.len() - 1)
                }
        }),
        b1.len() == b0.len(),
        forall|p: int| r <= p < b0.len() ==> #[trigger] b1[p] == b0[p],
{
    assert(0 <= t0.fds@[task]@[fd] <= 16);
    let i = t0.obj_of(task, fd)->0;
    let q = t0.notices@[i]@;
    let k = fit_from(q, b0.len() as int, 0);
    lemma_fit_from(q, b0.len() as int, 0);
    assert forall|j: int| 0 <= j < q.len() implies cut_at_zero((#[trigger] q[j]).name@).len() < 64 by {
        assert(cut_at_zero(t0.notices@[i]@[j].name@).len() < 64);
    }
    lemma_records(b0, q, k);
    let at = Seq::new((k + 1) as nat, |j: int| records_size(q, j));
    assert forall|j: int| 0 <= j <= k implies #[trigger] records_size(q, j) % 16 == 0 by {
        lemma_aligned(q, j);
    }
    assert forall|j: int| 0 <= j < at.len() - 1 implies record_at(b1, #[trigger] at[j], q[j]) && at[j] % 16
        == 0 && at[j] + 16 + cut_at_zero(q[j].name@).len() < at[j + 1] && at[j + 1] <= at[j] + 32
        + cut_at_zero(q[j].name@).len() by {
        assert(records_size(q, j + 1) == records_size(q, j) + record_size(q[j]));
    }
    assert(at.len() == k + 1);
}

proof fn lemma_aligned(q: Seq<InotifyEvent>, k: int)
    requires
        0 <= k <= q.len(),
    ensures
        records_size(q, k) % 16 == 0,
    decreases k,
{
    if k > 0 {
        lemma_aligned(q, k - 1);
    }
}

// ---- attempts ----

/// An attempt to read a descriptor of which something has come is done; one where
/// nothing has come waits, unless that is not wanted.
pub proof fn lemma_read_attempt(
    t: &EventTable,
    new: &EventTable,
    pipes: &PipeTable,
    env: &PollEnv,
    fd: int,
    pid: u32,
    b0: Seq<u8>,
    b1: Seq<u8>,
    s1: u64,
    a: Attempt,
)
    requires
        t.wf(),
        env.task < NR_TASKS,
        pipes.pipe_of(env.task as int, fd) is None,
        t.obj_of(env.task as int, fd) is Some,
        t.objs@[t.obj_of(env.task as int, fd)->0].kind != EvKind::Epoll,
        b0.len() >= 128,
        t.read_did(new, (env.task as int, fd, env.now, pid), b0, b1, env.signal, s1, a),
    ensures
        ({
            let o = t.objs@[t.obj_of(env.task as int, fd)->0];
            if t.ready(pipes, env, fd).0 {
                a is Done && a->Done_0 > 0
            } else if o.nonblock {
                a == Attempt::Done((-EAGAIN) as i64)
            } else {
                a is Wait
            }
        }),
{
    let i = t.obj_of(env.task as int, fd)->0;
    let r = choose|r: i64|
        {
            &&& #[trigger] crate::fs::event::ends_as(t.objs@[i].nonblock, r, a)
            &&& t.object_read(
                new,
                (env.task as int, fd, env.now, pid),
                i,
                b0,
                b1,
                env.signal,
                s1,
                r as int,
            )
        };
    lemma_readable(t, new, pipes, env, fd, pid, b0, b1, s1, r as int);
}

// ---- pipes ----

/// What a read gives and what is left are, one behind the other, what was in the pipe
/// and what was written behind it; nothing is lost while there is room, and what does
/// not fit is told.
pub proof fn lemma_pipe_order(
    t0: &PipeTable,
    t1: &PipeTable,
    t2: &PipeTable,
    i: int,
    d: Seq<u8>,
    w: PipeWrite,
    count: int,
    r: PipeRead,
)
    requires
        t0.wf(),
        0 <= i < 4,
        t0@[i].used,
        t0@[i].readers > 0,
        d.len() > 0,
        count > 0,
        t0@[i].data.len() < 4048,
        t0.write_did(t1, i, d, w),
        t1.read_did(t2, i, count, r),
    ensures
        ({
            let n = least(d.len() as int, 4048 - t0@[i].data.len());
            &&& n == d.len() ==> w == PipeWrite::Wrote(n as usize)
            &&& n < d.len() ==> w == PipeWrite::Wait(n as usize)
            &&& r is Bytes
            &&& r->Bytes_0@.len() == least(count, t0@[i].data.len() + n)
            &&& r->Bytes_0@ + t2@[i].data == t0@[i].data + d.take(n)
        }),
        forall|j: int| 0 <= j < 4 && j != i ==> #[trigger] t2@[j] == t0@[j],
        t2@[i].readers == t0@[i].readers && t2@[i].writers == t0@[i].writers,
        t2.rows@ == t0.rows@,
{
    let n = least(d.len() as int, 4048 - t0@[i].data.len());
    let all = t0@[i].data + d.take(n);
    assert(t1@[i].data == all);
    let m = least(count, all.len() as int);
    assert(all.take(m) + all.skip(m) =~= all);
    assert forall|j: int| 0 <= j < 4 && j != i implies #[trigger] t2@[j] == t0@[j] by {
        assert(t1@[j] == t0@[j]);
    }
}

/// The end to read is told as readable exactly where an attempt to read does not
/// have to wait; the end to write as writable where an attempt to write a byte takes
/// it, and as hung up on where nobody reads it.
pub proof fn lemma_pipe_ready(
    t0: &PipeTable,
    t1: &PipeTable,
    t2: &PipeTable,
    i: int,
    count: int,
    r: PipeRead,
    d: Seq<u8>,
    w: PipeWrite,
)
    requires
        t0.wf(),
        0 <= i < 4,
        t0@[i].used,
        count > 0,
        d.len() == 1,
        t0.read_did(t1, i, count, r),
        t0.write_did(t2, i, d, w),
    ensures
        poll_status(t0@[i], PIPE_DIR_READ).0 <==> !(r is Wait),
        poll_status(t0@[i], PIPE_DIR_WRITE).1 <==> w == PipeWrite::Wrote(1),
        poll_status(t0@[i], PIPE_DIR_WRITE).2 <==> w is Failed,
        !poll_status(t0@[i], PIPE_DIR_READ).1 && !poll_status(t0@[i], PIPE_DIR_WRITE).0,
{
    assert(t0.pipes@[i].wf());
}

/// Once the last descriptor at the end to write is closed, a read never waits: it
/// gives what is left, and then nothing. Once the last at the end to read is, a
/// write fails.
pub proof fn lemma_pipe_end(
    t0: &PipeTable,
    t1: &PipeTable,
    t2: &PipeTable,
    task: int,
    fd: int,
    i: int,
    count: int,
    r: PipeRead,
    t3: &PipeTable,
    d: Seq<u8>,
    w: PipeWrite,
)
    requires
        t0.wf(),
        0 <= task < NR_TASKS,
        0 <= i < 4,
        t0.pipe_of(task, fd) == Some(i),
        t0@[i].used,
        count > 0,
        d.len() > 0,
        t0.close_did(t1, task, fd),
        t1.read_did(t2, i, count, r),
        t1.write_did(t3, i, d, w),
    ensures
        t1.pipe_of(task, fd) is None,
        t0.dir_of(task, fd) == PIPE_DIR_WRITE && t0@[i].writers == 1 ==> r is Bytes,
        t0.dir_of(task, fd) == PIPE_DIR_WRITE && t0@[i].writers == 1 && t0@[i].readers > 0 ==> r->Bytes_0@
            == t0@[i].data.take(least(count, t0@[i].data.len() as int)),
        t0.dir_of(task, fd) == PIPE_DIR_READ && t0@[i].readers == 1 && t0@[i].writers > 0 ==> w is Failed,
        t0.dir_of(task, fd) == PIPE_DIR_WRITE && t0@[i].writers > 1 && t0@[i].data.len() == 0 ==> r is Wait,
        t0.dir_of(task, fd) == PIPE_DIR_READ && t0@[i].readers > 1 ==> !(w is Failed),
{
    let t = t0@[i];
    if r is Bytes && t.data.len() == 0 {
        assert(t.data.take(0) =~= Seq::<u8>::empty());
        assert(r->Bytes_0@ =~= Seq::<u8>::empty());
    }
}

/// A duplicate that is closed again leaves every pipe as it was.
pub proof fn lemma_pipe_dup_close(t0: &PipeTable, t1: &PipeTable, t2: &PipeTable, task: int, fd: int, new: int)
    requires
        t0.wf(),
        t1.wf(),
        t2.wf(),
        0 <= task < NR_TASKS,
        0 <= new < 32,
        t0.dup_did(t1, task, fd, new, true),
        t1.close_did(t2, task, new),
        t0@[t0.pipe_of(task, fd)->0].readers < 255,
        t0@[t0.pipe_of(task, fd)->0].writers < 255,
        t0@[t0.pipe_of(task, fd)->0].readers > 0 || t0@[t0.pipe_of(task, fd)->0].writers > 0,
    ensures
        t2@ == t0@,
        t2.pipe_of(task, new) is None,
{
    let i = t0.pipe_of(task, fd)->0;
    assert(t0.rows@[task].map@[fd] < 4);
    assert(t1.pipe_of(task, new) == Some(i));
    assert(t2@ =~= t0@);
}

/// What was put into a pipe with room for it comes out again, and looking at it
/// before takes nothing away.
pub proof fn lemma_pipe_now(
    t0: &PipeTable,
    t1: &PipeTable,
    t2: &PipeTable,
    i: int,
    d: Seq<u8>,
    w: i64,
    count: int,
    peek: Seq<u8>,
    r: Seq<u8>,
)
    requires
        t0.wf(),
        0 <= i < 4,
        t0@[i].used,
        t0@[i].readers > 0,
        0 < d.len(),
        t0@[i].data.len() == 0,
        d.len() <= 4048,
        d.len() <= count,
        t0.write_now(t1, i, d, w),
        t1.peeked(i, count, peek),
        t1.read_now(t2, i, count, r),
    ensures
        w == d.len(),
        peek == d,
        r == d,
        t2@ == t0@,
{
    assert(t0@[i].data =~= Seq::<u8>::empty());
    assert(d.take(d.len() as int) =~= d);
    assert(t0@[i].data + d =~= d);
    assert(t1@[i].data == d);
    assert(t2@[i].data =~= t0@[i].data);
    assert(t2@ =~= t0@);
}

// ---- more of attempts and watches ----

/// An attempt to write to a counter is done where the number fits; where it does not, it
/// waits, unless that is not wanted, and changes nothing.
pub proof fn lemma_write_attempt(t: &EventTable, new: &EventTable, task: int, fd: int, add: u64, a: Attempt)
    requires
        t.wf(),
        0 <= task < NR_TASKS,
        t.obj_of(task, fd) is Some,
        t.objs@[t.obj_of(task, fd)->0].kind == EvKind::Event,
        t.write_did(new, task, fd, add, 8, a),
    ensures
        ({
            let i = t.obj_of(task, fd)->0;
            let o = t.objs@[i];
            if o.val + add < 0xFFFF_FFFF_FFFF_FFFF {
                &&& a == Attempt::Done(8)
                &&& new.objs@[i].val == o.val + add
            } else {
                &&& *new == *t
                &&& o.nonblock ==> a == Attempt::Done((-EAGAIN) as i64)
                &&& !o.nonblock ==> a is Wait
            }
        }),
{
    assert(0 <= t.fds@[task]@[fd] <= 16);
}

/// The signals that can be read are those of the mask that was set last, and no others.
pub proof fn lemma_mask(
    t0: &EventTable,
    t1: &EventTable,
    pipes: &PipeTable,
    env: &PollEnv,
    fd: int,
    mask: u64,
    r: i64,
)
    requires
        t0.wf(),
        env.task < NR_TASKS,
        pipes.pipe_of(env.task as int, fd) is None,
        t0.mask_set(t1, env.task as int, fd, mask, r),
        r == 0,
    ensures
        t1.ready(pipes, env, fd).0 <==> env.signal & mask != 0,
        t1.obj_of(env.task as int, fd) == t0.obj_of(env.task as int, fd),
{
    assert(0 <= t0.fds@[env.task as int]@[fd] <= 16);
    assert(t1.obj_of(env.task as int, fd) == t0.obj_of(env.task as int, fd));
}

/// Watching a directory that is watched already gives the number that it was given, and
/// asks for what was asked for last. Another directory gets another number.
pub proof fn lemma_watch_again(
    t0: &EventTable,
    t1: &EventTable,
    t2: &EventTable,
    task: int,
    fd: int,
    path: Seq<u8>,
    path2: Seq<u8>,
    m1: u32,
    m2: u32,
    r1: i64,
    r2: i64,
)
    requires
        t0.wf(),
        0 <= task < NR_TASKS,
        t0.watch_did(t1, task, fd, Some(path), m1, r1),
        r1 >= 0,
        t1.watch_did(t2, task, fd, Some(path2), m2, r2),
        r2 >= 0,
        t0.obj_of(task, fd) is Some,
        forall|k: int|
            0 <= k < 8 && (#[trigger] t0.watches@[t0.obj_of(task, fd)->0]@[k]).used ==> t0.watches@[t0.obj_of(
                task,
                fd,
            )->0]@[k].wd < t0.next_wd,
        forall|a: int, b: int|
            #![trigger t0.watches@[t0.obj_of(task, fd)->0]@[a], t0.watches@[t0.obj_of(task, fd)->0]@[b]]
            0 <= a < b < 8 && t0.watches@[t0.obj_of(task, fd)->0]@[a].used && t0.watches@[t0.obj_of(
                task,
                fd,
            )->0]@[b].used ==> t0.watches@[t0.obj_of(task, fd)->0]@[a].wd != t0.watches@[t0.obj_of(
                task,
                fd,
            )->0]@[b].wd,
        t0.next_wd < 0xFFFF_FFFE,
    ensures
        cut_at_zero(path) == cut_at_zero(path2) ==> r2 == r1,
        cut_at_zero(path) != cut_at_zero(path2) ==> r2 != r1,
{
    let i = t0.obj_of(task, fd)->0;
    assert(0 <= t0.fds@[task]@[fd] <= 16);
    assert(t1.obj_of(task, fd) == Some(i));
    let ws = t0.watches@[i]@;
    let new = t1.watches@[i]@;
    let full = padded(cut_at_zero(path), 128);
    let full2 = padded(cut_at_zero(path2), 128);
    lemma_path(ws, full, 0);
    lemma_free_watch(ws, 0);
    lemma_path(new, full2, 0);
    lemma_free_watch(new, 0);
    lemma_cut_whole(path);
    lemma_cut_whole(path2);
    lemma_cut_padded(cut_at_zero(path), 128);
    lemma_cut_padded(cut_at_zero(path2), 128);
    let k = if path_from(ws, full, 0) < 8 {
        path_from(ws, full, 0)
    } else {
        free_watch_from(ws, 0)
    };
    assert(new[k].used && new[k].wd == r1 && new[k].path@ == full);
    assert forall|j: int| 0 <= j < 8 && j != k implies #[trigger] new[j] == ws[j] by {}
    let p = path_from(new, full2, 0);
    if full == full2 {
        assert(p <= k) by {
            if p > k {
                assert(!(new[k].used && new[k].path@ == full2));
            }
        }
        if p < k {
            assert(new[p] == ws[p]);
            assert(ws[p].used && ws[p].path@ == full);
        }
    } else if p < 8 {
        assert(p != k);
        assert(new[p] == ws[p]);
        if k < path_from(ws, full, 0) {
        }
        if p < k {
            assert(ws[p].used);
        }
    }
}

/// A descriptor that leads to the end of a pipe to read is told as readable exactly where a
/// read of that pipe does not wait; one that leads to the end to write is told as
/// writable exactly where a byte can be written.
pub proof fn lemma_pipe_fd_ready(
    t: &EventTable,
    pipes: &PipeTable,
    p1: &PipeTable,
    p2: &PipeTable,
    env: &PollEnv,
    fd: int,
    i: int,
    count: int,
    r: PipeRead,
    d: Seq<u8>,
    w: PipeWrite,
)
    requires
        pipes.wf(),
        0 <= i < 4,
        pipes.pipe_of(env.task as int, fd) == Some(i),
        pipes@[i].used,
        count > 0,
        d.len() == 1,
        pipes.read_did(p1, i, count, r),
        pipes.write_did(p2, i, d, w),
    ensures
        pipes.dir_of(env.task as int, fd) == PIPE_DIR_READ ==> {
            &&& t.ready(pipes, env, fd).0 <==> !(r is Wait)
            &&& !t.ready(pipes, env, fd).1
        },
        pipes.dir_of(env.task as int, fd) == PIPE_DIR_WRITE ==> {
            &&& t.ready(pipes, env, fd).1 <==> w == PipeWrite::Wrote(1)
            &&& t.ready(pipes, env, fd).2 <==> w is Failed
            &&& !t.ready(pipes, env, fd).0
        },
{
    lemma_pipe_ready(pipes, p1, p2, i, count, r, d, w);
}

/// An open file can always be read and written, a socket written; a descriptor that leads
/// nowhere can be neither.
pub proof fn lemma_other_ready(t: &EventTable, pipes: &PipeTable, env: &PollEnv, fd: int)
    requires
        pipes.pipe_of(env.task as int, fd) is None,
        t.obj_of(env.task as int, fd) is None,
        0 <= fd < 32,
    ensures
        ({
            let (readable, writable, hung) = t.ready(pipes, env, fd);
            &&& !hung
            &&& readable <==> env.files@[fd] && !env.sockets@[fd]
            &&& writable <==> env.files@[fd] || env.sockets@[fd]
        }),
{
}

} // verus!
