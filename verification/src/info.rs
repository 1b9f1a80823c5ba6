//! What a system tells of itself: how long it has been up, its load, its tasks
//! and its memory.

use crate::fs::buffer::{BLOCK_SIZE, NR_BUFFERS};
use vstd::prelude::*;

verus! {

/// Clock ticks in a second.
pub const HZ: u64 = 100;
/// How many tasks there can be.
pub const NR_TASKS: usize = 64;
/// Bytes in a page of memory.
pub const PAGE_SIZE: usize = 4096;

/// The fixed-point one of a load.
pub const FIXED_1: u64 = 2048;
/// How much of the old load is kept, for the averages over 1, 5 and 15
/// minutes, in units of `FIXED_1`.
pub const EXP_1: u64 = 1884;
pub const EXP_5: u64 = 2014;
pub const EXP_15: u64 = 2037;

/// The state of a task.
#[derive(Debug, Clone, Copy, PartialEq, Eq, Structural)]
pub enum TaskState {
    /// There is no task.
    Unused,
    Running,
    /// It waits, has stopped or has ended.
    Waiting,
}

/// What a system tells of itself; memory is counted in pages.
#[derive(Debug, Clone, Copy)]
pub struct SysInfo {
    /// In seconds.
    pub uptime: i64,
    /// The average load over 1, 5 and 15 minutes, in units of 1/65536.
    pub loads: [u64; 3],
    pub totalram: u64,
    pub freeram: u64,
    pub sharedram: u64,
    pub bufferram: u64,
    pub totalswap: u64,
    pub freeswap: u64,
    pub procs: u16,
    pub pad: u16,
    pub totalhigh: u64,
    pub freehigh: u64,
    pub mem_unit: u32,
}

/// The average load so far, in units of `1 / FIXED_1`, and when it was last
/// brought up to date.
#[derive(Debug, Clone, Copy)]
pub struct LoadAvg {
    pub avenrun: [u64; 3],
    pub last_tick: u64,
}

/// What the memory has, in pages.
#[derive(Debug, Clone, Copy, PartialEq, Eq, Structural)]
pub struct Memory {
    pub total: u64,
    pub free: u64,
    pub total_swap: u64,
    pub free_swap: u64,
}

/// What is told at the start.
#[derive(Debug, Clone, Copy, PartialEq, Eq, Structural)]
pub struct Summary {
    pub uptime: i64,
    pub procs: u16,
    pub total_kb: u64,
    pub free_kb: u64,
}

/// How many of the first `n` tasks are there.
pub open spec fn tasks_in(tasks: Seq<TaskState>, n: int) -> int
    decreases n,
{
    if n <= 0 {
        0
    } else {
        tasks_in(tasks, n - 1) + if tasks[n - 1] != TaskState::Unused {
            1int
        } else {
            0
        }
    }
}

/// How many of the first `n` tasks are running.
pub open spec fn running_in(tasks: Seq<TaskState>, n: int) -> int
    decreases n,
{
    if n <= 0 {
        0
    } else {
        running_in(tasks, n - 1) + if tasks[n - 1] == TaskState::Running {
            1int
        } else {
            0
        }
    }
}

/// A load that was `load` while `n` tasks run, of which so much is kept.
pub open spec fn averaged(load: int, exp: int, n: int) -> int {
    (load * exp + n * 2048 * (2048 - exp)) / 2048
}

/// How much of the load is kept in average `k`.
pub open spec fn kept(k: int) -> int {
    if k == 0 {
        1884
    } else if k == 1 {
        2014
    } else {
        2037
    }
}

impl LoadAvg {
    /// No load is higher than that of all tasks running.
    pub open spec fn wf(&self) -> bool {
        forall|k: int| 0 <= k < 3 ==> #[trigger] self.avenrun@[k] <= NR_TASKS * 2048
    }

    /// Whether it is time to bring the load up to date: every five seconds, and
    /// while there is none.
    pub open spec fn is_due(&self, now: u64) -> bool {
        ||| now >= self.last_tick + 500
        ||| self.avenrun@[0] == 0 && self.avenrun@[1] == 0 && self.avenrun@[2] == 0
    }

    /// The load at `now`, while `n` tasks run.
    pub open spec fn updated(&self, new: &LoadAvg, now: u64, n: int) -> bool {
        if self.is_due(now) {
            &&& new.last_tick == now
            &&& forall|k: int|
                0 <= k < 3 ==> #[trigger] new.avenrun@[k] == averaged(
                    self.avenrun@[k] as int,
                    kept(k),
                    n,
                )
        } else {
            *new == *self
        }
    }

    pub fn new() -> (r: LoadAvg)
        ensures
            r.wf(),
            r.last_tick == 0,
            forall|k: int| 0 <= k < 3 ==> #[trigger] r.avenrun@[k] == 0,
    {
        LoadAvg { avenrun: [0u64; 3], last_tick: 0 }
    }

    /// Brings the load up to date where it is time to, and gives it in units of
    /// 1/65536.
    pub fn update_loads(&mut self, now: u64, tasks: &[TaskState]) -> (r: [u64; 3])
        requires
            old(self).wf(),
            tasks@.len() == NR_TASKS,
        ensures
            final(self).wf(),
            old(self).updated(final(self), now, running_in(tasks@, 64)),
            forall|k: int| 0 <= k < 3 ==> #[trigger] r@[k] == final(self).avenrun@[k] * 32,
    {
        let none: bool = self.avenrun[0] == 0 && self.avenrun[1] == 0 && self.avenrun[2] == 0;
        if (now >= self.last_tick && now - self.last_tick >= 5 * HZ) || none {
            assert(old(self).is_due(now));
            self.last_tick = now;
            let n: u64 = nr_running(tasks);
            let a: u64 = calc_load(self.avenrun[0], EXP_1, n);
            let b: u64 = calc_load(self.avenrun[1], EXP_5, n);
            let c: u64 = calc_load(self.avenrun[2], EXP_15, n);
            self.avenrun = [a, b, c];
            assert forall|k: int| 0 <= k < 3 implies #[trigger] self.avenrun@[k] == averaged(
                old(self).avenrun@[k] as int,
                kept(k),
                n as int,
            ) && self.avenrun@[k] <= NR_TASKS * 2048 by {
                if k == 0 {
                    assert(self.avenrun@[0] == a);
                } else if k == 1 {
                    assert(self.avenrun@[1] == b);
                } else {
                    assert(self.avenrun@[2] == c);
                }
            }
        }
        assert(self.avenrun@[0] <= NR_TASKS * 2048 && self.avenrun@[1] <= NR_TASKS * 2048
            && self.avenrun@[2] <= NR_TASKS * 2048);
        [self.avenrun[0] * 32, self.avenrun[1] * 32, self.avenrun[2] * 32]
    }
}

/// One step of an average load.
fn calc_load(load: u64, exp: u64, n: u64) -> (r: u64)
    requires
        load <= NR_TASKS * 2048,
        n <= NR_TASKS,
        exp <= 2048,
    ensures
        r == averaged(load as int, exp as int, n as int),
        r <= NR_TASKS * 2048,
{
    assert(load * exp <= 131072 * exp && n * 2048 * (2048 - exp) <= 131072 * (2048 - exp))
        by (nonlinear_arith)
        requires
            load <= 131072,
            n <= 64,
            exp <= 2048,
    ;
    (load * exp + n * FIXED_1 * (FIXED_1 - exp)) / FIXED_1
}

/// A load moves towards the number of running tasks and never past it.
pub proof fn lemma_load_between(load: int, exp: int, n: int)
    requires
        0 <= load,
        0 <= n,
        0 <= exp <= 2048,
    ensures
        load <= n * 2048 ==> load <= averaged(load, exp, n) <= n * 2048,
        load >= n * 2048 ==> n * 2048 <= averaged(load, exp, n) <= load,
{
    let m = n * 2048;
    assert(load <= m ==> load * 2048 <= load * exp + m * (2048 - exp) <= m * 2048)
        by (nonlinear_arith)
        requires
            0 <= exp <= 2048,
    ;
    assert(load >= m ==> m * 2048 <= load * exp + m * (2048 - exp) <= load * 2048)
        by (nonlinear_arith)
        requires
            0 <= exp <= 2048,
    ;
}

/// How many tasks there are.
pub fn count_tasks(tasks: &[TaskState]) -> (r: usize)
    requires
        tasks@.len() == NR_TASKS,
    ensures
        r == tasks_in(tasks@, 64),
        r <= NR_TASKS,
{
    let mut r: usize = 0;
    for i in 0..NR_TASKS
        invariant
            tasks@.len() == NR_TASKS,
            r == tasks_in(tasks@, i as int),
            r <= i,
    {
        if tasks[i] != TaskState::Unused {
            r = r + 1;
        }
    }
    r
}

/// How many tasks are running.
pub fn nr_running(tasks: &[TaskState]) -> (r: u64)
    requires
        tasks@.len() == NR_TASKS,
    ensures
        r == running_in(tasks@, 64),
        r <= NR_TASKS,
{
    let mut r: u64 = 0;
    for i in 0..NR_TASKS
        invariant
            tasks@.len() == NR_TASKS,
            r == running_in(tasks@, i as int),
            r <= i,
    {
        if tasks[i] == TaskState::Running {
            r = r + 1;
        }
    }
    r
}

impl SysInfo {
    /// Nothing known.
    pub fn new() -> (r: SysInfo)
        ensures
            r.uptime == 0 && r.totalram == 0 && r.freeram == 0 && r.sharedram == 0 && r.bufferram
                == 0 && r.totalswap == 0 && r.freeswap == 0 && r.procs == 0 && r.pad == 0
                && r.totalhigh == 0 && r.freehigh == 0 && r.mem_unit == 0,
            forall|k: int| 0 <= k < 3 ==> #[trigger] r.loads@[k] == 0,
    {
        SysInfo {
            uptime: 0,
            loads: [0u64; 3],
            totalram: 0,
            freeram: 0,
            sharedram: 0,
            bufferram: 0,
            totalswap: 0,
            freeswap: 0,
            procs: 0,
            pad: 0,
            totalhigh: 0,
            freehigh: 0,
            mem_unit: 0,
        }
    }

    /// What the system tells at tick `now` with those tasks and that memory.
    pub open spec fn tells(&self, avg: &LoadAvg, now: u64, tasks: Seq<TaskState>, mem: Memory) -> bool {
        &&& self.uptime == now / 100
        &&& forall|k: int| 0 <= k < 3 ==> #[trigger] self.loads@[k] == avg.avenrun@[k] * 32
        &&& self.procs == tasks_in(tasks, 64)
        &&& self.totalram == mem.total
        &&& self.freeram == mem.free
        &&& self.totalswap == mem.total_swap
        &&& self.freeswap == mem.free_swap
        &&& self.sharedram == 0
        &&& self.bufferram == NR_BUFFERS * BLOCK_SIZE / PAGE_SIZE as int
        &&& self.totalhigh == 0
        &&& self.freehigh == 0
        &&& self.pad == 0
        &&& self.mem_unit == 1
    }

    pub fn sysinfo(avg: &mut LoadAvg, now: u64, tasks: &[TaskState], mem: Memory) -> (r: SysInfo)
        requires
            old(avg).wf(),
            tasks@.len() == NR_TASKS,
        ensures
            final(avg).wf(),
            old(avg).updated(final(avg), now, running_in(tasks@, 64)),
            r.tells(final(avg), now, tasks@, mem),
    {
        let mut info = SysInfo::new();
        info.uptime = (now / HZ) as i64;
        info.loads = avg.update_loads(now, tasks);
        info.procs = count_tasks(tasks) as u16;
        info.totalram = mem.total;
        info.freeram = mem.free;
        info.totalswap = mem.total_swap;
        info.freeswap = mem.free_swap;
        info.mem_unit = 1;
        info.bufferram = (NR_BUFFERS * BLOCK_SIZE / PAGE_SIZE) as u64;
        info
    }
}

/// What is told at the start, with memory in kilobytes.
pub fn init(avg: &mut LoadAvg, now: u64, tasks: &[TaskState], mem: Memory) -> (r: Summary)
    requires
        old(avg).wf(),
        tasks@.len() == NR_TASKS,
        mem.total * 4 <= u64::MAX,
        mem.free * 4 <= u64::MAX,
    ensures
        final(avg).wf(),
        old(avg).updated(final(avg), now, running_in(tasks@, 64)),
        r.uptime == now / 100,
        r.procs == tasks_in(tasks@, 64),
        r.total_kb == mem.total * 4,
        r.free_kb == mem.free * 4,
{
    let info = SysInfo::sysinfo(avg, now, tasks, mem);
    Summary {
        uptime: info.uptime,
        procs: info.procs,
        total_kb: info.totalram * 4,
        free_kb: info.freeram * 4,
    }
}

/// Whether what the system tells makes sense: there is at least one task.
pub fn selftest(avg: &mut LoadAvg, now: u64, tasks: &[TaskState], mem: Memory) -> (r: bool)
    requires
        old(avg).wf(),
        tasks@.len() == NR_TASKS,
    ensures
        final(avg).wf(),
        old(avg).updated(final(avg), now, running_in(tasks@, 64)),
        r == (tasks_in(tasks@, 64) >= 1),
{
    let none = SysInfo::new();
    let info = SysInfo::sysinfo(avg, now, tasks, mem);
    none.uptime == 0 && none.procs == 0 && info.uptime >= 0 && info.procs >= 1
}

} // verus!
