use kernelfs::errno::{EBUSY, EINVAL};
use kernelfs::fs::{major, minor, mkdev};
use kernelfs::info;
use kernelfs::info::{LoadAvg, Memory, SysInfo, TaskState};
use kernelfs::ioport::{check_bitmap, set_bitmap, IoPorts};
use kernelfs::irq::{Dispatch, Irqs};

fn tasks() -> Vec<TaskState> {
    let mut t = vec![TaskState::Unused; 64];
    t[0] = TaskState::Running;
    t[1] = TaskState::Waiting;
    t[2] = TaskState::Running;
    t
}

fn memory() -> Memory {
    Memory { total: 1000, free: 400, total_swap: 50, free_swap: 20 }
}

#[test]
fn device_numbers_come_apart() {
    assert_eq!(mkdev(3, 1), 0x0301);
    assert_eq!(major(0x0301), 3);
    assert_eq!(minor(0x0301), 1);
    assert_eq!(mkdev(0x103, 0x201), 0x0301);
}

#[test]
fn a_system_tells_of_itself() {
    let none = SysInfo::new();
    assert_eq!((none.uptime, none.totalram, none.procs, none.mem_unit), (0, 0, 0, 0));
    assert_eq!(none.loads, [0; 3]);
    let mut avg = LoadAvg::new();
    assert_eq!(info::count_tasks(&tasks()), 3);
    assert_eq!(info::nr_running(&tasks()), 2);
    let s = SysInfo::sysinfo(&mut avg, 1234, &tasks(), memory());
    assert_eq!(s.uptime, 12);
    assert_eq!(s.procs, 3);
    assert_eq!(s.totalram, 1000);
    assert_eq!(s.freeram, 400);
    assert_eq!(s.bufferram, 16);
    assert_eq!(s.freeswap, 20);
    assert_eq!(s.mem_unit, 1);
    assert!(info::selftest(&mut avg, 1234, &tasks(), memory()));
}

#[test]
fn loads_rise_towards_what_runs() {
    let mut avg = LoadAvg::new();
    let a = avg.update_loads(500, &tasks());
    let b = avg.update_loads(1000, &tasks());
    assert!(a[0] < b[0]);
    assert_eq!(a, [10496, 2176, 704]);
    assert!(b[0] <= 2 * 65536);
    assert!(b[2] <= b[1] && b[1] <= b[0]);
}

#[test]
fn ports_are_taken_and_released() {
    let mut p = IoPorts::new();
    assert!(!p.check_port(0x60, 4));
    p.snarf_region(0x60, 4);
    assert!(p.check_port(0x63, 1));
    assert!(!p.check_port(0x64, 4));
    assert!(p.check_port(0x5f, 2));
    p.release_region(0x60, 4);
    assert!(!p.check_port(0x60, 4));
    assert!(p.selftest());
    let mut m = vec![0u8; 4];
    set_bitmap(&mut m, 5, 6, true);
    assert_eq!(m, vec![0xe0, 0x07, 0, 0]);
    assert!(check_bitmap(&m, 10, 3));
    assert!(!check_bitmap(&m, 11, 21));
    set_bitmap(&mut m, 6, 2, false);
    assert_eq!(m, vec![0x20, 0x07, 0, 0]);
}

#[test]
fn lines_are_masked_and_let_through() {
    let mut q = Irqs::new();
    assert_eq!(q.irq_mask(), 0xffff);
    let w = q.enable_irq(3);
    assert_eq!(w.len(), 1);
    assert_eq!((w[0].port, w[0].value), (0x21, 0xf7));
    let w = q.enable_irq(10);
    assert_eq!(w.len(), 2);
    assert_eq!((w[0].port, w[0].value), (0x21, 0xf3));
    assert_eq!((w[1].port, w[1].value), (0xa1, 0xfb));
    q.disable_irq(3);
    assert_eq!(q.irq_mask(), 0xfbfb);
    assert_eq!(q.enable_irq(16).len(), 0);
}

#[test]
fn interrupts_reach_their_handlers() {
    let mut q = Irqs::new();
    assert!(q.request_irq(4, 42, true).is_ok());
    assert_eq!(q.request_irq(4, 43, true).unwrap_err(), EBUSY);
    assert_eq!(q.request_irq(16, 43, true).unwrap_err(), EINVAL);
    let (w, d) = q.enter_irq(4);
    assert_eq!(d, Dispatch::Handle(42, false));
    assert_eq!(w.len(), 1);
    q.leave_irq();
    assert_eq!(q.irq_count(4), 1);
    assert_eq!(q.enter_irq(9).1, Dispatch::Spurious);
    q.leave_irq();
    assert_eq!(q.spurious_count(), 1);
    assert_eq!(q.enter_irq(99).1, Dispatch::Unknown);
    q.leave_irq();
    q.free_irq(4);
    assert!(q.request_irq(4, 43, false).is_ok());
}

#[test]
fn bottom_halves_run_once_each() {
    let mut q = Irqs::new();
    q.init_bh(2, 7);
    q.init_bh(5, 8);
    q.mark_bh(5);
    q.mark_bh(2);
    let mut w = q.begin_bottom_half();
    assert_eq!(q.next_bottom_half(&mut w), Some((2, Some(7))));
    assert_eq!(q.next_bottom_half(&mut w), Some((5, Some(8))));
    assert_eq!(q.next_bottom_half(&mut w), None);
    let mut w = q.begin_bottom_half();
    assert_eq!(q.next_bottom_half(&mut w), None);
}
