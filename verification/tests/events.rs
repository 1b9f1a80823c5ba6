use kernelfs::errno::{EAGAIN, EBADF, EEXIST, EINVAL, EMFILE, ENOENT};
use kernelfs::fs::event::{
    epoll_deadline, Attempt, Collected, EpollEvent, EventTable, ItimerSpec, PollEnv, EPOLLIN,
    EPOLLOUT, EPOLL_CTL_ADD, EPOLL_CTL_DEL, EPOLL_CTL_MOD, IN_CREATE, IN_DELETE, NONBLOCK,
};
use kernelfs::fs::pipe::PipeTable;

fn number(b: &[u8]) -> u64 {
    let mut n = 0u64;
    for k in 0..8 {
        n = n * 256 + b[7 - k] as u64;
    }
    n
}

fn env(now: u64) -> PollEnv {
    PollEnv { task: 0, now, signal: 0, sockets: [false; 32], files: [false; 32] }
}

fn bound(t: &mut EventTable, obj: i64, fd: usize) {
    assert!(obj >= 0);
    t.bind_fd(0, obj as usize, fd);
    assert!(t.fd_is_event(0, fd));
}

#[test]
fn a_counter_counts_and_is_emptied() {
    let mut t = EventTable::new();
    let o = t.eventfd_create(3, 0);
    bound(&mut t, o, 5);
    assert_eq!(t.eventfd_write(0, 5, 4, 8), 8);
    let mut b = vec![0u8; 8];
    assert_eq!(t.eventfd_read(0, 5, &mut b), 8);
    assert_eq!(number(&b), 7);
    assert_eq!(t.eventfd_read(0, 5, &mut b), -(EAGAIN as i64));
    assert_eq!(t.eventfd_read(0, 6, &mut b), -(EBADF as i64));
    assert_eq!(t.eventfd_write(0, 5, 1, 7), -(EINVAL as i64));
    assert_eq!(t.eventfd_write(0, 5, u64::MAX, 8), -(EAGAIN as i64));
    assert_eq!(t.eventfd_write(0, 5, u64::MAX - 1, 8), 8);
    assert_eq!(t.eventfd_write(0, 5, 1, 8), -(EAGAIN as i64));
    let mut small = vec![0u8; 7];
    assert_eq!(t.eventfd_read(0, 5, &mut small), -(EINVAL as i64));
}

#[test]
fn objects_run_out_and_come_back() {
    let mut t = EventTable::new();
    for k in 0..16 {
        let o = t.eventfd_create(0, 0);
        assert_eq!(o, k);
        bound(&mut t, o, k as usize);
    }
    assert_eq!(t.timerfd_create(0, 0), -(EMFILE as i64));
    t.close(0, 3);
    assert!(!t.fd_is_event(0, 3));
    assert_eq!(t.epoll_create(0), 3);
}

#[test]
fn a_timer_runs_out_and_again() {
    let mut t = EventTable::new();
    let o = t.timerfd_create(0, 0);
    bound(&mut t, o, 1);
    let s = ItimerSpec {
        it_interval_sec: 0,
        it_interval_nsec: 20_000_000,
        it_value_sec: 0,
        it_value_nsec: 15_000_000,
    };
    assert_eq!(t.timerfd_settime(0, 1, &s, 100), 0);
    assert_eq!(t.timerfd_settime(0, 2, &s, 100), -(EBADF as i64));
    let mut b = vec![0u8; 8];
    assert_eq!(t.timerfd_read(0, 1, &mut b, 101), -(EAGAIN as i64));
    assert_eq!(t.timerfd_read(0, 1, &mut b, 102), 8);
    assert_eq!(number(&b), 1);
    assert_eq!(t.timerfd_read(0, 1, &mut b, 108), 8);
    assert_eq!(number(&b), 3);
    let left = t.timerfd_gettime(0, 1, 109).unwrap();
    assert_eq!(left.it_interval_nsec, 20_000_000);
    assert_eq!(left.it_value_nsec, 10_000_000);
    assert_eq!(t.timerfd_gettime(0, 9, 109), Err(EBADF));
}

#[test]
fn signals_are_read_from_the_lowest() {
    let mut t = EventTable::new();
    let o = t.signalfd_alloc(0);
    bound(&mut t, o, 1);
    assert_eq!(t.signalfd_set_mask(0, 1, 0b1100), 0);
    let mut pending = 0b1011u64;
    let mut b = vec![0u8; 128];
    assert_eq!(t.signalfd_read(0, 1, &mut b, &mut pending, 9), 128);
    assert_eq!(b[0], 3);
    assert_eq!(b[12], 9);
    assert_eq!(pending, 0b0011);
    assert_eq!(t.signalfd_read(0, 1, &mut b, &mut pending, 9), -(EAGAIN as i64));
}

#[test]
fn waiting_for_many_descriptors() {
    let mut t = EventTable::new();
    let pipes = PipeTable::new();
    let ep = t.epoll_create(0);
    bound(&mut t, ep, 1);
    let ev = t.eventfd_create(0, 0);
    bound(&mut t, ev, 2);
    let want = Some(EpollEvent { events: EPOLLIN, data: 77 });
    assert_eq!(t.epoll_ctl(0, 1, EPOLL_CTL_MOD, 2, want), -(ENOENT as i64));
    assert_eq!(t.epoll_ctl(0, 1, EPOLL_CTL_ADD, 2, want), 0);
    assert_eq!(t.epoll_ctl(0, 1, EPOLL_CTL_ADD, 2, want), -(EEXIST as i64));
    assert_eq!(t.epoll_ctl(0, 1, 9, 2, want), -(EINVAL as i64));
    assert_eq!(t.epoll_ctl(0, 2, EPOLL_CTL_ADD, 1, want), -(EINVAL as i64));
    assert_eq!(t.epoll_ctl(0, 7, EPOLL_CTL_ADD, 1, want), -(EBADF as i64));
    assert!(matches!(t.epoll_wait(1, true, 4, 100, &pipes, &env(5)), Collected::Wait));
    match t.epoll_wait(1, true, 4, 100, &pipes, &env(100)) {
        Collected::Events(e) => assert_eq!(e.len(), 0),
        _ => panic!("the time is up"),
    }
    assert_eq!(t.eventfd_write(0, 2, 1, 8), 8);
    match t.epoll_wait(1, true, 4, 100, &pipes, &env(5)) {
        Collected::Events(e) => {
            assert_eq!(e.len(), 1);
            assert_eq!(e[0].data, 77);
            assert_eq!(e[0].events, EPOLLIN);
        }
        _ => panic!("the counter is ready"),
    }
    assert!(matches!(t.epoll_wait(1, true, 0, 0, &pipes, &env(5)), Collected::Failed(EINVAL)));
    assert!(matches!(t.epoll_wait(8, true, 1, 0, &pipes, &env(5)), Collected::Failed(EBADF)));
    let out = Some(EpollEvent { events: EPOLLOUT, data: 78 });
    assert_eq!(t.epoll_ctl(0, 1, EPOLL_CTL_MOD, 2, out), 0);
    assert_eq!(t.epoll_ctl(0, 1, EPOLL_CTL_DEL, 2, None), 0);
    assert_eq!(t.epoll_ctl(0, 1, EPOLL_CTL_DEL, 2, None), -(ENOENT as i64));
    assert_eq!(epoll_deadline(50, -1), u64::MAX);
    assert_eq!(epoll_deadline(50, 15), 52);
}

#[test]
fn notices_come_in_order() {
    let mut t = EventTable::new();
    let o = t.inotify_init(0);
    bound(&mut t, o, 1);
    let wd = t.inotify_add_watch(0, 1, Some(b"/tmp\0"), IN_CREATE | IN_DELETE);
    assert!(wd > 0);
    assert_eq!(t.inotify_add_watch(0, 1, Some(b"/tmp\0"), IN_CREATE | IN_DELETE), wd);
    assert_eq!(t.inotify_add_watch(0, 1, Some(b"/tmp\0"), 0), -(EINVAL as i64));
    assert_eq!(t.inotify_add_watch(0, 2, Some(b"/tmp\0"), 1), -(EBADF as i64));
    t.inotify_notify(b"/tmp", IN_CREATE, b"a", 0);
    t.inotify_notify(b"/tmp", IN_DELETE, b"b", 0);
    t.inotify_notify(b"/else", IN_CREATE, b"c", 0);
    assert!(t.inotify_has_events(o as usize));
    let mut b = vec![0u8; 4096];
    let n = t.inotify_read(0, 1, &mut b);
    assert!(n > 0);
    assert_eq!(b[0] as i64, wd);
    assert_eq!(b[4] as u32 + 256 * b[5] as u32, IN_CREATE);
    assert_eq!(b[16], b'a');
    assert!(!t.inotify_has_events(o as usize));
    assert_eq!(t.inotify_read(0, 1, &mut b), -(EAGAIN as i64));
    assert_eq!(t.inotify_rm_watch(0, 1, wd as u32), 0);
    assert_eq!(t.inotify_rm_watch(0, 1, wd as u32), -(EINVAL as i64));
}

#[test]
fn a_directory_may_end_in_a_zero_byte() {
    let mut t = EventTable::new();
    let o = t.inotify_init(0);
    bound(&mut t, o, 1);
    assert!(t.inotify_add_watch(0, 1, Some(b"/tmp\0"), IN_CREATE) > 0);
    t.inotify_notify(b"/tmpx\0", IN_CREATE, b"a", 0);
    t.inotify_notify(b"/tm\0p", IN_CREATE, b"a", 0);
    assert!(!t.inotify_has_events(o as usize));
    t.inotify_notify(b"/tmp\0", IN_CREATE, b"a", 0);
    assert!(t.inotify_has_events(o as usize));
}

#[test]
fn an_attempt_waits_unless_told_not_to() {
    let mut t = EventTable::new();
    let a = t.eventfd_create(0, 0);
    bound(&mut t, a, 1);
    let b = t.eventfd_create(0, NONBLOCK);
    bound(&mut t, b, 2);
    let mut buf = vec![0u8; 8];
    let mut sig = 0u64;
    assert!(matches!(t.read(0, 1, &mut buf, &mut sig, 1, 0), Attempt::Wait));
    assert!(matches!(t.read(0, 2, &mut buf, &mut sig, 1, 0), Attempt::Done(-11)));
    assert!(matches!(t.read(0, 3, &mut buf, &mut sig, 1, 0), Attempt::Done(-9)));
    assert!(matches!(t.write(0, 1, 2, 8), Attempt::Done(8)));
    assert!(matches!(t.read(0, 1, &mut buf, &mut sig, 1, 0), Attempt::Done(8)));
    let e = t.epoll_create(0);
    bound(&mut t, e, 4);
    assert!(matches!(t.write(0, 4, 2, 8), Attempt::Done(-22)));
}
