use kernelfs::errno::{
    EAGAIN, EBADF, EEXIST, EINVAL, EMSGSIZE, ENOENT, EPIPE, ETIMEDOUT,
};
use kernelfs::fs::mqueue::{
    abs_to_remaining_ticks, MqAttr, MqTable, Received, Sent, MQ_MAGIC, O_CREAT, O_EXCL, O_NONBLOCK,
};
use kernelfs::fs::pipe::{PipeRead, PipeTable, PipeWrite, PIPE_DIR_READ, PIPE_DIR_WRITE, RING_SIZE};

fn text(r: Received) -> Vec<u8> {
    match r {
        Received::Message(m) => m.data,
        Received::Failed(e) => panic!("failed: {}", e),
        Received::Wait(_) => panic!("has to wait"),
    }
}

fn attr(maxmsg: i64, msgsize: i64) -> Option<MqAttr> {
    Some(MqAttr { flags: 0, maxmsg, msgsize, curmsgs: 0 })
}

#[test]
fn a_queue_is_opened_by_name() {
    let mut t = MqTable::new();
    assert_eq!(t.sys_mq_open(b"noslash\0", O_CREAT, None), -(ENOENT as i64));
    assert_eq!(t.sys_mq_open(b"/\0", O_CREAT, None), -(ENOENT as i64));
    assert_eq!(t.sys_mq_open(b"/q\0", 0, None), -(ENOENT as i64));
    assert_eq!(t.sys_mq_open(b"/q\0", O_CREAT, attr(0, 1)), -(EINVAL as i64));
    assert_eq!(t.sys_mq_open(b"/q\0", O_CREAT, None), MQ_MAGIC);
    assert_eq!(t.sys_mq_open(b"/q\0", O_CREAT | O_EXCL, None), -(EEXIST as i64));
    assert_eq!(t.sys_mq_open(b"/q\0", 0, None), MQ_MAGIC);
    assert_eq!(t.sys_mq_open(b"/r\0", O_CREAT, None), MQ_MAGIC + 1);
    assert_eq!(t.decode(MQ_MAGIC + 1), Some(1));
    assert_eq!(t.decode(MQ_MAGIC + 2), None);
    assert_eq!(t.decode(3), None);
    assert_eq!(t.sys_mq_unlink(b"/q\0"), 0);
    assert_eq!(t.sys_mq_unlink(b"/q\0"), -(ENOENT as i64));
    assert_eq!(t.sys_mq_notify(MQ_MAGIC, 0), -(EBADF as i64));
}

#[test]
fn urgent_messages_come_first_and_equals_in_order() {
    let mut t = MqTable::new();
    let q = t.sys_mq_open(b"/q\0", O_CREAT, None);
    for (m, p) in [(b"a", 1u32), (b"b", 5), (b"c", 1), (b"d", 5)] {
        assert!(matches!(t.sys_mq_timedsend(q, Some(m), p, None), Sent::Done));
    }
    assert_eq!(t.sys_mq_getsetattr(q, None).unwrap().curmsgs, 4);
    assert_eq!(t.sys_mq_getsetattr(q, None).unwrap().maxmsg, 16);
    assert_eq!(t.sys_mq_getsetattr(q, None).unwrap().msgsize, 1024);
    for m in [b"b", b"d", b"a", b"c"] {
        assert_eq!(text(t.sys_mq_timedreceive(q, Some(8), None)), m.to_vec());
    }
}

#[test]
fn a_full_or_empty_queue_makes_wait() {
    let mut t = MqTable::new();
    let q = t.sys_mq_open(b"/q\0", O_CREAT, attr(1, 4));
    assert!(matches!(t.sys_mq_timedreceive(q, Some(8), None), Received::Wait(None)));
    assert!(matches!(t.sys_mq_timedreceive(q, Some(8), Some(3)), Received::Wait(Some(2))));
    assert!(matches!(t.sys_mq_timedreceive(q, Some(8), Some(0)), Received::Failed(ETIMEDOUT)));
    assert!(matches!(t.sys_mq_timedsend(q, Some(b"12345"), 0, None), Sent::Failed(EMSGSIZE)));
    assert!(matches!(t.sys_mq_timedsend(q, Some(b"1234"), 0, None), Sent::Done));
    assert!(matches!(t.sys_mq_timedsend(q, Some(b"x"), 0, Some(5)), Sent::Wait(Some(4))));
    assert!(matches!(t.sys_mq_timedreceive(q, Some(3), None), Received::Failed(EMSGSIZE)));
    let a = MqAttr { flags: O_NONBLOCK as u64, maxmsg: 0, msgsize: 0, curmsgs: 0 };
    assert!(t.sys_mq_getsetattr(q, Some(a)).is_ok());
    assert!(matches!(t.sys_mq_timedsend(q, Some(b"x"), 0, None), Sent::Failed(EAGAIN)));
    assert!(matches!(t.sys_mq_timedsend(5, Some(b"x"), 0, None), Sent::Failed(EBADF)));
    assert!(matches!(t.sys_mq_timedreceive(5, Some(1), None), Received::Failed(EBADF)));
    assert!(t.sys_mq_getsetattr(5, None).is_err());
}

#[test]
fn only_so_many_queues_fit() {
    let mut t = MqTable::new();
    for k in 0..8u8 {
        assert_eq!(t.sys_mq_open(&[b'/', b'a' + k, 0], O_CREAT, None), MQ_MAGIC + k as i64);
    }
    assert!(t.sys_mq_open(b"/z\0", O_CREAT, None) < 0);
}

#[test]
fn times_become_ticks() {
    assert_eq!(abs_to_remaining_ticks(None, 7), None);
    assert_eq!(abs_to_remaining_ticks(Some((43, 0)), 40), Some(300));
    assert_eq!(abs_to_remaining_ticks(Some((40, 0)), 40), Some(0));
    assert_eq!(abs_to_remaining_ticks(Some((43, 1_000_000_000)), 40), Some(0));
    assert_eq!(abs_to_remaining_ticks(Some((u64::MAX, 0)), 0), Some(u64::MAX));
}

#[test]
fn bytes_leave_a_pipe_as_they_came() {
    let mut t = PipeTable::new();
    let p = t.alloc_pipe(true).unwrap();
    t.register_fd(0, 3, p, PIPE_DIR_READ);
    t.register_fd(0, 4, p, PIPE_DIR_WRITE);
    assert!(t.fd_is_pipe(0, 3));
    assert!(!t.fd_is_pipe(1, 3));
    assert_eq!(t.fd_to_pipe(0, 4), Some(p));
    assert_eq!(t.fd_dir(0, 4), PIPE_DIR_WRITE);
    assert!(matches!(t.pipe_write(p, b"first "), PipeWrite::Wrote(6)));
    assert!(matches!(t.pipe_write(p, b"second"), PipeWrite::Wrote(6)));
    assert_eq!(t.pipe_peek_kernel(p, 5), b"first".to_vec());
    match t.pipe_read(p, 8) {
        PipeRead::Bytes(b) => assert_eq!(b, b"first se".to_vec()),
        PipeRead::Wait => panic!("there are bytes"),
    }
    assert_eq!(t.fd_poll_status(0, 3), (true, false, false));
    assert_eq!(t.pipe_read_kernel(p, 100), b"cond".to_vec());
    assert_eq!(t.fd_poll_status(0, 3), (false, false, false));
    assert!(matches!(t.pipe_read(p, 1), PipeRead::Wait));
}

#[test]
fn a_pipe_holds_only_so_much() {
    let mut t = PipeTable::new();
    let p = t.alloc_pipe(true).unwrap();
    let big = vec![7u8; RING_SIZE + 10];
    assert!(matches!(t.pipe_write(p, &big), PipeWrite::Wait(4048)));
    assert!(matches!(t.pipe_write(p, b"x"), PipeWrite::Wait(0)));
    match t.pipe_read(p, 20) {
        PipeRead::Bytes(b) => assert_eq!(b, vec![7u8; 20]),
        PipeRead::Wait => panic!("there are bytes"),
    }
    assert!(matches!(t.pipe_write(p, b"around"), PipeWrite::Wrote(6)));
    let all = t.pipe_read_kernel(p, 5000);
    assert_eq!(all.len(), 4048 - 20 + 6);
    assert_eq!(&all[all.len() - 6..], b"around");
    assert!(t.alloc_pipe(false).is_none());
}

#[test]
fn ends_of_a_pipe_are_counted() {
    let mut t = PipeTable::new();
    let p = t.alloc_pipe(true).unwrap();
    t.register_fd(0, 3, p, PIPE_DIR_READ);
    t.register_fd(0, 4, p, PIPE_DIR_WRITE);
    assert!(t.dup_fd(0, 4, 5));
    assert!(!t.dup_fd(0, 9, 5));
    t.clone_pipe_fds(0, 1);
    assert!(t.fd_is_pipe(1, 5));
    t.close_fd(0, 4);
    t.close_fd(0, 5);
    assert!(matches!(t.pipe_read(p, 1), PipeRead::Wait));
    t.close_fd(1, 4);
    t.close_fd(1, 5);
    assert!(matches!(t.pipe_read(p, 1), PipeRead::Bytes(_)));
    t.close_fd(1, 3);
    t.close_fd(0, 3);
    assert!(matches!(t.pipe_write(p, b"x"), PipeWrite::Wrote(0)));
}

#[test]
fn writing_without_a_reader_fails() {
    let mut t = PipeTable::new();
    let p = t.alloc_pipe(true).unwrap();
    t.register_fd(0, 3, p, PIPE_DIR_READ);
    t.register_fd(0, 4, p, PIPE_DIR_WRITE);
    t.close_fd(0, 3);
    assert!(matches!(t.pipe_write(p, b"x"), PipeWrite::Failed(EPIPE)));
    for _ in 1..4 {
        assert!(t.alloc_pipe(true).is_some());
    }
    assert!(t.alloc_pipe(true).is_none());
}
