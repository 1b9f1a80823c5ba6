use kernelfs::errno::{EAGAIN, EBADF, EFAULT, EINVAL};
use kernelfs::fs::aio::{AioRun, AioTable, Iocb, Submitted};
use kernelfs::fs::devices::{CharCall, CharDev};
use kernelfs::fs::minix::mkfs::mkfs;
use kernelfs::fs::oflags::{O_CREAT, O_RDWR};
use kernelfs::fs::proc::ProcTask;
use kernelfs::fs::{aio, mode, namei, open, read_write, super_block, Vfs, SEEK_CUR};

fn no_tasks() -> Vec<ProcTask> {
    let mut t = Vec::new();
    for _ in 0..64 {
        t.push(ProcTask { used: false, exe_path: Vec::new() });
    }
    t
}

fn root() -> Vfs {
    let mut v = Vfs::new();
    v.fs.cache.attach_disk(0x0101, 400);
    assert!(mkfs(&mut v.fs, 0x0101, 400, 64).is_some());
    assert!(super_block::mount_root(&mut v.fs, 0x0101, 0));
    v
}

fn request(op: u16, fd: u32, nbytes: u64, offset: u64) -> Iocb {
    Iocb { obj: 0x1000, data: 7, op, fd, buf: 0x2000, nbytes, offset }
}

#[test]
fn contexts_are_handed_out_and_taken_back() {
    let mut t = AioTable::new();
    assert_eq!(t.io_setup(0, 1), Err(EINVAL));
    assert_eq!(t.io_setup(8, 0), Err(EINVAL));
    for n in 1..5u64 {
        assert_eq!(t.io_setup(8, 1), Ok(n));
    }
    assert_eq!(t.io_setup(8, 1), Err(EAGAIN));
    assert!(!t.selftest());
    assert_eq!(t.io_destroy(2), 0);
    assert_eq!(t.io_destroy(2), -(EINVAL as i64));
    assert_eq!(t.io_destroy(0), -(EINVAL as i64));
    assert_eq!(t.io_destroy(5), -(EINVAL as i64));
    assert!(t.selftest());
    assert_eq!(t.io_setup(8, 1), Ok(2));
    assert_eq!(t.io_cancel(2, 0, 0), -(EAGAIN as i64));
    assert_eq!(t.io_cancel(9, 0, 0), -(EINVAL as i64));
}

#[test]
fn outcomes_come_in_the_order_of_the_requests() {
    let mut v = root();
    let mut t = AioTable::new();
    assert_eq!(open::sys_open(&mut v, b"/f", O_CREAT | O_RDWR, 0o600), 0);
    let id = t.io_setup(8, 1).unwrap();
    assert_eq!(t.io_submit(id, 2, 1), Ok((0, 2)));
    assert_eq!(t.io_submit(id, 0, 1), Err(EINVAL));
    assert_eq!(t.io_submit(id, 33, 1), Err(EINVAL));
    assert_eq!(t.io_submit(id, 1, 0), Err(EINVAL));
    assert_eq!(t.io_submit(9, 1, 1), Err(EINVAL));
    let mut out = b"abcdef".to_vec();
    let w = request(1, 0, 6, 10);
    assert_eq!(t.submit_one(&mut v, 0, 0, &w, &mut out, &no_tasks(), 0), Submitted::Next);
    let mut back = vec![0u8; 4];
    let r = request(0, 0, 4, 12);
    assert_eq!(t.submit_one(&mut v, 0, 1, &r, &mut back, &no_tasks(), 0), Submitted::Next);
    assert_eq!(back, b"cdef".to_vec());
    assert_eq!(read_write::lseek(&mut v, 0, 0, SEEK_CUR), 0);
    let got = t.io_getevents(id, 0, 1, 1).unwrap();
    assert_eq!(got.len(), 1);
    assert_eq!(got[0].res, 6);
    assert_eq!(got[0].data, 7);
    assert_eq!(got[0].obj, 0x1000);
    let got = t.io_pgetevents(id, 1, 8, 1).unwrap();
    assert_eq!(got.len(), 1);
    assert_eq!(got[0].res, 4);
    assert_eq!(t.io_getevents(id, 0, 8, 1).unwrap().len(), 0);
    assert!(t.io_getevents(id, 2, 1, 1).is_err());
    assert!(t.io_getevents(id, 0, 1, 0).is_err());
    assert!(t.io_getevents(id, -1, 1, 1).is_err());
    assert!(t.io_getevents(3, 0, 1, 1).is_err());
}

#[test]
fn a_full_ring_ends_a_submission() {
    let mut v = root();
    let mut t = AioTable::new();
    let id = t.io_setup(8, 1).unwrap();
    let bad = request(9, 0, 0, 0);
    let mut b = Vec::new();
    for k in 0..32 {
        assert_eq!(t.submit_one(&mut v, 0, k, &bad, &mut b, &no_tasks(), 0), Submitted::Next);
    }
    assert_eq!(t.submit_one(&mut v, 0, 3, &bad, &mut b, &no_tasks(), 0), Submitted::Ended(3));
    let got = t.io_getevents(id, 0, 40, 1).unwrap();
    assert_eq!(got.len(), 32);
    assert_eq!(got[31].res, -(EINVAL as i64));
    let mut none = bad;
    none.obj = 0;
    assert_eq!(
        t.submit_one(&mut v, 0, 0, &none, &mut b, &no_tasks(), 0),
        Submitted::Ended(-(EFAULT as i64))
    );
}

#[test]
fn requests_fail_one_by_one() {
    let mut v = root();
    let mut b = vec![0u8; 4];
    let mut no_buf = request(0, 0, 4, 0);
    no_buf.buf = 0;
    assert_eq!(aio::run_iocb(&mut v, &no_buf, &mut b, &no_tasks(), 0), AioRun::Done(-(EFAULT as i64)));
    let closed = request(0, 0, 4, 0);
    assert_eq!(aio::run_iocb(&mut v, &closed, &mut b, &no_tasks(), 0), AioRun::Done(-(EBADF as i64)));
    let sync = request(2, 0, 0, 0);
    assert_eq!(aio::run_iocb(&mut v, &sync, &mut b, &no_tasks(), 0), AioRun::Done(-(EBADF as i64)));
    assert_eq!(open::sys_open(&mut v, b"/f", O_CREAT | O_RDWR, 0o600), 0);
    assert!(aio::request_fits(&v, &request(1, 0, 4, 8), 4));
    let sync = request(3, 0, 0, 0);
    assert_eq!(aio::run_iocb(&mut v, &sync, &mut b, &no_tasks(), 0), AioRun::Done(0));
}

#[test]
fn a_driver_answers_a_request() {
    let mut v = root();
    v.devices.register_chrdev(1, "mem", CharDev::Mem);
    assert_eq!(namei::do_mknod(&mut v, b"/null", mode::S_IFCHR | 0o600, 0x0103), 0);
    assert_eq!(open::sys_open(&mut v, b"/null", O_RDWR, 0), 0);
    let mut t = AioTable::new();
    let id = t.io_setup(1, 1).unwrap();
    let r = request(0, 0, 4, 100);
    let mut b = vec![0u8; 4];
    assert_eq!(
        t.submit_one(&mut v, 0, 0, &r, &mut b, &no_tasks(), 0),
        Submitted::Char(CharCall::Mem(3), 100, 0)
    );
    assert_eq!(read_write::lseek(&mut v, 0, 0, SEEK_CUR), 100);
    assert_eq!(t.submit_char(&mut v, 0, 0, &r, 0, 2), Submitted::Next);
    assert_eq!(read_write::lseek(&mut v, 0, 0, SEEK_CUR), 0);
    assert_eq!(t.io_getevents(id, 1, 1, 1).unwrap()[0].res, 2);
}

#[test]
fn a_request_is_read_from_its_bytes() {
    let mut d = vec![0u8; 64];
    d[0] = 0x11;
    d[7] = 0x80;
    d[16] = 1;
    d[20] = 3;
    d[25] = 0x20;
    d[32] = 5;
    d[47] = 0x40;
    let cb = Iocb::decode(0x99, &d);
    assert_eq!(cb.obj, 0x99);
    assert_eq!(cb.data, 0x8000_0000_0000_0011);
    assert_eq!(cb.op, 1);
    assert_eq!(cb.fd, 3);
    assert_eq!(cb.buf, 0x2000);
    assert_eq!(cb.nbytes, 5);
    assert_eq!(cb.offset, 0x4000_0000_0000_0000);
}
