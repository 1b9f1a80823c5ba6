use kernelfs::errno::{
    EACCES, EBADF, EEXIST, EINVAL, EISDIR, ELOOP, EMFILE, ENFILE, ENODEV, ENOENT, ENOTDIR,
    ENOTEMPTY, EPERM, EROFS, ESPIPE,
};
use kernelfs::fs::devices::{CharCall, CharDev};
use kernelfs::fs::inode::NIL;
use kernelfs::fs::minix::mkfs::mkfs;
use kernelfs::fs::namei;
use kernelfs::fs::oflags::{
    O_APPEND, O_CREAT, O_EXCL, O_NOFOLLOW, O_RDONLY, O_RDWR, O_TRUNC, O_WRONLY,
};
use kernelfs::fs::open;
use kernelfs::fs::pipe::PipeTable;
use kernelfs::fs::proc::ProcTask;
use kernelfs::fs::read_write;
use kernelfs::fs::read_write::Io;
use kernelfs::fs::stat;
use kernelfs::fs::stat::{Stat, Stat64};
use kernelfs::fs::super_block;
use kernelfs::fs::{file_table, mode, Dirent, Vfs, MS_RDONLY, SEEK_CUR, SEEK_END, SEEK_SET};

const DEV: u16 = 0x0101;

fn no_tasks() -> Vec<ProcTask> {
    let mut t = Vec::new();
    for _ in 0..64 {
        t.push(ProcTask { used: false, exe_path: Vec::new() });
    }
    t
}

fn root_with(flags: u64) -> Vfs {
    let mut v = Vfs::new();
    v.fs.cache.attach_disk(DEV, 400);
    assert!(mkfs(&mut v.fs, DEV, 400, 64).is_some());
    assert!(super_block::mount_root(&mut v.fs, DEV, flags));
    v
}

fn root() -> Vfs {
    root_with(0)
}

fn read_all(v: &mut Vfs, fd: usize, n: usize) -> Vec<u8> {
    let mut b = vec![0u8; n];
    match read_write::read(v, fd, &mut b, &no_tasks(), 0) {
        Io::Done(r) => {
            assert!(r >= 0);
            b.truncate(r as usize);
            b
        }
        Io::Char(_, _) => panic!("no character device"),
    }
}

fn dirent() -> Dirent {
    Dirent { d_ino: 0, d_off: 0, d_reclen: 0, d_type: 0, d_name: [0; 32] }
}

#[test]
fn what_is_written_is_read_back() {
    let mut v = root();
    assert!(namei::is_ready(&v));
    let fd = open::sys_open(&mut v, b"/hello", O_CREAT | O_RDWR, 0o644);
    assert_eq!(fd, 0);
    assert_eq!(read_write::write(&mut v, 0, b"hello, disk"), Io::Done(11));
    assert_eq!(read_write::lseek(&mut v, 0, 0, SEEK_CUR), 11);
    assert_eq!(read_write::lseek(&mut v, 0, 7, SEEK_SET), 7);
    assert_eq!(read_all(&mut v, 0, 64), b"disk".to_vec());
    assert_eq!(read_write::lseek(&mut v, 0, -11, SEEK_END), 0);
    assert_eq!(read_all(&mut v, 0, 5), b"hello".to_vec());
    assert_eq!(read_write::lseek(&mut v, 0, 0, SEEK_CUR), 5);
    assert_eq!(read_write::lseek(&mut v, 0, -6, SEEK_CUR), -(EINVAL as i64));
    assert_eq!(read_write::lseek(&mut v, 0, 0, 9), -(EINVAL as i64));
    assert_eq!(read_write::fsync(&mut v, 0), 0);
}

#[test]
fn writes_run_over_many_blocks() {
    let mut v = root();
    assert_eq!(open::sys_creat(&mut v, b"/big", 0o600), 0);
    let data: Vec<u8> = (0..20000u32).map(|k| (k % 251) as u8).collect();
    assert_eq!(read_write::write(&mut v, 0, &data), Io::Done(20000));
    assert_eq!(open::sys_close(&mut v, 0), 0);
    assert_eq!(open::sys_open(&mut v, b"/big", O_RDONLY, 0), 0);
    assert_eq!(read_all(&mut v, 0, 30000), data);
    assert_eq!(read_all(&mut v, 0, 10), Vec::<u8>::new());
    assert_eq!(open::sys_truncate(&mut v, b"/big", 1500), 0);
    assert_eq!(read_write::lseek(&mut v, 0, 0, SEEK_END), 1500);
    assert_eq!(read_write::lseek(&mut v, 0, 1490, SEEK_SET), 1490);
    assert_eq!(read_all(&mut v, 0, 100), data[1490..1500].to_vec());
}

#[test]
fn a_mode_guards_a_descriptor() {
    let mut v = root();
    assert_eq!(open::sys_creat(&mut v, b"/w", 0o600), 0);
    let mut b = vec![0u8; 4];
    assert_eq!(read_write::read(&mut v, 0, &mut b, &no_tasks(), 0), Io::Done(-(EBADF as i64)));
    assert_eq!(open::sys_open(&mut v, b"/w", O_RDONLY, 0), 1);
    assert_eq!(read_write::write(&mut v, 1, b"x"), Io::Done(-(EBADF as i64)));
    assert_eq!(read_write::write(&mut v, 0, b""), Io::Done(0));
    let mut e = Vec::new();
    assert_eq!(read_write::read(&mut v, 1, &mut e, &no_tasks(), 0), Io::Done(0));
    assert_eq!(read_write::write(&mut v, 7, b"x"), Io::Done(-(EBADF as i64)));
    assert_eq!(read_write::lseek(&mut v, 99, 0, SEEK_SET), -(EBADF as i64));
    assert_eq!(read_write::fsync(&mut v, 5), -(EBADF as i64));
}

#[test]
fn appending_goes_to_the_end() {
    let mut v = root();
    assert_eq!(open::sys_creat(&mut v, b"/log", 0o600), 0);
    assert_eq!(read_write::write(&mut v, 0, b"one "), Io::Done(4));
    assert_eq!(open::sys_open(&mut v, b"/log", O_WRONLY | O_APPEND, 0), 1);
    assert_eq!(read_write::write(&mut v, 0, b"two "), Io::Done(4));
    assert_eq!(read_write::write(&mut v, 1, b"three"), Io::Done(5));
    assert_eq!(open::sys_open(&mut v, b"/log", O_RDONLY, 0), 2);
    assert_eq!(read_all(&mut v, 2, 100), b"one two three".to_vec());
    assert_eq!(open::sys_open(&mut v, b"/log", O_WRONLY | O_TRUNC, 0), 3);
    assert_eq!(read_write::lseek(&mut v, 2, 0, SEEK_END), 0);
}

#[test]
fn open_checks_its_flags() {
    let mut v = root();
    assert_eq!(open::sys_open(&mut v, b"/none", O_RDONLY, 0), -(ENOENT as i64));
    assert_eq!(open::sys_open(&mut v, b"/none/x", O_CREAT, 0), -(ENOENT as i64));
    assert_eq!(open::sys_open(&mut v, b"/f", 3, 0), -(EINVAL as i64));
    assert_eq!(open::sys_open(&mut v, b"/f", u32::MAX, 0), -(EINVAL as i64));
    assert_eq!(open::sys_creat(&mut v, b"/f", 0o600), 0);
    assert_eq!(open::sys_open(&mut v, b"/f", O_CREAT | O_EXCL, 0), -(EEXIST as i64));
    assert_eq!(open::sys_open(&mut v, b"/", O_RDWR, 0), -(EISDIR as i64));
    assert_eq!(open::sys_open(&mut v, b"/", O_RDONLY, 0), 1);
    assert_eq!(open::sys_open(&mut v, b"/f/x", O_RDONLY, 0), -(ENOTDIR as i64));
    assert_eq!(namei::do_mkdir(&mut v, b"/d", 0o755), 0);
    assert_eq!(open::sys_open(&mut v, b"/d", O_WRONLY, 0), -(EISDIR as i64));
    assert_eq!(open::nr_open_fds(&v), 2);
    assert_eq!(file_table::nr_used(&v), 2);
}

#[test]
fn descriptors_are_the_lowest_free() {
    let mut v = root();
    assert_eq!(open::sys_creat(&mut v, b"/a", 0o600), 0);
    assert_eq!(open::sys_dup(&mut v, 0), 1);
    assert_eq!(open::sys_dup(&mut v, 0), 2);
    assert_eq!(open::sys_close(&mut v, 1), 0);
    assert_eq!(open::sys_close(&mut v, 1), -(EBADF as i64));
    assert_eq!(open::sys_dup(&mut v, 2), 1);
    assert_eq!(open::sys_dup(&mut v, 9), -(EBADF as i64));
    assert_eq!(v.files[open::fd_to_filp(&v, 0)].f_count, 3);
    assert_eq!(open::sys_dup2(&mut v, 0, 0), 0);
    assert_eq!(open::sys_dup2(&mut v, 0, 16), -(EBADF as i64));
    assert_eq!(open::sys_dup2(&mut v, 9, 1), -(EBADF as i64));
    assert_eq!(open::sys_creat(&mut v, b"/b", 0o600), 3);
    assert_eq!(open::sys_dup2(&mut v, 0, 3), 3);
    assert_eq!(open::fd_to_filp(&v, 3), open::fd_to_filp(&v, 0));
    assert_eq!(file_table::nr_used(&v), 1);
    assert_eq!(v.files[open::fd_to_filp(&v, 0)].f_count, 4);
    open::close_all(&mut v);
    assert_eq!(open::nr_open_fds(&v), 0);
    assert_eq!(file_table::nr_used(&v), 0);
}

#[test]
fn tables_fill_up() {
    let mut v = root();
    assert_eq!(open::sys_creat(&mut v, b"/a", 0o600), 0);
    for n in 1..16 {
        assert_eq!(open::sys_open(&mut v, b"/a", O_RDONLY, 0), n);
    }
    assert_eq!(open::sys_open(&mut v, b"/a", O_RDONLY, 0), -(EMFILE as i64));
    assert_eq!(open::sys_dup(&mut v, 0), -(EMFILE as i64));
    v.current = 1;
    for n in 0..16 {
        assert_eq!(open::sys_open(&mut v, b"/a", O_RDONLY, 0), n);
    }
    v.current = 2;
    assert_eq!(open::sys_open(&mut v, b"/a", O_RDONLY, 0), -(ENFILE as i64));
}

#[test]
fn a_new_task_shares_open_files() {
    let mut v = root();
    assert_eq!(open::sys_creat(&mut v, b"/a", 0o600), 0);
    assert_eq!(open::sys_dup(&mut v, 0), 1);
    open::clone_fds(&mut v, 0, 5);
    let f = open::fd_to_filp(&v, 0);
    assert_eq!(open::task_fd(&v, 5, 0), f);
    assert_eq!(open::task_fd(&v, 5, 1), f);
    assert_eq!(open::task_fd(&v, 5, 2), NIL);
    assert_eq!(open::task_fd(&v, 64, 0), NIL);
    assert_eq!(v.files[f].f_count, 4);
    open::close_all(&mut v);
    assert_eq!(v.files[f].f_count, 2);
    v.current = 5;
    open::close_all(&mut v);
    assert_eq!(file_table::nr_used(&v), 0);
    open::set_task_fd(&mut v, 3, 4, 7);
    assert_eq!(open::task_fd(&v, 3, 4), 7);
    open::set_task_fd(&mut v, 3, 99, 7);
    open::clone_fds(&mut v, 3, 3);
    assert_eq!(v.files[7].f_count, 0);
}

#[test]
fn directories_come_and_go() {
    let mut v = root();
    assert_eq!(namei::do_mkdir(&mut v, b"/d", 0o755), 0);
    assert_eq!(namei::do_mkdir(&mut v, b"/d", 0o755), -(EEXIST as i64));
    assert_eq!(namei::do_mkdir(&mut v, b"/d/e", 0o755), 0);
    assert_eq!(namei::do_mkdir(&mut v, b"/x/e", 0o755), -(ENOENT as i64));
    assert_eq!(namei::do_mkdir(&mut v, b"/", 0o755), -(ENOENT as i64));
    assert_eq!(namei::do_rmdir(&mut v, b"/d"), -(ENOTEMPTY as i64));
    assert_eq!(namei::do_rmdir(&mut v, b"/d/e"), 0);
    assert_eq!(namei::do_rmdir(&mut v, b"/d"), 0);
    assert_eq!(namei::do_rmdir(&mut v, b"/d"), -(ENOENT as i64));
    assert!(namei::is_ready(&v));
}

#[test]
fn names_come_and_go() {
    let mut v = root();
    assert_eq!(open::sys_creat(&mut v, b"/a", 0o600), 0);
    assert_eq!(read_write::write(&mut v, 0, b"text"), Io::Done(4));
    assert_eq!(namei::do_link(&mut v, b"/a", b"/b"), 0);
    assert_eq!(namei::do_link(&mut v, b"/a", b"/b"), -(EEXIST as i64));
    assert_eq!(namei::do_link(&mut v, b"/none", b"/c"), -(ENOENT as i64));
    assert_eq!(namei::do_mkdir(&mut v, b"/d", 0o755), 0);
    assert_eq!(namei::do_link(&mut v, b"/d", b"/d2"), -(EPERM as i64));
    assert_eq!(namei::do_unlink(&mut v, b"/a"), 0);
    assert_eq!(namei::do_unlink(&mut v, b"/a"), -(ENOENT as i64));
    assert_eq!(open::sys_open(&mut v, b"/b", O_RDONLY, 0), 1);
    assert_eq!(read_all(&mut v, 1, 10), b"text".to_vec());
    assert_eq!(namei::do_mknod(&mut v, b"/dev", mode::S_IFCHR | 0o600, 0x0103), 0);
    let mut s = Stat64::zeroed();
    assert_eq!(stat::sys_stat(&mut v, b"/dev", &mut s), 0);
    assert_eq!(s.st_rdev, 0x0103);
    assert_eq!(s.st_mode, (mode::S_IFCHR | 0o600) as u32);
}

#[test]
fn dots_lead_up_and_nowhere() {
    let mut v = root();
    assert_eq!(namei::do_mkdir(&mut v, b"/d", 0o755), 0);
    let top = namei::namei(&mut v, b"/").unwrap();
    assert_eq!(namei::namei(&mut v, b"/d/.."), Ok(top));
    assert_eq!(namei::namei(&mut v, b"/.."), Ok(top));
    assert_eq!(namei::namei(&mut v, b"/d/../d/./.."), Ok(top));
    let d = namei::namei(&mut v, b"/d").unwrap();
    assert_eq!(namei::lnamei(&mut v, b"//d/"), Ok(d));
    assert_eq!(namei::namei(&mut v, b"/e"), Err(ENOENT));
    let (dir, last) = namei::dir_namei(&mut v, b"/d/new").unwrap();
    assert_eq!(dir, d);
    assert_eq!(last, b"new".to_vec());
}

#[test]
fn the_working_directory_is_where_names_start() {
    let mut v = root();
    assert_eq!(namei::do_mkdir(&mut v, b"/d", 0o755), 0);
    assert_eq!(open::sys_chdir(&mut v, b"/d"), 0);
    assert_eq!(open::sys_creat(&mut v, b"f", 0o600), 0);
    assert!(namei::namei(&mut v, b"/d/f").is_ok());
    assert_eq!(open::sys_chdir(&mut v, b"f"), -(ENOTDIR as i64));
    assert_eq!(open::sys_chdir(&mut v, b"nowhere"), -(ENOENT as i64));
    assert_eq!(open::sys_chdir(&mut v, b".."), 0);
    assert_eq!(namei::namei(&mut v, b"f"), Err(ENOENT));
}

#[test]
fn nothing_is_found_without_a_root() {
    let mut v = Vfs::new();
    assert_eq!(namei::namei(&mut v, b"/a"), Err(ENOENT));
    assert_eq!(namei::namei(&mut v, b"a"), Err(ENOENT));
    assert_eq!(open::sys_open(&mut v, b"/a", O_CREAT, 0), -(ENOENT as i64));
}

#[test]
fn modes_and_sizes_are_told() {
    let mut v = root();
    v.fs.now = 77;
    assert_eq!(open::sys_creat(&mut v, b"/a", 0o640), 0);
    assert_eq!(read_write::write(&mut v, 0, &vec![1u8; 1025]), Io::Done(1025));
    let mut s = Stat64::zeroed();
    assert_eq!(stat::sys_stat(&mut v, b"/a", &mut s), 0);
    assert_eq!(s.st_size, 1025);
    assert_eq!(s.st_blocks, 3);
    assert_eq!(s.st_blksize, 1024);
    assert_eq!(s.st_nlink, 1);
    assert_eq!(s.st_mtime, 77);
    assert_eq!(s.st_mode, (mode::S_IFREG | 0o640) as u32);
    assert_eq!(s.st_dev, DEV as u64);
    assert_eq!(open::sys_chmod(&mut v, b"/a", 0o1600), 0);
    assert_eq!(open::sys_chmod(&mut v, b"/b", 0o600), -(ENOENT as i64));
    let pipes = PipeTable::new();
    assert_eq!(stat::sys_fstat(&v, &pipes, false, 0, &mut s), 0);
    assert_eq!(s.st_mode, (mode::S_IFREG | 0o1600) as u32);
    assert_eq!(stat::sys_fstat(&v, &pipes, false, 1, &mut s), -(EBADF as i64));
    assert_eq!(stat::sys_fstat(&v, &pipes, true, 1, &mut s), 0);
    assert_eq!(s.st_mode, 0o140600);
    assert_eq!(stat::sys_lstat(&mut v, b"/x", &mut s), -(ENOENT as i64));
    let b = Stat64::from_inode(&mut v.fs, 1).unwrap();
    assert_eq!(b.st_ino, 1);
    assert_eq!(b.st_mode & 0o170000, mode::S_IFDIR as u32);
    assert_eq!(Stat::zeroed().st_size, 0);
}

#[test]
fn pipes_are_told_of() {
    let v = root();
    let mut pipes = PipeTable::new();
    let p = pipes.alloc_pipe(true).unwrap();
    pipes.register_fd(0, 4, p, 0);
    let mut s = Stat64::zeroed();
    assert_eq!(stat::sys_fstat(&v, &pipes, false, 4, &mut s), 0);
    assert_eq!(s.st_mode, 0o010600);
    assert_eq!(s.st_nlink, 1);
}

#[test]
fn a_file_system_for_reading_only_is_not_written() {
    let mut v = root_with(MS_RDONLY);
    assert_eq!(open::sys_creat(&mut v, b"/a", 0o600), -(EACCES as i64));
    assert_eq!(namei::do_mkdir(&mut v, b"/d", 0o755), -(EACCES as i64));
    assert_eq!(open::sys_chmod(&mut v, b"/", 0o700), -(EROFS as i64));
    assert_eq!(open::sys_truncate(&mut v, b"/", 0), -(EINVAL as i64));
    assert_eq!(open::sys_open(&mut v, b"/", O_RDONLY, 0), 0);
}

#[test]
fn opening_for_writing_where_only_reading_is_allowed() {
    let mut v = root();
    assert_eq!(open::sys_creat(&mut v, b"/a", 0o600), 0);
    assert_eq!(namei::do_mknod(&mut v, b"/tty", mode::S_IFCHR | 0o600, 0x0400), 0);
    v.fs.supers[0].s_flags |= MS_RDONLY;
    v.fs.supers[0].s_rd_only = true;
    let a = namei::namei(&mut v, b"/a").unwrap();
    v.fs.inodes[a].i_flags |= MS_RDONLY;
    assert_eq!(open::sys_open(&mut v, b"/a", O_WRONLY, 0), -(EROFS as i64));
    assert_eq!(open::sys_open(&mut v, b"/a", O_RDONLY | O_TRUNC, 0), -(EROFS as i64));
    assert_eq!(open::sys_open(&mut v, b"/a", O_RDONLY, 0), 1);
    assert_eq!(open::sys_open(&mut v, b"/", O_WRONLY, 0), -(EISDIR as i64));
}

#[test]
fn entries_of_a_directory_are_read_one_by_one() {
    let mut v = root();
    assert_eq!(namei::do_mkdir(&mut v, b"/d", 0o755), 0);
    assert_eq!(open::sys_open(&mut v, b"/", O_RDONLY, 0), 0);
    let mut names = Vec::new();
    let mut e = dirent();
    while read_write::readdir(&mut v, 0, &mut e) == 1 {
        let len = e.d_name.iter().position(|&b| b == 0).unwrap();
        names.push(e.d_name[..len].to_vec());
    }
    assert_eq!(names, vec![b".".to_vec(), b"..".to_vec(), b"d".to_vec()]);
    assert_eq!(read_write::readdir(&mut v, 0, &mut e), 0);
    let mut b = vec![0u8; 4];
    assert_eq!(read_write::read(&mut v, 0, &mut b, &no_tasks(), 0), Io::Done(-(EISDIR as i64)));
    assert_eq!(open::sys_creat(&mut v, b"/f", 0o600), 1);
    assert_eq!(read_write::readdir(&mut v, 1, &mut e), -(ENOTDIR as i64));
    assert_eq!(read_write::readdir(&mut v, 2, &mut e), -(EBADF as i64));
}

#[test]
fn drivers_are_asked() {
    let mut v = root();
    assert_eq!(namei::do_mknod(&mut v, b"/tty", mode::S_IFCHR | 0o600, 0x0400), 0);
    assert_eq!(namei::do_mknod(&mut v, b"/null", mode::S_IFCHR | 0o600, 0x0103), 0);
    assert_eq!(namei::do_mknod(&mut v, b"/odd", mode::S_IFCHR | 0o600, 0x1f00), 0);
    assert_eq!(namei::do_mknod(&mut v, b"/blk", mode::S_IFBLK | 0o600, 0x1f00), 0);
    v.devices.register_chrdev(4, "tty", CharDev::Tty);
    v.devices.register_chrdev(1, "mem", CharDev::Mem);
    assert_eq!(open::sys_open(&mut v, b"/odd", O_RDWR, 0), -(ENODEV as i64));
    assert_eq!(open::sys_open(&mut v, b"/blk", O_RDWR, 0), -(ENODEV as i64));
    assert_eq!(open::sys_open(&mut v, b"/tty", O_RDWR, 0), 0);
    assert_eq!(open::sys_open(&mut v, b"/null", O_RDWR, 0), 1);
    assert_eq!(read_write::write(&mut v, 0, b"hi"), Io::Char(CharCall::Tty, 0));
    let mut b = vec![0u8; 4];
    assert_eq!(
        read_write::read(&mut v, 1, &mut b, &no_tasks(), 0),
        Io::Char(CharCall::Mem(3), 0)
    );
    read_write::char_done(&mut v, 1, 0, 4);
    assert_eq!(read_write::lseek(&mut v, 1, 0, SEEK_CUR), 4);
    assert_eq!(read_write::lseek(&mut v, 0, 0, SEEK_CUR), -(ESPIPE as i64));
    assert_eq!(read_write::fsync(&mut v, 0), -(EINVAL as i64));
}

#[test]
fn a_block_device_ends_with_its_blocks() {
    let mut v = root();
    let dev: u16 = 0x0300;
    v.fs.cache.attach_disk(dev, 8);
    v.devices.register_blkdev(3, "disk", kernelfs::fs::devices::BlockDev::Generic);
    v.devices.set_blk_size(3, 8);
    assert_eq!(namei::do_mknod(&mut v, b"/disk", mode::S_IFBLK | 0o600, dev), 0);
    assert_eq!(open::sys_open(&mut v, b"/disk", O_RDWR, 0), 0);
    assert_eq!(read_write::lseek(&mut v, 0, 0, SEEK_END), 8192);
    assert_eq!(read_write::lseek(&mut v, 0, 1020, SEEK_SET), 1020);
    assert_eq!(read_write::write(&mut v, 0, b"over the edge"), Io::Done(13));
    assert_eq!(read_write::lseek(&mut v, 0, 1020, SEEK_SET), 1020);
    assert_eq!(read_all(&mut v, 0, 13), b"over the edge".to_vec());
    assert_eq!(read_write::fsync(&mut v, 0), 0);
}

#[test]
fn what_the_system_tells_is_read_like_a_file() {
    let mut v = root();
    assert_eq!(namei::do_mkdir(&mut v, b"/proc", 0o755), 0);
    let p = namei::namei(&mut v, b"/proc").unwrap();
    let mut pf = kernelfs::fs::proc::ProcFs::new();
    assert_eq!(pf.mount_proc(&mut v.fs, p), 0);
    v.proc = pf;
    assert!(namei::is_ready(&v));
    assert_eq!(open::sys_open(&mut v, b"/proc/version", O_RDONLY, 0), 0);
    let text = read_all(&mut v, 0, 13);
    assert_eq!(text, b"Linux version".to_vec());
    assert_eq!(read_all(&mut v, 0, 6), b" 1.0.9".to_vec());
    assert_eq!(open::sys_open(&mut v, b"/proc/version", O_RDWR, 0), 1);
    assert_eq!(read_write::write(&mut v, 1, b"x"), Io::Done(-(EINVAL as i64)));
}

#[test]
fn files_in_memory_are_files() {
    let mut v = root();
    assert_eq!(namei::do_mkdir(&mut v, b"/tmp", 0o755), 0);
    let t = namei::namei(&mut v, b"/tmp").unwrap();
    let mut tf = kernelfs::fs::tmpfs::Tmpfs::new();
    assert_eq!(tf.mount_tmpfs(&mut v.fs, t), 0);
    v.tmpfs = tf;
    assert_eq!(open::sys_creat(&mut v, b"/tmp/x", 0o600), 0);
    assert_eq!(read_write::write(&mut v, 0, b"in memory"), Io::Done(9));
    assert_eq!(open::sys_open(&mut v, b"/tmp/x", O_RDONLY, 0), 1);
    assert_eq!(read_all(&mut v, 1, 100), b"in memory".to_vec());
    assert_eq!(open::sys_open(&mut v, b"/tmp/y", O_RDONLY, 0), -(ENOENT as i64));
}

#[test]
fn a_link_is_made_where_its_name_says() {
    let mut v = root();
    let r = namei::do_symlink(&mut v, b"/nowhere/l");
    assert_eq!(r, Err(-(ENOENT as i64)));
    let (dir, last) = namei::do_symlink(&mut v, b"/l").unwrap();
    assert_eq!(last, b"l".to_vec());
    assert_eq!(namei::symlink_made(&mut v, dir, Err(ELOOP)), -(ELOOP as i64));
    assert_eq!(open::sys_open(&mut v, b"/l", O_RDONLY | O_NOFOLLOW, 0), -(ENOENT as i64));
}

#[test]
fn a_second_file_system_is_mounted_and_left() {
    let mut v = root();
    let dev: u16 = 0x0102;
    v.fs.cache.attach_disk(dev, 300);
    assert!(mkfs(&mut v.fs, dev, 300, 32).is_some());
    v.devices.register_blkdev(1, "disk", kernelfs::fs::devices::BlockDev::Generic);
    assert_eq!(namei::do_mknod(&mut v, b"/sd", mode::S_IFBLK | 0o600, dev), 0);
    assert_eq!(namei::do_mkdir(&mut v, b"/mnt", 0o755), 0);
    let d = namei::namei(&mut v, b"/sd").unwrap();
    let m = namei::namei(&mut v, b"/mnt").unwrap();
    v.fs.euid = 1;
    assert_eq!(super_block::do_mount(&mut v, d, m, 0), -(EPERM as i64));
    v.fs.euid = 0;
    assert_eq!(super_block::do_mount(&mut v, d, m, 0), 0);
    assert!(namei::is_ready(&v));
    assert_eq!(open::sys_creat(&mut v, b"/mnt/inner", 0o600), 0);
    assert_eq!(namei::do_link(&mut v, b"/mnt/inner", b"/outer"), -(EPERM as i64));
    let up = namei::namei(&mut v, b"/mnt/..").unwrap();
    let top = namei::namei(&mut v, b"/").unwrap();
    assert_eq!(up, top);
    assert_eq!(open::sys_close(&mut v, 0), 0);
    assert_eq!(super_block::do_umount(&mut v.fs, dev), 0);
    assert_eq!(namei::namei(&mut v, b"/mnt/inner"), Err(ENOENT));
}

#[test]
fn watchdogs_find_what_cannot_be() {
    let mut v = root();
    assert_eq!(kernelfs::fs::inode::watchdog_bad_inode(&v.fs), None);
    assert_eq!(super_block::watchdog_bad_dev(&v.fs), None);
    let n = namei::namei(&mut v, b"/").unwrap();
    v.fs.inodes[n].i_nlink = 255;
    let m = v.fs.inodes[n].i_mode;
    assert_eq!(kernelfs::fs::inode::watchdog_bad_inode(&v.fs), Some((n, m)));
    v.fs.inodes[n].i_mode = 0xff53;
    assert_eq!(kernelfs::fs::inode::watchdog_bad_inode(&v.fs), Some((n, 0xff53)));
    v.fs.supers[0].s_namelen = 13;
    assert_eq!(super_block::watchdog_bad_dev(&v.fs), Some(0xDEAE));
    v.fs.supers[0].s_dev = 9;
    assert_eq!(super_block::watchdog_bad_dev(&v.fs), Some(9));
}

#[test]
fn a_device_is_appended_to_at_its_size() {
    let mut v = root();
    v.devices.register_chrdev(1, "mem", CharDev::Mem);
    assert_eq!(namei::do_mknod(&mut v, b"/null", mode::S_IFCHR | 0o600, 0x0103), 0);
    assert_eq!(open::sys_open(&mut v, b"/null", O_RDWR | O_APPEND, 0), 0);
    assert_eq!(read_write::lseek(&mut v, 0, 50, SEEK_SET), 50);
    let mut b = vec![0u8; 2];
    assert_eq!(
        read_write::read(&mut v, 0, &mut b, &no_tasks(), 0),
        Io::Char(CharCall::Mem(3), 50)
    );
    assert_eq!(read_write::write(&mut v, 0, b"abc"), Io::Char(CharCall::Mem(3), 0));
    read_write::char_done(&mut v, 0, 0, 3);
    assert_eq!(read_write::lseek(&mut v, 0, 0, SEEK_CUR), 3);
    assert!(read_write::write_fits(&v, 0, 10));
}

#[test]
fn users_are_told_apart() {
    let mut v = root();
    assert_eq!(open::sys_creat(&mut v, b"/mine", 0o640), 0);
    let n = namei::namei(&mut v, b"/mine").unwrap();
    v.fs.inodes[n].i_uid = 7;
    v.fs.inodes[n].i_gid = 9;
    v.fs.euid = 7;
    v.fs.egid = 1;
    assert!(namei::permission(&v.fs, n, 6));
    v.fs.euid = 8;
    v.fs.egid = 9;
    assert!(namei::permission(&v.fs, n, 4));
    assert!(!namei::permission(&v.fs, n, 2));
    v.fs.egid = 1;
    assert!(!namei::permission(&v.fs, n, 4));
    assert_eq!(open::sys_open(&mut v, b"/mine", O_RDONLY, 0), -(EACCES as i64));
    v.fs.euid = 0;
    assert!(namei::permission(&v.fs, n, 6));
    assert!(!namei::permission(&v.fs, n, 1));
}
