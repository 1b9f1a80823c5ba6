use kernelfs::errno::{EEXIST, ENOENT};
use kernelfs::fs::buffer::BufferCache;
use kernelfs::fs::devices;
use kernelfs::fs::ext2::inode::Ext2Inode;
use kernelfs::fs::ext2::io::ext2_crc16;
use kernelfs::fs::ext2::truncate::ext2_truncate;
use kernelfs::fs::ext4;
use kernelfs::fs::ext4::selftest::ext4_selftest;
use kernelfs::fs::inode;
use kernelfs::fs::minix;
use kernelfs::fs::oflags::{O_CREAT, O_RDONLY, O_RDWR};
use kernelfs::fs::proc::{fmt_u32, parse_u32, ProcKind, ProcTask};
use kernelfs::fs::read_write::Io;
use kernelfs::fs::{namei, open, read_write, super_block, sync, Dirent, Fs, Vfs, SEEK_SET};
use std::cell::RefCell;

const DEV: u16 = 0x0101;

fn no_tasks() -> Vec<ProcTask> {
    let mut t = Vec::new();
    for _ in 0..64 {
        t.push(ProcTask { used: false, exe_path: Vec::new() });
    }
    t
}

fn minix_fs() -> Fs {
    let mut fs = Fs::new();
    fs.cache.attach_disk(DEV, 400);
    assert!(minix::mkfs::mkfs(&mut fs, DEV, 400, 64).is_some());
    assert!(super_block::mount_root(&mut fs, DEV, 0));
    fs
}

#[test]
fn blocks_go_through_the_cache() {
    let mut c = BufferCache::new();
    c.attach_disk(DEV, 10);
    assert_eq!(c.read_block(DEV, 3), Some(vec![0u8; 1024]));
    let mut b = vec![0u8; 1024];
    b[7] = 9;
    assert!(c.write_block(DEV, 3, &b));
    assert_eq!(c.read_block(DEV, 3), Some(b));
    assert!(!c.flush(DEV, true));
    assert_eq!(c.read_block(DEV, 10), None);
    assert_eq!(c.read_block(0x0909, 0), None);
    assert!(c.flush(DEV, true));
    assert!(c.self_check());
    assert_eq!(c.nr_buffers(), 64);
}

#[test]
fn a_block_given_back_is_not_written_out() {
    let mut fs = minix_fs();
    let b = minix::bitmap::new_block(&mut fs, 0);
    assert!(fs.cache.write_block(DEV, b, &vec![1u8; 1024]));
    assert!(!fs.cache.flush(DEV, true));
    assert!(fs.cache.write_block(DEV, b, &vec![2u8; 1024]));
    let free = minix::bitmap::count_free(&mut fs, 0, true);
    minix::bitmap::free_block(&mut fs, 0, b);
    assert_eq!(minix::bitmap::count_free(&mut fs, 0, true), free + 1);
    assert_eq!(fs.cache.read_block(DEV, b), Some(vec![1u8; 1024]));
    assert!(!fs.cache.flush(DEV, true));
    fs.cache.discard(DEV);
    assert_eq!(fs.cache.read_block(DEV, b), Some(vec![1u8; 1024]));
    let last = fs.cache.read_block(DEV, 0);
    minix::bitmap::free_block(&mut fs, 0, 0);
    assert_eq!(fs.cache.read_block(DEV, 0), last);
}

#[test]
fn what_is_forgotten_is_read_again() {
    let mut c = BufferCache::new();
    c.attach_disk(DEV, 10);
    assert!(c.write_block(DEV, 3, &vec![7u8; 1024]));
    assert!(c.write_block(DEV, 4, &vec![8u8; 1024]));
    c.forget(DEV, 3);
    c.forget(DEV, 9);
    c.forget(0x0909, 1);
    assert_eq!(c.read_block(DEV, 3), Some(vec![0u8; 1024]));
    assert_eq!(c.read_block(DEV, 4), Some(vec![8u8; 1024]));
    assert!(c.self_check());
}

#[test]
fn a_buffer_is_held_until_it_is_released() {
    let mut c = BufferCache::new();
    c.attach_disk(DEV, 100);
    let n = c.bread(DEV, 1, 1024).unwrap();
    let m = c.bread(DEV, 1, 1024).unwrap();
    assert_eq!(n, m);
    assert!(c.show_buffers().used >= 1);
    c.brelse(n);
    c.brelse(m);
    assert_eq!(c.show_buffers().used, 0);
    assert_eq!(c.bread(DEV, 1, 512), None);
}

#[test]
fn a_fresh_disk_has_its_root() {
    let mut fs = minix_fs();
    let n = inode::iget(&mut fs, 0, 1);
    assert_eq!(fs.inodes[n].i_nlink, 2);
    assert_eq!(minix::bitmap::count_free(&mut fs, 0, false), 63);
    let free = minix::bitmap::count_free(&mut fs, 0, true);
    let b = minix::bitmap::new_block(&mut fs, 0);
    assert!(b != 0);
    assert_eq!(minix::bitmap::count_free(&mut fs, 0, true), free - 1);
    minix::bitmap::free_block(&mut fs, 0, b);
    assert_eq!(minix::bitmap::count_free(&mut fs, 0, true), free);
    assert!(!sync::fsync_dev(&mut fs, DEV));
}

#[test]
fn a_disk_keeps_its_files_over_a_remount() {
    let mut v = Vfs::new();
    v.fs.cache.attach_disk(DEV, 400);
    assert!(minix::mkfs::mkfs(&mut v.fs, DEV, 400, 64).is_some());
    assert!(super_block::mount_root(&mut v.fs, DEV, 0));
    assert_eq!(open::sys_open(&mut v, b"/keep", O_CREAT | O_RDWR, 0o644), 0);
    assert_eq!(read_write::write(&mut v, 0, b"for later"), Io::Done(9));
    assert_eq!(open::sys_close(&mut v, 0), 0);
    assert!(!sync::fsync_dev(&mut v.fs, DEV));
    let mut w = Vfs::new();
    w.fs.cache.attach_disk(DEV, 400);
    for b in 0..400u32 {
        let d = v.fs.cache.read_block(DEV, b).unwrap();
        assert!(w.fs.cache.write_block(DEV, b, &d));
    }
    assert!(super_block::mount_root(&mut w.fs, DEV, 0));
    assert_eq!(open::sys_open(&mut w, b"/keep", O_RDONLY, 0), 0);
    let mut b = vec![0u8; 20];
    assert_eq!(read_write::read(&mut w, 0, &mut b, &no_tasks(), 0), Io::Done(9));
    assert_eq!(&b[..9], b"for later");
}

#[test]
fn the_parts_of_an_extended_file_system_are_understood() {
    let t = ext4_selftest();
    assert_eq!(t.fail, 0);
    assert_eq!(t.pass, 51);
}

#[test]
fn an_extended_file_system_is_made_and_mounted() {
    let mut v = Vfs::new();
    v.fs.cache.attach_disk(DEV, 200);
    assert!(ext4::mkfs::mkfs(&mut v.fs, DEV, 200, 0));
    assert!(super_block::mount_root(&mut v.fs, DEV, 0));
    assert!(namei::is_ready(&v));
    let top = namei::namei(&mut v, b"/").unwrap();
    assert_eq!(ext4::namei::find_entry(&mut v.fs, top, b"."), Some(2));
    assert_eq!(ext4::namei::find_entry(&mut v.fs, top, b"none"), None);
    let fd = open::sys_open(&mut v, b"/new", O_CREAT | O_RDWR, 0o644);
    assert_eq!(fd, 0);
    assert!(ext4::namei::find_entry(&mut v.fs, top, b"new").is_some());
    assert_eq!(open::sys_open(&mut v, b"/other", O_RDONLY, 0), -(ENOENT as i64));
    assert_eq!(namei::do_mkdir(&mut v, b"/new", 0o755), -(EEXIST as i64));
}

#[test]
fn extended_files_are_written_within_their_blocks() {
    let mut v = Vfs::new();
    v.fs.cache.attach_disk(DEV, 200);
    assert!(ext4::mkfs::mkfs(&mut v.fs, DEV, 200, 0));
    assert!(super_block::mount_root(&mut v.fs, DEV, 0));
    let top = namei::namei(&mut v, b"/").unwrap();
    let mut before = vec![0u8; 12];
    assert_eq!(ext4::ops::full::ext4_file_read(&mut v.fs, top, 0, &mut before), 12);
    assert_eq!(before[0], 2);
    assert_eq!(ext4::ops::full::ext4_file_write(&mut v.fs, top, 100, b"inside"), 6);
    let mut b = vec![0u8; 6];
    assert_eq!(ext4::ops::full::ext4_file_read(&mut v.fs, top, 100, &mut b), 6);
    assert_eq!(b, b"inside".to_vec());
}

#[test]
fn devices_are_read_and_written_as_bytes() {
    let mut fs = Fs::new();
    fs.cache.attach_disk(0x0300, 4);
    let mut d = devices::Devices::init();
    d.set_blk_size(3, 4);
    assert_eq!(d.blk_size(3), Some(4));
    assert_eq!(devices::block_write(&mut fs, &d, 0x0300, 2040, b"0123456789"), 10);
    let mut b = vec![0u8; 10];
    assert_eq!(devices::block_read(&mut fs, &d, 0x0300, 2040, &mut b), 10);
    assert_eq!(b, b"0123456789".to_vec());
    assert_eq!(devices::block_read(&mut fs, &d, 0x0300, 4096, &mut b), 0);
    assert_eq!(devices::block_write(&mut fs, &d, 0x0300, 4096, b"x"), -22);
    assert_eq!(devices::block_read(&mut fs, &d, 0x0900, 0, &mut b), -6);
    assert_eq!(devices::block_fsync(&mut fs, 0x0300), 0);
}

#[test]
fn numbers_are_written_and_read() {
    assert_eq!(fmt_u32(0), b"0".to_vec());
    assert_eq!(fmt_u32(4294967295), b"4294967295".to_vec());
    assert_eq!(parse_u32(b"1234"), Some(1234));
    assert_eq!(parse_u32(b"12a"), None);
    assert_eq!(parse_u32(&fmt_u32(70010)), Some(70010));
    assert_eq!(ProcKind::from_number(ProcKind::Meminfo.to_number()), Some(ProcKind::Meminfo));
}

#[test]
fn checksums_add_up() {
    assert_eq!(ext2_crc16(0xffff, b""), 0xffff);
    let whole = ext2_crc16(0xffff, b"123456789");
    assert_eq!(whole, 0xc58a);
    assert_eq!(ext2_crc16(ext2_crc16(0xffff, b"1234"), b"56789"), whole);
}

#[test]
fn a_file_larger_than_the_disk_stops_where_it_is_full() {
    let mut v = Vfs::new();
    v.fs.cache.attach_disk(DEV, 40);
    assert!(minix::mkfs::mkfs(&mut v.fs, DEV, 40, 32).is_some());
    assert!(super_block::mount_root(&mut v.fs, DEV, 0));
    assert_eq!(open::sys_creat(&mut v, b"/f", 0o600), 0);
    let big = vec![5u8; 100_000];
    match read_write::write(&mut v, 0, &big) {
        Io::Done(n) => assert!(n > 0 && n < 40 * 1024),
        Io::Char(_, _) => panic!("no character device"),
    }
    assert_eq!(read_write::lseek(&mut v, 0, 0, SEEK_SET), 0);
    assert_eq!(open::sys_truncate(&mut v, b"/f", 0), 0);
    assert_eq!(read_write::write(&mut v, 0, b"again"), Io::Done(5));
}

fn put_le(d: &mut Vec<u8>, at: usize, n: u32) {
    d[at..at + 4].copy_from_slice(&n.to_le_bytes());
}

fn put_be(d: &mut Vec<u8>, at: usize, n: u32) {
    d[at..at + 4].copy_from_slice(&n.to_be_bytes());
}

fn journaled(commit: bool) -> (Fs, Vec<u8>) {
    let mut fs = Fs::new();
    fs.cache.attach_disk(DEV, 60);
    let mut sb = vec![0u8; 1024];
    put_le(&mut sb, 92, 4);
    put_le(&mut sb, 96, 4);
    put_le(&mut sb, 224, 8);
    assert!(fs.cache.write_block(DEV, 1, &sb));
    let mut table = vec![0u8; 1024];
    for k in 0..4u32 {
        put_le(&mut table, 896 + 40 + 4 * k as usize, 20 + k);
    }
    assert!(fs.cache.write_block(DEV, 10, &table));
    let mut head = vec![0u8; 1024];
    put_be(&mut head, 0, 0xC03B3998);
    put_be(&mut head, 12, 1024);
    put_be(&mut head, 16, 10);
    put_be(&mut head, 20, 1);
    put_be(&mut head, 28, 1);
    assert!(fs.cache.write_block(DEV, 20, &head));
    let mut desc = vec![0u8; 1024];
    put_be(&mut desc, 0, 0xC03B3998);
    put_be(&mut desc, 4, 1);
    put_be(&mut desc, 12, 40);
    put_be(&mut desc, 16, 8);
    assert!(fs.cache.write_block(DEV, 21, &desc));
    assert!(fs.cache.write_block(DEV, 22, &vec![0xABu8; 1024]));
    let mut end = vec![0u8; 1024];
    if commit {
        put_be(&mut end, 0, 0xC03B3998);
        put_be(&mut end, 4, 2);
    }
    assert!(fs.cache.write_block(DEV, 23, &end));
    (fs, sb)
}

#[test]
fn a_transaction_that_was_ended_is_replayed() {
    let (mut fs, sb) = journaled(true);
    assert!(ext4::journal::recover(&mut fs, DEV, &sb, 10, 128, 1024, 32));
    assert_eq!(fs.cache.read_block(DEV, 40), Some(vec![0xABu8; 1024]));
    assert_eq!(fs.cache.read_block(DEV, 20).unwrap()[31], 0);
    assert_eq!(fs.cache.read_block(DEV, 1).unwrap()[96], 0);
}

#[test]
fn a_transaction_without_an_end_is_left_out() {
    let (mut fs, sb) = journaled(false);
    assert!(ext4::journal::recover(&mut fs, DEV, &sb, 10, 128, 1024, 32));
    assert_eq!(fs.cache.read_block(DEV, 40), Some(vec![0u8; 1024]));
    assert_eq!(fs.cache.read_block(DEV, 20).unwrap()[31], 0);
}

fn make_link(v: &mut Vfs, path: &[u8], target: &[u8]) {
    assert!(open::sys_open(v, path, O_CREAT | O_RDWR, 0o644) >= 0);
    let n = namei::lnamei(v, path).unwrap();
    inode::write_inode(&mut v.fs, n);
    let ino = v.fs.inodes[n].i_ino as usize;
    let at = (ino - 1) * 256;
    let block = 5 + (at / 1024) as u32;
    let mut d = v.fs.cache.read_block(DEV, block).unwrap();
    let o = at % 1024 + 40;
    for k in 0..60 {
        d[o + k] = if k < target.len() { target[k] } else { 0 };
    }
    assert!(v.fs.cache.write_block(DEV, block, &d));
    v.fs.inodes[n].i_mode = 0o120777;
    v.fs.inodes[n].i_size = target.len() as u32;
}

#[test]
fn links_are_followed_and_circles_end() {
    let mut v = Vfs::new();
    v.fs.cache.attach_disk(DEV, 200);
    assert!(ext4::mkfs::mkfs(&mut v.fs, DEV, 200, 0));
    assert!(super_block::mount_root(&mut v.fs, DEV, 0));
    assert_eq!(open::sys_open(&mut v, b"/real", O_CREAT | O_RDWR, 0o644), 0);
    let real = namei::namei(&mut v, b"/real").unwrap();
    make_link(&mut v, b"/rel", b"real");
    make_link(&mut v, b"/abs", b"/rel");
    make_link(&mut v, b"/me", b"me");
    assert_eq!(namei::namei(&mut v, b"/rel"), Ok(real));
    assert_eq!(namei::namei(&mut v, b"/abs"), Ok(real));
    assert_ne!(namei::lnamei(&mut v, b"/abs"), Ok(real));
    assert_eq!(namei::namei(&mut v, b"/me"), Err(40));
    assert_eq!(namei::namei(&mut v, b"/rel/x"), Err(20));
    assert_eq!(open::sys_open(&mut v, b"/abs", 0o400000, 0), -40);
}

#[test]
fn names_of_an_extended_directory_come_and_go() {
    let mut v = Vfs::new();
    v.fs.cache.attach_disk(DEV, 200);
    assert!(ext4::mkfs::mkfs(&mut v.fs, DEV, 200, 0));
    assert!(super_block::mount_root(&mut v.fs, DEV, 0));
    let top = namei::namei(&mut v, b"/").unwrap();
    assert_eq!(open::sys_creat(&mut v, b"/one", 0o600), 0);
    assert_eq!(open::sys_creat(&mut v, b"/two", 0o600), 1);
    let one = ext4::namei::find_entry(&mut v.fs, top, b"one").unwrap();
    let two = ext4::namei::find_entry(&mut v.fs, top, b"two").unwrap();
    assert_ne!(one, two);
    assert_eq!(ext4::nodes::remove_entry(&mut v.fs, top, b"one"), Ok(()));
    assert_eq!(ext4::namei::find_entry(&mut v.fs, top, b"one"), None);
    assert_eq!(ext4::namei::find_entry(&mut v.fs, top, b"two"), Some(two));
    assert_eq!(ext4::nodes::remove_entry(&mut v.fs, top, b"one"), Err(ENOENT));
    assert_eq!(ext4::namei::add_entry(&mut v.fs, top, one, b"one", 1), Ok(()));
    assert_eq!(ext4::namei::find_entry(&mut v.fs, top, b"one"), Some(one));
}

#[test]
fn a_fresh_disk_is_laid_out_by_its_blocks() {
    let mut fs = Fs::new();
    fs.cache.attach_disk(DEV, 8192);
    let l = minix::mkfs::mkfs(&mut fs, DEV, 8192, 64).unwrap();
    assert_eq!(l.ninodes, 64);
    assert_eq!(l.imap_blocks, 1);
    assert_eq!(l.zmap_blocks, 1);
    assert_eq!(l.inode_blocks, 2);
    assert_eq!(l.firstdatazone, 6);
    let d = fs.cache.read_block(DEV, 6).unwrap();
    assert_eq!(&d[..4], &[1u8, 0, b'.', 0]);
    assert_eq!(&d[16..21], &[1u8, 0, b'.', b'.', 0]);
    assert!(super_block::mount_root(&mut fs, DEV, 0));
    let mut small = Fs::new();
    small.cache.attach_disk(DEV, 6);
    assert!(minix::mkfs::mkfs(&mut small, DEV, 6, 64).is_none());
}

#[test]
fn old_and_new_inodes_are_read() {
    let mut d = vec![0u8; 160];
    d[128] = 32;
    d[144] = 7;
    let n = ext4::inode::Ext4Inode::from_bytes(&d).unwrap();
    assert_eq!(n.i_extra_isize, 0);
    assert_eq!(n.i_crtime, 0);
    d.resize(256, 0);
    let n = ext4::inode::Ext4Inode::from_bytes(&d).unwrap();
    assert_eq!(n.i_extra_isize, 32);
    assert_eq!(n.i_crtime, 7);
    assert!(ext4::inode::Ext4Inode::from_bytes(&d[..127]).is_none());
    let mut d = vec![0u8; 128];
    d[96] = 1;
    d[100] = 9;
    d[104] = 3;
    d[108] = 4;
    d[112] = 5;
    d[127] = 6;
    let a = Ext2Inode::from_bytes(&d, 128);
    let b = ext4::inode::Ext4Inode::from_bytes(&d).unwrap();
    assert_eq!((a.i_block_3ind, a.i_generation), (1, 9));
    assert_eq!((b.i_block_triple_indirect, b.i_generation), (1, 9));
    assert_eq!((a.i_file_acl, a.i_dir_acl, a.i_fragment_address), (3, 4, 5));
    assert_eq!(a.i_osd2, b.i_osd2);
    assert_eq!(a.i_osd2[11], 6);
}

#[test]
fn modes_have_file_types() {
    let types: Vec<u8> = [0x81A4u16, 0x41ED, 0xA1FF, 0x2000, 0x6000, 0x1000, 0xC000, 0]
        .iter()
        .map(|&m| ext4::file_type::from_mode(m))
        .collect();
    assert_eq!(types, vec![1, 2, 7, 3, 4, 5, 6, 0]);
}

#[test]
fn an_extent_ends_with_its_last_block() {
    let mut e = ext4::extent::Extent { ee_block: 0xFFFF_FFFF, ee_len: 1, ee_start_hi: 0, ee_start_lo: 9 };
    assert_eq!(e.ee_end(), 0xFFFF_FFFF);
    e.ee_len = 0;
    assert_eq!(e.ee_end(), 0xFFFF_FFFF);
    e.ee_block = 10;
    e.ee_len = 32769;
    assert_eq!(e.ee_end(), 10);
}

#[test]
fn cutting_a_file_releases_its_blocks() {
    let mut n = Ext2Inode::from_bytes(&[0u8; 128], 128);
    n.i_block[0] = 5;
    n.i_block[2] = 7;
    n.i_block_2ind = 9;
    n.i_size = 3000;
    let seen = RefCell::new(Vec::new());
    let freed = ext2_truncate(&mut n, 1024, |b| seen.borrow_mut().push(b));
    assert_eq!(seen.into_inner(), vec![5, 7, 9]);
    assert_eq!(freed, vec![5, 7, 9]);
    assert_eq!((n.i_block, n.i_block_2ind, n.i_size), ([0; 12], 0, 0));
}

#[test]
fn a_name_lies_in_its_block() {
    let mut d = vec![0u8; 24];
    d[0] = 3;
    d[4] = 24;
    d[6] = 2;
    d[8] = b'h';
    d[9] = b'i';
    let mut it = ext4::dir::DirIter::new(&d);
    let e = it.next().unwrap();
    let at = it.offset();
    assert_eq!(it.name_bytes(&e), b"hi");
    let mut far = e;
    far.name_off = usize::MAX;
    assert_eq!(it.name_bytes(&far), b"");
    far.name_off = 23;
    assert_eq!(it.name_bytes(&far), b"");
    assert_eq!(it.offset(), at);
}

fn extended() -> Vfs {
    let mut v = Vfs::new();
    v.fs.cache.attach_disk(DEV, 200);
    assert!(ext4::mkfs::mkfs(&mut v.fs, DEV, 200, 0));
    let mut taken = vec![0u8; 1024];
    taken[0] = 0xFF;
    taken[1] = 0x3F;
    assert!(v.fs.cache.write_block(DEV, 3, &taken));
    assert!(super_block::mount_root(&mut v.fs, DEV, 0));
    v
}

#[test]
fn only_an_empty_extended_directory_is_removed() {
    let mut v = extended();
    let top = namei::namei(&mut v, b"/").unwrap();
    let d = ext4::nodes::mkdir(&mut v.fs, top, b"d", 0o755).unwrap();
    ext4::ops::full::write_inode(&mut v.fs, d);
    assert!(ext4::nodes::create(&mut v.fs, d, b"x", 0o600).is_ok());
    assert_eq!(ext4::nodes::rmdir(&mut v.fs, top, b"d"), -39);
    assert_eq!(ext4::nodes::rmdir(&mut v.fs, top, b"none"), -2);
    assert_eq!(ext4::nodes::remove_entry(&mut v.fs, d, b"x"), Ok(()));
    assert_eq!(ext4::nodes::rmdir(&mut v.fs, top, b"d"), 0);
    assert_eq!(namei::namei(&mut v, b"/d"), Err(ENOENT));
}

#[test]
fn a_new_extended_file_belongs_to_its_maker() {
    let mut v = extended();
    v.fs.euid = 0;
    v.fs.egid = 12;
    assert_eq!(open::sys_creat(&mut v, b"/a", 0o600), 0);
    let a = namei::namei(&mut v, b"/a").unwrap();
    assert_eq!((v.fs.inodes[a].i_uid, v.fs.inodes[a].i_gid), (0, 12));
    let top = namei::namei(&mut v, b"/").unwrap();
    v.fs.euid = 5;
    v.fs.inodes[top].i_mode |= 0o2000;
    v.fs.inodes[top].i_gid = 33;
    let b = ext4::nodes::create(&mut v.fs, top, b"b", 0o600).unwrap();
    assert_eq!((v.fs.inodes[b].i_uid, v.fs.inodes[b].i_gid), (5, 33));
}

#[test]
fn a_directory_ends_with_its_size() {
    let mut v = extended();
    let top = namei::namei(&mut v, b"/").unwrap();
    let mut e = Dirent { d_ino: 0, d_off: 0, d_reclen: 0, d_type: 0, d_name: [0; 32] };
    assert_eq!(ext4::readdir::fill_dirent(&mut v.fs, top, 0, &mut e), 12);
    assert_eq!(e.d_ino, 2);
    v.fs.inodes[top].i_size = 12;
    assert_eq!(ext4::readdir::fill_dirent(&mut v.fs, top, 12, &mut e), 0);
}

#[test]
fn a_linked_file_keeps_its_type() {
    let mut v = extended();
    assert_eq!(open::sys_creat(&mut v, b"/a", 0o600), 0);
    assert_eq!(namei::do_link(&mut v, b"/a", b"/b"), 0);
    let top = namei::namei(&mut v, b"/").unwrap();
    let mut e = Dirent { d_ino: 0, d_off: 0, d_reclen: 0, d_type: 0, d_name: [0; 32] };
    let mut pos = 0;
    let mut types = Vec::new();
    loop {
        let r = ext4::readdir::fill_dirent(&mut v.fs, top, pos, &mut e);
        if r <= 0 {
            break;
        }
        types.push((e.d_name[0], e.d_type));
        pos = r as u64;
    }
    assert!(types.contains(&(b'a', 1)));
    assert!(types.contains(&(b'b', 1)));
}

#[test]
fn the_block_size_is_one_byte() {
    let mut v = Vfs::new();
    v.fs.cache.attach_disk(DEV, 200);
    assert!(ext4::mkfs::mkfs(&mut v.fs, DEV, 200, 0));
    let mut sb = v.fs.cache.read_block(DEV, 1).unwrap();
    sb[25] = 9;
    assert!(v.fs.cache.write_block(DEV, 1, &sb));
    assert!(super_block::mount_root(&mut v.fs, DEV, 0));
    assert_eq!(v.fs.ext4[0].fs_block_size, 1024);
    sb[24] = 30;
    let mut w = Vfs::new();
    w.fs.cache.attach_disk(DEV, 200);
    assert!(ext4::mkfs::mkfs(&mut w.fs, DEV, 200, 0));
    assert!(w.fs.cache.write_block(DEV, 1, &sb));
    assert!(super_block::mount_root(&mut w.fs, DEV, 0));
    assert_eq!(w.fs.ext4[0].fs_block_size, 1usize << 40);
}
