//! Inodes and files.

use crate::bytes::{
    copy_range, get_le16, get_le32, le16, le32, overlay, put_bytes, put_le16, put_le32, with_le16,
    with_le32,
};
use crate::errno::{EIO, ENOSPC, EROFS};
use crate::fs::ext4::bitmap::{
    alloc_block, alloc_inode, bit_freed, bit_taken, first_free_bit, free_block, free_inode,
    less_one, marked_dirty, one_more, pieces,
};
use crate::fs::ext4::group_desc::Ext4GroupDesc;
use crate::fs::ext4::inode::Ext4Inode;
use crate::fs::ext4::inode_flags::EXT4_EXTENTS_FL;
use crate::fs::ext4::map::{classic_block, classic_lookup, extent_block, extent_lookup, low32};
use crate::fs::ext4::super_block::Ext4SuperBlock;
use crate::fs::inode::{FsType, Inode, NIL};
use crate::fs::super_block::SuperBlock;
use crate::fs::{Blocks, Fs};
use vstd::prelude::*;

verus! {

/// What a mounted file system keeps of its super block and first group.
#[derive(Clone, Copy)]
pub struct Ext4SbInfo {
    pub ext4_sb: Ext4SuperBlock,
    /// Its block numbers count blocks of 1024 bytes.
    pub ext4_gd: Ext4GroupDesc,
    pub inode_size: u32,
    /// The size of a buffer, 1024.
    pub block_size: usize,
    /// The size of a block of the file system.
    pub fs_block_size: usize,
    pub inodes_per_group: u32,
    pub blocks_per_group: u32,
    pub valid: bool,
}

impl Ext4SbInfo {
    /// The sizes are such as the format has.
    pub open spec fn sizes_ok(&self) -> bool {
        &&& self.block_size == 1024
        &&& self.inode_size <= 65535
        &&& 1024 <= self.fs_block_size <= 0x8000_0000_0000_0000
        &&& self.fs_block_size % 1024 == 0
    }

    /// Nothing known.
    pub open spec fn is_empty(&self) -> bool {
        &&& self.ext4_sb.parsed_from(crate::bytes::zeros(1024))
        &&& self.ext4_gd == (Ext4GroupDesc {
            block_bitmap: 0,
            inode_bitmap: 0,
            inode_table: 0,
            free_blocks_count: 0,
            free_inodes_count: 0,
            used_dirs_count: 0,
            flags: 0,
            itable_unused: 0,
            checksum: 0,
        })
        &&& self.inode_size == 128
        &&& self.block_size == 1024
        &&& self.fs_block_size == 1024
        &&& self.inodes_per_group == 0
        &&& self.blocks_per_group == 0
        &&& !self.valid
    }

    pub fn empty() -> (r: Self)
        ensures
            r.is_empty(),
            r.sizes_ok(),
    {
        let none: [u8; 1024] = [0u8; 1024];
        assert(none@ =~= crate::bytes::zeros(1024));
        Ext4SbInfo {
            ext4_sb: Ext4SuperBlock::from_bytes(&none),
            ext4_gd: Ext4GroupDesc {
                block_bitmap: 0,
                inode_bitmap: 0,
                inode_table: 0,
                free_blocks_count: 0,
                free_inodes_count: 0,
                used_dirs_count: 0,
                flags: 0,
                itable_unused: 0,
                checksum: 0,
            },
            inode_size: 128,
            block_size: 1024,
            fs_block_size: 1024,
            inodes_per_group: 0,
            blocks_per_group: 0,
            valid: false,
        }
    }

    /// How many buffers a block of the file system takes up.
    pub open spec fn scale(&self) -> int {
        self.fs_block_size as int / 1024
    }

    /// The same, cut to 32 bits.
    pub open spec fn scale32(&self) -> int {
        self.scale() % 0x1_0000_0000
    }
}

/// What is kept of the file system in slot `n`.
pub fn ext4_info(fs: &Fs, n: usize) -> (r: &Ext4SbInfo)
    requires
        fs.wf(),
        n < 4,
    ensures
        *r == fs.ext4@[n as int],
{
    &fs.ext4[n]
}

// ---- inodes ----

/// The block with the inode on disk, and where in it the inode starts.
pub open spec fn inode_block(info: Ext4SbInfo, ino: int) -> u32 {
    low32(info.ext4_gd.inode_table + (ino - 1) * info.inode_size / 1024)
}

pub open spec fn inode_start(info: Ext4SbInfo, ino: int) -> int {
    (ino - 1) * info.inode_size % 1024
}

/// The place of an inode on disk.
fn inode_place(info: &Ext4SbInfo, ino: u32) -> (r: (u32, usize))
    requires
        info.sizes_ok(),
        ino > 0,
    ensures
        r.0 == inode_block(*info, ino as int),
        r.1 == inode_start(*info, ino as int),
        r.1 < 1024,
{
    let n: u64 = ino as u64 - 1;
    let size: u64 = info.inode_size as u64;
    assert(n * size <= 0x1_0000_0000 * 0x1_0000) by (nonlinear_arith)
        requires
            n <= 0x1_0000_0000,
            size <= 0x1_0000,
    ;
    let byte_off: u64 = n * size;
    let table: u64 = info.ext4_gd.inode_table;
    let b: u32 = ((table % 0x1_0000_0000 + byte_off / 1024) % 0x1_0000_0000) as u32;
    proof {
        vstd::arithmetic::div_mod::lemma_add_mod_noop(
            table as int,
            byte_off as int / 1024,
            0x1_0000_0000,
        );
        vstd::arithmetic::div_mod::lemma_add_mod_noop(
            table as int % 0x1_0000_0000,
            byte_off as int / 1024,
            0x1_0000_0000,
        );
        vstd::arithmetic::div_mod::lemma_mod_twice(table as int, 0x1_0000_0000);
    }
    (b, (byte_off % 1024) as usize)
}

/// The block numbers from number `k` on in the bytes of an inode, as far as they
/// lie in the block.
pub open spec fn with_numbers(d: Seq<u8>, o: int, z: Seq<u16>, k: int) -> Seq<u8>
    decreases 9 - k,
{
    if k >= 9 {
        d
    } else if o + 40 + 2 * k + 2 <= 1024 {
        with_numbers(with_le16(d, o + 40 + 2 * k, z[k]), o, z, k + 1)
    } else {
        with_numbers(d, o, z, k + 1)
    }
}

/// The words from word `k` on behind the block numbers set to zero, as far as they
/// lie in the block.
pub open spec fn without_words(d: Seq<u8>, o: int, k: int) -> Seq<u8>
    decreases 15 - k,
{
    if k >= 15 {
        d
    } else if o + 40 + 4 * k + 4 <= 1024 {
        without_words(with_le32(d, o + 40 + 4 * k, 0), o, k + 1)
    } else {
        without_words(d, o, k + 1)
    }
}

/// The block `d` with inode `i` at `o`: its mode, owner, size, links and block
/// numbers.
pub open spec fn with_inode(d: Seq<u8>, o: int, i: Inode) -> Seq<u8> {
    let d1 = with_le16(d, o, i.i_mode);
    let d2 = with_le16(d1, o + 2, i.i_uid);
    let d3 = with_le32(d2, o + 4, i.i_size);
    let d4 = with_le16(d3, o + 26, i.i_nlink);
    without_words(with_numbers(d4, o, i.data@, 0), o, 9)
}

/// The inode is one on disk.
pub open spec fn on_disk(info: Seq<Ext4SbInfo>, i: Inode) -> bool {
    i.i_sb != NIL && i.i_ino != 0 && info[i.i_sb as int].valid
}

/// The blocks after inode `i` was written.
pub open spec fn inode_written(c: Blocks, supers: Seq<SuperBlock>, info: Seq<Ext4SbInfo>, i: Inode) -> Blocks {
    let f = info[i.i_sb as int];
    let key = (supers[i.i_sb as int].s_dev, inode_block(f, i.i_ino as int));
    let o = inode_start(f, i.i_ino as int);
    if !on_disk(info, i) || !c.dom().contains(key) || o + 40 > 1024 {
        c
    } else {
        c.insert(key, with_inode(c[key], o, i))
    }
}

/// Writes the block numbers of an inode, as far as they lie in the block.
fn put_numbers(data: &mut Vec<u8>, o: usize, z: &[u16; 9])
    requires
        old(data)@.len() == 1024,
        o <= 1024,
    ensures
        final(data)@ == without_words(with_numbers(old(data)@, o as int, z@, 0), o as int, 9),
        final(data)@.len() == 1024,
{
    let ghost d0 = data@;
    let mut k: usize = 0;
    while k < 9
        invariant
            k <= 9,
            o <= 1024,
            data@.len() == 1024,
            with_numbers(d0, o as int, z@, 0) == with_numbers(data@, o as int, z@, k as int),
        decreases 9 - k,
    {
        let off: usize = o + 40 + k * 2;
        if off + 2 <= 1024 {
            put_le16(data, off, z[k]);
        }
        k = k + 1;
    }
    let ghost d1 = data@;
    let mut w: usize = 9;
    while w < 15
        invariant
            w <= 15,
            o <= 1024,
            data@.len() == 1024,
            without_words(d1, o as int, 9) == without_words(data@, o as int, w as int),
        decreases 15 - w,
    {
        let off: usize = o + 40 + w * 4;
        if off + 4 <= 1024 {
            put_le32(data, off, 0);
        }
        w = w + 1;
    }
}

/// Writes an inode.
pub fn write_inode(fs: &mut Fs, ip: usize)
    requires
        old(fs).wf(),
        ip < 64,
    ensures
        final(fs).wf(),
        *final(fs) == (Fs { cache: final(fs).cache, ..*old(fs) }),
        final(fs).blocks() == inode_written(
            old(fs).blocks(),
            old(fs).supers@,
            old(fs).ext4@,
            old(fs).inodes@[ip as int],
        ),
{
    let i: Inode = fs.inodes[ip];
    if i.i_sb == NIL || i.i_ino == 0 {
        return;
    }
    if !fs.ext4[i.i_sb].valid {
        return;
    }
    let dev: u16 = fs.supers[i.i_sb].s_dev;
    let (block, off) = inode_place(&fs.ext4[i.i_sb], i.i_ino);
    match fs.cache.read_block(dev, block) {
        None => {},
        Some(mut data) => {
            if off + 40 <= 1024 {
                put_le16(&mut data, off, i.i_mode);
                put_le16(&mut data, off + 2, i.i_uid);
                put_le32(&mut data, off + 4, i.i_size);
                put_le16(&mut data, off + 26, i.i_nlink);
                put_numbers(&mut data, off, &i.data);
                let ok: bool = fs.cache.write_block(dev, block, data.as_slice());
            }
        },
    }
}

/// The block numbers `z` with those of extent `e` of the 60 bytes `ib` in them,
/// `scale` buffers to a block. Only the first nine buffers of a file have one.
pub open spec fn with_extent(z: Seq<u16>, ib: Seq<u8>, scale: int, e: int) -> Seq<u16> {
    let first = le32(ib, 12 + 12 * e) * scale;
    let len = le16(ib, 16 + 12 * e) * scale;
    let start = le32(ib, 20 + 12 * e) * scale;
    Seq::new(
        9,
        |k: int|
            if first <= k < first + len {
                ((start + k - first) % 65536) as u16
            } else {
                z[k]
            },
    )
}

/// The block numbers with those of extents `e` to `n`.
pub open spec fn with_extents(z: Seq<u16>, ib: Seq<u8>, scale: int, e: int, n: int) -> Seq<u16>
    decreases n - e,
{
    if e >= n {
        z
    } else {
        with_extents(with_extent(z, ib, scale, e), ib, scale, e + 1, n)
    }
}

/// How many extents the 60 bytes say there are. There is room for four.
pub open spec fn root_extents(ib: Seq<u8>) -> int {
    if ib[2] < 4 {
        ib[2] as int
    } else {
        4
    }
}

/// The block numbers of the inode with the bytes `d`, where `z` were before: those
/// of its extents, or the first pointer.
pub open spec fn disk_numbers(d: Seq<u8>, z: Seq<u16>, scale: int) -> Seq<u16> {
    if le32(d, 32) & EXT4_EXTENTS_FL != 0 {
        let ib = d.subrange(40, 100);
        if le16(ib, 0) == 0xF30A {
            with_extents(z, ib, scale, 0, root_extents(ib))
        } else {
            z
        }
    } else {
        z.update(0, (le32(d, 40) * scale % 65536) as u16)
    }
}

/// Sets the block numbers of one extent.
fn fill_extent(z: &mut [u16; 9], ib: &[u8; 60], scale: u64, e: usize)
    requires
        scale <= 0xFFFF_FFFF,
        e < 4,
    ensures
        final(z)@ == with_extent(old(z)@, ib@, scale as int, e as int),
{
    let ghost z0 = z@;
    let b: u64 = get_le32(ib, 12 + 12 * e) as u64;
    let l: u64 = get_le16(ib, 16 + 12 * e) as u64;
    let s: u64 = get_le32(ib, 20 + 12 * e) as u64;
    assert(b * scale <= 0xFFFF_FFFF * 0xFFFF_FFFF) by (nonlinear_arith)
        requires
            b <= 0xFFFF_FFFF,
            scale <= 0xFFFF_FFFF,
    ;
    assert(l * scale <= 0xFFFF * 0xFFFF_FFFF) by (nonlinear_arith)
        requires
            l <= 0xFFFF,
            scale <= 0xFFFF_FFFF,
    ;
    assert(s * scale <= 0xFFFF_FFFF * 0xFFFF_FFFF) by (nonlinear_arith)
        requires
            s <= 0xFFFF_FFFF,
            scale <= 0xFFFF_FFFF,
    ;
    let first: u64 = b * scale;
    let len: u64 = l * scale;
    let start: u64 = s * scale;
    let mut k: usize = 0;
    while k < 9
        invariant
            k <= 9,
            start <= 0xFFFF_FFFF * 0xFFFF_FFFF,
            forall|j: int|
                0 <= j < 9 ==> #[trigger] z@[j] == (if j < k && first <= j < first + len {
                    ((start + j - first) % 65536) as u16
                } else {
                    z0[j]
                }),
        decreases 9 - k,
    {
        if first <= k as u64 && k as u64 - first < len {
            z[k] = ((start + (k as u64 - first)) % 65536) as u16;
        }
        k = k + 1;
    }
    assert(z@ =~= with_extent(z0, ib@, scale as int, e as int));
}

/// Sets the block numbers of an inode from its bytes.
pub fn fill_numbers(z: &mut [u16; 9], ei: &Ext4Inode, raw: &[u8], scale: u64)
    requires
        scale <= 0xFFFF_FFFF,
        raw@.len() >= 128,
        ei.parsed_from(raw@),
    ensures
        final(z)@ == disk_numbers(raw@, old(z)@, scale as int),
{
    let ghost z0 = z@;
    if ei.uses_extent() {
        let ib: [u8; 60] = ei.i_block_raw();
        proof {
            crate::fs::ext4::inode::lemma_i_block_raw(*ei, raw@, ib@);
        }
        if get_le16(&ib, 0) == 0xF30A {
            let n: usize = if ib[2] < 4 {
                ib[2] as usize
            } else {
                4
            };
            let mut e: usize = 0;
            while e < n
                invariant
                    e <= n <= 4,
                    scale <= 0xFFFF_FFFF,
                    with_extents(z0, ib@, scale as int, 0, n as int) == with_extents(
                        z@,
                        ib@,
                        scale as int,
                        e as int,
                        n as int,
                    ),
                decreases n - e,
            {
                fill_extent(z, &ib, scale, e);
                e = e + 1;
            }
        }
    } else {
        let p: u64 = ei.i_block[0] as u64;
        assert(p * scale <= 0xFFFF_FFFF * 0xFFFF_FFFF) by (nonlinear_arith)
            requires
                p <= 0xFFFF_FFFF,
                scale <= 0xFFFF_FFFF,
        ;
        z[0] = (p * scale % 65536) as u16;
        proof {
            assert(ei.i_block@[0] == le32(raw@, 40));
            assert(z@ =~= z0.update(0, (p * scale % 65536) as u16));
        }
    }
}

/// The bytes of the inode on disk, where they can be read.
pub open spec fn inode_bytes(c: Blocks, supers: Seq<SuperBlock>, info: Seq<Ext4SbInfo>, i: Inode) -> Option<
    Seq<u8>,
> {
    let f = info[i.i_sb as int];
    let key = (supers[i.i_sb as int].s_dev, inode_block(f, i.i_ino as int));
    let o = inode_start(f, i.i_ino as int);
    if !on_disk(info, i) || !c.dom().contains(key) || o + f.inode_size > 1024 || f.inode_size < 128 {
        None
    } else {
        Some(c[key].subrange(o, o + f.inode_size))
    }
}

/// Reads the bytes of the inode on disk.
fn read_raw(fs: &mut Fs, ip: usize) -> (r: Option<Vec<u8>>)
    requires
        old(fs).wf(),
        ip < 64,
    ensures
        final(fs).wf(),
        *final(fs) == (Fs { cache: final(fs).cache, ..*old(fs) }),
        final(fs).blocks() == old(fs).blocks(),
        match inode_bytes(
            old(fs).blocks(),
            old(fs).supers@,
            old(fs).ext4@,
            old(fs).inodes@[ip as int],
        ) {
            None => r is None,
            Some(d) => r is Some && r->0@ == d && d.len() >= 128,
        },
{
    let i: Inode = fs.inodes[ip];
    if i.i_sb == NIL || i.i_ino == 0 {
        return None;
    }
    if !fs.ext4[i.i_sb].valid {
        return None;
    }
    let dev: u16 = fs.supers[i.i_sb].s_dev;
    let (block, off) = inode_place(&fs.ext4[i.i_sb], i.i_ino);
    let size: usize = fs.ext4[i.i_sb].inode_size as usize;
    match fs.cache.read_block(dev, block) {
        None => None,
        Some(data) => {
            if off + size > 1024 || size < 128 {
                return None;
            }
            Some(copy_range(data.as_slice(), off, off + size))
        },
    }
}

/// Inode `i` is `i0` with what the bytes `d` of an inode say. Of the owner, the
/// group and the size the lower halves count.
pub open spec fn inode_filled(d: Seq<u8>, scale: int, i0: Inode, i: Inode) -> bool {
    &&& i == (Inode {
        i_op: FsType::Ext2,
        i_mode: le16(d, 0),
        i_uid: le16(d, 2),
        i_gid: le16(d, 24),
        i_nlink: le16(d, 26),
        i_size: le32(d, 4),
        i_atime: le32(d, 8),
        i_mtime: le32(d, 16),
        i_ctime: le32(d, 12),
        i_blksize: 1024,
        i_flags: if le32(d, 32) & EXT4_EXTENTS_FL != 0 {
            i0.i_flags | 0x80000
        } else {
            i0.i_flags
        },
        data: i.data,
        ..i0
    })
    &&& i.data@ == disk_numbers(d, Seq::new(9, |k: int| 0u16), scale)
}

/// The inode `i0` with what the bytes of an inode say.
#[verifier::spinoff_prover]
#[verifier::rlimit(40)]
fn fill_inode(i0: &Inode, raw: &[u8], scale: u64) -> (i: Inode)
    requires
        raw@.len() >= 128,
        scale <= 0xFFFF_FFFF,
    ensures
        inode_filled(raw@, scale as int, *i0, i),
{
    let mut i: Inode = *i0;
    match Ext4Inode::from_bytes(raw) {
        None => i,
        Some(ei) => {
            i.i_op = FsType::Ext2;
            i.i_mode = ei.i_mode;
            i.i_uid = ei.i_uid;
            i.i_gid = ei.i_gid;
            i.i_nlink = ei.i_links_count;
            i.i_size = ei.i_size_lo;
            i.i_atime = ei.atime();
            i.i_mtime = ei.mtime();
            i.i_ctime = ei.ctime();
            i.i_blksize = 1024;
            let mut z: [u16; 9] = [0u16;9];
            assert(z@ =~= Seq::new(9, |k: int| 0u16));
            fill_numbers(&mut z, &ei, raw, scale);
            i.data = z;
            if ei.uses_extent() {
                i.i_flags = i.i_flags | 0x80000;
            }
            i
        },
    }
}

/// Inode `i` is `i0` after it was read from disk, where that can be done.
pub open spec fn inode_read(c: Blocks, supers: Seq<SuperBlock>, info: Seq<Ext4SbInfo>, i0: Inode, i: Inode) -> bool {
    match inode_bytes(c, supers, info, i0) {
        None => i == i0,
        Some(d) => inode_filled(d, info[i0.i_sb as int].scale32(), i0, i),
    }
}

/// Reads an inode.
pub fn read_inode(fs: &mut Fs, ip: usize)
    requires
        old(fs).wf(),
        ip < 64,
    ensures
        final(fs).wf(),
        *final(fs) == (Fs { cache: final(fs).cache, inodes: final(fs).inodes, ..*old(fs) }),
        final(fs).blocks() == old(fs).blocks(),
        final(fs).inodes@ == old(fs).inodes@.update(ip as int, final(fs).inodes@[ip as int]),
        inode_read(
            old(fs).blocks(),
            old(fs).supers@,
            old(fs).ext4@,
            old(fs).inodes@[ip as int],
            final(fs).inodes@[ip as int],
        ),
{
    match read_raw(fs, ip) {
        None => {
            assert(fs.inodes@ =~= old(fs).inodes@.update(ip as int, fs.inodes@[ip as int]));
        },
        Some(raw) => {
            let sb_nr: usize = fs.inodes[ip].i_sb;
            let scale: u64 = (fs.ext4[sb_nr].fs_block_size / 1024) as u64 % 0x1_0000_0000;
            let i: Inode = fill_inode(&fs.inodes[ip], raw.as_slice(), scale);
            fs.inodes[ip] = i;
            assert(fs.inodes@ =~= old(fs).inodes@.update(ip as int, fs.inodes@[ip as int]));
        },
    }
}

// ---- the blocks of a file ----

/// The buffer of buffer `block` of the file of inode `i`, zero where there is
/// none. It goes by the inode on disk. There is none where the buffers of a block
/// cannot be counted in 32 bits.
pub open spec fn mapped(c: Blocks, supers: Seq<SuperBlock>, info: Seq<Ext4SbInfo>, i: Inode, block: int) -> u32 {
    let f = info[i.i_sb as int];
    let dev = supers[i.i_sb as int].s_dev;
    match inode_bytes(c, supers, info, i) {
        None => 0,
        Some(d) => {
            let ib = d.subrange(40, 100);
            let n = block / f.scale32();
            let b = if f.scale32() == 0 {
                0
            } else if le16(ib, 0) == 0xF30A {
                match extent_block(c, dev, f.fs_block_size as int, ib, n as u32) {
                    None => 0,
                    Some(b) => low32(low32(b) * f.scale32() + block % f.scale32()),
                }
            } else {
                let b = classic_block(c, dev, f.fs_block_size as int, ib, n);
                if b == 0 {
                    0
                } else {
                    low32(b * f.scale32() + block % f.scale32())
                }
            };
            b
        },
    }
}

/// The 60 bytes of the inode on disk that say where its blocks are.
pub fn read_inode_iblock(fs: &mut Fs, ip: usize) -> (r: Option<[u8; 60]>)
    requires
        old(fs).wf(),
        ip < 64,
    ensures
        final(fs).wf(),
        *final(fs) == (Fs { cache: final(fs).cache, ..*old(fs) }),
        final(fs).blocks() == old(fs).blocks(),
        match inode_bytes(
            old(fs).blocks(),
            old(fs).supers@,
            old(fs).ext4@,
            old(fs).inodes@[ip as int],
        ) {
            None => r is None,
            Some(d) => r is Some && r->0@ == d.subrange(40, 100),
        },
{
    match read_raw(fs, ip) {
        None => None,
        Some(raw) => match Ext4Inode::from_bytes(raw.as_slice()) {
            None => None,
            Some(ei) => {
                let ib: [u8; 60] = ei.i_block_raw();
                proof {
                    crate::fs::ext4::inode::lemma_i_block_raw(ei, raw@, ib@);
                }
                Some(ib)
            },
        },
    }
}

/// A block number times the scale, and the buffer in it.
pub fn scaled(b: u32, scale: u32, sub: u32) -> (r: u32)
    ensures
        r == low32(b * scale + sub),
{
    assert(b * scale <= 0xFFFF_FFFF * 0xFFFF_FFFF) by (nonlinear_arith)
        requires
            b <= 0xFFFF_FFFF,
            scale <= 0xFFFF_FFFF,
    ;
    ((b as u64 * scale as u64 + sub as u64) % 0x1_0000_0000) as u32
}

/// The buffer of buffer `block` of a file, zero where there is none.
pub fn bmap(fs: &mut Fs, ip: usize, block: u32, _create: bool) -> (r: u32)
    requires
        old(fs).wf(),
        ip < 64,
    ensures
        final(fs).wf(),
        *final(fs) == (Fs { cache: final(fs).cache, ..*old(fs) }),
        final(fs).blocks() == old(fs).blocks(),
        r == mapped(
            old(fs).blocks(),
            old(fs).supers@,
            old(fs).ext4@,
            old(fs).inodes@[ip as int],
            block as int,
        ),
{
    let ib: [u8; 60] = match read_inode_iblock(fs, ip) {
        None => {
            return 0;
        },
        Some(ib) => ib,
    };
    let sb_nr: usize = fs.inodes[ip].i_sb;
    let dev: u16 = fs.supers[sb_nr].s_dev;
    let fs_bs: usize = fs.ext4[sb_nr].fs_block_size;
    let scale: u32 = ((fs_bs / 1024) as u64 % 0x1_0000_0000) as u32;
    if scale == 0 {
        return 0;
    }
    let n: u32 = block / scale;
    let sub: u32 = block % scale;
    if get_le16(&ib, 0) == 0xF30A {
        return match extent_lookup(fs, &ib, n, dev, fs_bs) {
            None => 0,
            Some(b) => scaled((b % 0x1_0000_0000) as u32, scale, sub),
        };
    }
    let b: u32 = classic_lookup(fs, &ib, n, dev, fs_bs);
    if b == 0 {
        return 0;
    }
    scaled(b, scale, sub)
}

/// The map of a file depends on where its inode is and how large the blocks are.
pub proof fn lemma_mapped_same(
    c: Blocks,
    supers: Seq<SuperBlock>,
    info: Seq<Ext4SbInfo>,
    i: Inode,
    supers1: Seq<SuperBlock>,
    info1: Seq<Ext4SbInfo>,
    i1: Inode,
    block: int,
)
    requires
        i1.i_sb == i.i_sb,
        i1.i_ino == i.i_ino,
        supers1[i.i_sb as int].s_dev == supers[i.i_sb as int].s_dev,
        ({
            let f = info[i.i_sb as int];
            let f1 = info1[i.i_sb as int];
            &&& f1.ext4_gd.inode_table == f.ext4_gd.inode_table
            &&& f1.inode_size == f.inode_size
            &&& f1.fs_block_size == f.fs_block_size
            &&& f1.valid == f.valid
        }),
    ensures
        mapped(c, supers1, info1, i1, block) == mapped(c, supers, info, i, block),
{
}

/// The state `fs` is that of `fs0` after buffer `lblock` of file `ip` got the block
/// number `phys`. Only the first nine have one in the inode.
pub open spec fn is_extended(fs0: &Fs, fs: &Fs, ip: usize, lblock: u32, phys: u32) -> bool {
    let i0 = fs0.inodes@[ip as int];
    let i = fs.inodes@[ip as int];
    &&& *fs == (Fs { inodes: fs.inodes, ..*fs0 })
    &&& fs.inodes@ == fs0.inodes@.update(ip as int, i)
    &&& if lblock < 9 {
        &&& i == (Inode { data: i.data, i_dirt: true, ..i0 })
        &&& i.data@ == i0.data@.update(lblock as int, (phys % 65536) as u16)
    } else {
        i == i0
    }
}

/// Gives buffer `lblock` of a file the block number `phys`, where an inode has
/// room for it.
pub fn extend_inode_block(fs: &mut Fs, ip: usize, lblock: u32, phys: u32)
    requires
        old(fs).wf(),
        ip < 64,
    ensures
        final(fs).wf(),
        is_extended(old(fs), final(fs), ip, lblock, phys),
{
    let ghost i0 = fs.inodes@[ip as int];
    if lblock < 9 {
        fs.inodes[ip].data[lblock as usize] = (phys % 65536) as u16;
        fs.inodes[ip].i_dirt = true;
        assert(fs.inodes@[ip as int].data@ =~= i0.data@.update(
            lblock as int,
            (phys % 65536) as u16,
        ));
    }
    assert(fs.inodes@ =~= old(fs).inodes@.update(ip as int, fs.inodes@[ip as int]));
}

// ---- taking and giving back blocks and inodes ----

/// The first group after a block was taken from it, the blocks, and the number.
pub open spec fn block_alloc(c: Blocks, dev: u16, f: Ext4SbInfo) -> Option<(Blocks, Ext4SbInfo, int)> {
    let block = f.ext4_gd.block_bitmap as int;
    match first_free_bit(
        c,
        dev,
        block,
        pieces(f.ext4_sb),
        f.ext4_sb.s_blocks_per_group as int,
        0,
    ) {
        None => None,
        Some(bit) => if block == 0 {
            None
        } else {
            let gd = Ext4GroupDesc {
                free_blocks_count: less_one(f.ext4_gd.free_blocks_count),
                ..f.ext4_gd
            };
            Some((bit_taken(c, dev, block, bit), Ext4SbInfo { ext4_gd: gd, ..f }, bit))
        },
    }
}

/// The state `fs` is that of `fs0` after a block of the file system in slot `n` was
/// asked for, with the answer `r`.
pub open spec fn block_taken(fs0: &Fs, fs: &Fs, n: usize, r: Option<u64>) -> bool {
    let dev = fs0.supers@[n as int].s_dev;
    &&& *fs == (Fs { cache: fs.cache, supers: fs.supers, ext4: fs.ext4, ..*fs0 })
    &&& match block_alloc(fs0.blocks(), dev, fs0.ext4@[n as int]) {
        None => {
            &&& r is None
            &&& fs.blocks() == fs0.blocks()
            &&& fs.supers@ == fs0.supers@
            &&& fs.ext4@ == fs0.ext4@
        },
        Some((c, f, bit)) => {
            &&& r == Some(bit as u64)
            &&& 0 < bit <= u32::MAX
            &&& fs.blocks() == c
            &&& marked_dirty(fs0.supers@, fs.supers@, dev)
            &&& fs.ext4@ == fs0.ext4@.update(n as int, f)
        },
    }
}

/// Takes a block from the first group of the file system in slot `n`.
pub fn alloc_block_any(fs: &mut Fs, n: usize) -> (r: Option<u64>)
    requires
        old(fs).wf(),
        n < 4,
    ensures
        final(fs).wf(),
        block_taken(old(fs), final(fs), n, r),
{
    let dev: u16 = fs.supers[n].s_dev;
    let sb: Ext4SuperBlock = fs.ext4[n].ext4_sb;
    let mut gd: Ext4GroupDesc = fs.ext4[n].ext4_gd;
    let r: Option<u64> = alloc_block(fs, &sb, &mut gd, 0, dev);
    fs.ext4[n].ext4_gd = gd;
    proof {
        assert(0 * sb.s_blocks_per_group == 0);
        if r is None {
            assert(fs.ext4@ =~= old(fs).ext4@);
        } else {
            assert(fs.ext4@ =~= old(fs).ext4@.update(n as int, fs.ext4@[n as int]));
        }
    }
    r
}

/// The first group after an inode was taken from it, the blocks, and the bit.
pub open spec fn inode_alloc(c: Blocks, dev: u16, f: Ext4SbInfo) -> Option<(Blocks, Ext4SbInfo, int)> {
    let block = f.ext4_gd.inode_bitmap as int;
    match first_free_bit(
        c,
        dev,
        block,
        pieces(f.ext4_sb),
        f.ext4_sb.s_inodes_per_group as int,
        0,
    ) {
        None => None,
        Some(bit) => if block == 0 {
            None
        } else {
            let gd = Ext4GroupDesc {
                free_inodes_count: less_one(f.ext4_gd.free_inodes_count),
                ..f.ext4_gd
            };
            Some((bit_taken(c, dev, block, bit), Ext4SbInfo { ext4_gd: gd, ..f }, bit))
        },
    }
}

/// The state `fs` is that of `fs0` after an inode of the file system in slot `n`
/// was asked for, with the answer `r`.
pub open spec fn inode_taken(fs0: &Fs, fs: &Fs, n: usize, r: Option<u32>) -> bool {
    let dev = fs0.supers@[n as int].s_dev;
    &&& *fs == (Fs { cache: fs.cache, supers: fs.supers, ext4: fs.ext4, ..*fs0 })
    &&& match inode_alloc(fs0.blocks(), dev, fs0.ext4@[n as int]) {
        None => {
            &&& r is None
            &&& fs.blocks() == fs0.blocks()
            &&& fs.supers@ == fs0.supers@
            &&& fs.ext4@ == fs0.ext4@
        },
        Some((c, f, bit)) => {
            &&& r == Some((bit + 1) as u32)
            &&& 0 < bit < u32::MAX
            &&& fs.blocks() == c
            &&& marked_dirty(fs0.supers@, fs.supers@, dev)
            &&& fs.ext4@ == fs0.ext4@.update(n as int, f)
        },
    }
}

/// Takes an inode from the first group of the file system in slot `n`.
pub fn alloc_inode_any(fs: &mut Fs, n: usize) -> (r: Option<u32>)
    requires
        old(fs).wf(),
        n < 4,
    ensures
        final(fs).wf(),
        inode_taken(old(fs), final(fs), n, r),
{
    let dev: u16 = fs.supers[n].s_dev;
    let sb: Ext4SuperBlock = fs.ext4[n].ext4_sb;
    let mut gd: Ext4GroupDesc = fs.ext4[n].ext4_gd;
    let r: Option<u32> = alloc_inode(fs, &sb, &mut gd, 0, dev);
    fs.ext4[n].ext4_gd = gd;
    proof {
        assert(0 * sb.s_inodes_per_group == 0);
        if r is None {
            assert(fs.ext4@ =~= old(fs).ext4@);
        } else {
            assert(fs.ext4@ =~= old(fs).ext4@.update(n as int, fs.ext4@[n as int]));
        }
    }
    r
}

/// The first group after bit `bit` of its inodes was given back, and the blocks.
pub open spec fn inode_release(c: Blocks, dev: u16, f: Ext4SbInfo, bit: int) -> Option<(Blocks, Ext4SbInfo)> {
    let block = f.ext4_gd.inode_bitmap as int;
    if block == 0 || !c.dom().contains((dev, low32(block + bit / 8192))) {
        None
    } else {
        let gd = Ext4GroupDesc {
            free_inodes_count: one_more(f.ext4_gd.free_inodes_count),
            ..f.ext4_gd
        };
        Some((bit_freed(c, dev, block, bit), Ext4SbInfo { ext4_gd: gd, ..f }))
    }
}

/// The state `fs` is that of `fs0` after inode `ino` of the file system in slot `n`
/// was given back. There is no inode 0.
pub open spec fn inode_given(fs0: &Fs, fs: &Fs, n: usize, ino: u32) -> bool {
    let dev = fs0.supers@[n as int].s_dev;
    let out = inode_release(fs0.blocks(), dev, fs0.ext4@[n as int], ino - 1);
    &&& *fs == (Fs { cache: fs.cache, supers: fs.supers, ext4: fs.ext4, ..*fs0 })
    &&& if ino == 0 || out is None {
        &&& fs.blocks() == fs0.blocks()
        &&& fs.supers@ == fs0.supers@
        &&& fs.ext4@ == fs0.ext4@
    } else {
        &&& fs.blocks() == (out->0).0
        &&& marked_dirty(fs0.supers@, fs.supers@, dev)
        &&& fs.ext4@ == fs0.ext4@.update(n as int, (out->0).1)
    }
}

/// Gives an inode back to the first group of the file system in slot `n`.
pub fn free_inode_any(fs: &mut Fs, n: usize, ino: u32)
    requires
        old(fs).wf(),
        n < 4,
    ensures
        final(fs).wf(),
        inode_given(old(fs), final(fs), n, ino),
{
    if ino == 0 {
        return;
    }
    let dev: u16 = fs.supers[n].s_dev;
    let sb: Ext4SuperBlock = fs.ext4[n].ext4_sb;
    let mut gd: Ext4GroupDesc = fs.ext4[n].ext4_gd;
    free_inode(fs, &sb, &mut gd, 0, ino - 1, dev);
    fs.ext4[n].ext4_gd = gd;
    proof {
        let f = fs.ext4@[n as int];
        assert(fs.ext4@ =~= old(fs).ext4@.update(n as int, f));
        assert(f == old(fs).ext4@[n as int] ==> fs.ext4@ =~= old(fs).ext4@);
    }
}

/// The first group after block `b` was given back, and the blocks.
pub open spec fn block_release(c: Blocks, dev: u16, f: Ext4SbInfo, b: int) -> Option<(Blocks, Ext4SbInfo)> {
    let block = f.ext4_gd.block_bitmap as int;
    if block == 0 || !c.dom().contains((dev, low32(block + b / 8192))) {
        None
    } else {
        let gd = Ext4GroupDesc {
            free_blocks_count: one_more(f.ext4_gd.free_blocks_count),
            ..f.ext4_gd
        };
        Some((bit_freed(c, dev, block, b), Ext4SbInfo { ext4_gd: gd, ..f }))
    }
}

/// Gives the blocks of the numbers from `k` on back: the blocks and the first
/// group afterwards, and whether anything was given back.
pub open spec fn numbers_released(c: Blocks, dev: u16, f: Ext4SbInfo, z: Seq<u16>, k: int) -> (
    Blocks,
    Ext4SbInfo,
    bool,
)
    decreases 9 - k,
{
    if k >= 9 {
        (c, f, false)
    } else if z[k] == 0 || block_release(c, dev, f, z[k] as int) is None {
        numbers_released(c, dev, f, z, k + 1)
    } else {
        let (c1, f1) = block_release(c, dev, f, z[k] as int)->0;
        let (c2, f2, any) = numbers_released(c1, dev, f1, z, k + 1);
        (c2, f2, true)
    }
}

/// Marking twice is marking once.
proof fn lemma_dirty_twice(s0: Seq<SuperBlock>, s1: Seq<SuperBlock>, s2: Seq<SuperBlock>, dev: u16)
    requires
        marked_dirty(s0, s1, dev),
        marked_dirty(s1, s2, dev),
    ensures
        marked_dirty(s0, s2, dev),
{
    assert forall|k: int| 0 <= k < s0.len() implies (#[trigger] s1[k]).s_dev == s0[k].s_dev by {}
    assert forall|k: int| 0 <= k < s0.len() implies #[trigger] s2[k] == (if dev != 0 && s0[k].s_dev
        == dev && (forall|j: int| 0 <= j < k ==> (#[trigger] s0[j]).s_dev != dev) {
        SuperBlock { s_dirt: true, ..s0[k] }
    } else {
        s0[k]
    }) by {
        assert((forall|j: int| 0 <= j < k ==> (#[trigger] s0[j]).s_dev != dev) <==> (forall|j: int|
            0 <= j < k ==> (#[trigger] s1[j]).s_dev != dev)) by {
            if forall|j: int| 0 <= j < k ==> (#[trigger] s0[j]).s_dev != dev {
                assert forall|j: int| 0 <= j < k implies (#[trigger] s1[j]).s_dev != dev by {
                    assert(s0[j].s_dev != dev);
                }
            }
            if forall|j: int| 0 <= j < k ==> (#[trigger] s1[j]).s_dev != dev {
                assert forall|j: int| 0 <= j < k implies (#[trigger] s0[j]).s_dev != dev by {
                    assert(s1[j].s_dev != dev);
                }
            }
        }
    }
}

/// The table is as before, or the file system on the device is marked as changed.
pub open spec fn dirty_if(s0: Seq<SuperBlock>, s: Seq<SuperBlock>, dev: u16, any: bool) -> bool {
    if any {
        marked_dirty(s0, s, dev)
    } else {
        s == s0
    }
}

/// The state `fs` is that of `fs0` after the blocks of file `ip` were given back.
pub open spec fn is_truncated(fs0: &Fs, fs: &Fs, ip: usize) -> bool {
    let i0 = fs0.inodes@[ip as int];
    let i = fs.inodes@[ip as int];
    let n = i0.i_sb as int;
    &&& *fs == (Fs {
        cache: fs.cache,
        inodes: fs.inodes,
        supers: fs.supers,
        ext4: fs.ext4,
        ..*fs0
    })
    &&& fs.inodes@ == fs0.inodes@.update(ip as int, i)
    &&& if i0.i_sb == NIL || !fs0.ext4@[n].valid {
        &&& i == i0
        &&& fs.blocks() == fs0.blocks()
        &&& fs.supers@ == fs0.supers@
        &&& fs.ext4@ == fs0.ext4@
    } else {
        let dev = fs0.supers@[n].s_dev;
        let (c, f, any) = numbers_released(fs0.blocks(), dev, fs0.ext4@[n], i0.data@, 0);
        &&& fs.blocks() == c
        &&& fs.ext4@ == fs0.ext4@.update(n, f)
        &&& dirty_if(fs0.supers@, fs.supers@, dev, any)
        &&& i == (Inode { data: i.data, i_size: 0, i_dirt: true, ..i0 })
        &&& i.data@ == no_numbers()
    }
}

/// The block numbers of a file without blocks.
pub open spec fn no_numbers() -> Seq<u16> {
    Seq::new(9, |k: int| 0u16)
}

/// Gives the blocks of a file back; its size is then zero.
#[verifier::spinoff_prover]
#[verifier::rlimit(60)]
pub fn truncate(fs: &mut Fs, ip: usize)
    requires
        old(fs).wf(),
        ip < 64,
    ensures
        final(fs).wf(),
        is_truncated(old(fs), final(fs), ip),
{
    let ghost i0 = fs.inodes@[ip as int];
    let n: usize = fs.inodes[ip].i_sb;
    assert(fs.inodes@ =~= old(fs).inodes@.update(ip as int, fs.inodes@[ip as int]));
    if n == NIL {
        return;
    }
    if !fs.ext4[n].valid {
        return;
    }
    let dev: u16 = fs.supers[n].s_dev;
    let sb: Ext4SuperBlock = fs.ext4[n].ext4_sb;
    let mut gd: Ext4GroupDesc = fs.ext4[n].ext4_gd;
    let mut i: Inode = fs.inodes[ip];
    let ghost f0 = fs.ext4@[n as int];
    let ghost mut any: bool = false;
    let mut k: usize = 0;
    while k < 9
        invariant
            fs.wf(),
            k <= 9,
            f0 == old(fs).ext4@[n as int],
            i == (Inode { data: i.data, ..i0 }),
            forall|j: int|
                0 <= j < 9 ==> #[trigger] i.data@[j] == (if j < k {
                    0
                } else {
                    i0.data@[j]
                }),
            *fs == (Fs { cache: fs.cache, supers: fs.supers, ..*old(fs) }),
            dirty_if(old(fs).supers@, fs.supers@, dev, any),
            ({
                let (c, f, more) = numbers_released(old(fs).blocks(), dev, f0, i0.data@, 0);
                let (c1, f1, more1) = numbers_released(
                    fs.blocks(),
                    dev,
                    Ext4SbInfo { ext4_gd: gd, ..f0 },
                    i0.data@,
                    k as int,
                );
                c == c1 && f == f1 && more == (any || more1)
            }),
        decreases 9 - k,
    {
        let phys: u16 = i.data[k];
        if phys != 0 {
            let ghost s1 = fs.supers@;
            let ghost c1 = fs.blocks();
            let ghost f1 = Ext4SbInfo { ext4_gd: gd, ..f0 };
            free_block(fs, &sb, &mut gd, 0, phys as u32, dev);
            i.data[k] = 0;
            proof {
                if block_release(c1, dev, f1, phys as int) is Some {
                    if any {
                        lemma_dirty_twice(old(fs).supers@, s1, fs.supers@, dev);
                    }
                    any = true;
                }
            }
        }
        k = k + 1;
    }
    i.i_size = 0;
    i.i_dirt = true;
    fs.ext4[n].ext4_gd = gd;
    fs.inodes[ip] = i;
    proof {
        assert(i.data@ =~= no_numbers());
        assert(fs.inodes@ =~= old(fs).inodes@.update(ip as int, fs.inodes@[ip as int]));
        assert(fs.ext4@ =~= old(fs).ext4@.update(n as int, Ext4SbInfo { ext4_gd: gd, ..f0 }));
    }
}

// ---- reading and writing files ----

/// The file has buffer `block`, and the device too.
pub open spec fn has_buffer(c: Blocks, supers: Seq<SuperBlock>, info: Seq<Ext4SbInfo>, i: Inode, block: int) -> bool {
    let b = mapped(c, supers, info, i, block);
    b != 0 && c.dom().contains((supers[i.i_sb as int].s_dev, b))
}

/// How many of `len` bytes from `off` on can be read: up to the first hole.
pub open spec fn readable(
    c: Blocks,
    supers: Seq<SuperBlock>,
    info: Seq<Ext4SbInfo>,
    i: Inode,
    off: int,
    len: int,
) -> int
    decreases len,
    when 0 <= off
{
    if len <= 0 || !has_buffer(c, supers, info, i, off / 1024) {
        0
    } else {
        let n = if 1024 - off % 1024 < len {
            1024 - off % 1024
        } else {
            len
        };
        n + readable(c, supers, info, i, off + n, len - n)
    }
}

/// Byte `p` of a file that has the buffer that it is in.
pub open spec fn file_byte(c: Blocks, supers: Seq<SuperBlock>, info: Seq<Ext4SbInfo>, i: Inode, p: int) -> u8 {
    c[(supers[i.i_sb as int].s_dev, mapped(c, supers, info, i, p / 1024))][p % 1024]
}

/// How many bytes a read of `len` bytes at `pos` asks for.
pub open spec fn wanted(size: int, pos: int, len: int) -> int {
    if pos >= size {
        0
    } else if pos + len > size {
        size - pos
    } else {
        len
    }
}

/// What reading from a file at `pos` into `b0` does, with the answer `r`.
pub open spec fn file_read_did(fs0: &Fs, fs: &Fs, ip: usize, pos: u64, b0: Seq<u8>, b: Seq<u8>, r: i64) -> bool {
    &&& fs.blocks() == fs0.blocks()
    &&& *fs == (Fs { cache: fs.cache, ..*fs0 })
    &&& b.len() == b0.len()
    &&& ({
        let i = fs0.inodes@[ip as int];
        if i.i_sb == NIL {
            r == -EIO && b == b0
        } else {
            let c = fs0.blocks();
            &&& r == readable(
                c,
                fs0.supers@,
                fs0.ext4@,
                i,
                pos as int,
                wanted(i.i_size as int, pos as int, b0.len() as int),
            )
            &&& forall|k: int|
                0 <= k < b.len() ==> #[trigger] b[k] == (if k < r {
                    file_byte(c, fs0.supers@, fs0.ext4@, i, pos + k)
                } else {
                    b0[k]
                })
        }
    })
}

/// Reads from a file at `pos`, as far as it goes or up to the first hole.
#[verifier::spinoff_prover]
#[verifier::rlimit(40)]
pub fn ext4_file_read(fs: &mut Fs, ip: usize, pos: u64, buf: &mut Vec<u8>) -> (r: i64)
    requires
        old(fs).wf(),
        ip < 64,
    ensures
        final(fs).wf(),
        file_read_did(old(fs), final(fs), ip, pos, old(buf)@, final(buf)@, r),
{
    let i: Inode = fs.inodes[ip];
    if i.i_sb == NIL {
        return -(EIO as i64);
    }
    let ghost c = fs.blocks();
    let ghost supers = fs.supers@;
    let ghost info = fs.ext4@;
    let dev: u16 = fs.supers[i.i_sb].s_dev;
    let size: u64 = i.i_size as u64;
    if pos >= size {
        return 0;
    }
    let left: usize = (size - pos) as usize;
    let len: usize = if buf.len() > left {
        left
    } else {
        buf.len()
    };
    let mut done: usize = 0;
    while done < len
        invariant_except_break
            readable(c, supers, info, i, pos as int, len as int) == done + readable(
                c,
                supers,
                info,
                i,
                pos + done,
                len - done,
            ),
        invariant
            fs.wf(),
            ip < 64,
            done <= len <= buf@.len(),
            pos + len <= size <= u32::MAX,
            buf@.len() == old(buf)@.len(),
            *fs == (Fs { cache: fs.cache, ..*old(fs) }),
            fs.blocks() == c,
            c == old(fs).blocks(),
            supers == fs.supers@,
            info == fs.ext4@,
            i == fs.inodes@[ip as int],
            i.i_sb != NIL,
            dev == supers[i.i_sb as int].s_dev,
            forall|k: int|
                0 <= k < buf@.len() ==> #[trigger] buf@[k] == (if k < done {
                    file_byte(c, supers, info, i, pos + k)
                } else {
                    old(buf)@[k]
                }),
        ensures
            done == readable(c, supers, info, i, pos as int, len as int),
        decreases len - done,
    {
        let off: u64 = pos + done as u64;
        let block: u32 = (off / 1024) as u32;
        let in_block: usize = (off % 1024) as usize;
        let phys: u32 = bmap(fs, ip, block, false);
        if phys == 0 {
            break;
        }
        let data: Vec<u8> = match fs.cache.read_block(dev, phys) {
            None => {
                break;
            },
            Some(d) => d,
        };
        assert(has_buffer(c, supers, info, i, off as int / 1024));
        let room: usize = 1024 - in_block;
        let avail: usize = if room < len - done {
            room
        } else {
            len - done
        };
        let ghost before = buf@;
        let mut k: usize = 0;
        while k < avail
            invariant
                k <= avail <= 1024 - in_block,
                done + avail <= len <= buf@.len(),
                buf@.len() == before.len(),
                off == pos + done,
                block == off / 1024,
                in_block == off % 1024,
                data@.len() == 1024,
                dev == supers[i.i_sb as int].s_dev,
                phys == mapped(c, supers, info, i, block as int),
                data@ == c[(dev, phys)],
                forall|j: int|
                    0 <= j < buf@.len() ==> #[trigger] buf@[j] == (if done <= j < done + k {
                        file_byte(c, supers, info, i, pos + j)
                    } else {
                        before[j]
                    }),
            decreases avail - k,
        {
            assert((pos + (done + k)) / 1024 == block && (pos + (done + k)) % 1024 == in_block + k);
            buf[done + k] = data[in_block + k];
            k = k + 1;
        }
        done = done + avail;
    }
    done as i64
}

/// Writes the bytes of `data` from number `done` on at `pos + done` into the
/// buffers that the file has: the blocks afterwards, and how many bytes were
/// written in all.
pub open spec fn blocks_written(
    c: Blocks,
    supers: Seq<SuperBlock>,
    info: Seq<Ext4SbInfo>,
    i: Inode,
    pos: int,
    data: Seq<u8>,
    done: int,
) -> (Blocks, int)
    decreases data.len() - done,
    when 0 <= pos && 0 <= done
{
    let off = pos + done;
    let b = mapped(c, supers, info, i, low32(off / 1024) as int);
    let key = (supers[i.i_sb as int].s_dev, b);
    if done >= data.len() || b == 0 || !c.dom().contains(key) {
        (c, done)
    } else {
        let n = if 1024 - off % 1024 < data.len() - done {
            1024 - off % 1024
        } else {
            data.len() - done
        };
        blocks_written(
            c.insert(key, overlay(c[key], off % 1024, data.subrange(done, done + n))),
            supers,
            info,
            i,
            pos,
            data,
            done + n,
        )
    }
}

/// Inode `i` is `i0` after a write that ended at `end`.
pub open spec fn after_write(i0: Inode, end: int) -> Inode {
    Inode {
        i_size: if end > i0.i_size {
            low32(end)
        } else {
            i0.i_size
        },
        i_dirt: true,
        ..i0
    }
}

/// Writes into the buffers that a file has.
#[verifier::spinoff_prover]
#[verifier::rlimit(40)]
fn write_to_blocks(fs: &mut Fs, ip: usize, pos: u64, buf: &[u8]) -> (r: i64)
    requires
        old(fs).wf(),
        ip < 64,
        old(fs).inodes@[ip as int].i_sb != NIL,
        pos + buf@.len() <= i64::MAX,
    ensures
        final(fs).wf(),
        *final(fs) == (Fs { cache: final(fs).cache, inodes: final(fs).inodes, ..*old(fs) }),
        ({
            let i0 = old(fs).inodes@[ip as int];
            let (c, n) = blocks_written(
                old(fs).blocks(),
                old(fs).supers@,
                old(fs).ext4@,
                i0,
                pos as int,
                buf@,
                0,
            );
            &&& final(fs).blocks() == c
            &&& r == n
            &&& final(fs).inodes@ == old(fs).inodes@.update(ip as int, after_write(i0, pos + n))
        }),
{
    let ghost supers = fs.supers@;
    let ghost info = fs.ext4@;
    let ghost i0 = fs.inodes@[ip as int];
    let sb_nr: usize = fs.inodes[ip].i_sb;
    let dev: u16 = fs.supers[sb_nr].s_dev;
    let mut written: usize = 0;
    while written < buf.len()
        invariant_except_break
            blocks_written(old(fs).blocks(), supers, info, i0, pos as int, buf@, 0)
                == blocks_written(fs.blocks(), supers, info, i0, pos as int, buf@, written as int),
        invariant
            fs.wf(),
            ip < 64,
            written <= buf@.len(),
            pos + buf@.len() <= i64::MAX,
            *fs == (Fs { cache: fs.cache, ..*old(fs) }),
            supers == fs.supers@,
            info == fs.ext4@,
            i0 == fs.inodes@[ip as int],
            i0.i_sb != NIL,
            dev == supers[i0.i_sb as int].s_dev,
        ensures
            blocks_written(old(fs).blocks(), supers, info, i0, pos as int, buf@, 0) == (
                fs.blocks(),
                written as int,
            ),
        decreases buf@.len() - written,
    {
        let off: u64 = pos + written as u64;
        let block: u32 = (off / 1024 % 0x1_0000_0000) as u32;
        let in_block: usize = (off % 1024) as usize;
        let phys: u32 = bmap(fs, ip, block, false);
        if phys == 0 {
            break;
        }
        match fs.cache.read_block(dev, phys) {
            None => {
                break;
            },
            Some(mut data) => {
                let room: usize = 1024 - in_block;
                let avail: usize = if room < buf.len() - written {
                    room
                } else {
                    buf.len() - written
                };
                let piece: &[u8] = &buf[written..written + avail];
                put_bytes(&mut data, in_block, piece);
                let ok: bool = fs.cache.write_block(dev, phys, data.as_slice());
                written = written + avail;
            },
        }
    }
    let end: u64 = pos + written as u64;
    if end > fs.inodes[ip].i_size as u64 {
        fs.inodes[ip].i_size = (end % 0x1_0000_0000) as u32;
    }
    fs.inodes[ip].i_dirt = true;
    assert(fs.inodes@ =~= old(fs).inodes@.update(ip as int, after_write(i0, end as int)));
    written as i64
}

/// What giving a file the buffers that it does not have, from `blk` to `last`, comes
/// to.
pub struct Growth {
    pub c: Blocks,
    pub f: Ext4SbInfo,
    /// The block numbers of the inode.
    pub z: Seq<u16>,
    /// A block was taken.
    pub took: bool,
    /// A number was entered into the inode.
    pub entered: bool,
    /// The first buffer that could not be had, `last + 1` where all could.
    pub stop: int,
}

/// Gives a file the buffers that it does not have. Only the first nine are entered
/// into the inode.
pub open spec fn growth(
    c: Blocks,
    supers: Seq<SuperBlock>,
    info: Seq<Ext4SbInfo>,
    i: Inode,
    z: Seq<u16>,
    blk: int,
    last: int,
) -> Growth
    decreases last + 1 - blk,
{
    let n = i.i_sb as int;
    let f = info[n];
    if blk > last {
        Growth { c, f, z, took: false, entered: false, stop: blk }
    } else if mapped(c, supers, info, i, blk) != 0 {
        growth(c, supers, info, i, z, blk + 1, last)
    } else {
        match block_alloc(c, supers[n].s_dev, f) {
            None => Growth { c, f, z, took: false, entered: false, stop: blk },
            Some((c1, f1, bit)) => {
                let z1 = if blk < 9 {
                    z.update(blk, (bit % 65536) as u16)
                } else {
                    z
                };
                let g = growth(c1, supers, info.update(n, f1), i, z1, blk + 1, last);
                Growth { took: true, entered: g.entered || blk < 9, ..g }
            },
        }
    }
}

/// Inode `i` is `i0` with the block numbers that it got.
pub open spec fn grown(i0: Inode, i: Inode, z: Seq<u16>, entered: bool) -> bool {
    i == (Inode { data: i.data, i_dirt: i0.i_dirt || entered, ..i0 }) && i.data@ == z
}

/// Gives a file the buffers that it does not have, and answers the first one that
/// could not be had.
#[verifier::spinoff_prover]
#[verifier::rlimit(80)]
fn grow(fs: &mut Fs, ip: usize, first: u64, last: u64) -> (r: u64)
    requires
        old(fs).wf(),
        ip < 64,
        old(fs).inodes@[ip as int].i_sb != NIL,
        first <= last <= u32::MAX,
    ensures
        final(fs).wf(),
        *final(fs) == (Fs {
            cache: final(fs).cache,
            inodes: final(fs).inodes,
            supers: final(fs).supers,
            ext4: final(fs).ext4,
            ..*old(fs)
        }),
        final(fs).inodes@ == old(fs).inodes@.update(ip as int, final(fs).inodes@[ip as int]),
        ({
            let i0 = old(fs).inodes@[ip as int];
            let n = i0.i_sb as int;
            let g = growth(
                old(fs).blocks(),
                old(fs).supers@,
                old(fs).ext4@,
                i0,
                i0.data@,
                first as int,
                last as int,
            );
            &&& r == g.stop
            &&& final(fs).blocks() == g.c
            &&& final(fs).ext4@ == old(fs).ext4@.update(n, g.f)
            &&& grown(i0, final(fs).inodes@[ip as int], g.z, g.entered)
            &&& dirty_if(old(fs).supers@, final(fs).supers@, old(fs).supers@[n].s_dev, g.took)
        }),
{
    let ghost i0 = fs.inodes@[ip as int];
    let ghost s0 = fs.supers@;
    let sb_nr: usize = fs.inodes[ip].i_sb;
    let ghost n = sb_nr as int;
    let ghost dev = s0[n].s_dev;
    let ghost g0 = growth(
        fs.blocks(),
        s0,
        fs.ext4@,
        i0,
        i0.data@,
        first as int,
        last as int,
    );
    let ghost mut took: bool = false;
    let ghost mut entered: bool = false;
    let mut blk: u64 = first;
    assert(fs.inodes@ =~= old(fs).inodes@.update(ip as int, fs.inodes@[ip as int]));
    assert(fs.ext4@ =~= old(fs).ext4@.update(n, fs.ext4@[n]));
    while blk <= last
        invariant
            fs.wf(),
            ip < 64,
            blk <= last + 1,
            last <= u32::MAX,
            sb_nr == i0.i_sb,
            n == sb_nr,
            sb_nr < 4,
            i0 == old(fs).inodes@[ip as int],
            s0 == old(fs).supers@,
            s0.len() == 4,
            old(fs).inodes@.len() == 64,
            old(fs).ext4@.len() == 4,
            dev == s0[n].s_dev,
            *fs == (Fs {
                cache: fs.cache,
                inodes: fs.inodes,
                supers: fs.supers,
                ext4: fs.ext4,
                ..*old(fs)
            }),
            fs.inodes@ == old(fs).inodes@.update(ip as int, fs.inodes@[ip as int]),
            fs.ext4@ == old(fs).ext4@.update(n, fs.ext4@[n]),
            grown(i0, fs.inodes@[ip as int], fs.inodes@[ip as int].data@, entered),
            dirty_if(s0, fs.supers@, dev, took),
            ({
                let g = growth(
                    fs.blocks(),
                    s0,
                    fs.ext4@,
                    i0,
                    fs.inodes@[ip as int].data@,
                    blk as int,
                    last as int,
                );
                g0 == (Growth { took: took || g.took, entered: entered || g.entered, ..g })
            }),
            g0 == growth(
                old(fs).blocks(),
                s0,
                old(fs).ext4@,
                i0,
                i0.data@,
                first as int,
                last as int,
            ),
        decreases last + 1 - blk,
    {
        let ghost i1 = fs.inodes@[ip as int];
        let ghost c1 = fs.blocks();
        let ghost info1 = fs.ext4@;
        let ghost s1 = fs.supers@;
        assert(s1[n].s_dev == s0[n].s_dev);
        proof {
            lemma_mapped_same(c1, s0, info1, i0, s1, info1, i1, blk as int);
        }
        let have: u32 = bmap(fs, ip, blk as u32, false);
        if have == 0 {
            match alloc_block_any(fs, sb_nr) {
                None => {
                    assert(fs.inodes@ =~= old(fs).inodes@.update(ip as int, fs.inodes@[ip as int]));
                    assert(fs.ext4@ =~= old(fs).ext4@.update(n, fs.ext4@[n]));
                    return blk;
                },
                Some(b) => {
                    extend_inode_block(fs, ip, blk as u32, b as u32);
                    proof {
                        if took {
                            lemma_dirty_twice(s0, s1, fs.supers@, dev);
                        }
                        took = true;
                        entered = entered || blk < 9;
                        assert(fs.inodes@ =~= old(fs).inodes@.update(
                            ip as int,
                            fs.inodes@[ip as int],
                        ));
                        assert(fs.ext4@ =~= info1.update(n, fs.ext4@[n]));
                        assert(fs.ext4@ =~= old(fs).ext4@.update(n, fs.ext4@[n]));
                    }
                },
            }
        }
        blk = blk + 1;
    }
    blk
}

/// The last buffer that a write of `len` bytes at `pos` needs.
pub open spec fn last_buffer(pos: int, len: int) -> int {
    let n = (pos + len + 1023) / 1024;
    if n == 0 {
        0
    } else {
        low32(n - 1) as int
    }
}

/// What a write at `pos` does, with the answer `r`: the file gets the buffers that
/// it needs, and as many bytes are written as there are buffers for.
pub open spec fn file_written(fs0: &Fs, fs: &Fs, ip: usize, pos: int, data: Seq<u8>, r: int) -> bool {
    let i0 = fs0.inodes@[ip as int];
    let n = i0.i_sb as int;
    let dev = fs0.supers@[n].s_dev;
    let last = last_buffer(pos, data.len() as int);
    let first = i0.i_size as int / 1024;
    let g = growth(fs0.blocks(), fs0.supers@, fs0.ext4@, i0, i0.data@, first, last);
    let fit = if g.stop * 1024 > pos {
        g.stop * 1024 - pos
    } else {
        0
    };
    let part = if last < first || g.stop > last {
        data
    } else {
        data.subrange(0, fit)
    };
    let info = fs0.ext4@.update(n, g.f);
    &&& *fs == (Fs {
        cache: fs.cache,
        inodes: fs.inodes,
        supers: fs.supers,
        ext4: fs.ext4,
        ..*fs0
    })
    &&& fs.ext4@ == info
    &&& dirty_if(fs0.supers@, fs.supers@, dev, g.took)
    &&& exists|i1: Inode|
        {
            &&& #[trigger] grown(i0, i1, g.z, g.entered)
            &&& if last >= first && g.stop <= last && (fit == 0 || fit > data.len()) {
                &&& r == -ENOSPC
                &&& fs.blocks() == g.c
                &&& fs.inodes@ == fs0.inodes@.update(ip as int, i1)
            } else {
                let (c, done) = blocks_written(g.c, fs0.supers@, info, i0, pos, part, 0);
                &&& r == done
                &&& fs.blocks() == c
                &&& fs.inodes@ == fs0.inodes@.update(ip as int, after_write(i1, pos + done))
            }
        }
}

/// What is written does not depend on the parts of the tables that the map does
/// not read.
proof fn lemma_written_same(
    c: Blocks,
    supers: Seq<SuperBlock>,
    info: Seq<Ext4SbInfo>,
    i: Inode,
    supers1: Seq<SuperBlock>,
    i1: Inode,
    pos: int,
    data: Seq<u8>,
    done: int,
)
    requires
        0 <= pos,
        0 <= done,
        i1.i_sb == i.i_sb,
        i1.i_ino == i.i_ino,
        supers1[i.i_sb as int].s_dev == supers[i.i_sb as int].s_dev,
    ensures
        blocks_written(c, supers1, info, i1, pos, data, done) == blocks_written(
            c,
            supers,
            info,
            i,
            pos,
            data,
            done,
        ),
    decreases data.len() - done,
{
    let off = pos + done;
    lemma_mapped_same(c, supers, info, i, supers1, info, i1, low32(off / 1024) as int);
    let b = mapped(c, supers, info, i, low32(off / 1024) as int);
    let key = (supers[i.i_sb as int].s_dev, b);
    if !(done >= data.len() || b == 0 || !c.dom().contains(key)) {
        let n = if 1024 - off % 1024 < data.len() - done {
            1024 - off % 1024
        } else {
            data.len() - done
        };
        lemma_written_same(
            c.insert(key, overlay(c[key], off % 1024, data.subrange(done, done + n))),
            supers,
            info,
            i,
            supers1,
            i1,
            pos,
            data,
            done + n,
        );
    }
}

/// What writing to a file at `pos` does, with the answer `r`.
pub open spec fn file_write_did(fs0: &Fs, fs: &Fs, ip: usize, pos: u64, data: Seq<u8>, r: i64) -> bool {
    let i = fs0.inodes@[ip as int];
    if i.i_sb == NIL || !fs0.ext4@[i.i_sb as int].valid {
        r == -EIO && *fs == *fs0
    } else if i.rdonly_in(fs0) {
        r == -EROFS && *fs == *fs0
    } else {
        file_written(fs0, fs, ip, pos as int, data, r as int)
    }
}

/// Writes to a file at `pos`.
#[verifier::spinoff_prover]
#[verifier::rlimit(80)]
pub fn ext4_file_write(fs: &mut Fs, ip: usize, pos: u64, buf: &[u8]) -> (r: i64)
    requires
        old(fs).wf(),
        ip < 64,
        pos + buf@.len() + 1023 <= i64::MAX,
    ensures
        final(fs).wf(),
        file_write_did(old(fs), final(fs), ip, pos, buf@, r),
{
    let i: Inode = fs.inodes[ip];
    if i.i_sb == NIL {
        return -(EIO as i64);
    }
    if !fs.ext4[i.i_sb].valid {
        return -(EIO as i64);
    }
    if i.is_rdonly(fs) {
        return -(EROFS as i64);
    }
    let ghost n = i.i_sb as int;
    let end: u64 = pos + buf.len() as u64;
    let count: u64 = (end + 1023) / 1024;
    let last: u64 = if count == 0 {
        0
    } else {
        (count - 1) % 0x1_0000_0000
    };
    let first: u64 = i.i_size as u64 / 1024;
    let ghost g = growth(
        fs.blocks(),
        fs.supers@,
        fs.ext4@,
        i,
        i.data@,
        first as int,
        last as int,
    );
    let mut upto: usize = buf.len();
    if last >= first {
        let stop: u64 = grow(fs, ip, first, last);
        if stop <= last {
            let fit: u64 = if stop * 1024 > pos {
                stop * 1024 - pos
            } else {
                0
            };
            if fit == 0 || fit > buf.len() as u64 {
                assert(grown(i, fs.inodes@[ip as int], g.z, g.entered));
                return -(ENOSPC as i64);
            }
            upto = fit as usize;
        }
    } else {
        assert(g == (Growth {
            c: fs.blocks(),
            f: fs.ext4@[n],
            z: i.data@,
            took: false,
            entered: false,
            stop: first as int,
        }));
        assert(fs.ext4@ =~= fs.ext4@.update(n, g.f));
        assert(fs.inodes@ =~= old(fs).inodes@.update(ip as int, fs.inodes@[ip as int]));
    }
    let ghost i1 = fs.inodes@[ip as int];
    let ghost s1 = fs.supers@;
    assert(grown(i, i1, g.z, g.entered));
    let part: &[u8] = &buf[0..upto];
    assert(upto == buf@.len() ==> part@ =~= buf@);
    proof {
        lemma_written_same(
            g.c,
            old(fs).supers@,
            fs.ext4@,
            i,
            s1,
            i1,
            pos as int,
            part@,
            0,
        );
    }
    let r: i64 = write_to_blocks(fs, ip, pos, part);
    assert(fs.inodes@ =~= old(fs).inodes@.update(ip as int, after_write(i1, pos + r)));
    r
}

} // verus!
