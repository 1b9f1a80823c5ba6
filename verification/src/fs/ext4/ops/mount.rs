//! Mounting with all that is kept of the super block and the first group.

use super::full::{disk_numbers, fill_numbers, Ext4SbInfo};
use crate::bytes::{copy_range, get_le16, get_le32, le16, le32};
use crate::fs::ext4::bitmap::lemma_pow2_53;
use crate::fs::ext4::group_desc::{group_desc_of, Ext4GroupDesc};
use crate::fs::ext4::inode::Ext4Inode;
use crate::fs::ext4::inode_flags::EXT4_EXTENTS_FL;
use crate::fs::ext4::map::low32;
use crate::fs::ext4::super_block::Ext4SuperBlock;
use crate::fs::inode::{
    at_most_one_more, iget, iget_did, lemma_iget_nil, lemma_iget_ref, FsType, Inode, NIL,
};
use crate::fs::super_block::SuperBlock;
use crate::fs::{Blocks, Fs};
use vstd::arithmetic::power2::pow2;
use vstd::prelude::*;

verus! {

/// The bytes are those of a super block whose block size can be held.
pub open spec fn is_super(d: Seq<u8>) -> bool {
    d[56] == 0x53 && d[57] == 0xEF && d[24] <= 53 && fs_block_size(d) <= usize::MAX
}

/// The size of a block of the file system.
pub open spec fn fs_block_size(d: Seq<u8>) -> int {
    1024 * pow2(d[24] as nat) as int
}

/// The size of an inode on disk.
pub open spec fn inode_size(d: Seq<u8>) -> int {
    if le32(d, 76) >= 1 && le16(d, 88) != 0 {
        le16(d, 88) as int
    } else {
        128
    }
}

/// The buffer with the descriptor of the first group.
pub open spec fn desc_block(d: Seq<u8>) -> u32 {
    if d[24] == 0 {
        2
    } else {
        4
    }
}

/// A descriptor whose block numbers count buffers.
pub open spec fn scaled_desc(g: Ext4GroupDesc, scale: int) -> Ext4GroupDesc {
    Ext4GroupDesc {
        block_bitmap: (g.block_bitmap * scale % 0x1_0000_0000_0000_0000) as u64,
        inode_bitmap: (g.inode_bitmap * scale % 0x1_0000_0000_0000_0000) as u64,
        inode_table: (g.inode_table * scale % 0x1_0000_0000_0000_0000) as u64,
        free_blocks_count: low32(g.free_blocks_count * scale),
        ..g
    }
}

/// What is kept of the super block `d` and the descriptor `g`.
pub open spec fn info_of(d: Seq<u8>, g: Seq<u8>, f: Ext4SbInfo) -> bool {
    let scale = pow2(d[24] as nat) as int % 0x1_0000_0000;
    &&& f.ext4_sb.parsed_from(d)
    &&& f == (Ext4SbInfo {
        ext4_sb: f.ext4_sb,
        ext4_gd: scaled_desc(group_desc_of(g, le32(d, 96) & 0x80 != 0), scale),
        inode_size: inode_size(d) as u32,
        block_size: 1024,
        fs_block_size: fs_block_size(d) as usize,
        inodes_per_group: le32(d, 40),
        blocks_per_group: low32(le32(d, 32) * scale),
        valid: true,
    })
}

/// The slot `s0` as a mounted file system.
pub open spec fn ext4_slot(s0: SuperBlock) -> SuperBlock {
    SuperBlock {
        s_magic: 0xEF53,
        s_blocksize: 1024,
        s_blocksize_bits: 10,
        s_dirsize: 32,
        s_namelen: 255,
        ..s0
    }
}

/// The bytes of the root inode, inode 2, where they can be read.
pub open spec fn root_bytes(c: Blocks, dev: u16, f: Ext4SbInfo) -> Option<Seq<u8>> {
    let key = (dev, low32(f.ext4_gd.inode_table + f.inode_size as int / 1024));
    let o = f.inode_size as int % 1024;
    if !c.dom().contains(key) || o + f.inode_size > 1024 || f.inode_size < 128 {
        None
    } else {
        Some(c[key].subrange(o, o + f.inode_size))
    }
}

/// Inode `i` is the root directory that `i0` was taken for.
pub open spec fn is_root(d: Option<Seq<u8>>, f: Ext4SbInfo, n: usize, i0: Inode, i: Inode) -> bool {
    match d {
        None => i == (Inode { i_op: FsType::Ext2, i_sb: n, ..i0 }),
        Some(d) => {
            &&& i == (Inode {
                i_op: FsType::Ext2,
                i_sb: n,
                i_mode: le16(d, 0),
                i_uid: le16(d, 2),
                i_gid: le16(d, 24),
                i_nlink: le16(d, 26),
                i_size: le32(d, 4),
                i_atime: le32(d, 8),
                i_mtime: le32(d, 16),
                i_ctime: le32(d, 12),
                i_flags: if le32(d, 32) & EXT4_EXTENTS_FL != 0 && le16(d, 40) == 0xF30A {
                    i0.i_flags | 0x80000
                } else {
                    i0.i_flags
                },
                data: i.data,
                ..i0
            })
            &&& i.data@ == disk_numbers(d, i0.data@, f.scale32())
        },
    }
}

/// The size of a block of the file system.
fn block_bytes(log: u8) -> (r: u64)
    requires
        log <= 53,
    ensures
        r == 1024 * pow2(log as nat),
        r <= 0x8000_0000_0000_0000,
{
    proof {
        lemma_pow2_53(log as nat);
        vstd::bits::lemma_u64_shl_is_mul(1024u64, log as u64);
    }
    1024u64 << (log as u64)
}

/// A wrapping product.
fn times(a: u64, scale: u64) -> (r: u64)
    requires
        scale <= 0xFFFF_FFFF,
    ensures
        r == a * scale % 0x1_0000_0000_0000_0000,
{
    a.wrapping_mul(scale)
}

/// What is kept of a super block and a descriptor.
#[verifier::spinoff_prover]
#[verifier::rlimit(40)]
fn make_info(data: &Vec<u8>, desc: &Vec<u8>) -> (r: Option<Ext4SbInfo>)
    requires
        data@.len() == 1024,
        desc@.len() == 1024,
        is_super(data@),
    ensures
        r is Some,
        info_of(data@, desc@, r->0),
        r->0.sizes_ok(),
{
    let bs: usize = block_bytes(data[24]) as usize;
    let scale: u64 = (bs / 1024) as u64 % 0x1_0000_0000;
    proof {
        lemma_pow2_53(data@[24] as nat);
        assert(bs / 1024 == pow2(data@[24] as nat));
    }
    let rev: u32 = get_le32(data.as_slice(), 76);
    let sz: u32 = get_le16(data.as_slice(), 88) as u32;
    let isize: u32 = if rev >= 1 && sz != 0 {
        sz
    } else {
        128
    };
    let wide: bool = get_le32(data.as_slice(), 96) & 0x80 != 0;
    let len: usize = if wide {
        64
    } else {
        32
    };
    let mut gd: Ext4GroupDesc = match Ext4GroupDesc::from_bytes(desc.as_slice(), len) {
        None => {
            return None;
        },
        Some(g) => g,
    };
    let ghost g0 = gd;
    assert(g0 == group_desc_of(desc@, wide));
    gd.block_bitmap = times(gd.block_bitmap, scale);
    gd.inode_bitmap = times(gd.inode_bitmap, scale);
    gd.inode_table = times(gd.inode_table, scale);
    gd.free_blocks_count = gd.free_blocks_count.wrapping_mul(scale as u32);
    let bpg: u32 = get_le32(data.as_slice(), 32);
    let ext4_sb: Ext4SuperBlock = Ext4SuperBlock::from_slice(data.as_slice());
    assert(crate::bytes::padded(data@, 1024) =~= data@);
    Some(
        Ext4SbInfo {
            ext4_sb,
            ext4_gd: gd,
            inode_size: isize,
            block_size: 1024,
            fs_block_size: bs,
            inodes_per_group: get_le32(data.as_slice(), 40),
            blocks_per_group: bpg.wrapping_mul(scale as u32),
            valid: true,
        },
    )
}

/// The root directory `i0` was taken for, with what its bytes on disk say.
#[verifier::spinoff_prover]
#[verifier::rlimit(40)]
fn fill_root(i0: &Inode, n: usize, raw: &Vec<u8>, scale: u64) -> (i: Inode)
    requires
        raw@.len() >= 128,
        scale <= 0xFFFF_FFFF,
    ensures
        forall|f: Ext4SbInfo| f.scale32() == scale ==> #[trigger] is_root(Some(raw@), f, n, *i0, i),
{
    let mut i: Inode = *i0;
    i.i_op = FsType::Ext2;
    i.i_sb = n;
    match Ext4Inode::from_bytes(raw.as_slice()) {
        None => {},
        Some(ei) => {
            i.i_mode = ei.i_mode;
            i.i_uid = ei.i_uid;
            i.i_gid = ei.i_gid;
            i.i_nlink = ei.i_links_count;
            i.i_size = ei.i_size_lo;
            i.i_atime = ei.atime();
            i.i_mtime = ei.mtime();
            i.i_ctime = ei.ctime();
            let mut z: [u16; 9] = i.data;
            fill_numbers(&mut z, &ei, raw.as_slice(), scale);
            i.data = z;
            if ei.uses_extent() && get_le16(raw.as_slice(), 40) == 0xF30A {
                i.i_flags = i.i_flags | 0x80000;
            }
        },
    }
    i
}

/// The super block and the descriptor of the first group can be read.
pub open spec fn is_ext4(c: Blocks, dev: u16) -> bool {
    let d = c[(dev, 1u32)];
    &&& dev != 0
    &&& c.dom().contains((dev, 1u32))
    &&& is_super(d)
    &&& c.dom().contains((dev, desc_block(d)))
}

/// What mounting does, with the answer `r`: where the super block and the first
/// group can be read, they are kept, and the root directory is taken.
pub open spec fn full_did(fs0: &Fs, fs: &Fs, n: usize, r: bool) -> bool {
    let c0 = fs0.blocks();
    let s0 = fs0.supers@[n as int];
    let dev = s0.s_dev;
    let d = c0[(dev, 1u32)];
    let supers1 = fs0.supers@.update(n as int, ext4_slot(s0));
    if !is_ext4(c0, dev) {
        &&& !r
        &&& *fs == (Fs { cache: fs.cache, ..*fs0 })
        &&& fs.blocks() == c0
    } else {
        let f = fs.ext4@[n as int];
        &&& *fs == (Fs {
            cache: fs.cache,
            inodes: fs.inodes,
            supers: fs.supers,
            ext4: fs.ext4,
            ..*fs0
        })
        &&& info_of(d, c0[(dev, desc_block(d))], f)
        &&& fs.ext4@ == fs0.ext4@.update(n as int, f)
        &&& exists|i1: Seq<Inode>, ip: usize|
            {
                &&& #[trigger] iget_did(
                    c0,
                    fs0.inodes@,
                    fs.blocks(),
                    i1,
                    supers1,
                    n,
                    2,
                    true,
                    ip,
                )
                &&& r == (ip != NIL)
                &&& if ip == NIL {
                    fs.supers@ == supers1 && fs.inodes@ == i1
                } else {
                    &&& fs.supers@ == fs0.supers@.update(
                        n as int,
                        SuperBlock { s_mounted: ip, s_covered: NIL, ..ext4_slot(s0) },
                    )
                    &&& fs.inodes@ == i1.update(ip as int, fs.inodes@[ip as int])
                    &&& is_root(
                        root_bytes(fs.blocks(), dev, f),
                        f,
                        n,
                        i1[ip as int],
                        fs.inodes@[ip as int],
                    )
                }
            }
    }
}

/// Reads the root inode's bytes.
fn read_root(fs: &mut Fs, dev: u16, f: &Ext4SbInfo) -> (r: Option<Vec<u8>>)
    requires
        old(fs).wf(),
        f.sizes_ok(),
    ensures
        final(fs).wf(),
        *final(fs) == (Fs { cache: final(fs).cache, ..*old(fs) }),
        final(fs).blocks() == old(fs).blocks(),
        match root_bytes(old(fs).blocks(), dev, *f) {
            None => r is None,
            Some(d) => r is Some && r->0@ == d && d.len() >= 128,
        },
{
    let size: usize = f.inode_size as usize;
    let table: u64 = f.ext4_gd.inode_table;
    let k: u64 = (size / 1024) as u64;
    let b: u32 = ((table % 0x1_0000_0000 + k) % 0x1_0000_0000) as u32;
    proof {
        vstd::arithmetic::div_mod::lemma_add_mod_noop(table as int, k as int, 0x1_0000_0000);
        vstd::arithmetic::div_mod::lemma_add_mod_noop(
            table as int % 0x1_0000_0000,
            k as int,
            0x1_0000_0000,
        );
        vstd::arithmetic::div_mod::lemma_mod_twice(table as int, 0x1_0000_0000);
    }
    let off: usize = size % 1024;
    match fs.cache.read_block(dev, b) {
        None => None,
        Some(data) => {
            if off + size > 1024 || size < 128 {
                return None;
            }
            Some(copy_range(data.as_slice(), off, off + size))
        },
    }
}

/// Reads the super block and the first group of the device of slot `n`, and takes
/// the root directory.
#[verifier::spinoff_prover]
#[verifier::rlimit(60)]
pub fn read_super_full(fs: &mut Fs, n: usize) -> (r: bool)
    requires
        old(fs).wf(),
        n < 4,
        forall|k: int| 0 <= k < 64 ==> (#[trigger] old(fs).inodes@[k]).i_count < u16::MAX,
    ensures
        final(fs).wf(),
        full_did(old(fs), final(fs), n, r),
        !r ==> final(fs).inodes@ == old(fs).inodes@ && final(fs).blocks() == old(fs).blocks(),
        at_most_one_more(old(fs).inodes@, final(fs).inodes@),
        r ==> final(fs).supers@[n as int].s_magic == 0xEF53,
{
    let dev: u16 = fs.supers[n].s_dev;
    if dev == 0 {
        return false;
    }
    let data: Vec<u8> = match fs.cache.read_block(dev, 1) {
        None => {
            return false;
        },
        Some(d) => d,
    };
    if data[56] != 0x53 || data[57] != 0xEF {
        return false;
    }
    let log: u8 = data[24];
    if log > 53 || block_bytes(log) > usize::MAX as u64 {
        return false;
    }
    let desc_blk: u32 = if log == 0 {
        2
    } else {
        4
    };
    let desc: Vec<u8> = match fs.cache.read_block(dev, desc_blk) {
        None => {
            return false;
        },
        Some(d) => d,
    };
    let info: Ext4SbInfo = match make_info(&data, &desc) {
        None => {
            return false;
        },
        Some(f) => f,
    };
    let ghost s0 = fs.supers@[n as int];
    let ghost i0 = fs.inodes@;
    fs.ext4[n] = info;
    fs.supers[n].s_magic = 0xEF53;
    fs.supers[n].s_blocksize = 1024;
    fs.supers[n].s_blocksize_bits = 10;
    fs.supers[n].s_dirsize = 32;
    fs.supers[n].s_namelen = 255;
    let ghost supers1 = fs.supers@;
    proof {
        assert(fs.supers@ =~= old(fs).supers@.update(n as int, ext4_slot(s0)));
        assert(fs.ext4@ =~= old(fs).ext4@.update(n as int, info));
    }
    let ip: usize = iget(fs, n, 2);
    let ghost i1 = fs.inodes@;
    assert(iget_did(
        old(fs).blocks(),
        i0,
        fs.blocks(),
        i1,
        supers1,
        n,
        2,
        true,
        ip,
    ));
    if ip == NIL {
        proof {
            lemma_iget_nil(old(fs).blocks(), i0, fs.blocks(), i1, supers1, n, 2, true);
        }
        return false;
    }
    proof {
        lemma_iget_ref(old(fs).blocks(), i0, fs.blocks(), i1, supers1, n, 2, true, ip);
    }
    let raw: Option<Vec<u8>> = read_root(fs, dev, &info);
    let x: Inode = fs.inodes[ip];
    let scale: u64 = (info.fs_block_size / 1024) as u64 % 0x1_0000_0000;
    let i: Inode = match &raw {
        None => {
            let mut y: Inode = x;
            y.i_op = FsType::Ext2;
            y.i_sb = n;
            y
        },
        Some(d) => fill_root(&x, n, d, scale),
    };
    assert(is_root(
        match raw {
            None => None,
            Some(d) => Some(d@),
        },
        info,
        n,
        x,
        i,
    ));
    fs.inodes[ip] = i;
    fs.supers[n].s_mounted = ip;
    fs.supers[n].s_covered = NIL;
    proof {
        assert(fs.inodes@ =~= i1.update(ip as int, fs.inodes@[ip as int]));
        assert(fs.supers@ =~= old(fs).supers@.update(
            n as int,
            SuperBlock { s_mounted: ip, s_covered: NIL, ..ext4_slot(s0) },
        ));
    }
    true
}

} // verus!
