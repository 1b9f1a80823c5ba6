//! Finding out whether a device has such a file system, and mounting it.

pub mod full;
pub mod mount;
pub mod reread;

use crate::bytes::{get_le16, get_le32, le16, le32};
use crate::fs::inode::{
    at_most_one_more, iget, iget_did, lemma_iget_nil, lemma_iget_ref, FsType, Inode, NIL,
};
use crate::fs::super_block::SuperBlock;
use crate::fs::{Blocks, Fs};
use mount::{full_did, read_super_full};
use vstd::arithmetic::power2::pow2;
use vstd::prelude::*;

verus! {

/// The bytes are those of a super block whose block size is a shift of a 64-bit
/// number.
pub open spec fn is_light_super(d: Seq<u8>) -> bool {
    d[56] == 0x53 && d[57] == 0xEF && d[24] <= 63
}

/// The slot `s0` with the sizes of the super block `d`. Of the block size the low 32
/// bits are kept.
pub open spec fn light_slot(s0: SuperBlock, d: Seq<u8>) -> SuperBlock {
    SuperBlock {
        s_magic: 0xEF53,
        s_blocksize: if d[24] <= 21 {
            (1024 * pow2(d[24] as nat)) as u32
        } else {
            0
        },
        s_blocksize_bits: (d[24] + 10) as u8,
        s_dirsize: 32,
        s_namelen: 30,
        ..s0
    }
}

/// The first block number of the root directory, as the block of the inode table
/// that it is in on a small file system says.
pub open spec fn root_number(c: Blocks, dev: u16) -> u16 {
    let d = c[(dev, 5u32)];
    if c.dom().contains((dev, 5u32)) && le16(d, 296) == 0xF30A && d[298] > 0 {
        (le32(d, 316) % 65536) as u16
    } else {
        0
    }
}

/// The block numbers of a file of one block.
pub open spec fn one_number(number: u16) -> Seq<u16> {
    Seq::new(9, |k: int| if k == 0 { number } else { 0u16 })
}

/// Inode `i` is a plain root directory that `i0` was taken for.
pub open spec fn is_light_root(i0: Inode, i: Inode, n: usize, number: u16) -> bool {
    &&& i == (Inode {
        i_mode: 0o40755,
        i_nlink: 2,
        i_size: 1024,
        i_op: FsType::Ext2,
        i_sb: n,
        i_flags: 0,
        data: i.data,
        ..i0
    })
    &&& i.data@ == one_number(number)
}

/// What mounting by the super block alone does, with the answer `r`.
pub open spec fn light_did(fs0: &Fs, fs: &Fs, n: usize, r: bool) -> bool {
    let c0 = fs0.blocks();
    let s0 = fs0.supers@[n as int];
    let dev = s0.s_dev;
    let d = c0[(dev, 1u32)];
    let supers1 = fs0.supers@.update(n as int, light_slot(s0, d));
    if dev == 0 || !c0.dom().contains((dev, 1u32)) || !is_light_super(d) {
        &&& !r
        &&& *fs == (Fs { cache: fs.cache, ..*fs0 })
        &&& fs.blocks() == c0
    } else {
        &&& *fs == (Fs { cache: fs.cache, inodes: fs.inodes, supers: fs.supers, ..*fs0 })
        &&& exists|i1: Seq<Inode>, ip: usize|
            {
                &&& #[trigger] iget_did(
                    c0,
                    fs0.inodes@,
                    fs.blocks(),
                    i1,
                    supers1,
                    n,
                    2,
                    true,
                    ip,
                )
                &&& r == (ip != NIL)
                &&& if ip == NIL {
                    fs.supers@ == supers1 && fs.inodes@ == i1
                } else {
                    &&& fs.supers@ == fs0.supers@.update(
                        n as int,
                        SuperBlock { s_mounted: ip, s_covered: NIL, ..light_slot(s0, d) },
                    )
                    &&& fs.inodes@ == i1.update(ip as int, fs.inodes@[ip as int])
                    &&& is_light_root(
                        i1[ip as int],
                        fs.inodes@[ip as int],
                        n,
                        root_number(fs.blocks(), dev),
                    )
                }
            }
    }
}

/// Mounts the device of slot `n` by its super block alone.
#[verifier::spinoff_prover]
#[verifier::rlimit(60)]
pub fn read_super_light(fs: &mut Fs, n: usize) -> (r: bool)
    requires
        old(fs).wf(),
        n < 4,
        forall|k: int| 0 <= k < 64 ==> (#[trigger] old(fs).inodes@[k]).i_count < u16::MAX,
    ensures
        final(fs).wf(),
        light_did(old(fs), final(fs), n, r),
        !r ==> final(fs).inodes@ == old(fs).inodes@ && final(fs).blocks() == old(fs).blocks(),
        at_most_one_more(old(fs).inodes@, final(fs).inodes@),
        r ==> final(fs).supers@[n as int].s_magic == 0xEF53,
{
    let dev: u16 = fs.supers[n].s_dev;
    if dev == 0 {
        return false;
    }
    let data: Vec<u8> = match fs.cache.read_block(dev, 1) {
        None => {
            return false;
        },
        Some(d) => d,
    };
    if data[56] != 0x53 || data[57] != 0xEF {
        return false;
    }
    let log: u8 = data[24];
    if log > 63 {
        return false;
    }
    let size: u32 = if log <= 21 {
        proof {
            vstd::arithmetic::power2::lemma2_to64();
            if log < 21 {
                vstd::arithmetic::power2::lemma_pow2_strictly_increases(log as nat, 21);
            }
            vstd::bits::lemma_u32_shl_is_mul(1024u32, log as u32);
        }
        1024u32 << (log as u32)
    } else {
        0
    };
    let ghost s0 = fs.supers@[n as int];
    let ghost i0 = fs.inodes@;
    fs.supers[n].s_magic = 0xEF53;
    fs.supers[n].s_blocksize = size;
    fs.supers[n].s_blocksize_bits = log + 10;
    fs.supers[n].s_dirsize = 32;
    fs.supers[n].s_namelen = 30;
    let ghost supers1 = fs.supers@;
    assert(supers1 =~= old(fs).supers@.update(n as int, light_slot(s0, data@)));
    let ip: usize = iget(fs, n, 2);
    let ghost i1 = fs.inodes@;
    assert(iget_did(
        old(fs).blocks(),
        i0,
        fs.blocks(),
        i1,
        supers1,
        n,
        2,
        true,
        ip,
    ));
    if ip == NIL {
        proof {
            lemma_iget_nil(old(fs).blocks(), i0, fs.blocks(), i1, supers1, n, 2, true);
        }
        return false;
    }
    proof {
        lemma_iget_ref(old(fs).blocks(), i0, fs.blocks(), i1, supers1, n, 2, true, ip);
    }
    let mut number: u16 = 0;
    match fs.cache.read_block(dev, 5) {
        None => {},
        Some(d) => {
            if get_le16(d.as_slice(), 296) == 0xF30A && d[298] > 0 {
                number = (get_le32(d.as_slice(), 316) % 65536) as u16;
            }
        },
    }
    assert(number == root_number(fs.blocks(), dev));
    let mut i: Inode = fs.inodes[ip];
    i.i_mode = 0o40755;
    i.i_nlink = 2;
    i.i_size = 1024;
    i.i_op = FsType::Ext2;
    i.i_sb = n;
    i.i_flags = 0;
    i.data = [0u16;9];
    i.data[0] = number;
    assert(i.data@ =~= one_number(number));
    fs.inodes[ip] = i;
    fs.supers[n].s_mounted = ip;
    fs.supers[n].s_covered = NIL;
    proof {
        assert(fs.inodes@ =~= i1.update(ip as int, fs.inodes@[ip as int]));
        assert(fs.supers@ =~= old(fs).supers@.update(
            n as int,
            SuperBlock { s_mounted: ip, s_covered: NIL, ..light_slot(s0, data@) },
        ));
        assert(is_light_root(i1[ip as int], fs.inodes@[ip as int], n, number));
        let c0 = old(fs).blocks();
        let d0 = c0[(dev, 1u32)];
        assert(d0 == data@);
        assert(iget_did(
            c0,
            old(fs).inodes@,
            fs.blocks(),
            i1,
            old(fs).supers@.update(n as int, light_slot(s0, d0)),
            n,
            2,
            true,
            ip,
        ));
    }
    true
}

/// What mounting does, with the answer `r`: in full, else by the super block
/// alone.
pub open spec fn mount_did(fs0: &Fs, fs: &Fs, n: usize, r: bool) -> bool {
    ||| r && full_did(fs0, fs, n, true)
    ||| exists|fs1: Fs| #[trigger] full_did(fs0, &fs1, n, false) && light_did(&fs1, fs, n, r)
}

/// Mounts the device of slot `n`.
pub fn read_super(fs: &mut Fs, n: usize) -> (r: bool)
    requires
        old(fs).wf(),
        n < 4,
        forall|k: int| 0 <= k < 64 ==> (#[trigger] old(fs).inodes@[k]).i_count < u16::MAX,
    ensures
        final(fs).wf(),
        mount_did(old(fs), final(fs), n, r),
        !r ==> final(fs).inodes@ == old(fs).inodes@ && final(fs).blocks() == old(fs).blocks(),
        at_most_one_more(old(fs).inodes@, final(fs).inodes@),
        r ==> final(fs).supers@[n as int].s_magic == 0xEF53,
{
    if read_super_full(fs, n) {
        return true;
    }
    let ghost fs1 = *fs;
    assert(full_did(old(fs), &fs1, n, false));
    read_super_light(fs, n)
}

} // verus!
