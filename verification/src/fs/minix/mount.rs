//! Mounting and unmounting.

use super::inode_ops::{parse_super, super_of};
use super::{MinixSuperBlock, MINIX_VALID_FS};
use crate::bits::{bitmap_on, bitmap_turn_on, lemma_bitmap_on};
use crate::bytes::{get_le16, le16, le32, lemma_with_le16, put_le16, with_le16};
use crate::fs::inode::{iget, iget_did, Inode, NIL};
use crate::fs::super_block::SuperBlock;
use crate::fs::{Blocks, Fs, MS_RDONLY};
use vstd::prelude::*;

verus! {

/// What reading a super block comes to.
#[derive(Debug, Clone, Copy, PartialEq, Eq, Structural)]
pub enum SuperStatus {
    /// The device has no such block.
    Unreadable,
    /// It is no minix file system.
    BadMagic,
    /// More bitmap blocks than there are slots for.
    MapsTooLarge,
    /// A bitmap without a block, or a bitmap block that the device does not have.
    BadMaps,
    Good,
}

/// The device has `count` blocks from `first` on.
pub open spec fn has_blocks(c: Blocks, dev: u16, first: int, count: int) -> bool {
    forall|i: int| first <= i < first + count ==> #[trigger] c.dom().contains((dev, i as u32))
}

pub open spec fn known_magic(m: u16) -> bool {
    m == 0x137F || m == 0x138F
}

/// What reading the super block of the device comes to.
pub open spec fn super_status(c: Blocks, dev: u16) -> SuperStatus {
    if !c.dom().contains((dev, 1u32)) {
        SuperStatus::Unreadable
    } else {
        let m = super_of(c[(dev, 1u32)]);
        if !known_magic(m.s_magic) {
            SuperStatus::BadMagic
        } else if m.s_imap_blocks > 8 || m.s_zmap_blocks > 8 {
            SuperStatus::MapsTooLarge
        } else if m.s_imap_blocks == 0 || m.s_zmap_blocks == 0 || !has_blocks(
            c,
            dev,
            2,
            m.s_imap_blocks + m.s_zmap_blocks,
        ) {
            SuperStatus::BadMaps
        } else {
            SuperStatus::Good
        }
    }
}

/// Slot `s0` with the fields of the super block `m` in it. The magic number
/// decides how long names are.
pub open spec fn filled(s0: SuperBlock, m: MinixSuperBlock) -> SuperBlock {
    SuperBlock {
        s_lock: false,
        s_sbh: 1,
        s_mount_state: m.s_state,
        s_blocksize: 1024,
        s_blocksize_bits: 10,
        s_ninodes: m.s_ninodes,
        s_nzones: m.s_nzones,
        s_imap_blocks: m.s_imap_blocks,
        s_zmap_blocks: m.s_zmap_blocks,
        s_firstdatazone: m.s_firstdatazone,
        s_log_zone_size: m.s_log_zone_size,
        s_max_size: m.s_max_size,
        s_magic: m.s_magic as u32,
        s_dirsize: if m.s_magic == 0x137F {
            16
        } else if m.s_magic == 0x138F {
            32
        } else {
            s0.s_dirsize
        },
        s_namelen: if m.s_magic == 0x137F {
            14
        } else if m.s_magic == 0x138F {
            30
        } else {
            s0.s_namelen
        },
        ..s0
    }
}

/// The slots of a bitmap: `count` blocks from `first` on; the rest as in `old_slots`.
pub open spec fn map_slots(old_slots: Seq<usize>, first: int, count: int) -> Seq<usize> {
    Seq::new(8, |i: int| if i < count { (first + i) as usize } else { old_slots[i] })
}

/// Slot `s` is `s0` with a super block that could be read in it.
pub open spec fn accepted(s0: SuperBlock, s: SuperBlock, m: MinixSuperBlock) -> bool {
    &&& s == (SuperBlock { s_imap: s.s_imap, s_zmap: s.s_zmap, ..filled(s0, m) })
    &&& s.s_imap@ == map_slots(s0.s_imap@, 2, m.s_imap_blocks as int)
    &&& s.s_zmap@ == map_slots(s0.s_zmap@, 2 + m.s_imap_blocks, m.s_zmap_blocks as int)
}

/// The blocks with bit 0 of both bitmaps set: there is neither an inode 0 nor a
/// block before the data area.
pub open spec fn guarded(c: Blocks, dev: u16, m: MinixSuperBlock) -> Blocks {
    let ki = (dev, 2u32);
    let kz = (dev, (2 + m.s_imap_blocks) as u32);
    let c1 = c.insert(ki, bitmap_on(c[ki], 0));
    c1.insert(kz, bitmap_on(c1[kz], 0))
}

/// The blocks with the mark of a clean file system taken away.
pub open spec fn marked_in_use(c: Blocks, dev: u16) -> Blocks {
    let k = (dev, 1u32);
    c.insert(k, with_le16(c[k], 18, le16(c[k], 18) & 0xFFFE))
}

/// What mounting a good file system in slot `s1`, whose fields are filled in,
/// does: the root directory is taken. Where that works and the file system can be
/// written to, it is marked as in use; else the slot is free again.
pub open spec fn root_taken(
    c1: Blocks,
    i0: Seq<Inode>,
    c2: Blocks,
    c: Blocks,
    i: Seq<Inode>,
    supers1: Seq<SuperBlock>,
    n: usize,
    s: SuperBlock,
    root: usize,
) -> bool {
    let s1 = supers1[n as int];
    &&& iget_did(c1, i0, c2, i, supers1, n, 1, true, root)
    &&& if root == NIL {
        &&& c == c2
        &&& s == (SuperBlock { s_dev: 0, ..s1 })
    } else if s1.s_flags & 1 == 0 {
        &&& c == marked_in_use(c2, s1.s_dev)
        &&& s == (SuperBlock { s_mounted: root, s_dirt: true, ..s1 })
    } else {
        &&& c == c2
        &&& s == (SuperBlock { s_mounted: root, ..s1 })
    }
}

/// Whether all blocks of the bitmaps can be read.
fn check_blocks(fs: &mut Fs, dev: u16, first: u32, count: u32) -> (r: bool)
    requires
        old(fs).wf(),
        first + count <= 100,
    ensures
        final(fs).wf(),
        final(fs).blocks() == old(fs).blocks(),
        *final(fs) == (Fs { cache: final(fs).cache, ..*old(fs) }),
        r == has_blocks(old(fs).blocks(), dev, first as int, count as int),
{
    let mut i: u32 = first;
    while i < first + count
        invariant
            fs.wf(),
            fs.blocks() == old(fs).blocks(),
            *fs == (Fs { cache: fs.cache, ..*old(fs) }),
            first <= i <= first + count <= 100,
            forall|j: int|
                first <= j < i ==> #[trigger] old(fs).blocks().dom().contains((dev, j as u32)),
        decreases first + count - i,
    {
        if fs.cache.read_block(dev, i).is_none() {
            proof {
                let c = old(fs).blocks();
                let j = i as int;
                assert(!c.dom().contains((dev, j as u32)));
            }
            return false;
        }
        i = i + 1;
    }
    true
}

/// Sets bit 0 of a bitmap block.
fn guard_block(fs: &mut Fs, dev: u16, block: u32)
    requires
        old(fs).wf(),
        old(fs).blocks().dom().contains((dev, block)),
    ensures
        final(fs).wf(),
        *final(fs) == (Fs { cache: final(fs).cache, ..*old(fs) }),
        final(fs).blocks() == old(fs).blocks().insert(
            (dev, block),
            bitmap_on(old(fs).blocks()[(dev, block)], 0),
        ),
{
    match fs.cache.read_block(dev, block) {
        None => {},
        Some(mut data) => {
            proof {
                lemma_bitmap_on(data@, 0);
            }
            bitmap_turn_on(&mut data, 0);
            let ok: bool = fs.cache.write_block(dev, block, data.as_slice());
        },
    }
}

/// The state `fs` is that of `fs0` after the file system on the device of slot `n`
/// was to be mounted, with the answer `r`.
pub open spec fn mount_did(fs0: &Fs, fs: &Fs, n: usize, r: bool) -> bool {
    &&& *fs == (Fs { cache: fs.cache, inodes: fs.inodes, supers: fs.supers, ..*fs0 })
    &&& fs.supers@ == fs0.supers@.update(n as int, fs.supers@[n as int])
    &&& {
        let c = fs0.blocks();
        let s0 = fs0.supers@[n as int];
        let s = fs.supers@[n as int];
        let m = super_of(c[(s0.s_dev, 1u32)]);
        match super_status(c, s0.s_dev) {
            SuperStatus::Unreadable => {
                &&& !r
                &&& s == (SuperBlock { s_lock: false, ..s0 })
                &&& fs.blocks() == c && fs.inodes@ == fs0.inodes@
            },
            SuperStatus::BadMagic | SuperStatus::MapsTooLarge => {
                &&& !r
                &&& s == (SuperBlock { s_dev: 0, ..filled(s0, m) })
                &&& fs.blocks() == c && fs.inodes@ == fs0.inodes@
            },
            SuperStatus::BadMaps => {
                &&& !r
                &&& s == (SuperBlock {
                    s_dev: 0,
                    s_imap: s.s_imap,
                    s_zmap: s.s_zmap,
                    ..filled(s0, m)
                })
                &&& s.s_imap@ == Seq::new(8, |i: int| NIL) && s.s_zmap@ == Seq::new(
                    8,
                    |i: int| NIL,
                )
                &&& fs.blocks() == c && fs.inodes@ == fs0.inodes@
            },
            SuperStatus::Good => exists|s1: SuperBlock, c2: Blocks, root: usize|
                {
                    &&& accepted(s0, s1, m)
                    &&& #[trigger] root_taken(
                        guarded(c, s0.s_dev, m),
                        fs0.inodes@,
                        c2,
                        fs.blocks(),
                        fs.inodes@,
                        fs0.supers@.update(n as int, s1),
                        n,
                        s,
                        root,
                    )
                    &&& r == (root != NIL)
                },
        }
    }
}

/// Reads the super block of the device of slot `n` and takes its root directory.
/// A file system that is not accepted gives the slot back, but for one whose
/// super block cannot be read: there the caller does.
#[verifier::spinoff_prover]
#[verifier::rlimit(40)]
pub fn read_super(fs: &mut Fs, n: usize) -> (r: bool)
    requires
        old(fs).wf(),
        n < 4,
        forall|k: int| 0 <= k < 64 ==> (#[trigger] old(fs).inodes@[k]).i_count < u16::MAX,
    ensures
        final(fs).wf(),
        mount_did(old(fs), final(fs), n, r),
        !r ==> final(fs).inodes@ == old(fs).inodes@,
        crate::fs::inode::at_most_one_more(old(fs).inodes@, final(fs).inodes@),
        r ==> super::dir::sizes_ok(final(fs).supers@[n as int]),
{
    let ghost c0 = fs.blocks();
    let ghost s0 = fs.supers@[n as int];
    let mut s: SuperBlock = fs.supers[n];
    s.s_lock = false;
    let dev: u16 = s.s_dev;
    let m: MinixSuperBlock = match fs.cache.read_block(dev, 1) {
        None => {
            fs.supers[n] = s;
            assert(fs.supers@ =~= old(fs).supers@.update(n as int, fs.supers@[n as int]));
            return false;
        },
        Some(data) => parse_super(data.as_slice()),
    };
    s.s_sbh = 1;
    s.s_mount_state = m.s_state;
    s.s_blocksize = 1024;
    s.s_blocksize_bits = 10;
    s.s_ninodes = m.s_ninodes;
    s.s_nzones = m.s_nzones;
    s.s_imap_blocks = m.s_imap_blocks;
    s.s_zmap_blocks = m.s_zmap_blocks;
    s.s_firstdatazone = m.s_firstdatazone;
    s.s_log_zone_size = m.s_log_zone_size;
    s.s_max_size = m.s_max_size;
    s.s_magic = m.s_magic as u32;
    if m.s_magic == 0x137F {
        s.s_dirsize = 16;
        s.s_namelen = 14;
    } else if m.s_magic == 0x138F {
        s.s_dirsize = 32;
        s.s_namelen = 30;
    } else {
        s.s_dev = 0;
        fs.supers[n] = s;
        assert(fs.supers@ =~= old(fs).supers@.update(n as int, fs.supers@[n as int]));
        return false;
    }
    if m.s_imap_blocks > 8 || m.s_zmap_blocks > 8 {
        s.s_dev = 0;
        fs.supers[n] = s;
        assert(fs.supers@ =~= old(fs).supers@.update(n as int, fs.supers@[n as int]));
        return false;
    }
    let nimap: u32 = m.s_imap_blocks as u32;
    let nzmap: u32 = m.s_zmap_blocks as u32;
    if nimap == 0 || nzmap == 0 || !check_blocks(fs, dev, 2, nimap + nzmap) {
        s.s_dev = 0;
        s.s_imap = [NIL;8];
        s.s_zmap = [NIL;8];
        assert(s.s_imap@ =~= Seq::new(8, |i: int| NIL));
        assert(s.s_zmap@ =~= Seq::new(8, |i: int| NIL));
        fs.supers[n] = s;
        assert(fs.supers@ =~= old(fs).supers@.update(n as int, fs.supers@[n as int]));
        return false;
    }
    let mut i: usize = 0;
    while i < 8
        invariant
            i <= 8,
            nimap <= 8,
            nzmap <= 8,
            nimap == m.s_imap_blocks,
            nzmap == m.s_zmap_blocks,
            s == (SuperBlock { s_imap: s.s_imap, s_zmap: s.s_zmap, ..filled(s0, m) }),
            forall|k: int|
                0 <= k < 8 ==> #[trigger] s.s_imap@[k] == (if k < i && k < nimap {
                    (2 + k) as usize
                } else {
                    s0.s_imap@[k]
                }),
            forall|k: int|
                0 <= k < 8 ==> #[trigger] s.s_zmap@[k] == (if k < i && k < nzmap {
                    (2 + nimap + k) as usize
                } else {
                    s0.s_zmap@[k]
                }),
        decreases 8 - i,
    {
        if i < nimap as usize {
            s.s_imap[i] = 2 + i;
        }
        if i < nzmap as usize {
            s.s_zmap[i] = 2 + nimap as usize + i;
        }
        i = i + 1;
    }
    proof {
        assert(s.s_imap@ =~= map_slots(s0.s_imap@, 2, m.s_imap_blocks as int));
        assert(s.s_zmap@ =~= map_slots(s0.s_zmap@, 2 + m.s_imap_blocks, m.s_zmap_blocks as int));
        assert(accepted(s0, s, m));
        let two = 2int;
        let kz = 2 + nimap;
        assert(c0.dom().contains((dev, two as u32)));
        assert(c0.dom().contains((dev, kz as u32)));
    }
    fs.supers[n] = s;
    let ghost s1 = s;
    let ghost supers1 = fs.supers@;
    assert(supers1 =~= old(fs).supers@.update(n as int, s1));
    guard_block(fs, dev, 2);
    guard_block(fs, dev, 2 + nimap);
    let ghost c1 = fs.blocks();
    assert(c1 == guarded(c0, dev, m));
    let root: usize = iget(fs, n, 1);
    let ghost c2 = fs.blocks();
    proof {
        crate::fs::inode::lemma_iget_dom(
            c1,
            old(fs).inodes@,
            c2,
            fs.inodes@,
            supers1,
            n,
            1,
            true,
            root,
        );
    }
    if root == NIL {
        fs.supers[n].s_dev = 0;
        proof {
            crate::fs::inode::lemma_iget_nil(
                c1,
                old(fs).inodes@,
                fs.blocks(),
                fs.inodes@,
                supers1,
                n,
                1,
                true,
            );
            assert(fs.supers@ =~= old(fs).supers@.update(n as int, fs.supers@[n as int]));
            assert(root_taken(
                c1,
                old(fs).inodes@,
                c2,
                fs.blocks(),
                fs.inodes@,
                supers1,
                n,
                fs.supers@[n as int],
                root,
            ));
        }
        return false;
    }
    proof {
        crate::fs::inode::lemma_iget_ref(
            c1,
            old(fs).inodes@,
            fs.blocks(),
            fs.inodes@,
            supers1,
            n,
            1,
            true,
            root,
        );
    }
    fs.supers[n].s_mounted = root;
    if s.s_flags & MS_RDONLY == 0 {
        match fs.cache.read_block(dev, 1) {
            None => {},
            Some(mut data) => {
                let st: u16 = get_le16(data.as_slice(), 18) & 0xFFFE;
                put_le16(&mut data, 18, st);
                let ok: bool = fs.cache.write_block(dev, 1, data.as_slice());
            },
        }
        fs.supers[n].s_dirt = true;
    }
    proof {
        assert(fs.supers@ =~= old(fs).supers@.update(n as int, fs.supers@[n as int]));
        assert(root_taken(
            c1,
            old(fs).inodes@,
            c2,
            fs.blocks(),
            fs.inodes@,
            supers1,
            n,
            fs.supers@[n as int],
            root,
        ));
    }
    true
}

/// The blocks with the mark of a clean file system set in the super block of slot
/// `s`.
pub open spec fn marked_clean(c: Blocks, s: SuperBlock) -> Blocks {
    let k = (s.s_dev, s.s_sbh as u32);
    if s.s_flags & 1 != 0 || s.s_sbh == NIL || !c.dom().contains(k) {
        c
    } else {
        c.insert(k, with_le16(c[k], 18, le16(c[k], 18) | 1))
    }
}

/// Marks a file system that can be written to as clean.
pub fn write_super(fs: &mut Fs, n: usize)
    requires
        old(fs).wf(),
        n < 4,
    ensures
        final(fs).wf(),
        *final(fs) == (Fs { cache: final(fs).cache, supers: final(fs).supers, ..*old(fs) }),
        final(fs).blocks() == marked_clean(old(fs).blocks(), old(fs).supers@[n as int]),
        final(fs).supers@ == old(fs).supers@.update(
            n as int,
            SuperBlock { s_dirt: false, ..old(fs).supers@[n as int] },
        ),
{
    let s: SuperBlock = fs.supers[n];
    if s.s_flags & MS_RDONLY == 0 && s.s_sbh != NIL {
        match fs.cache.read_block(s.s_dev, s.s_sbh as u32) {
            None => {},
            Some(mut data) => {
                let st: u16 = get_le16(data.as_slice(), 18) | MINIX_VALID_FS;
                put_le16(&mut data, 18, st);
                let ok: bool = fs.cache.write_block(s.s_dev, s.s_sbh as u32, data.as_slice());
            },
        }
    }
    fs.supers[n].s_dirt = false;
    assert(fs.supers@ =~= old(fs).supers@.update(n as int, SuperBlock { s_dirt: false, ..s }));
}

/// The blocks with the state that the file system of slot `s` had when it was
/// mounted.
pub open spec fn state_restored(c: Blocks, s: SuperBlock) -> Blocks {
    let k = (s.s_dev, s.s_sbh as u32);
    if s.s_flags & 1 != 0 || s.s_sbh == NIL || !c.dom().contains(k) {
        c
    } else {
        c.insert(k, with_le16(c[k], 18, s.s_mount_state))
    }
}

/// Slot `s` is `s0` after its file system was given up.
pub open spec fn given_up(s0: SuperBlock, s: SuperBlock) -> bool {
    &&& s == (SuperBlock { s_imap: s.s_imap, s_zmap: s.s_zmap, s_sbh: NIL, s_dev: 0, ..s0 })
    &&& s.s_imap@ == Seq::new(8, |i: int| NIL)
    &&& s.s_zmap@ == Seq::new(8, |i: int| NIL)
}

/// Gives a file system up: it gets back the state that it was mounted with.
pub fn put_super(fs: &mut Fs, n: usize)
    requires
        old(fs).wf(),
        n < 4,
    ensures
        final(fs).wf(),
        *final(fs) == (Fs { cache: final(fs).cache, supers: final(fs).supers, ..*old(fs) }),
        final(fs).blocks() == state_restored(old(fs).blocks(), old(fs).supers@[n as int]),
        final(fs).supers@ == old(fs).supers@.update(n as int, final(fs).supers@[n as int]),
        given_up(old(fs).supers@[n as int], final(fs).supers@[n as int]),
{
    let mut s: SuperBlock = fs.supers[n];
    if s.s_flags & MS_RDONLY == 0 && s.s_sbh != NIL {
        match fs.cache.read_block(s.s_dev, s.s_sbh as u32) {
            None => {},
            Some(mut data) => {
                put_le16(&mut data, 18, s.s_mount_state);
                let ok: bool = fs.cache.write_block(s.s_dev, s.s_sbh as u32, data.as_slice());
            },
        }
    }
    s.s_imap = [NIL;8];
    s.s_zmap = [NIL;8];
    s.s_sbh = NIL;
    s.s_dev = 0;
    assert(s.s_imap@ =~= Seq::new(8, |i: int| NIL));
    assert(s.s_zmap@ =~= Seq::new(8, |i: int| NIL));
    fs.supers[n] = s;
    assert(fs.supers@ =~= old(fs).supers@.update(n as int, fs.supers@[n as int]));
}

/// A file system that was mounted for writing and given up again has the state in
/// its super block that it had before.
pub proof fn lemma_mount_unmount(c: Blocks, dev: u16, s: SuperBlock)
    requires
        c.dom().contains((dev, 1u32)),
        c[(dev, 1u32)].len() == 1024,
        s.s_dev == dev,
        s.s_sbh == 1,
        s.s_mount_state == super_of(c[(dev, 1u32)]).s_state,
        s.s_flags & 1 == 0,
    ensures
        state_restored(marked_in_use(c, dev), s) == c,
{
    let k = (dev, 1u32);
    let d = c[k];
    let d1 = with_le16(d, 18, le16(d, 18) & 0xFFFE);
    lemma_with_le16(d, 18, le16(d, 18) & 0xFFFE);
    let d2 = with_le16(d1, 18, s.s_mount_state);
    lemma_with_le16(d1, 18, s.s_mount_state);
    assert(le16(d2, 18) == le16(d, 18));
    assert(d2[18] + 256 * d2[19] == d[18] + 256 * d[19]);
    assert(d2 =~= d);
    assert(state_restored(marked_in_use(c, dev), s) =~= c);
}

/// The file system of a slot is what the super block `d` says: how many inodes and blocks it
/// has, where its data starts, and, by its magic number, how long names are. Its inode
/// bitmap starts at block 2, and its zone bitmap right behind that.
pub proof fn lemma_format(s0: SuperBlock, s: SuperBlock, d: Seq<u8>)
    requires
        accepted(s0, s, super_of(d)),
        le16(d, 4) <= 8,
        le16(d, 6) <= 8,
    ensures
        le16(d, 16) == 0x137F ==> s.s_dirsize == 16 && s.s_namelen == 14,
        le16(d, 16) == 0x138F ==> s.s_dirsize == 32 && s.s_namelen == 30,
        s.s_ninodes == le16(d, 0),
        s.s_nzones == le16(d, 2),
        s.s_firstdatazone == le16(d, 8),
        s.s_max_size == le32(d, 12),
        forall|k: int| 0 <= k < le16(d, 4) ==> #[trigger] s.s_imap@[k] == 2 + k,
        forall|k: int| 0 <= k < le16(d, 6) ==> #[trigger] s.s_zmap@[k] == 2 + le16(d, 4) + k,
        s.s_dev == s0.s_dev,
        s.s_flags == s0.s_flags,
{
}

} // verus!
