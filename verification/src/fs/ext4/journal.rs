//! Replaying the journal of a file system that was not unmounted cleanly.
//!
//! A transaction is a descriptor, which names blocks of the file system, the new
//! bytes of these blocks, and a commit. Blocks that the transaction revokes are
//! left alone. A transaction without a commit has no effect.

use crate::bytes::{
    be16, be32, get_be16, get_be32, get_le16, get_le32, join64, le16, le32, lemma_with_le32, overlay,
    put_le32, with_le32, zeros,
};
use crate::fs::ext4::inode::{lemma_i_block_raw, Ext4Inode};
use crate::fs::ext4::map::{extent_block, extent_lookup, low32};
use crate::fs::sync::{sync_dev, synced_from};
use crate::fs::{Blocks, Fs};
use vstd::prelude::*;

verus! {

pub const JBD2_MAGIC: u32 = 0xC03B_3998;
pub const BT_DESCRIPTOR: u32 = 1;
pub const BT_COMMIT: u32 = 2;
pub const BT_REVOKE: u32 = 5;

/// The most blocks that one transaction can change.
pub const MAX_PAIRS: usize = 512;
/// The most blocks that one transaction can revoke.
pub const MAX_REVOKES: usize = 128;

// ---- blocks of the file system ----

/// The sizes that a block of the file system can have here.
pub open spec fn size_ok(fs_bs: int) -> bool {
    fs_bs == 1024 || fs_bs == 2048 || fs_bs == 4096
}

/// Piece `k` of 1024 bytes of a block of the file system.
pub open spec fn piece(blk: int, fs_bs: int, k: int) -> u32 {
    low32(low32(blk) * (fs_bs / 1024) + k)
}

/// The bytes of a block of the file system, where the device has all of it.
pub open spec fn fs_block_at(c: Blocks, dev: u16, blk: int, fs_bs: int) -> Option<Seq<u8>> {
    if forall|k: int|
        0 <= k < fs_bs / 1024 ==> c.dom().contains((dev, #[trigger] piece(blk, fs_bs, k))) {
        Some(
            Seq::new(
                fs_bs as nat,
                |p: int| c[(dev, piece(blk, fs_bs, p / 1024))][p % 1024],
            ),
        )
    } else {
        None
    }
}

/// The blocks after the first `n` pieces of a block of the file system were
/// written, those that the device has.
pub open spec fn fs_block_put(c: Blocks, dev: u16, blk: int, fs_bs: int, d: Seq<u8>, n: int) -> Blocks
    decreases n,
{
    if n <= 0 {
        c
    } else {
        let c1 = fs_block_put(c, dev, blk, fs_bs, d, n - 1);
        let key = (dev, piece(blk, fs_bs, n - 1));
        if c1.dom().contains(key) {
            c1.insert(key, d.subrange(1024 * (n - 1), 1024 * n))
        } else {
            c1
        }
    }
}

/// The number of a piece.
fn piece_number(blk: u64, fs_bs: usize, k: u32) -> (r: u32)
    requires
        size_ok(fs_bs as int),
        k < 4,
    ensures
        r == piece(blk as int, fs_bs as int, k as int),
{
    let scale: u64 = (fs_bs / 1024) as u64;
    let low: u64 = blk % 0x1_0000_0000;
    assert(low * scale <= 0x1_0000_0000 * 4) by (nonlinear_arith)
        requires
            low <= 0x1_0000_0000,
            scale <= 4,
    ;
    ((low * scale + k as u64) % 0x1_0000_0000) as u32
}

/// Reads a block of the file system.
pub fn read_fs_block(fs: &mut Fs, dev: u16, fs_blk: u64, fs_bs: usize) -> (r: Option<Vec<u8>>)
    requires
        old(fs).wf(),
        size_ok(fs_bs as int),
    ensures
        final(fs).wf(),
        *final(fs) == (Fs { cache: final(fs).cache, ..*old(fs) }),
        final(fs).blocks() == old(fs).blocks(),
        match fs_block_at(old(fs).blocks(), dev, fs_blk as int, fs_bs as int) {
            None => r is None,
            Some(d) => r is Some && r->0@ == d && d.len() == fs_bs,
        },
{
    let ghost c = fs.blocks();
    let mut out: Vec<u8> = Vec::new();
    let scale: u32 = (fs_bs / 1024) as u32;
    let mut k: u32 = 0;
    while k < scale
        invariant
            fs.wf(),
            size_ok(fs_bs as int),
            k <= scale,
            scale == fs_bs / 1024,
            *fs == (Fs { cache: fs.cache, ..*old(fs) }),
            fs.blocks() == c,
            c == old(fs).blocks(),
            out@.len() == 1024 * k,
            forall|j: int|
                0 <= j < k ==> c.dom().contains(
                    (dev, #[trigger] piece(fs_blk as int, fs_bs as int, j)),
                ),
            forall|p: int|
                0 <= p < 1024 * k ==> #[trigger] out@[p] == c[(
                    dev,
                    piece(fs_blk as int, fs_bs as int, p / 1024),
                )][p % 1024],
        decreases scale - k,
    {
        let b: u32 = piece_number(fs_blk, fs_bs, k);
        match fs.cache.read_block(dev, b) {
            None => {
                assert(!c.dom().contains((dev, piece(fs_blk as int, fs_bs as int, k as int))));
                return None;
            },
            Some(data) => {
                let ghost before = out@;
                let mut data: Vec<u8> = data;
                let ghost added = data@;
                out.append(&mut data);
                assert(out@ =~= before + added);
            },
        }
        k = k + 1;
    }
    assert(out@ =~= fs_block_at(c, dev, fs_blk as int, fs_bs as int)->0);
    Some(out)
}

/// Writes a block of the file system, the pieces of it that the device has.
pub fn write_fs_block(fs: &mut Fs, dev: u16, fs_blk: u64, fs_bs: usize, src: &Vec<u8>)
    requires
        old(fs).wf(),
        size_ok(fs_bs as int),
        src@.len() == fs_bs,
    ensures
        final(fs).wf(),
        *final(fs) == (Fs { cache: final(fs).cache, ..*old(fs) }),
        final(fs).blocks() == fs_block_put(
            old(fs).blocks(),
            dev,
            fs_blk as int,
            fs_bs as int,
            src@,
            fs_bs as int / 1024,
        ),
{
    let scale: u32 = (fs_bs / 1024) as u32;
    let mut k: u32 = 0;
    while k < scale
        invariant
            fs.wf(),
            size_ok(fs_bs as int),
            src@.len() == fs_bs,
            k <= scale,
            scale == fs_bs / 1024,
            *fs == (Fs { cache: fs.cache, ..*old(fs) }),
            fs.blocks() == fs_block_put(
                old(fs).blocks(),
                dev,
                fs_blk as int,
                fs_bs as int,
                src@,
                k as int,
            ),
        decreases scale - k,
    {
        let b: u32 = piece_number(fs_blk, fs_bs, k);
        let from: usize = k as usize * 1024;
        let data: &[u8] = &src.as_slice()[from..from + 1024];
        let ok: bool = fs.cache.write_block(dev, b, data);
        k = k + 1;
    }
}

// ---- the blocks of the journal ----

/// The block of journal block `lblock` by pointers: twelve in the inode, then
/// those in one block.
pub open spec fn journal_pointer(c: Blocks, dev: u16, fs_bs: int, ib: Seq<u8>, lblock: int) -> Option<
    int,
> {
    if lblock < 12 {
        let p = le32(ib, 4 * lblock) as int;
        if p != 0 {
            Some(p)
        } else {
            None
        }
    } else {
        let idx = lblock - 12;
        let ind = le32(ib, 48) as int;
        let key = (dev, low32(ind * (fs_bs / 1024) + 4 * idx / 1024));
        if idx >= fs_bs / 4 || ind == 0 || !c.dom().contains(key) {
            None
        } else {
            let p = le32(c[key], 4 * idx % 1024) as int;
            if p != 0 {
                Some(p)
            } else {
                None
            }
        }
    }
}

/// The block of journal block `lblock`.
pub open spec fn journal_block(c: Blocks, dev: u16, fs_bs: int, ib: Seq<u8>, lblock: int) -> Option<int> {
    if le16(ib, 0) == 0xF30A {
        extent_block(c, dev, fs_bs, ib, low32(lblock))
    } else {
        journal_pointer(c, dev, fs_bs, ib, low32(lblock) as int)
    }
}

/// Looks a journal block up by pointers.
fn pointer_lookup(fs: &mut Fs, ib: &[u8; 60], lblock: u32, dev: u16, fs_bs: usize) -> (r: Option<u64>)
    requires
        old(fs).wf(),
        size_ok(fs_bs as int),
    ensures
        final(fs).wf(),
        *final(fs) == (Fs { cache: final(fs).cache, ..*old(fs) }),
        final(fs).blocks() == old(fs).blocks(),
        match journal_pointer(old(fs).blocks(), dev, fs_bs as int, ib@, lblock as int) {
            None => r is None,
            Some(b) => r is Some && r->0 == b,
        },
{
    if lblock < 12 {
        let p: u32 = get_le32(ib, lblock as usize * 4);
        return if p != 0 {
            Some(p as u64)
        } else {
            None
        };
    }
    let idx: u32 = lblock - 12;
    let ptrs: u32 = (fs_bs / 4) as u32;
    if idx >= ptrs {
        return None;
    }
    let ind: u32 = get_le32(ib, 48);
    if ind == 0 {
        return None;
    }
    let scale: u64 = (fs_bs / 1024) as u64;
    let off_bytes: u32 = idx * 4;
    assert(ind * scale <= 0x1_0000_0000 * 4) by (nonlinear_arith)
        requires
            ind <= 0x1_0000_0000,
            scale <= 4,
    ;
    let b: u32 = ((ind as u64 * scale + (off_bytes / 1024) as u64) % 0x1_0000_0000) as u32;
    match fs.cache.read_block(dev, b) {
        None => None,
        Some(data) => {
            let p: u32 = get_le32(data.as_slice(), (off_bytes % 1024) as usize);
            if p == 0 {
                None
            } else {
                Some(p as u64)
            }
        },
    }
}

/// Looks a journal block up.
pub fn map_journal_block(fs: &mut Fs, ib: &[u8; 60], lblock: u32, dev: u16, fs_bs: usize) -> (r: Option<
    u64,
>)
    requires
        old(fs).wf(),
        size_ok(fs_bs as int),
    ensures
        final(fs).wf(),
        *final(fs) == (Fs { cache: final(fs).cache, ..*old(fs) }),
        final(fs).blocks() == old(fs).blocks(),
        match journal_block(old(fs).blocks(), dev, fs_bs as int, ib@, lblock as int) {
            None => r is None,
            Some(b) => r is Some && r->0 == b,
        },
{
    if get_le16(ib, 0) == 0xF30A {
        return extent_lookup(fs, ib, lblock, dev, fs_bs);
    }
    pointer_lookup(fs, ib, lblock, dev, fs_bs)
}

// ---- transactions ----

/// The size of a tag in a descriptor.
pub open spec fn tag_len(features: u32) -> int {
    if features & 0x10 != 0 {
        16
    } else if features & 0x02 != 0 {
        12
    } else {
        8
    }
}

/// The block of the file system that the tag at `o` names.
pub open spec fn tag_block(d: Seq<u8>, o: int, len: int) -> int {
    if len == 16 {
        be32(d, o + 6) * 0x1_0000_0000 + be32(d, o)
    } else if len == 12 {
        be32(d, o + 8) * 0x1_0000_0000 + be32(d, o)
    } else {
        be32(d, o) as int
    }
}

/// The flags of the tag at `o`.
pub open spec fn tag_flags(d: Seq<u8>, o: int, len: int) -> u16 {
    if len == 16 {
        be16(d, o + 4)
    } else {
        be16(d, o + 6)
    }
}

/// Reads the tags of the descriptor `d`, which is journal block `pos`, from `o`
/// on: the blocks with the journal blocks of their new bytes, added to `pairs`, and
/// how many journal blocks follow. A tag with the flag 2 takes up none; one with
/// the flag 8 is the last.
pub open spec fn tags(
    d: Seq<u8>,
    fs_bs: int,
    len: int,
    o: int,
    pos: int,
    used: int,
    pairs: Seq<(u64, u64)>,
) -> (Seq<(u64, u64)>, int)
    decreases fs_bs - o,
    when len > 0
{
    if o + len > fs_bs || pairs.len() >= 512 {
        (pairs, used)
    } else {
        let flags = tag_flags(d, o, len);
        let more = pairs.push((tag_block(d, o, len) as u64, (pos + 1 + used) as u64));
        let next = if flags & 2 == 0 {
            used + 1
        } else {
            used
        };
        if flags & 8 != 0 {
            (more, next)
        } else {
            tags(d, fs_bs, len, o + len, pos, next, more)
        }
    }
}

/// The size of an entry in a list of revoked blocks.
pub open spec fn revoke_len(features: u32) -> int {
    if features & 0x02 != 0 {
        12
    } else {
        4
    }
}

/// Entry `i` of a list of revoked blocks.
pub open spec fn revoke_block(d: Seq<u8>, i: int, len: int) -> int {
    if len == 12 {
        be32(d, 8 + 12 * i + 8) * 0x1_0000_0000 + be32(d, 8 + 12 * i)
    } else {
        be32(d, 8 + 4 * i) as int
    }
}

/// The revoked blocks of entries `i` to `n`, added to `revokes`; zero ends the
/// list.
pub open spec fn revoked(d: Seq<u8>, len: int, i: int, n: int, revokes: Seq<u64>) -> Seq<u64>
    decreases n - i,
{
    if i >= n || revoke_block(d, i, len) == 0 {
        revokes
    } else {
        revoked(d, len, i + 1, n, revokes.push(revoke_block(d, i, len) as u64))
    }
}

/// How many entries of a list of revoked blocks are read, with `have` of the
/// transaction already read.
pub open spec fn revoke_count(fs_bs: int, len: int, have: int) -> int {
    let n = (fs_bs - 8) / len;
    if n < 128 - have {
        n
    } else {
        128 - have
    }
}

/// The blocks after one change of a transaction: the block is what the journal
/// block holds, if it is not revoked.
pub open spec fn change_made(
    c: Blocks,
    dev: u16,
    fs_bs: int,
    ib: Seq<u8>,
    pair: (u64, u64),
    revokes: Seq<u64>,
) -> Blocks {
    let (blk, jpos) = pair;
    if revokes.contains(blk) {
        c
    } else {
        match journal_block(c, dev, fs_bs, ib, jpos as int) {
            None => c,
            Some(jphys) => match fs_block_at(c, dev, jphys, fs_bs) {
                None => c,
                Some(d) => fs_block_put(c, dev, blk as int, fs_bs, d, fs_bs / 1024),
            },
        }
    }
}

/// The blocks after the first `n` changes of a transaction.
pub open spec fn applied(
    c: Blocks,
    dev: u16,
    fs_bs: int,
    ib: Seq<u8>,
    pairs: Seq<(u64, u64)>,
    revokes: Seq<u64>,
    n: int,
) -> Blocks
    decreases n,
{
    if n <= 0 {
        c
    } else {
        change_made(
            applied(c, dev, fs_bs, ib, pairs, revokes, n - 1),
            dev,
            fs_bs,
            ib,
            pairs[n - 1],
            revokes,
        )
    }
}

/// A journal, as its first block describes it.
pub struct Journal {
    pub features: u32,
    pub maxlen: u32,
    pub first: u32,
}

impl Journal {
    /// The journal block `pos`, or the first one where the journal ends before.
    pub open spec fn wrapped(self, pos: int) -> int {
        if pos >= self.maxlen {
            self.first as int
        } else {
            pos
        }
    }
}

/// Replays the journal from block `pos` on, at most `left` blocks of it that are
/// no data, with what has been read of a transaction. It ends at a block that is
/// no part of a transaction.
pub open spec fn replayed(
    c: Blocks,
    dev: u16,
    fs_bs: int,
    ib: Seq<u8>,
    j: Journal,
    pos: int,
    pairs: Seq<(u64, u64)>,
    revokes: Seq<u64>,
    pending: bool,
    left: nat,
) -> Blocks
    decreases left,
{
    if left == 0 {
        c
    } else {
        match journal_block(c, dev, fs_bs, ib, pos) {
            None => c,
            Some(jphys) => match fs_block_at(c, dev, jphys, fs_bs) {
                None => c,
                Some(d) => if be32(d, 0) != JBD2_MAGIC {
                    c
                } else if be32(d, 4) == BT_DESCRIPTOR {
                    let (more, used) = tags(d, fs_bs, tag_len(j.features), 12, pos, 0, pairs);
                    replayed(
                        c,
                        dev,
                        fs_bs,
                        ib,
                        j,
                        j.wrapped(pos + 1 + used),
                        more,
                        revokes,
                        true,
                        (left - 1) as nat,
                    )
                } else if be32(d, 4) == BT_COMMIT {
                    let c1 = if pending {
                        applied(c, dev, fs_bs, ib, pairs, revokes, pairs.len() as int)
                    } else {
                        c
                    };
                    replayed(
                        c1,
                        dev,
                        fs_bs,
                        ib,
                        j,
                        j.wrapped(pos + 1),
                        Seq::empty(),
                        Seq::empty(),
                        false,
                        (left - 1) as nat,
                    )
                } else if be32(d, 4) == BT_REVOKE {
                    let len = revoke_len(j.features);
                    replayed(
                        c,
                        dev,
                        fs_bs,
                        ib,
                        j,
                        j.wrapped(pos + 1),
                        pairs,
                        revoked(
                            d,
                            len,
                            0,
                            revoke_count(fs_bs, len, revokes.len() as int),
                            revokes,
                        ),
                        pending,
                        (left - 1) as nat,
                    )
                } else {
                    c
                },
            },
        }
    }
}

/// The changes of a transaction that has not been committed yet.
struct Txn {
    pairs: Vec<(u64, u64)>,
    revokes: Vec<u64>,
    pending: bool,
}

impl Txn {
    fn new() -> (r: Self)
        ensures
            r.pairs@ == Seq::<(u64, u64)>::empty(),
            r.revokes@ == Seq::<u64>::empty(),
            !r.pending,
    {
        Txn { pairs: Vec::new(), revokes: Vec::new(), pending: false }
    }

    fn revoked(&self, fs_blk: u64) -> (r: bool)
        ensures
            r == self.revokes@.contains(fs_blk),
    {
        let mut i: usize = 0;
        while i < self.revokes.len()
            invariant
                i <= self.revokes@.len(),
                forall|k: int| 0 <= k < i ==> self.revokes@[k] != fs_blk,
            decreases self.revokes@.len() - i,
        {
            if self.revokes[i] == fs_blk {
                assert(self.revokes@[i as int] == fs_blk);
                return true;
            }
            i = i + 1;
        }
        false
    }
}

/// Reads the tags of a descriptor; answers how many journal blocks follow.
fn read_tags(txn: &mut Txn, d: &Vec<u8>, fs_bs: usize, len: usize, pos: u64) -> (r: u64)
    requires
        size_ok(fs_bs as int),
        d@.len() == fs_bs,
        len == 8 || len == 12 || len == 16,
        pos <= u32::MAX,
        old(txn).pairs@.len() <= 512,
    ensures
        ({
            let (more, used) = tags(
                d@,
                fs_bs as int,
                len as int,
                12,
                pos as int,
                0,
                old(txn).pairs@,
            );
            final(txn).pairs@ == more && r == used && used <= 512 && more.len() <= 512
        }),
        final(txn).revokes == old(txn).revokes,
        final(txn).pending == old(txn).pending,
{
    let ghost p0 = txn.pairs@;
    let mut used: u64 = 0;
    let mut off: usize = 12;
    while off + len <= fs_bs && txn.pairs.len() < MAX_PAIRS
        invariant_except_break
            tags(d@, fs_bs as int, len as int, 12, pos as int, 0, p0) == tags(
                d@,
                fs_bs as int,
                len as int,
                off as int,
                pos as int,
                used as int,
                txn.pairs@,
            ),
        invariant
            size_ok(fs_bs as int),
            d@.len() == fs_bs,
            len == 8 || len == 12 || len == 16,
            pos <= u32::MAX,
            off <= fs_bs + 16,
            txn.pairs@.len() <= 512,
            used <= txn.pairs@.len(),
            txn.revokes == old(txn).revokes,
            txn.pending == old(txn).pending,
        ensures
            tags(d@, fs_bs as int, len as int, 12, pos as int, 0, p0) == (txn.pairs@, used as int),
        decreases fs_bs + 16 - off,
    {
        let fs_blk: u64 = if len == 16 {
            join64(get_be32(d.as_slice(), off + 6), get_be32(d.as_slice(), off))
        } else if len == 12 {
            join64(get_be32(d.as_slice(), off + 8), get_be32(d.as_slice(), off))
        } else {
            get_be32(d.as_slice(), off) as u64
        };
        let flags: u16 = if len == 16 {
            get_be16(d.as_slice(), off + 4)
        } else {
            get_be16(d.as_slice(), off + 6)
        };
        let jpos: u64 = pos + 1 + used;
        if flags & 2 == 0 {
            used = used + 1;
        }
        txn.pairs.push((fs_blk, jpos));
        if flags & 8 != 0 {
            break;
        }
        off = off + len;
    }
    used
}

/// Reads a list of revoked blocks.
fn read_revokes(txn: &mut Txn, d: &Vec<u8>, fs_bs: usize, len: usize)
    requires
        size_ok(fs_bs as int),
        d@.len() == fs_bs,
        len == 4 || len == 12,
        old(txn).revokes@.len() <= 128,
    ensures
        final(txn).revokes@ == revoked(
            d@,
            len as int,
            0,
            revoke_count(fs_bs as int, len as int, old(txn).revokes@.len() as int),
            old(txn).revokes@,
        ),
        final(txn).revokes@.len() <= 128,
        final(txn).pairs == old(txn).pairs,
        final(txn).pending == old(txn).pending,
{
    let ghost r0 = txn.revokes@;
    let room: usize = MAX_REVOKES - txn.revokes.len();
    let fit: usize = (fs_bs - 8) / len;
    let cnt: usize = if fit < room {
        fit
    } else {
        room
    };
    assert(8 + len * fit <= fs_bs) by {
        if len == 4 {
        } else {
        }
    }
    let mut i: usize = 0;
    while i < cnt
        invariant_except_break
            revoked(d@, len as int, 0, cnt as int, r0) == revoked(
                d@,
                len as int,
                i as int,
                cnt as int,
                txn.revokes@,
            ),
        invariant
            size_ok(fs_bs as int),
            d@.len() == fs_bs,
            len == 4 || len == 12,
            i <= cnt <= fit,
            len == 4 ==> 8 + 4 * fit <= fs_bs,
            len == 12 ==> 8 + 12 * fit <= fs_bs,
            cnt <= 128 - r0.len(),
            r0.len() <= 128,
            txn.revokes@.len() == r0.len() + i,
            txn.pairs == old(txn).pairs,
            txn.pending == old(txn).pending,
        ensures
            txn.revokes@ == revoked(d@, len as int, 0, cnt as int, r0),
        decreases cnt - i,
    {
        let fs_blk: u64 = if len == 12 {
            join64(get_be32(d.as_slice(), 8 + i * 12 + 8), get_be32(d.as_slice(), 8 + i * 12))
        } else {
            get_be32(d.as_slice(), 8 + i * 4) as u64
        };
        if fs_blk == 0 {
            break;
        }
        txn.revokes.push(fs_blk);
        i = i + 1;
    }
}

/// Makes the changes of a transaction.
#[verifier::spinoff_prover]
#[verifier::rlimit(40)]
fn apply(fs: &mut Fs, dev: u16, ib: &[u8; 60], fs_bs: usize, txn: &Txn)
    requires
        old(fs).wf(),
        size_ok(fs_bs as int),
    ensures
        final(fs).wf(),
        *final(fs) == (Fs { cache: final(fs).cache, ..*old(fs) }),
        final(fs).blocks() == applied(
            old(fs).blocks(),
            dev,
            fs_bs as int,
            ib@,
            txn.pairs@,
            txn.revokes@,
            txn.pairs@.len() as int,
        ),
{
    let mut i: usize = 0;
    while i < txn.pairs.len()
        invariant
            fs.wf(),
            size_ok(fs_bs as int),
            i <= txn.pairs@.len(),
            *fs == (Fs { cache: fs.cache, ..*old(fs) }),
            fs.blocks() == applied(
                old(fs).blocks(),
                dev,
                fs_bs as int,
                ib@,
                txn.pairs@,
                txn.revokes@,
                i as int,
            ),
        decreases txn.pairs@.len() - i,
    {
        apply_one(fs, dev, ib, fs_bs, txn, i);
        i = i + 1;
    }
}

/// Makes one change of a transaction.
#[verifier::spinoff_prover]
#[verifier::rlimit(40)]
fn apply_one(fs: &mut Fs, dev: u16, ib: &[u8; 60], fs_bs: usize, txn: &Txn, i: usize)
    requires
        old(fs).wf(),
        size_ok(fs_bs as int),
        i < txn.pairs@.len(),
    ensures
        final(fs).wf(),
        *final(fs) == (Fs { cache: final(fs).cache, ..*old(fs) }),
        final(fs).blocks() == change_made(
            old(fs).blocks(),
            dev,
            fs_bs as int,
            ib@,
            txn.pairs@[i as int],
            txn.revokes@,
        ),
{
    let (fs_blk, jpos): (u64, u64) = txn.pairs[i];
    if txn.revoked(fs_blk) {
        return;
    }
    let lblock: u32 = (jpos % 0x1_0000_0000) as u32;
    assert(low32(jpos as int) == lblock && low32(lblock as int) == lblock);
    match map_journal_block(fs, ib, lblock, dev, fs_bs) {
        None => {},
        Some(jphys) => match read_fs_block(fs, dev, jphys, fs_bs) {
            None => {},
            Some(d) => {
                write_fs_block(fs, dev, fs_blk, fs_bs, &d);
            },
        },
    }
}

/// Replays the journal from block `start` on.
#[verifier::spinoff_prover]
#[verifier::rlimit(40)]
fn replay(fs: &mut Fs, dev: u16, ib: &[u8; 60], fs_bs: usize, j: &Journal, start: u32)
    requires
        old(fs).wf(),
        size_ok(fs_bs as int),
    ensures
        final(fs).wf(),
        *final(fs) == (Fs { cache: final(fs).cache, ..*old(fs) }),
        final(fs).blocks() == replayed(
            old(fs).blocks(),
            dev,
            fs_bs as int,
            ib@,
            *j,
            start as int,
            Seq::empty(),
            Seq::empty(),
            false,
            j.maxlen as nat,
        ),
{
    let len: usize = if j.features & 0x10 != 0 {
        16
    } else if j.features & 0x02 != 0 {
        12
    } else {
        8
    };
    let rlen: usize = if j.features & 0x02 != 0 {
        12
    } else {
        4
    };
    let mut pos: u64 = start as u64;
    let mut txn = Txn::new();
    let mut guard: u32 = j.maxlen;
    while guard > 0
        invariant_except_break
            replayed(
                old(fs).blocks(),
                dev,
                fs_bs as int,
                ib@,
                *j,
                start as int,
                Seq::empty(),
                Seq::empty(),
                false,
                j.maxlen as nat,
            ) == replayed(
                fs.blocks(),
                dev,
                fs_bs as int,
                ib@,
                *j,
                pos as int,
                txn.pairs@,
                txn.revokes@,
                txn.pending,
                guard as nat,
            ),
        invariant
            fs.wf(),
            size_ok(fs_bs as int),
            pos <= u32::MAX,
            len == tag_len(j.features),
            rlen == revoke_len(j.features),
            txn.pairs@.len() <= 512,
            txn.revokes@.len() <= 128,
            *fs == (Fs { cache: fs.cache, ..*old(fs) }),
        ensures
            fs.blocks() == replayed(
                old(fs).blocks(),
                dev,
                fs_bs as int,
                ib@,
                *j,
                start as int,
                Seq::empty(),
                Seq::empty(),
                false,
                j.maxlen as nat,
            ),
        decreases guard,
    {
        let jphys: u64 = match map_journal_block(fs, ib, pos as u32, dev, fs_bs) {
            None => {
                break;
            },
            Some(b) => b,
        };
        let d: Vec<u8> = match read_fs_block(fs, dev, jphys, fs_bs) {
            None => {
                break;
            },
            Some(d) => d,
        };
        if get_be32(d.as_slice(), 0) != JBD2_MAGIC {
            break;
        }
        let btype: u32 = get_be32(d.as_slice(), 4);
        let mut next: u64 = pos + 1;
        if btype == BT_DESCRIPTOR {
            let used: u64 = read_tags(&mut txn, &d, fs_bs, len, pos);
            txn.pending = true;
            next = pos + 1 + used;
        } else if btype == BT_COMMIT {
            if txn.pending {
                apply(fs, dev, ib, fs_bs, &txn);
            }
            txn = Txn::new();
        } else if btype == BT_REVOKE {
            read_revokes(&mut txn, &d, fs_bs, rlen);
        } else {
            break;
        }
        pos = if next >= j.maxlen as u64 {
            j.first as u64
        } else {
            next
        };
        guard = guard - 1;
    }
}

/// The inode number of the journal.
pub open spec fn journal_ino(sb: Seq<u8>) -> int {
    if le32(sb, 224) == 0 {
        8
    } else {
        le32(sb, 224) as int
    }
}

/// Where the inode of the journal starts in the inode table, in bytes.
pub open spec fn journal_offset(sb: Seq<u8>, ipg: int, inode_size: int) -> int {
    (journal_ino(sb) - 1) % ipg * inode_size
}

/// The block with the inode of the journal.
pub open spec fn journal_inode_block(sb: Seq<u8>, table: int, ipg: int, inode_size: int) -> u32 {
    low32(table + journal_offset(sb, ipg, inode_size) / 1024)
}

/// The 60 bytes that say where the blocks of the journal are; there are none
/// where the inode is not in the first group or cannot be read.
pub open spec fn journal_map(
    c: Blocks,
    dev: u16,
    sb: Seq<u8>,
    table: int,
    ipg: int,
    inode_size: int,
) -> Option<Seq<u8>> {
    let key = (dev, journal_inode_block(sb, table, ipg, inode_size));
    let o = journal_offset(sb, ipg, inode_size) % 1024;
    if (journal_ino(sb) - 1) / ipg != 0 || !c.dom().contains(key) || inode_size < 128 {
        None
    } else {
        Some(c[key].subrange(o + 40, o + 100))
    }
}

/// The bytes with the mark that says where the journal starts taken away.
pub open spec fn emptied(d: Seq<u8>) -> Seq<u8> {
    overlay(d, 28, zeros(4))
}

/// The blocks after the journal was replayed, as far as that can be done.
pub open spec fn recovered(
    c: Blocks,
    dev: u16,
    sb: Seq<u8>,
    table: int,
    inode_size: int,
    fs_bs: int,
    ipg: int,
) -> Blocks {
    match journal_map(c, dev, sb, table, ipg, inode_size) {
        None => c,
        Some(ib) => match journal_block(c, dev, fs_bs, ib, 0) {
            None => c,
            Some(phys0) => match fs_block_at(c, dev, phys0, fs_bs) {
                None => c,
                Some(d) => {
                    let j = Journal {
                        features: be32(d, 36),
                        maxlen: be32(d, 16),
                        first: be32(d, 20),
                    };
                    if be32(d, 0) != JBD2_MAGIC || be32(d, 12) != fs_bs || be32(d, 16) == 0 || be32(
                        d,
                        28,
                    ) == 0 {
                        c
                    } else {
                        let c1 = replayed(
                            c,
                            dev,
                            fs_bs,
                            ib,
                            j,
                            be32(d, 28) as int,
                            Seq::empty(),
                            Seq::empty(),
                            false,
                            j.maxlen as nat,
                        );
                        match fs_block_at(c1, dev, phys0, fs_bs) {
                            None => c1,
                            Some(d1) => fs_block_put(
                                c1,
                                dev,
                                phys0,
                                fs_bs,
                                emptied(d1),
                                fs_bs / 1024,
                            ),
                        }
                    }
                },
            },
        },
    }
}

/// The blocks with the mark that the file system has to be recovered taken away,
/// where the super block still has the features `sb` has.
pub open spec fn unmarked(c: Blocks, dev: u16, sb: Seq<u8>) -> Blocks {
    let k = (dev, 1u32);
    if le32(sb, 96) == le32(c[k], 96) {
        c.insert(k, with_le32(c[k], 96, le32(sb, 96) & 0xFFFF_FFFB))
    } else {
        c
    }
}

/// Takes the mark that the file system has to be recovered away, and writes the
/// device out.
pub fn clear_recover_flag(fs: &mut Fs, dev: u16, sb_data: &[u8]) -> (r: bool)
    requires
        old(fs).wf(),
        sb_data@.len() >= 100,
    ensures
        final(fs).wf(),
        r == old(fs).blocks().dom().contains((dev, 1u32)),
        if r {
            synced_from(old(fs), unmarked(old(fs).blocks(), dev, sb_data@), final(fs), dev)
        } else {
            *final(fs) == (Fs { cache: final(fs).cache, ..*old(fs) }) && final(fs).blocks() == old(
                fs,
            ).blocks()
        },
{
    match fs.cache.read_block(dev, 1) {
        None => false,
        Some(mut data) => {
            let have: u32 = get_le32(data.as_slice(), 96);
            if get_le32(sb_data, 96) == have {
                put_le32(&mut data, 96, have & 0xFFFF_FFFB);
                let ok: bool = fs.cache.write_block(dev, 1, data.as_slice());
            }
            sync_dev(fs, dev);
            true
        },
    }
}

/// Replays the journal, as far as that can be done.
#[verifier::spinoff_prover]
#[verifier::rlimit(40)]
fn recover_journal(
    fs: &mut Fs,
    dev: u16,
    sb_data: &[u8],
    table: u64,
    inode_size: u32,
    fs_bs: usize,
    inodes_per_group: u32,
)
    requires
        old(fs).wf(),
        sb_data@.len() >= 228,
        size_ok(fs_bs as int),
        inodes_per_group > 0,
        journal_offset(sb_data@, inodes_per_group as int, inode_size as int) % 1024 + inode_size
            <= 1024,
    ensures
        final(fs).wf(),
        *final(fs) == (Fs { cache: final(fs).cache, ..*old(fs) }),
        final(fs).blocks() == recovered(
            old(fs).blocks(),
            dev,
            sb_data@,
            table as int,
            inode_size as int,
            fs_bs as int,
            inodes_per_group as int,
        ),
{
    let ghost c0 = fs.blocks();
    let n: u32 = get_le32(sb_data, 224);
    let ino: u32 = if n == 0 {
        8
    } else {
        n
    };
    if (ino - 1) / inodes_per_group != 0 {
        return;
    }
    let idx: u32 = (ino - 1) % inodes_per_group;
    assert(idx * inode_size <= 0xFFFF_FFFF * 0xFFFF_FFFF) by (nonlinear_arith)
        requires
            idx <= 0xFFFF_FFFF,
            inode_size <= 0xFFFF_FFFF,
    ;
    let byte_off: u64 = idx as u64 * inode_size as u64;
    let iblk: u32 = ((table % 0x1_0000_0000 + byte_off / 1024) % 0x1_0000_0000) as u32;
    proof {
        vstd::arithmetic::div_mod::lemma_add_mod_noop(
            table as int,
            byte_off as int / 1024,
            0x1_0000_0000,
        );
        vstd::arithmetic::div_mod::lemma_add_mod_noop(
            table as int % 0x1_0000_0000,
            byte_off as int / 1024,
            0x1_0000_0000,
        );
        vstd::arithmetic::div_mod::lemma_mod_twice(table as int, 0x1_0000_0000);
    }
    assert(iblk == journal_inode_block(
        sb_data@,
        table as int,
        inodes_per_group as int,
        inode_size as int,
    ));
    let off: usize = (byte_off % 1024) as usize;
    let ib: [u8; 60] = match fs.cache.read_block(dev, iblk) {
        None => {
            return;
        },
        Some(idata) => {
            let raw: &[u8] = &idata.as_slice()[off..off + inode_size as usize];
            match Ext4Inode::from_bytes(raw) {
                None => {
                    return;
                },
                Some(ei) => {
                    let ib: [u8; 60] = ei.i_block_raw();
                    proof {
                        lemma_i_block_raw(ei, raw@, ib@);
                        assert(ib@ =~= idata@.subrange(off + 40, off + 100));
                    }
                    ib
                },
            }
        },
    };
    let phys0: u64 = match map_journal_block(fs, &ib, 0, dev, fs_bs) {
        None => {
            return;
        },
        Some(b) => b,
    };
    let d: Vec<u8> = match read_fs_block(fs, dev, phys0, fs_bs) {
        None => {
            return;
        },
        Some(d) => d,
    };
    if get_be32(d.as_slice(), 0) != JBD2_MAGIC {
        return;
    }
    let bsize: u32 = get_be32(d.as_slice(), 12);
    let j = Journal {
        features: get_be32(d.as_slice(), 36),
        maxlen: get_be32(d.as_slice(), 16),
        first: get_be32(d.as_slice(), 20),
    };
    let start: u32 = get_be32(d.as_slice(), 28);
    if bsize as usize != fs_bs || j.maxlen == 0 || start == 0 {
        return;
    }
    replay(fs, dev, &ib, fs_bs, &j, start);
    match read_fs_block(fs, dev, phys0, fs_bs) {
        None => {},
        Some(mut head) => {
            let ghost h0 = head@;
            head[28] = 0;
            head[29] = 0;
            head[30] = 0;
            head[31] = 0;
            assert(head@ =~= emptied(h0));
            write_fs_block(fs, dev, phys0, fs_bs, &head);
        },
    }
}

/// The file system has a journal and was not unmounted cleanly.
pub open spec fn needs_recovery(sb: Seq<u8>) -> bool {
    le32(sb, 92) & 4 != 0 && le32(sb, 96) & 4 != 0
}

/// What recovering a file system does, with the answer `r`.
pub open spec fn recover_did(
    fs0: &Fs,
    fs: &Fs,
    dev: u16,
    sb: Seq<u8>,
    table: int,
    inode_size: int,
    fs_bs: int,
    ipg: int,
    r: bool,
) -> bool {
    let c0 = fs0.blocks();
    let c1 = if needs_recovery(sb) {
        recovered(c0, dev, sb, table, inode_size, fs_bs, ipg)
    } else {
        c0
    };
    let there = c1.dom().contains((dev, 1u32));
    &&& r == (!needs_recovery(sb) || there)
    &&& if le32(sb, 96) & 4 != 0 && there {
        synced_from(fs0, unmarked(c1, dev, sb), fs, dev)
    } else {
        *fs == (Fs { cache: fs.cache, ..*fs0 }) && fs.blocks() == c1
    }
}

/// Replays the journal of a file system that was not unmounted cleanly, and takes
/// the mark that says so away. Answers whether the file system is in order;
/// where there is nothing to replay it is.
pub fn recover(
    fs: &mut Fs,
    dev: u16,
    sb_data: &[u8],
    inode_table_1024: u64,
    inode_size: u32,
    fs_bs: usize,
    inodes_per_group: u32,
) -> (r: bool)
    requires
        old(fs).wf(),
        sb_data@.len() >= 228,
        needs_recovery(sb_data@) ==> size_ok(fs_bs as int) && inodes_per_group > 0
            && journal_offset(sb_data@, inodes_per_group as int, inode_size as int) % 1024
            + inode_size <= 1024,
    ensures
        final(fs).wf(),
        recover_did(
            old(fs),
            final(fs),
            dev,
            sb_data@,
            inode_table_1024 as int,
            inode_size as int,
            fs_bs as int,
            inodes_per_group as int,
            r,
        ),
{
    let compat: u32 = get_le32(sb_data, 92);
    let incompat: u32 = get_le32(sb_data, 96);
    if compat & 4 == 0 {
        if incompat & 4 != 0 {
            let done: bool = clear_recover_flag(fs, dev, sb_data);
        }
        return true;
    }
    if incompat & 4 == 0 {
        return true;
    }
    recover_journal(
        fs,
        dev,
        sb_data,
        inode_table_1024,
        inode_size,
        fs_bs,
        inodes_per_group,
    );
    clear_recover_flag(fs, dev, sb_data)
}

// ---- what holds of a replay ----

/// A block of the file system that was written is read back.
pub proof fn lemma_put_at(c: Blocks, dev: u16, blk: int, fs_bs: int, d: Seq<u8>, n: int)
    requires
        size_ok(fs_bs),
        d.len() == fs_bs,
        0 <= n <= fs_bs / 1024,
        fs_block_at(c, dev, blk, fs_bs) is Some,
    ensures
        ({
            let c1 = fs_block_put(c, dev, blk, fs_bs, d, n);
            &&& c1.dom() == c.dom()
            &&& forall|k: int|
                0 <= k < n ==> c1[(dev, #[trigger] piece(blk, fs_bs, k))] == d.subrange(
                    1024 * k,
                    1024 * (k + 1),
                )
            &&& n == fs_bs / 1024 ==> fs_block_at(c1, dev, blk, fs_bs) == Some(d)
        }),
    decreases n,
{
    let c1 = fs_block_put(c, dev, blk, fs_bs, d, n);
    if n > 0 {
        lemma_put_at(c, dev, blk, fs_bs, d, n - 1);
        let c0 = fs_block_put(c, dev, blk, fs_bs, d, n - 1);
        assert(c.dom().contains((dev, piece(blk, fs_bs, n - 1))));
        assert(c1.dom() =~= c.dom());
        assert forall|k: int| 0 <= k < n implies c1[(dev, #[trigger] piece(blk, fs_bs, k))]
            == d.subrange(1024 * k, 1024 * (k + 1)) by {
            if k < n - 1 {
                lemma_pieces_differ(blk, fs_bs, k, n - 1);
            }
        }
    }
    if n == fs_bs / 1024 {
        assert forall|k: int| 0 <= k < fs_bs / 1024 implies c1.dom().contains(
            (dev, #[trigger] piece(blk, fs_bs, k)),
        ) by {
            assert(c.dom().contains((dev, piece(blk, fs_bs, k))));
        }
        let r = fs_block_at(c1, dev, blk, fs_bs)->0;
        assert forall|p: int| 0 <= p < fs_bs implies r[p] == d[p] by {
            let k = p / 1024;
            assert(c1[(dev, piece(blk, fs_bs, k))] == d.subrange(1024 * k, 1024 * (k + 1)));
            assert(p == 1024 * k + p % 1024);
        }
        assert(r =~= d);
    }
}

/// The pieces of a block are different.
proof fn lemma_pieces_differ(blk: int, fs_bs: int, j: int, k: int)
    requires
        size_ok(fs_bs),
        0 <= j < k < fs_bs / 1024,
    ensures
        piece(blk, fs_bs, j) != piece(blk, fs_bs, k),
{
    let x = low32(blk) * (fs_bs / 1024);
    assert(0 <= x) by (nonlinear_arith)
        requires
            x == low32(blk) * (fs_bs / 1024),
            fs_bs >= 1024,
    ;
}

/// The bytes of journal block `p`.
pub open spec fn journal_bytes(c: Blocks, dev: u16, fs_bs: int, ib: Seq<u8>, p: int) -> Option<Seq<u8>> {
    match journal_block(c, dev, fs_bs, ib, p) {
        None => None,
        Some(b) => fs_block_at(c, dev, b, fs_bs),
    }
}

/// A journal without a commit changes nothing.
pub proof fn lemma_no_commit(
    c: Blocks,
    dev: u16,
    fs_bs: int,
    ib: Seq<u8>,
    j: Journal,
    pos: int,
    pairs: Seq<(u64, u64)>,
    revokes: Seq<u64>,
    pending: bool,
    left: nat,
)
    requires
        forall|p: int|
            (#[trigger] journal_bytes(c, dev, fs_bs, ib, p)) is Some ==> be32(
                journal_bytes(c, dev, fs_bs, ib, p)->0,
                4,
            ) != BT_COMMIT,
    ensures
        replayed(c, dev, fs_bs, ib, j, pos, pairs, revokes, pending, left) == c,
    decreases left,
{
    if left > 0 && journal_block(c, dev, fs_bs, ib, pos) is Some {
        let b = journal_block(c, dev, fs_bs, ib, pos)->0;
        if fs_block_at(c, dev, b, fs_bs) is Some {
            let d = fs_block_at(c, dev, b, fs_bs)->0;
            assert(journal_bytes(c, dev, fs_bs, ib, pos) == Some(d));
            let (more, used) = tags(d, fs_bs, tag_len(j.features), 12, pos, 0, pairs);
            lemma_no_commit(
                c,
                dev,
                fs_bs,
                ib,
                j,
                j.wrapped(pos + 1 + used),
                more,
                revokes,
                true,
                (left - 1) as nat,
            );
            let len = revoke_len(j.features);
            lemma_no_commit(
                c,
                dev,
                fs_bs,
                ib,
                j,
                j.wrapped(pos + 1),
                pairs,
                revoked(d, len, 0, revoke_count(fs_bs, len, revokes.len() as int), revokes),
                pending,
                (left - 1) as nat,
            );
        }
    }
}

/// The last change of a transaction, where its block is not revoked and both the
/// block and the journal can be read: the block then has the bytes that the
/// journal has for it.
pub proof fn lemma_applied(
    c: Blocks,
    dev: u16,
    fs_bs: int,
    ib: Seq<u8>,
    pairs: Seq<(u64, u64)>,
    revokes: Seq<u64>,
)
    requires
        size_ok(fs_bs),
        pairs.len() > 0,
        !revokes.contains(pairs.last().0),
        ({
            let c1 = applied(c, dev, fs_bs, ib, pairs, revokes, pairs.len() - 1);
            &&& journal_block(c1, dev, fs_bs, ib, pairs.last().1 as int) is Some
            &&& fs_block_at(
                c1,
                dev,
                journal_block(c1, dev, fs_bs, ib, pairs.last().1 as int)->0,
                fs_bs,
            ) is Some
            &&& fs_block_at(c1, dev, pairs.last().0 as int, fs_bs) is Some
        }),
    ensures
        ({
            let c1 = applied(c, dev, fs_bs, ib, pairs, revokes, pairs.len() - 1);
            let c2 = applied(c, dev, fs_bs, ib, pairs, revokes, pairs.len() as int);
            let jphys = journal_block(c1, dev, fs_bs, ib, pairs.last().1 as int)->0;
            fs_block_at(c2, dev, pairs.last().0 as int, fs_bs) == fs_block_at(
                c1,
                dev,
                jphys,
                fs_bs,
            )
        }),
{
    let c1 = applied(c, dev, fs_bs, ib, pairs, revokes, pairs.len() - 1);
    let jphys = journal_block(c1, dev, fs_bs, ib, pairs.last().1 as int)->0;
    let d = fs_block_at(c1, dev, jphys, fs_bs)->0;
    lemma_put_at(c1, dev, pairs.last().0 as int, fs_bs, d, fs_bs / 1024);
}

/// A transaction of which every block is revoked changes nothing.
pub proof fn lemma_all_revoked(
    c: Blocks,
    dev: u16,
    fs_bs: int,
    ib: Seq<u8>,
    pairs: Seq<(u64, u64)>,
    revokes: Seq<u64>,
    n: int,
)
    requires
        0 <= n <= pairs.len(),
        forall|i: int| 0 <= i < pairs.len() ==> revokes.contains((#[trigger] pairs[i]).0),
    ensures
        applied(c, dev, fs_bs, ib, pairs, revokes, n) == c,
    decreases n,
{
    if n > 0 {
        lemma_all_revoked(c, dev, fs_bs, ib, pairs, revokes, n - 1);
        assert(revokes.contains(pairs[n - 1].0));
    }
}

/// After the mark was taken away there is nothing to recover any more.
pub proof fn lemma_unmarked(c: Blocks, dev: u16, sb: Seq<u8>)
    requires
        c.dom().contains((dev, 1u32)),
        c[(dev, 1u32)].len() == 1024,
        le32(sb, 96) == le32(c[(dev, 1u32)], 96),
    ensures
        !needs_recovery(unmarked(c, dev, sb)[(dev, 1u32)]),
{
    let x = le32(sb, 96);
    lemma_with_le32(c[(dev, 1u32)], 96, x & 0xFFFF_FFFB);
    assert((x & 0xFFFF_FFFB) & 4 == 0) by (bit_vector);
}

} // verus!
