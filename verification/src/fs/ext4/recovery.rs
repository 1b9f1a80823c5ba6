//! What recovering a file system from its journal comes to.

use crate::bytes::{be16, be32, le16, le32};
use crate::fs::ext4::journal::{
    applied, emptied, fs_block_at, fs_block_put, journal_block, journal_bytes, journal_ino,
    journal_map, journal_offset, lemma_put_at, piece, recover_did, recovered, replayed, revoke_count,
    revoked, size_ok, tag_len, tags, unmarked, Journal,
};
use crate::fs::ext4::map::low32;
use crate::fs::ext4::placing::{
    first_of, in_run, is_sound, lemma_leaf_block, lemma_sound_node, run_start, runs_in_order,
};
use crate::fs::inode::{synced_to, Inode};
use crate::fs::super_block::{supers_settled, supers_synced, to_sync, SuperBlock};
use crate::fs::{Blocks, Fs};
use vstd::prelude::*;

verus! {

/// A transaction as it lies in the journal: a descriptor at `at` that names `blocks`, the
/// new bytes of each of them, a list of the blocks `gone` that are revoked, where there
/// are any, and a commit.
pub struct Logged {
    pub at: int,
    pub blocks: Seq<u64>,
    pub gone: Seq<u64>,
}

impl Logged {
    /// Where the new bytes of the `k`th block are.
    pub open spec fn data_at(self, k: int) -> int {
        self.at + 1 + k
    }

    /// Where the list of revoked blocks is, or the commit where there is none.
    pub open spec fn tail(self) -> int {
        self.at + 1 + self.blocks.len()
    }

    /// Where the commit is.
    pub open spec fn commit_at(self) -> int {
        if self.gone.len() > 0 {
            self.tail() + 1
        } else {
            self.tail()
        }
    }

    /// Block `b` gets the bytes that the journal has for the `k`th block, and no others
    /// of this transaction after them.
    pub open spec fn last_for(self, b: u64, k: int) -> bool {
        &&& 0 <= k < self.blocks.len()
        &&& self.blocks[k] == b
        &&& !self.gone.contains(b)
        &&& forall|i: int| k < i < self.blocks.len() ==> #[trigger] self.blocks[i] != b
    }

    /// Block `b` is left alone.
    pub open spec fn spares(self, b: u64) -> bool {
        self.gone.contains(b) || !self.blocks.contains(b)
    }
}

/// The bytes of a journal block start with the mark of the journal and this kind: 1
/// for a descriptor, 2 for a commit, 5 for a list of revoked blocks.
pub open spec fn is_kind(d: Seq<u8>, kind: u32) -> bool {
    be32(d, 0) == 0xC03B_3998 && be32(d, 4) == kind
}

/// The tag at `o` names block `b`, of which the bytes follow; `last` says whether it
/// is the last. With wide tags there is room for numbers of 64 bits.
pub open spec fn names_block(d: Seq<u8>, o: int, features: u32, b: u64, last: bool) -> bool {
    let flags = if features & 0x10 != 0 {
        be16(d, o + 4)
    } else {
        be16(d, o + 6)
    };
    let high = if features & 0x10 != 0 {
        be32(d, o + 6)
    } else if features & 2 != 0 {
        be32(d, o + 8)
    } else {
        0
    };
    &&& b == be32(d, o) + 0x1_0000_0000 * high
    &&& flags & 2 == 0
    &&& (flags & 8 != 0) == last
}

/// How far apart tags are.
pub open spec fn tag_step(features: u32) -> int {
    if features & 0x10 != 0 {
        16
    } else if features & 2 != 0 {
        12
    } else {
        8
    }
}

/// Entry `i` of a list of revoked blocks.
pub open spec fn revoked_entry(d: Seq<u8>, features: u32, i: int) -> int {
    if features & 2 != 0 {
        be32(d, 8 + 12 * i) + 0x1_0000_0000 * be32(d, 16 + 12 * i)
    } else {
        be32(d, 8 + 4 * i) as int
    }
}

/// How many revoked blocks a list has room for.
pub open spec fn revoke_room(fs_bs: int, features: u32) -> int {
    let n = if features & 2 != 0 {
        (fs_bs - 8) / 12
    } else {
        (fs_bs - 8) / 4
    };
    if n < 128 {
        n
    } else {
        128
    }
}

/// Transaction `t` lies in the journal, whole.
pub open spec fn is_logged(c: Blocks, dev: u16, fs_bs: int, ib: Seq<u8>, j: Journal, t: Logged) -> bool {
    let n = t.blocks.len();
    let m = t.gone.len();
    &&& 0 <= t.at
    &&& t.commit_at() < j.maxlen
    &&& 1 <= n <= 512
    &&& 12 + tag_step(j.features) * n <= fs_bs
    &&& ({
        let d = journal_bytes(c, dev, fs_bs, ib, t.at);
        &&& d is Some && is_kind(d->0, 1)
        &&& forall|k: int|
            0 <= k < n ==> names_block(
                d->0,
                12 + tag_step(j.features) * k,
                j.features,
                #[trigger] t.blocks[k],
                k == n - 1,
            )
    })
    &&& forall|k: int| 0 <= k < n ==> (#[trigger] journal_bytes(c, dev, fs_bs, ib, t.data_at(k))) is Some
    &&& m > 0 ==> {
        let d = journal_bytes(c, dev, fs_bs, ib, t.tail());
        &&& d is Some && is_kind(d->0, 5)
        &&& m <= revoke_room(fs_bs, j.features)
        &&& forall|i: int| 0 <= i < m ==> #[trigger] t.gone[i] == revoked_entry(d->0, j.features, i)
            && t.gone[i] != 0
        &&& m < revoke_room(fs_bs, j.features) ==> revoked_entry(d->0, j.features, m as int) == 0
    }
    &&& ({
        let d = journal_bytes(c, dev, fs_bs, ib, t.commit_at());
        d is Some && is_kind(d->0, 2)
    })
}

/// Where the journal goes on behind transaction `t`: at its first block where it ends.
pub open spec fn goes_on(j: Journal, t: Logged) -> int {
    if t.commit_at() + 1 < j.maxlen {
        t.commit_at() + 1
    } else {
        j.first as int
    }
}

/// Each of the transactions starts where the one before it ends, the first at `pos`.
pub open spec fn in_a_row(j: Journal, pos: int, ts: Seq<Logged>) -> bool {
    &&& ts.len() > 0 ==> ts[0].at == pos
    &&& forall|x: int| 0 < x < ts.len() ==> (#[trigger] ts[x]).at == goes_on(j, ts[x - 1])
}

/// Where the journal ends, behind the last of the transactions.
pub open spec fn end_of(j: Journal, pos: int, ts: Seq<Logged>) -> int {
    if ts.len() == 0 {
        pos
    } else {
        goes_on(j, ts.last())
    }
}

/// The device block is part of a block that one of the transactions names.
pub open spec fn touched(dev: u16, fs_bs: int, ts: Seq<Logged>, key: (u16, u32)) -> bool {
    exists|x: int, k: int, m: int|
        {
            &&& 0 <= x < ts.len()
            &&& 0 <= k < ts[x].blocks.len()
            &&& 0 <= m < fs_bs / 1024
            &&& key == (dev, #[trigger] piece(ts[x].blocks[k] as int, fs_bs, m))
        }
}

/// The blocks `c2` differ from `c` at most where the transactions name blocks.
pub open spec fn differ_there(c: Blocks, c2: Blocks, dev: u16, fs_bs: int, ts: Seq<Logged>) -> bool {
    &&& c2.dom() == c.dom()
    &&& forall|key: (u16, u32)|
        c.dom().contains(key) && !touched(dev, fs_bs, ts, key) ==> #[trigger] c2[key] == c[key]
}

/// What the transactions change is no part of the journal.
pub open spec fn journal_apart(c: Blocks, dev: u16, fs_bs: int, ib: Seq<u8>, ts: Seq<Logged>) -> bool {
    forall|c2: Blocks, p: int|
        differ_there(c, c2, dev, fs_bs, ts) ==> #[trigger] journal_bytes(c2, dev, fs_bs, ib, p)
            == journal_bytes(c, dev, fs_bs, ib, p)
}

/// The number of a block is one that a device can have.
pub open spec fn within(b: u64, fs_bs: int) -> bool {
    (b + 1) * (fs_bs / 1024) <= 0x1_0000_0000
}

/// A journal with the transactions `ts`, from `pos` on, that can be replayed: they are
/// whole, the device has the blocks that they name, and no part of a transaction
/// follows.
pub open spec fn holds_all(c: Blocks, dev: u16, fs_bs: int, ib: Seq<u8>, j: Journal, pos: int, ts: Seq<Logged>) -> bool {
    &&& in_a_row(j, pos, ts)
    &&& forall|x: int| 0 <= x < ts.len() ==> is_logged(c, dev, fs_bs, ib, j, #[trigger] ts[x])
    &&& forall|x: int, k: int|
        0 <= x < ts.len() && 0 <= k < ts[x].blocks.len() ==> within(#[trigger] ts[x].blocks[k], fs_bs)
            && fs_block_at(c, dev, ts[x].blocks[k] as int, fs_bs) is Some
    &&& journal_apart(c, dev, fs_bs, ib, ts)
    &&& ({
        let d = journal_bytes(c, dev, fs_bs, ib, end_of(j, pos, ts));
        d is None || be32(d->0, 0) != 0xC03B_3998
    })
}

// ---- one block ----

proof fn lemma_scale(fs_bs: int)
    requires
        size_ok(fs_bs),
    ensures
        fs_bs / 1024 == 1 || fs_bs / 1024 == 2 || fs_bs / 1024 == 4,
{
}

proof fn lemma_piece(b: u64, fs_bs: int, m: int)
    requires
        size_ok(fs_bs),
        within(b, fs_bs),
        0 <= m < fs_bs / 1024,
    ensures
        piece(b as int, fs_bs, m) == b * (fs_bs / 1024) + m,
{
    lemma_scale(fs_bs);
    let s = fs_bs / 1024;
    assert((b + 1) * s == b * s + s) by (nonlinear_arith);
    assert(b < 0x1_0000_0000) by (nonlinear_arith)
        requires
            (b + 1) * s <= 0x1_0000_0000,
            s >= 1,
    ;
    assert(0 <= b * s) by (nonlinear_arith)
        requires
            s >= 1,
    ;
}

proof fn lemma_pieces(a: u64, b: u64, fs_bs: int, m: int, n: int)
    requires
        size_ok(fs_bs),
        within(a, fs_bs),
        within(b, fs_bs),
        0 <= m < fs_bs / 1024,
        0 <= n < fs_bs / 1024,
        a != b,
    ensures
        piece(a as int, fs_bs, m) != piece(b as int, fs_bs, n),
{
    lemma_piece(a, fs_bs, m);
    lemma_piece(b, fs_bs, n);
    lemma_scale(fs_bs);
    let s = fs_bs / 1024;
    if s == 1 {
    } else if s == 2 {
    } else {
        assert(s == 4);
    }
}

proof fn lemma_put_frame(c: Blocks, dev: u16, blk: int, fs_bs: int, d: Seq<u8>, n: int)
    requires
        0 <= n,
    ensures
        ({
            let c1 = fs_block_put(c, dev, blk, fs_bs, d, n);
            &&& c1.dom() == c.dom()
            &&& forall|key: (u16, u32)|
                c.dom().contains(key) && (forall|m: int|
                    0 <= m < n ==> key != (dev, #[trigger] piece(blk, fs_bs, m))) ==> #[trigger] c1[key]
                    == c[key]
        }),
    decreases n,
{
    if n > 0 {
        lemma_put_frame(c, dev, blk, fs_bs, d, n - 1);
        let c0 = fs_block_put(c, dev, blk, fs_bs, d, n - 1);
        let c1 = fs_block_put(c, dev, blk, fs_bs, d, n);
        assert(c1.dom() =~= c.dom());
        assert forall|key: (u16, u32)|
            c.dom().contains(key) && (forall|m: int|
                0 <= m < n ==> key != (dev, #[trigger] piece(blk, fs_bs, m))) implies #[trigger] c1[key]
            == c[key] by {
            assert(key != (dev, piece(blk, fs_bs, n - 1)));
            assert(c0[key] == c[key]);
        }
    }
}

proof fn lemma_put_other(c: Blocks, dev: u16, a: u64, b: u64, fs_bs: int, d: Seq<u8>)
    requires
        size_ok(fs_bs),
        within(a, fs_bs),
        within(b, fs_bs),
        a != b,
    ensures
        fs_block_at(fs_block_put(c, dev, a as int, fs_bs, d, fs_bs / 1024), dev, b as int, fs_bs)
            == fs_block_at(c, dev, b as int, fs_bs),
{
    let c1 = fs_block_put(c, dev, a as int, fs_bs, d, fs_bs / 1024);
    lemma_put_frame(c, dev, a as int, fs_bs, d, fs_bs / 1024);
    let x = fs_block_at(c, dev, b as int, fs_bs);
    let y = fs_block_at(c1, dev, b as int, fs_bs);
    if x is Some {
        assert forall|p: int| 0 <= p < fs_bs implies x->0[p] == y->0[p] by {
            let n = p / 1024;
            assert(0 <= n < fs_bs / 1024);
            let key = (dev, piece(b as int, fs_bs, n));
            assert(c.dom().contains(key));
            assert forall|m: int| 0 <= m < fs_bs / 1024 implies key != (
                dev,
                #[trigger] piece(a as int, fs_bs, m),
            ) by {
                lemma_pieces(a, b, fs_bs, m, n);
            }
            assert(c1[key] == c[key]);
        }
        assert(x->0 =~= y->0);
    }
}

// ---- one transaction ----

/// The blocks that a transaction names, with the journal blocks of their new bytes.
pub open spec fn pairs_of(t: Logged, n: int) -> Seq<(u64, u64)> {
    Seq::new(n as nat, |k: int| (t.blocks[k], t.data_at(k) as u64))
}

proof fn lemma_tags(c: Blocks, dev: u16, fs_bs: int, ib: Seq<u8>, j: Journal, t: Logged, k: int)
    requires
        size_ok(fs_bs),
        is_logged(c, dev, fs_bs, ib, j, t),
        0 <= k < t.blocks.len(),
    ensures
        tags(
            journal_bytes(c, dev, fs_bs, ib, t.at)->0,
            fs_bs,
            tag_len(j.features),
            12 + tag_len(j.features) * k,
            t.at,
            k,
            pairs_of(t, k),
        ) == (pairs_of(t, t.blocks.len() as int), t.blocks.len() as int),
    decreases t.blocks.len() - k,
{
    let d = journal_bytes(c, dev, fs_bs, ib, t.at)->0;
    let len = tag_len(j.features);
    assert(len == tag_step(j.features));
    let n = t.blocks.len() as int;
    assert(names_block(d, 12 + len * k, j.features, t.blocks[k], k == n - 1));
    assert(len * k + len <= len * n) by (nonlinear_arith)
        requires
            k < n,
            len > 0,
    ;
    assert(len * (k + 1) == len * k + len) by (nonlinear_arith);
    assert(pairs_of(t, k).push((t.blocks[k], t.data_at(k) as u64)) =~= pairs_of(t, k + 1));
    if k < n - 1 {
        lemma_tags(c, dev, fs_bs, ib, j, t, k + 1);
    }
}

proof fn lemma_revoked(d: Seq<u8>, features: u32, gone: Seq<u64>, i: int, n: int)
    requires
        0 <= i <= gone.len() <= n,
        forall|k: int|
            0 <= k < gone.len() ==> #[trigger] gone[k] == revoked_entry(d, features, k) && gone[k] != 0,
        gone.len() < n ==> revoked_entry(d, features, gone.len() as int) == 0,
    ensures
        revoked(
            d,
            crate::fs::ext4::journal::revoke_len(features),
            i,
            n,
            gone.take(i),
        ) == gone,
    decreases gone.len() - i,
{
    if i < gone.len() {
        assert(gone[i] == revoked_entry(d, features, i));
        assert(gone.take(i).push(gone[i]) =~= gone.take(i + 1));
        lemma_revoked(d, features, gone, i + 1, n);
    } else {
        assert(gone.take(i) =~= gone);
    }
}

/// What block `b` holds after the first `n` changes of a transaction.
proof fn lemma_changes(
    c: Blocks,
    dev: u16,
    fs_bs: int,
    ib: Seq<u8>,
    j: Journal,
    t: Logged,
    ts: Seq<Logged>,
    n: int,
)
    requires
        size_ok(fs_bs),
        is_logged(c, dev, fs_bs, ib, j, t),
        ts.len() > 0,
        ts[0] == t,
        journal_apart(c, dev, fs_bs, ib, ts),
        forall|k: int|
            0 <= k < t.blocks.len() ==> within(#[trigger] t.blocks[k], fs_bs) && fs_block_at(
                c,
                dev,
                t.blocks[k] as int,
                fs_bs,
            ) is Some,
        0 <= n <= t.blocks.len(),
    ensures
        ({
            let c1 = applied(
                c,
                dev,
                fs_bs,
                ib,
                pairs_of(t, t.blocks.len() as int),
                t.gone,
                n,
            );
            &&& differ_there(c, c1, dev, fs_bs, seq![t])
            &&& forall|b: u64, k: int|
                within(b, fs_bs) && 0 <= k < n && t.blocks[k] == b && !t.gone.contains(b) && (forall|i: int|
                    k < i < n ==> #[trigger] t.blocks[i] != b) ==> #[trigger] fs_block_at(
                    c1,
                    dev,
                    b as int,
                    fs_bs,
                ) == #[trigger] journal_bytes(c, dev, fs_bs, ib, t.data_at(k))
            &&& forall|b: u64|
                within(b, fs_bs) && (t.gone.contains(b) || forall|i: int|
                    0 <= i < n ==> #[trigger] t.blocks[i] != b) ==> #[trigger] fs_block_at(
                    c1,
                    dev,
                    b as int,
                    fs_bs,
                ) == fs_block_at(c, dev, b as int, fs_bs)
        }),
    decreases n,
{
    let pairs = pairs_of(t, t.blocks.len() as int);
    let c1 = applied(c, dev, fs_bs, ib, pairs, t.gone, n);
    let one = seq![t];
    if n > 0 {
        lemma_changes(c, dev, fs_bs, ib, j, t, ts, n - 1);
        let c0 = applied(c, dev, fs_bs, ib, pairs, t.gone, n - 1);
        let a = t.blocks[n - 1];
        assert(pairs[n - 1] == (a, t.data_at(n - 1) as u64));
        assert(within(a, fs_bs) && fs_block_at(c, dev, a as int, fs_bs) is Some);
        assert(t.data_at(n - 1) as u64 == t.data_at(n - 1));
        if !t.gone.contains(a) {
            lemma_wider(dev, fs_bs, ts);
            assert(differ_there(c, c0, dev, fs_bs, ts));
            let jb = journal_bytes(c0, dev, fs_bs, ib, t.data_at(n - 1));
            assert(jb == journal_bytes(c, dev, fs_bs, ib, t.data_at(n - 1)));
            assert(jb is Some);
            let d = jb->0;
            assert(c1 == fs_block_put(c0, dev, a as int, fs_bs, d, fs_bs / 1024));
            assert(d.len() == fs_bs);
            assert(fs_block_at(c0, dev, a as int, fs_bs) is Some) by {
                assert forall|k: int| 0 <= k < fs_bs / 1024 implies c0.dom().contains(
                    (dev, #[trigger] piece(a as int, fs_bs, k)),
                ) by {
                    assert(c.dom().contains((dev, piece(a as int, fs_bs, k))));
                }
            }
            lemma_put_at(c0, dev, a as int, fs_bs, d, fs_bs / 1024);
            lemma_put_frame(c0, dev, a as int, fs_bs, d, fs_bs / 1024);
            assert forall|key: (u16, u32)|
                c.dom().contains(key) && !touched(dev, fs_bs, one, key) implies #[trigger] c1[key]
                == c[key] by {
                assert forall|m: int| 0 <= m < fs_bs / 1024 implies key != (
                    dev,
                    #[trigger] piece(a as int, fs_bs, m),
                ) by {
                    assert(one[0].blocks[n - 1] == a);
                    if key == (dev, piece(a as int, fs_bs, m)) {
                        assert(key == (dev, piece(one[0].blocks[n - 1] as int, fs_bs, m)));
                        assert(touched(dev, fs_bs, one, key));
                    }
                }
                assert(c0[key] == c[key]);
            }
            assert forall|b: u64| within(b, fs_bs) && b != a implies #[trigger] fs_block_at(
                c1,
                dev,
                b as int,
                fs_bs,
            ) == fs_block_at(c0, dev, b as int, fs_bs) by {
                lemma_put_other(c0, dev, a, b, fs_bs, d);
            }
        }
        assert forall|b: u64, k: int|
            within(b, fs_bs) && 0 <= k < n && t.blocks[k] == b && !t.gone.contains(b) && (forall|i: int|
                k < i < n ==> #[trigger] t.blocks[i] != b) implies #[trigger] fs_block_at(
            c1,
            dev,
            b as int,
            fs_bs,
        ) == #[trigger] journal_bytes(c, dev, fs_bs, ib, t.data_at(k)) by {
            if k < n - 1 {
                assert(t.blocks[n - 1] != b);
                assert(fs_block_at(c0, dev, b as int, fs_bs) == journal_bytes(
                    c,
                    dev,
                    fs_bs,
                    ib,
                    t.data_at(k),
                ));
            }
        }
        assert forall|b: u64|
            within(b, fs_bs) && (t.gone.contains(b) || forall|i: int|
                0 <= i < n ==> #[trigger] t.blocks[i] != b) implies #[trigger] fs_block_at(
            c1,
            dev,
            b as int,
            fs_bs,
        ) == fs_block_at(c, dev, b as int, fs_bs) by {
            assert(fs_block_at(c0, dev, b as int, fs_bs) == fs_block_at(c, dev, b as int, fs_bs));
            if !t.gone.contains(b) {
                assert(t.blocks[n - 1] != b);
            }
        }
    }
}

proof fn lemma_wider(dev: u16, fs_bs: int, ts: Seq<Logged>)
    requires
        ts.len() > 0,
    ensures
        forall|key: (u16, u32)| touched(dev, fs_bs, seq![ts[0]], key) ==> #[trigger] touched(dev, fs_bs, ts, key),
        forall|key: (u16, u32)|
            touched(dev, fs_bs, ts.skip(1), key) ==> #[trigger] touched(dev, fs_bs, ts, key),
{
    let one = seq![ts[0]];
    assert forall|key: (u16, u32)| touched(dev, fs_bs, one, key) implies #[trigger] touched(
        dev,
        fs_bs,
        ts,
        key,
    ) by {
        let (x, k, m) = choose|x: int, k: int, m: int|
            {
                &&& 0 <= x < one.len()
                &&& 0 <= k < one[x].blocks.len()
                &&& 0 <= m < fs_bs / 1024
                &&& key == (dev, #[trigger] piece(one[x].blocks[k] as int, fs_bs, m))
            };
        assert(key == (dev, piece(ts[0].blocks[k] as int, fs_bs, m)));
    }
    let rest = ts.skip(1);
    assert forall|key: (u16, u32)| touched(dev, fs_bs, rest, key) implies #[trigger] touched(
        dev,
        fs_bs,
        ts,
        key,
    ) by {
        let (x, k, m) = choose|x: int, k: int, m: int|
            {
                &&& 0 <= x < rest.len()
                &&& 0 <= k < rest[x].blocks.len()
                &&& 0 <= m < fs_bs / 1024
                &&& key == (dev, #[trigger] piece(rest[x].blocks[k] as int, fs_bs, m))
            };
        assert(key == (dev, piece(ts[x + 1].blocks[k] as int, fs_bs, m)));
    }
}

/// A transaction that is whole is gone through, and its changes are made; the replay
/// then goes on behind it as if it had started there.
pub proof fn lemma_transaction(
    c: Blocks,
    dev: u16,
    fs_bs: int,
    ib: Seq<u8>,
    j: Journal,
    t: Logged,
    left: nat,
)
    requires
        size_ok(fs_bs),
        is_logged(c, dev, fs_bs, ib, j, t),
        left >= 3,
    ensures
        exists|left1: nat|
            {
                &&& left1 >= left - 3
                &&& replayed(c, dev, fs_bs, ib, j, t.at, Seq::empty(), Seq::empty(), false, left)
                    == #[trigger] replayed(
                    applied(
                        c,
                        dev,
                        fs_bs,
                        ib,
                        pairs_of(t, t.blocks.len() as int),
                        t.gone,
                        t.blocks.len() as int,
                    ),
                    dev,
                    fs_bs,
                    ib,
                    j,
                    goes_on(j, t),
                    Seq::empty(),
                    Seq::empty(),
                    false,
                    left1,
                )
            },
{
    let n = t.blocks.len() as int;
    let d = journal_bytes(c, dev, fs_bs, ib, t.at)->0;
    let none = Seq::<u64>::empty();
    assert(pairs_of(t, 0) =~= Seq::<(u64, u64)>::empty());
    lemma_tags(c, dev, fs_bs, ib, j, t, 0);
    let pairs = pairs_of(t, n);
    let l1 = (left - 1) as nat;
    assert(j.wrapped(t.at + 1 + n) == t.tail());
    assert(replayed(c, dev, fs_bs, ib, j, t.at, Seq::empty(), none, false, left) == replayed(
        c,
        dev,
        fs_bs,
        ib,
        j,
        t.tail(),
        pairs,
        none,
        true,
        l1,
    ));
    let l2 = if t.gone.len() > 0 {
        (l1 - 1) as nat
    } else {
        l1
    };
    if t.gone.len() > 0 {
        let e = journal_bytes(c, dev, fs_bs, ib, t.tail())->0;
        let len = crate::fs::ext4::journal::revoke_len(j.features);
        let cnt = revoke_count(fs_bs, len, 0);
        assert(cnt == revoke_room(fs_bs, j.features));
        assert(t.gone.take(0) =~= none);
        lemma_revoked(e, j.features, t.gone, 0, cnt);
        assert(revoked(e, len, 0, cnt, none) == t.gone);
        assert(j.wrapped(t.tail() + 1) == t.commit_at());
        assert(replayed(c, dev, fs_bs, ib, j, t.tail(), pairs, none, true, l1) == replayed(
            c,
            dev,
            fs_bs,
            ib,
            j,
            t.commit_at(),
            pairs,
            t.gone,
            true,
            l2,
        ));
    } else {
        assert(t.gone =~= none);
    }
    let c1 = applied(c, dev, fs_bs, ib, pairs, t.gone, n);
    let l3 = (l2 - 1) as nat;
    assert(j.wrapped(t.commit_at() + 1) == goes_on(j, t));
    assert(replayed(c, dev, fs_bs, ib, j, t.commit_at(), pairs, t.gone, true, l2) == replayed(
        c1,
        dev,
        fs_bs,
        ib,
        j,
        goes_on(j, t),
        Seq::empty(),
        Seq::empty(),
        false,
        l3,
    ));
}

// ---- the whole journal ----

/// Every transaction of a journal is replayed, one after the other. A block has the
/// bytes that the journal has for the last change of it that is not revoked; one that
/// no transaction changes is as before. Blocks outside those that are named are not
/// touched.
pub proof fn lemma_replay_all(
    c: Blocks,
    dev: u16,
    fs_bs: int,
    ib: Seq<u8>,
    j: Journal,
    pos: int,
    ts: Seq<Logged>,
    left: nat,
)
    requires
        size_ok(fs_bs),
        holds_all(c, dev, fs_bs, ib, j, pos, ts),
        left >= 3 * ts.len(),
    ensures
        ({
            let c1 = replayed(c, dev, fs_bs, ib, j, pos, Seq::empty(), Seq::empty(), false, left);
            &&& differ_there(c, c1, dev, fs_bs, ts)
            &&& forall|b: u64, x: int, k: int|
                within(b, fs_bs) && 0 <= x < ts.len() && #[trigger] ts[x].last_for(b, k) && (forall|y: int|
                    x < y < ts.len() ==> (#[trigger] ts[y]).spares(b)) ==> fs_block_at(
                    c1,
                    dev,
                    b as int,
                    fs_bs,
                ) == journal_bytes(c, dev, fs_bs, ib, ts[x].data_at(k))
            &&& forall|b: u64|
                within(b, fs_bs) && (forall|y: int| 0 <= y < ts.len() ==> (#[trigger] ts[y]).spares(b))
                    ==> #[trigger] fs_block_at(c1, dev, b as int, fs_bs) == fs_block_at(
                    c,
                    dev,
                    b as int,
                    fs_bs,
                )
        }),
    decreases ts.len(),
{
    let c1 = replayed(c, dev, fs_bs, ib, j, pos, Seq::empty(), Seq::empty(), false, left);
    if ts.len() == 0 {
        let d = journal_bytes(c, dev, fs_bs, ib, pos);
        assert(c1 == c);
    } else {
        let t = ts[0];
        let n = t.blocks.len() as int;
        let rest = ts.skip(1);
        assert(is_logged(c, dev, fs_bs, ib, j, ts[0]));
        lemma_transaction(c, dev, fs_bs, ib, j, t, left);
        let cm = applied(c, dev, fs_bs, ib, pairs_of(t, n), t.gone, n);
        let next = goes_on(j, t);
        let left1 = choose|left1: nat|
            {
                &&& left1 >= left - 3
                &&& c1 == #[trigger] replayed(
                    cm,
                    dev,
                    fs_bs,
                    ib,
                    j,
                    next,
                    Seq::empty(),
                    Seq::empty(),
                    false,
                    left1,
                )
            };
        assert forall|k: int| 0 <= k < t.blocks.len() implies within(#[trigger] t.blocks[k], fs_bs)
            && fs_block_at(c, dev, t.blocks[k] as int, fs_bs) is Some by {
            assert(within(ts[0].blocks[k], fs_bs));
        }
        lemma_changes(c, dev, fs_bs, ib, j, t, ts, n);
        lemma_wider(dev, fs_bs, ts);
        assert(differ_there(c, cm, dev, fs_bs, ts));
        assert forall|p: int| #[trigger] journal_bytes(cm, dev, fs_bs, ib, p) == journal_bytes(
            c,
            dev,
            fs_bs,
            ib,
            p,
        ) by {}
        // the rest of the journal
        assert(holds_all(cm, dev, fs_bs, ib, j, next, rest)) by {
            assert forall|x: int| 0 < x < rest.len() implies (#[trigger] rest[x]).at == goes_on(
                j,
                rest[x - 1],
            ) by {
                assert(rest[x] == ts[x + 1]);
            }
            if rest.len() > 0 {
                assert(rest[0] == ts[1]);
                assert(ts[1].at == goes_on(j, ts[0]));
                assert(rest.last() == ts.last());
            }
            assert forall|x: int| 0 <= x < rest.len() implies is_logged(
                cm,
                dev,
                fs_bs,
                ib,
                j,
                #[trigger] rest[x],
            ) by {
                assert(rest[x] == ts[x + 1]);
                assert(is_logged(c, dev, fs_bs, ib, j, ts[x + 1]));
                let u = ts[x + 1];
                assert forall|k: int| 0 <= k < u.blocks.len() implies (#[trigger] journal_bytes(
                    cm,
                    dev,
                    fs_bs,
                    ib,
                    u.data_at(k),
                )) is Some by {
                    assert(journal_bytes(c, dev, fs_bs, ib, u.data_at(k)) is Some);
                }
            }
            assert forall|x: int, k: int|
                0 <= x < rest.len() && 0 <= k < rest[x].blocks.len() implies within(
                #[trigger] rest[x].blocks[k],
                fs_bs,
            ) && fs_block_at(cm, dev, rest[x].blocks[k] as int, fs_bs) is Some by {
                let a = ts[x + 1].blocks[k];
                assert(within(ts[x + 1].blocks[k], fs_bs));
                assert(fs_block_at(c, dev, a as int, fs_bs) is Some);
                assert forall|m: int| 0 <= m < fs_bs / 1024 implies cm.dom().contains(
                    (dev, #[trigger] piece(a as int, fs_bs, m)),
                ) by {
                    assert(c.dom().contains((dev, piece(a as int, fs_bs, m))));
                }
            }
            assert forall|c2: Blocks, p: int|
                differ_there(cm, c2, dev, fs_bs, rest) implies #[trigger] journal_bytes(
                c2,
                dev,
                fs_bs,
                ib,
                p,
            ) == journal_bytes(cm, dev, fs_bs, ib, p) by {
                assert(differ_there(c, c2, dev, fs_bs, ts)) by {
                    assert forall|key: (u16, u32)|
                        c.dom().contains(key) && !touched(dev, fs_bs, ts, key) implies #[trigger] c2[key]
                        == c[key] by {
                        assert(cm[key] == c[key]);
                    }
                }
            }
        }
        lemma_replay_all(cm, dev, fs_bs, ib, j, next, rest, left1);
        assert(differ_there(c, c1, dev, fs_bs, ts)) by {
            assert forall|key: (u16, u32)| c.dom().contains(key) && !touched(dev, fs_bs, ts, key) implies #[trigger] c1[key]
                == c[key] by {
                assert(cm[key] == c[key]);
            }
        }
        assert forall|b: u64, x: int, k: int|
            within(b, fs_bs) && 0 <= x < ts.len() && #[trigger] ts[x].last_for(b, k) && (forall|y: int|
                x < y < ts.len() ==> (#[trigger] ts[y]).spares(b)) implies fs_block_at(
            c1,
            dev,
            b as int,
            fs_bs,
        ) == journal_bytes(c, dev, fs_bs, ib, ts[x].data_at(k)) by {
            if x > 0 {
                assert(rest[x - 1] == ts[x]);
                assert(rest[x - 1].last_for(b, k));
                assert forall|y: int| x - 1 < y < rest.len() implies (#[trigger] rest[y]).spares(b) by {
                    assert(rest[y] == ts[y + 1]);
                }
            } else {
                assert forall|y: int| 0 <= y < rest.len() implies (#[trigger] rest[y]).spares(b) by {
                    assert(rest[y] == ts[y + 1]);
                }
                assert(fs_block_at(c1, dev, b as int, fs_bs) == fs_block_at(cm, dev, b as int, fs_bs));
                assert(journal_bytes(c, dev, fs_bs, ib, t.data_at(k)) is Some);
            }
        }
        assert forall|b: u64|
            within(b, fs_bs) && (forall|y: int| 0 <= y < ts.len() ==> (#[trigger] ts[y]).spares(b))
            implies #[trigger] fs_block_at(c1, dev, b as int, fs_bs) == fs_block_at(
            c,
            dev,
            b as int,
            fs_bs,
        ) by {
            assert forall|y: int| 0 <= y < rest.len() implies (#[trigger] rest[y]).spares(b) by {
                assert(rest[y] == ts[y + 1]);
            }
            assert(ts[0].spares(b));
            if !t.gone.contains(b) {
                assert forall|i: int| 0 <= i < n implies #[trigger] t.blocks[i] != b by {
                    if t.blocks[i] == b {
                        assert(t.blocks.contains(b));
                    }
                }
            }
            assert(fs_block_at(cm, dev, b as int, fs_bs) == fs_block_at(c, dev, b as int, fs_bs));
        }
    }
}

/// The bytes of a block of the file system are those of the buffers that it takes up, one
/// behind the other.
pub proof fn lemma_block_bytes(c: Blocks, dev: u16, b: u64, fs_bs: int)
    requires
        size_ok(fs_bs),
        within(b, fs_bs),
    ensures
        fs_block_at(c, dev, b as int, fs_bs) is Some <==> forall|m: int|
            0 <= m < fs_bs / 1024 ==> c.dom().contains((dev, #[trigger] ((b * (fs_bs / 1024) + m) as u32))),
        fs_block_at(c, dev, b as int, fs_bs) is Some ==> {
            let d = fs_block_at(c, dev, b as int, fs_bs)->0;
            &&& d.len() == fs_bs
            &&& forall|p: int|
                0 <= p < fs_bs ==> #[trigger] d[p] == c[(dev, (b * (fs_bs / 1024) + p / 1024) as u32)][p
                    % 1024]
        },
{
    assert forall|m: int| 0 <= m < fs_bs / 1024 implies #[trigger] piece(b as int, fs_bs, m) == (b * (fs_bs
        / 1024) + m) as u32 by {
        lemma_piece(b, fs_bs, m);
    }
    if fs_block_at(c, dev, b as int, fs_bs) is Some {
        let d = fs_block_at(c, dev, b as int, fs_bs)->0;
        assert forall|m: int| 0 <= m < fs_bs / 1024 implies c.dom().contains(
            (dev, #[trigger] ((b * (fs_bs / 1024) + m) as u32)),
        ) by {
            assert(c.dom().contains((dev, piece(b as int, fs_bs, m))));
        }
        assert forall|p: int| 0 <= p < fs_bs implies #[trigger] d[p] == c[(
            dev,
            (b * (fs_bs / 1024) + p / 1024) as u32,
        )][p % 1024] by {
            assert(0 <= p / 1024 < fs_bs / 1024);
            assert(piece(b as int, fs_bs, p / 1024) == (b * (fs_bs / 1024) + p / 1024) as u32);
        }
    }
    if forall|m: int|
        0 <= m < fs_bs / 1024 ==> c.dom().contains((dev, #[trigger] ((b * (fs_bs / 1024) + m) as u32))) {
        assert forall|m: int| 0 <= m < fs_bs / 1024 implies c.dom().contains(
            (dev, #[trigger] piece(b as int, fs_bs, m)),
        ) by {
            assert(c.dom().contains((dev, (b * (fs_bs / 1024) + m) as u32)));
        }
    }
}

/// Where journal block `l` is: that is said by the runs in its inode, or by its pointers.
pub proof fn lemma_journal_place(c: Blocks, dev: u16, fs_bs: int, ib: Seq<u8>, l: u32, k: int)
    requires
        size_ok(fs_bs),
    ensures
        is_sound(ib, 0) && runs_in_order(ib) && in_run(ib, k, l) ==> journal_block(
            c,
            dev,
            fs_bs,
            ib,
            l as int,
        ) == Some(run_start(ib, k) + (l - first_of(ib, k))),
        le16(ib, 0) != 0xF30A && l < 12 && le32(ib, 4 * l) != 0 ==> journal_block(
            c,
            dev,
            fs_bs,
            ib,
            l as int,
        ) == Some(le32(ib, 4 * l) as int),
{
    assert(low32(l as int) == l);
    if is_sound(ib, 0) && runs_in_order(ib) && in_run(ib, k, l) {
        lemma_leaf_block(ib, l);
        lemma_sound_node(ib, 0);
    }
}

/// The journal blocks from the thirteenth on are those in the block of pointers, which has
/// 256 of them in each of its buffers.
pub proof fn lemma_journal_indirect(c: Blocks, dev: u16, fs_bs: int, ib: Seq<u8>, k: int, m: int, p: u32)
    requires
        size_ok(fs_bs),
        le16(ib, 0) != 0xF30A,
        0 <= m < fs_bs / 1024,
        256 * m <= k < 256 * m + 256,
        le32(ib, 48) != 0,
        within(le32(ib, 48) as u64, fs_bs),
        ({
            let key = (dev, (le32(ib, 48) * (fs_bs / 1024) + m) as u32);
            c.dom().contains(key) && le32(c[key], 4 * (k - 256 * m)) == p
        }),
        p != 0,
    ensures
        journal_block(c, dev, fs_bs, ib, 12 + k) == Some(p as int),
{
    let ind = le32(ib, 48) as int;
    assert(low32(12 + k) == 12 + k);
    assert(4 * k / 1024 == m && 4 * k % 1024 == 4 * (k - 256 * m));
    lemma_piece(ind as u64, fs_bs, m);
    lemma_scale(fs_bs);
    assert(low32(ind) == ind);
    assert(low32(ind * (fs_bs / 1024) + m) == piece(ind, fs_bs, m));
}

/// The journal of the file system with super block `sb` has its inode at `o` in `iblock`,
/// its first block is `head`, and it holds the transactions `ts`.
pub open spec fn has_journal(
    c: Blocks,
    dev: u16,
    sb: Seq<u8>,
    table: int,
    inode_size: int,
    fs_bs: int,
    ipg: int,
    iblock: u32,
    o: int,
    head: u64,
    ts: Seq<Logged>,
) -> bool {
    let ino = if le32(sb, 224) == 0 {
        8
    } else {
        le32(sb, 224) as int
    };
    let ib = c[(dev, iblock)].subrange(o + 40, o + 100);
    let d = fs_block_at(c, dev, head as int, fs_bs);
    &&& size_ok(fs_bs)
    &&& ino <= ipg
    &&& (ino - 1) * inode_size == 1024 * (iblock - table) + o
    &&& 0 <= o && o + inode_size <= 1024 && inode_size >= 128 && 0 <= table <= iblock
    &&& c.dom().contains((dev, iblock))
    &&& journal_block(c, dev, fs_bs, ib, 0) == Some(head as int)
    &&& within(head, fs_bs)
    &&& d is Some
    &&& be32(d->0, 0) == 0xC03B_3998
    &&& be32(d->0, 12) == fs_bs
    &&& be32(d->0, 28) != 0
    &&& be32(d->0, 16) > 0
    &&& be32(d->0, 16) >= 3 * ts.len()
    &&& holds_all(
        c,
        dev,
        fs_bs,
        ib,
        Journal { features: be32(d->0, 36), maxlen: be32(d->0, 16), first: be32(d->0, 20) },
        be32(d->0, 28) as int,
        ts,
    )
    &&& forall|x: int| 0 <= x < ts.len() ==> (#[trigger] ts[x]).spares(head)
}

/// The blocks that a recovery leaves: those that a transaction names have the bytes of the
/// last change that is not revoked, the others are as before, and the journal no longer
/// says where it starts.
#[verifier::spinoff_prover]
#[verifier::rlimit(60)]
pub proof fn lemma_recovered(
    c: Blocks,
    dev: u16,
    sb: Seq<u8>,
    table: int,
    inode_size: int,
    fs_bs: int,
    ipg: int,
    iblock: u32,
    o: int,
    head: u64,
    ts: Seq<Logged>,
)
    requires
        has_journal(c, dev, sb, table, inode_size, fs_bs, ipg, iblock, o, head, ts),
    ensures
        ({
            let c2 = recovered(c, dev, sb, table, inode_size, fs_bs, ipg);
            let ib = c[(dev, iblock)].subrange(o + 40, o + 100);
            let d = fs_block_at(c, dev, head as int, fs_bs)->0;
            &&& c2.dom() == c.dom()
            &&& forall|b: u64, x: int, k: int|
                within(b, fs_bs) && b != head && 0 <= x < ts.len() && #[trigger] ts[x].last_for(b, k) && (
                forall|y: int| x < y < ts.len() ==> (#[trigger] ts[y]).spares(b)) ==> fs_block_at(
                    c2,
                    dev,
                    b as int,
                    fs_bs,
                ) == journal_bytes(c, dev, fs_bs, ib, ts[x].data_at(k))
            &&& forall|b: u64|
                within(b, fs_bs) && b != head && (forall|y: int|
                    0 <= y < ts.len() ==> (#[trigger] ts[y]).spares(b)) ==> #[trigger] fs_block_at(
                    c2,
                    dev,
                    b as int,
                    fs_bs,
                ) == fs_block_at(c, dev, b as int, fs_bs)
            &&& fs_block_at(c2, dev, head as int, fs_bs) is Some
            &&& be32(fs_block_at(c2, dev, head as int, fs_bs)->0, 28) == 0
            &&& forall|p: int|
                0 <= p < fs_bs && !(28 <= p < 32) ==> #[trigger] fs_block_at(
                    c2,
                    dev,
                    head as int,
                    fs_bs,
                )->0[p] == d[p]
        }),
{
    let n = (journal_ino(sb) - 1) * inode_size;
    assert(1 <= journal_ino(sb) <= ipg);
    assert((journal_ino(sb) - 1) % ipg == journal_ino(sb) - 1 && (journal_ino(sb) - 1) / ipg == 0) by {
        vstd::arithmetic::div_mod::lemma_small_mod((journal_ino(sb) - 1) as nat, ipg as nat);
        vstd::arithmetic::div_mod::lemma_basic_div(journal_ino(sb) - 1, ipg);
    }
    assert(journal_offset(sb, ipg, inode_size) == n);
    assert(n / 1024 == iblock - table && n % 1024 == o);
    assert(low32(iblock as int) == iblock);
    let ib = c[(dev, iblock)].subrange(o + 40, o + 100);
    assert(journal_map(c, dev, sb, table, ipg, inode_size) == Some(ib));
    let d = fs_block_at(c, dev, head as int, fs_bs)->0;
    let j = Journal { features: be32(d, 36), maxlen: be32(d, 16), first: be32(d, 20) };
    lemma_replay_all(c, dev, fs_bs, ib, j, be32(d, 28) as int, ts, j.maxlen as nat);
    let c1 = replayed(
        c,
        dev,
        fs_bs,
        ib,
        j,
        be32(d, 28) as int,
        Seq::empty(),
        Seq::empty(),
        false,
        j.maxlen as nat,
    );
    assert(fs_block_at(c1, dev, head as int, fs_bs) == Some(d));
    let e = emptied(d);
    let c2 = fs_block_put(c1, dev, head as int, fs_bs, e, fs_bs / 1024);
    assert(recovered(c, dev, sb, table, inode_size, fs_bs, ipg) == c2);
    assert(d.len() == fs_bs);
    lemma_put_at(c1, dev, head as int, fs_bs, e, fs_bs / 1024);
    assert forall|b: u64| within(b, fs_bs) && b != head implies #[trigger] fs_block_at(
        c2,
        dev,
        b as int,
        fs_bs,
    ) == fs_block_at(c1, dev, b as int, fs_bs) by {
        lemma_put_other(c1, dev, head, b, fs_bs, e);
    }
    assert(e[28] == 0 && e[29] == 0 && e[30] == 0 && e[31] == 0);
    assert forall|b: u64, x: int, k: int|
        within(b, fs_bs) && b != head && 0 <= x < ts.len() && #[trigger] ts[x].last_for(b, k) && (forall|y: int|
            x < y < ts.len() ==> (#[trigger] ts[y]).spares(b)) implies fs_block_at(
        c2,
        dev,
        b as int,
        fs_bs,
    ) == journal_bytes(c, dev, fs_bs, ib, ts[x].data_at(k)) by {
        assert(fs_block_at(c2, dev, b as int, fs_bs) == fs_block_at(c1, dev, b as int, fs_bs));
    }
}

proof fn lemma_nothing_synced(c: Blocks, supers: Seq<SuperBlock>, inodes: Seq<Inode>, dev: u16, k: int)
    requires
        dev != 0,
        0 <= k <= 64,
        forall|x: int| 0 <= x < 4 ==> !to_sync(#[trigger] supers[x], dev),
        forall|x: int| 0 <= x < 64 && (#[trigger] inodes[x]).in_use && inodes[x].i_dev == dev ==> !inodes[x].i_dirt,
    ensures
        supers_synced(c, supers, dev, 4) == c,
        synced_to(c, supers_settled(supers, dev), inodes, dev, k) == c,
    decreases k,
{
    reveal_with_fuel(supers_synced, 5);
    assert(!to_sync(supers[0], dev) && !to_sync(supers[1], dev) && !to_sync(supers[2], dev) && !to_sync(
        supers[3],
        dev,
    ));
    if k > 0 {
        lemma_nothing_synced(c, supers, inodes, dev, k - 1);
        let i = inodes[k - 1];
    }
}

/// Recovering a file system that was not unmounted cleanly succeeds, and the blocks that
/// its journal has changes of then have the bytes of the last change, all others but the
/// super block and the head of the journal being as before. It need not be recovered
/// again, and the device holds all of it.
#[verifier::spinoff_prover]
#[verifier::rlimit(60)]
pub proof fn lemma_recover(
    fs0: &Fs,
    fs: &Fs,
    dev: u16,
    sb: Seq<u8>,
    table: int,
    inode_size: int,
    fs_bs: int,
    ipg: int,
    r: bool,
    iblock: u32,
    o: int,
    head: u64,
    ts: Seq<Logged>,
)
    requires
        recover_did(fs0, fs, dev, sb, table, inode_size, fs_bs, ipg, r),
        le32(sb, 92) & 4 != 0,
        le32(sb, 96) & 4 != 0,
        has_journal(fs0.blocks(), dev, sb, table, inode_size, fs_bs, ipg, iblock, o, head, ts),
        dev != 0,
        fs0.blocks().dom().contains((dev, 1u32)),
        forall|x: int| 0 <= x < 4 ==> !to_sync(#[trigger] fs0.supers@[x], dev),
        forall|x: int|
            0 <= x < 64 && (#[trigger] fs0.inodes@[x]).in_use && fs0.inodes@[x].i_dev == dev
                ==> !fs0.inodes@[x].i_dirt,
    ensures
        r,
        ({
            let ib = fs0.blocks()[(dev, iblock)].subrange(o + 40, o + 100);
            &&& forall|b: u64, x: int, k: int|
                within(b, fs_bs) && b * (fs_bs / 1024) > 1 && b != head && 0 <= x < ts.len()
                    && #[trigger] ts[x].last_for(b, k) && (forall|y: int|
                    x < y < ts.len() ==> (#[trigger] ts[y]).spares(b)) ==> fs_block_at(
                    fs.blocks(),
                    dev,
                    b as int,
                    fs_bs,
                ) == journal_bytes(fs0.blocks(), dev, fs_bs, ib, ts[x].data_at(k))
            &&& forall|b: u64|
                within(b, fs_bs) && b * (fs_bs / 1024) > 1 && b != head && (forall|y: int|
                    0 <= y < ts.len() ==> (#[trigger] ts[y]).spares(b)) ==> #[trigger] fs_block_at(
                    fs.blocks(),
                    dev,
                    b as int,
                    fs_bs,
                ) == fs_block_at(fs0.blocks(), dev, b as int, fs_bs)
        }),
        forall|key: (u16, u32)|
            key.0 == dev && #[trigger] fs.blocks().dom().contains(key) ==> fs.cache.stored()[key]
                == fs.blocks()[key],
{
    let c0 = fs0.blocks();
    lemma_recovered(c0, dev, sb, table, inode_size, fs_bs, ipg, iblock, o, head, ts);
    let c2 = recovered(c0, dev, sb, table, inode_size, fs_bs, ipg);
    let c3 = unmarked(c2, dev, sb);
    lemma_nothing_synced(c3, fs0.supers@, fs0.inodes@, dev, 64);
    assert(fs.blocks() == c3);
    assert(c3.dom() =~= c2.dom());
    assert forall|b: u64| within(b, fs_bs) && b * (fs_bs / 1024) > 1 implies #[trigger] fs_block_at(
        c3,
        dev,
        b as int,
        fs_bs,
    ) == fs_block_at(c2, dev, b as int, fs_bs) by {
        let x = fs_block_at(c2, dev, b as int, fs_bs);
        let y = fs_block_at(c3, dev, b as int, fs_bs);
        if x is Some {
            assert forall|p: int| 0 <= p < fs_bs implies x->0[p] == y->0[p] by {
                lemma_piece(b, fs_bs, p / 1024);
                assert(c3[(dev, piece(b as int, fs_bs, p / 1024))] == c2[(
                    dev,
                    piece(b as int, fs_bs, p / 1024),
                )]);
            }
            assert(x->0 =~= y->0);
        }
    }
    let ib = c0[(dev, iblock)].subrange(o + 40, o + 100);
    assert forall|b: u64, x: int, k: int|
        within(b, fs_bs) && b * (fs_bs / 1024) > 1 && b != head && 0 <= x < ts.len()
            && #[trigger] ts[x].last_for(b, k) && (forall|y: int|
            x < y < ts.len() ==> (#[trigger] ts[y]).spares(b)) implies fs_block_at(
        fs.blocks(),
        dev,
        b as int,
        fs_bs,
    ) == journal_bytes(c0, dev, fs_bs, ib, ts[x].data_at(k)) by {
        assert(fs_block_at(c3, dev, b as int, fs_bs) == fs_block_at(c2, dev, b as int, fs_bs));
    }
}

} // verus!
