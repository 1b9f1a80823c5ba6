//! The block cache.
//!
//! Sixty-four buffers of one block each. Every buffer hangs on a ring in the
//! order in which it would be given to another block, and every buffer that
//! belongs to a block hangs on the chain of that block's hash. Links are
//! indices, `NIL` stands for none.
//!
//! There is at most one buffer for a block: a write then cannot go to one copy
//! while a read is answered from another. The block devices below the cache are
//! kept in memory and finish a transfer before they return, so no buffer is
//! ever seen locked.

use vstd::prelude::*;

verus! {

pub const BLOCK_SIZE: usize = 1024;
pub const BLOCK_SIZE_BITS: usize = 10;
pub const NR_BUFFERS: usize = 64;
pub const NR_HASH: usize = 61;
pub const NIL: usize = usize::MAX;

/// A buffer and its links.
pub struct BufferHead {
    pub b_data: Vec<u8>,
    pub b_size: usize,
    pub b_blocknr: u32,
    /// Zero where the buffer belongs to no block.
    pub b_dev: u16,
    pub b_count: u16,
    /// The data is that of the block.
    pub b_uptodate: bool,
    /// The data is newer than that on the device.
    pub b_dirt: bool,
    pub b_lock: bool,
    /// A transfer was started since the buffer was given to its block.
    pub b_req: bool,
    /// The buffer's own place in the table.
    pub b_slot: usize,
    pub b_prev: usize,
    pub b_next: usize,
    pub b_prev_free: usize,
    pub b_next_free: usize,
    pub b_reqnext: usize,
}

impl BufferHead {
    /// The data area has the size of a block.
    pub open spec fn data_ok(&self) -> bool {
        self.b_size == 1024 && self.b_data@.len() == 1024
    }

    /// A buffer that belongs to no block and hangs nowhere.
    pub open spec fn is_fresh(&self, slot: int) -> bool {
        &&& self.data_ok()
        &&& self.b_dev == 0
        &&& self.b_blocknr == 0
        &&& self.b_count == 0
        &&& !self.b_uptodate && !self.b_dirt && !self.b_lock && !self.b_req
        &&& self.b_slot == slot
        &&& self.b_prev == NIL && self.b_next == NIL
    }

    fn new(slot: usize) -> (r: Self)
        ensures
            r.is_fresh(slot as int),
    {
        BufferHead {
            b_data: vec![0u8; 1024],
            b_size: BLOCK_SIZE,
            b_blocknr: 0,
            b_dev: 0,
            b_count: 0,
            b_uptodate: false,
            b_dirt: false,
            b_lock: false,
            b_req: false,
            b_slot: slot,
            b_prev: NIL,
            b_next: NIL,
            b_prev_free: NIL,
            b_next_free: NIL,
            b_reqnext: NIL,
        }
    }

    /// The data, to read.
    pub fn data(&self) -> (r: &[u8])
        requires
            self.data_ok(),
        ensures
            r@ == self.b_data@,
    {
        self.b_data.as_slice()
    }

    /// The data, to change; the buffer has to be marked dirty afterwards.
    pub fn data_mut(&mut self) -> (r: &mut [u8])
        requires
            old(self).data_ok(),
        ensures
            r@ == old(self).b_data@,
            final(self).b_data@ == final(r)@,
            *final(self) == (BufferHead { b_data: final(self).b_data, ..*old(self) }),
    {
        self.b_data.as_mut_slice()
    }
}

/// A block device kept in memory.
pub struct Disk {
    pub dev: u16,
    pub blocks: Vec<Vec<u8>>,
}

/// The two buffers agree in all but their links.
pub open spec fn same_body(a: BufferHead, b: BufferHead) -> bool {
    &&& a.b_data == b.b_data
    &&& a.b_size == b.b_size
    &&& a.b_blocknr == b.b_blocknr
    &&& a.b_dev == b.b_dev
    &&& a.b_count == b.b_count
    &&& a.b_uptodate == b.b_uptodate
    &&& a.b_dirt == b.b_dirt
    &&& a.b_lock == b.b_lock
    &&& a.b_req == b.b_req
    &&& a.b_slot == b.b_slot
}

spec fn same_hash_links(a: BufferHead, b: BufferHead) -> bool {
    a.b_prev == b.b_prev && a.b_next == b.b_next
}

spec fn same_free_links(a: BufferHead, b: BufferHead) -> bool {
    a.b_prev_free == b.b_prev_free && a.b_next_free == b.b_next_free
}

/// The hash of a block.
pub open spec fn hash_of(dev: u16, block: u32) -> int {
    ((dev as u32 ^ block) % 61) as int
}

fn hashfn(dev: u16, block: u32) -> (r: usize)
    ensures
        r == hash_of(dev, block),
        r < 61,
{
    ((dev as u32 ^ block) as usize) % NR_HASH
}

spec fn nxt(ring: Seq<usize>, k: int) -> usize {
    if k + 1 < ring.len() {
        ring[k + 1]
    } else {
        ring[0]
    }
}

spec fn prv(ring: Seq<usize>, k: int) -> usize {
    if k > 0 {
        ring[k - 1]
    } else {
        ring[ring.len() - 1]
    }
}

/// The buffers of `ring`, and no others, form a ring that starts at `free_list`.
#[verifier::opaque]
spec fn ring_ok(h: Seq<BufferHead>, free_list: usize, ring: Seq<usize>) -> bool {
    &&& h.len() == 64
    &&& ring.len() >= 1
    &&& free_list == ring[0]
    &&& ring.no_duplicates()
    &&& forall|k: int| 0 <= k < ring.len() ==> (#[trigger] ring[k]) < 64
    &&& forall|k: int|
        0 <= k < ring.len() ==> (#[trigger] h[ring[k] as int]).b_next_free == nxt(ring, k)
            && h[ring[k] as int].b_prev_free == prv(ring, k)
}

spec fn chain_next(c: Seq<usize>, k: int) -> usize {
    if k + 1 < c.len() {
        c[k + 1]
    } else {
        NIL
    }
}

spec fn chain_prev(c: Seq<usize>, k: int) -> usize {
    if k > 0 {
        c[k - 1]
    } else {
        NIL
    }
}

/// Chain `b` is linked through the buffers of `c`, all of that hash.
spec fn chain_ok(h: Seq<BufferHead>, head: usize, c: Seq<usize>, b: int) -> bool {
    &&& head == (if c.len() == 0 {
        NIL
    } else {
        c[0]
    })
    &&& c.no_duplicates()
    &&& forall|k: int| 0 <= k < c.len() ==> (#[trigger] c[k]) < 64
    &&& forall|k: int|
        0 <= k < c.len() ==> {
            let x = #[trigger] h[c[k] as int];
            &&& x.b_dev != 0
            &&& hash_of(x.b_dev, x.b_blocknr) == b
            &&& x.b_next == chain_next(c, k)
            &&& x.b_prev == chain_prev(c, k)
        }
}

/// Every buffer of a block but `out` hangs on the chain of its hash; `out`, and
/// the buffers of no block, hang on none.
#[verifier::opaque]
spec fn chains_ok(h: Seq<BufferHead>, table: Seq<usize>, chains: Seq<Seq<usize>>, out: int) -> bool {
    &&& h.len() == 64
    &&& table.len() == 61
    &&& chains.len() == 61
    &&& forall|b: int| 0 <= b < 61 ==> chain_ok(h, table[b], #[trigger] chains[b], b)
    &&& forall|b: int| 0 <= b < 61 && 0 <= out ==> !(#[trigger] chains[b]).contains(out as usize)
    &&& forall|i: int|
        0 <= i < 64 ==> {
            let x = #[trigger] h[i];
            if i == out || x.b_dev == 0 {
                x.b_next == NIL && x.b_prev == NIL
            } else {
                chains[hash_of(x.b_dev, x.b_blocknr)].contains(i as usize)
            }
        }
}

/// No two buffers belong to one block.
pub open spec fn one_each(h: Seq<BufferHead>) -> bool {
    forall|i: int, j: int|
        #![trigger h[i], h[j]]
        0 <= i < j < h.len() && h[i].b_dev != 0 ==> !(h[i].b_dev == h[j].b_dev && h[i].b_blocknr
            == h[j].b_blocknr)
}

/// Every buffer has a block's room, is unlocked and knows its place.
spec fn bodies_ok(h: Seq<BufferHead>) -> bool {
    forall|i: int|
        0 <= i < h.len() ==> (#[trigger] h[i]).data_ok() && h[i].b_slot == i && !h[i].b_lock
}

/// The devices have different numbers, none of them zero, and whole blocks.
pub open spec fn disks_ok(d: Seq<Disk>) -> bool {
    &&& forall|i: int, j: int|
        #![trigger d[i], d[j]]
        0 <= i < j < d.len() ==> d[i].dev != d[j].dev
    &&& forall|i: int| 0 <= i < d.len() ==> (#[trigger] d[i]).dev != 0
    &&& forall|i: int, b: int|
        0 <= i < d.len() && 0 <= b < d[i].blocks@.len() ==> (#[trigger] d[i].blocks@[b])@.len()
            == 1024
}

/// The device exists and has that block.
pub open spec fn has_block(d: Seq<Disk>, dev: u16, block: u32) -> bool {
    exists|i: int| 0 <= i < d.len() && (#[trigger] d[i]).dev == dev && block < d[i].blocks@.len()
}

/// What the device holds in that block.
pub open spec fn on_disk(d: Seq<Disk>, dev: u16, block: u32) -> Seq<u8> {
    let i = choose|i: int|
        0 <= i < d.len() && (#[trigger] d[i]).dev == dev && block < d[i].blocks@.len();
    d[i].blocks@[block as int]@
}

/// Buffer `i` belongs to that block.
pub open spec fn holds(x: BufferHead, dev: u16, block: u32) -> bool {
    x.b_dev == dev && x.b_blocknr == block && dev != 0
}

/// Some buffer has the data of that block.
pub open spec fn is_cached(h: Seq<BufferHead>, dev: u16, block: u32) -> bool {
    exists|i: int| 0 <= i < h.len() && holds(#[trigger] h[i], dev, block) && h[i].b_uptodate
}

/// What a read of that block gives: the data of its buffer, else that on the
/// device.
pub open spec fn current(h: Seq<BufferHead>, d: Seq<Disk>, dev: u16, block: u32) -> Seq<u8> {
    if is_cached(h, dev, block) {
        let i = choose|i: int|
            0 <= i < h.len() && holds(#[trigger] h[i], dev, block) && h[i].b_uptodate;
        h[i].b_data@
    } else {
        on_disk(d, dev, block)
    }
}

/// Buffer data that claims to be good is that of a block which exists, and
/// differs from the device only where it is marked dirty.
pub open spec fn coherent_with(h: Seq<BufferHead>, d: Seq<Disk>) -> bool {
    forall|i: int|
        0 <= i < h.len() ==> {
            let x = #[trigger] h[i];
            &&& x.b_dirt ==> x.b_uptodate
            &&& x.b_uptodate ==> x.b_dev != 0 && has_block(d, x.b_dev, x.b_blocknr)
            &&& x.b_uptodate && !x.b_dirt ==> x.b_data@ == on_disk(d, x.b_dev, x.b_blocknr)
        }
}

proof fn lemma_on_disk(d: Seq<Disk>, i: int, block: u32)
    requires
        disks_ok(d),
        0 <= i < d.len(),
        block < d[i].blocks@.len(),
    ensures
        has_block(d, d[i].dev, block),
        on_disk(d, d[i].dev, block) == d[i].blocks@[block as int]@,
{
    let dev = d[i].dev;
    let j = choose|j: int|
        0 <= j < d.len() && (#[trigger] d[j]).dev == dev && block < d[j].blocks@.len();
    assert(d[i].dev == dev);
    if i < j {
        assert(d[i].dev != d[j].dev);
    } else if j < i {
        assert(d[j].dev != d[i].dev);
    }
}

proof fn lemma_current(h: Seq<BufferHead>, d: Seq<Disk>, i: int)
    requires
        one_each(h),
        0 <= i < h.len(),
        h[i].b_dev != 0,
        h[i].b_uptodate,
    ensures
        current(h, d, h[i].b_dev, h[i].b_blocknr) == h[i].b_data@,
{
    let dev = h[i].b_dev;
    let block = h[i].b_blocknr;
    assert(holds(h[i], dev, block));
    let j = choose|j: int|
        0 <= j < h.len() && holds(#[trigger] h[j], dev, block) && h[j].b_uptodate;
    if i < j {
        assert(h[i].b_dev == h[j].b_dev);
    } else if j < i {
        assert(h[j].b_dev == h[i].b_dev);
    }
}

/// Taking the ring's buffer number `k` out and joining its neighbours leaves a
/// ring.
proof fn lemma_ring_remove(
    h0: Seq<BufferHead>,
    h: Seq<BufferHead>,
    free_list: usize,
    r: Seq<usize>,
    k: int,
)
    requires
        ring_ok(h0, free_list, r),
        h.len() == 64,
        r.len() >= 2,
        0 <= k < r.len(),
        forall|i: int|
            0 <= i < 64 ==> (#[trigger] h[i]).b_next_free == (if i == r[k] {
                NIL
            } else if i == prv(r, k) {
                nxt(r, k)
            } else {
                h0[i].b_next_free
            }),
        forall|i: int|
            0 <= i < 64 ==> (#[trigger] h[i]).b_prev_free == (if i == r[k] {
                NIL
            } else if i == nxt(r, k) {
                prv(r, k)
            } else {
                h0[i].b_prev_free
            }),
    ensures
        ring_ok(
            h,
            if free_list == r[k] {
                nxt(r, k)
            } else {
                free_list
            },
            r.remove(k),
        ),
{
    reveal(ring_ok);
    let t = r.remove(k);
    let kp = if k > 0 { k - 1 } else { r.len() - 1 };
    let kn = if k + 1 < r.len() { k + 1 } else { 0 };
    assert(t.len() == r.len() - 1);
    assert forall|j: int| 0 <= j < t.len() implies #[trigger] t[j] == r[if j < k { j } else { j + 1 }] by {}
    assert forall|i: int, j: int| 0 <= i < t.len() && 0 <= j < t.len() && i != j implies t[i] != t[j] by {
        let a = if i < k { i } else { i + 1 };
        let b = if j < k { j } else { j + 1 };
        assert(t[i] == r[a] && t[j] == r[b]);
    }
    assert forall|j: int| 0 <= j < t.len() implies (#[trigger] t[j]) < 64
        && h[t[j] as int].b_next_free == nxt(t, j) && h[t[j] as int].b_prev_free == prv(t, j) by {
        let q = if j < k { j } else { j + 1 };
        assert(t[j] == r[q]);
        assert(r[q] != r[k]);
        assert(h0[r[q] as int].b_next_free == nxt(r, q));
        assert(h0[r[q] as int].b_prev_free == prv(r, q));
        if q == kp {
            assert(h[r[q] as int].b_next_free == r[kn]);
            assert(nxt(t, j) == r[kn]);
        } else {
            assert(r[q] != r[kp]);
            assert(h[r[q] as int].b_next_free == nxt(r, q));
            assert(nxt(t, j) == nxt(r, q));
        }
        if q == kn {
            assert(h[r[q] as int].b_prev_free == r[kp]);
            assert(prv(t, j) == r[kp]);
        } else {
            assert(r[q] != r[kn]);
            assert(h[r[q] as int].b_prev_free == prv(r, q));
            assert(prv(t, j) == prv(r, q));
        }
    }
}

/// What the ring says of its buffer number `k`.
proof fn lemma_ring_at(h: Seq<BufferHead>, free_list: usize, r: Seq<usize>, k: int)
    requires
        ring_ok(h, free_list, r),
        0 <= k < r.len(),
    ensures
        h.len() == 64,
        r[0] == free_list,
        r[k] < 64,
        nxt(r, k) < 64,
        prv(r, k) < 64,
        r.len() >= 2 ==> nxt(r, k) != r[k] && prv(r, k) != r[k],
        h[r[k] as int].b_next_free == nxt(r, k),
        h[r[k] as int].b_prev_free == prv(r, k),
{
    reveal(ring_ok);
    let x = h[r[k] as int];
}

/// The ring does not depend on anything but its links.
proof fn lemma_ring_frame(h0: Seq<BufferHead>, h: Seq<BufferHead>, free_list: usize, r: Seq<usize>)
    requires
        ring_ok(h0, free_list, r),
        h.len() == 64,
        forall|i: int| 0 <= i < 64 ==> same_free_links(#[trigger] h[i], h0[i]),
    ensures
        ring_ok(h, free_list, r),
{
    reveal(ring_ok);
    assert forall|k: int| 0 <= k < r.len() implies (#[trigger] h[r[k] as int]).b_next_free == nxt(
        r,
        k,
    ) && h[r[k] as int].b_prev_free == prv(r, k) by {
        let x0 = h0[r[k] as int];
    }
}

/// Joining a buffer in behind the last one leaves a ring.
proof fn lemma_ring_push(
    h0: Seq<BufferHead>,
    h: Seq<BufferHead>,
    free_list: usize,
    r: Seq<usize>,
    n: usize,
)
    requires
        ring_ok(h0, free_list, r),
        h.len() == 64,
        n < 64,
        !r.contains(n),
        forall|i: int|
            0 <= i < 64 ==> (#[trigger] h[i]).b_next_free == (if i == n {
                free_list
            } else if i == r[r.len() - 1] {
                n
            } else {
                h0[i].b_next_free
            }),
        forall|i: int|
            0 <= i < 64 ==> (#[trigger] h[i]).b_prev_free == (if i == n {
                r[r.len() - 1]
            } else if i == r[0] {
                n
            } else {
                h0[i].b_prev_free
            }),
    ensures
        ring_ok(h, free_list, r.push(n)),
{
    reveal(ring_ok);
    let t = r.push(n);
    assert forall|j: int| 0 <= j < t.len() implies (#[trigger] h[t[j] as int]).b_next_free == nxt(
        t,
        j,
    ) && h[t[j] as int].b_prev_free == prv(t, j) by {
        if j < r.len() {
            assert(t[j] == r[j]);
            assert(r.contains(r[j]));
            let x0 = h0[r[j] as int];
            assert(x0.b_next_free == nxt(r, j));
            assert(x0.b_prev_free == prv(r, j));
            assert(j != 0 ==> r[j] != r[0]);
            assert(j != r.len() - 1 ==> r[j] != r[r.len() - 1]);
        }
    }
    assert forall|i: int, j: int| 0 <= i < t.len() && 0 <= j < t.len() && i != j implies t[i] != t[j] by {
        if i < r.len() && j < r.len() {
            assert(r[i] != r[j]);
        } else if i < r.len() {
            assert(r.contains(r[i]));
        } else {
            assert(r.contains(r[j]));
        }
    }
}

/// Starting one buffer later leaves a ring.
proof fn lemma_ring_rotate(h: Seq<BufferHead>, free_list: usize, r: Seq<usize>)
    requires
        ring_ok(h, free_list, r),
        r.len() >= 2,
    ensures
        ring_ok(h, r[1], r.remove(0).push(r[0])),
{
    reveal(ring_ok);
    let t = r.remove(0).push(r[0]);
    assert forall|j: int| 0 <= j < t.len() implies #[trigger] t[j] == r[if j + 1 < r.len() {
        j + 1
    } else {
        0
    }] by {}
    assert forall|j: int| 0 <= j < t.len() implies (#[trigger] h[t[j] as int]).b_next_free == nxt(
        t,
        j,
    ) && h[t[j] as int].b_prev_free == prv(t, j) by {
        let q = if j + 1 < r.len() { j + 1 } else { 0 };
        assert(t[j] == r[q]);
        let x = h[r[q] as int];
        assert(x.b_next_free == nxt(r, q));
        assert(x.b_prev_free == prv(r, q));
    }
    assert forall|i: int, j: int| 0 <= i < t.len() && 0 <= j < t.len() && i != j implies t[i] != t[j] by {
        let a = if i + 1 < r.len() { i + 1 } else { 0 };
        let b = if j + 1 < r.len() { j + 1 } else { 0 };
        assert(t[i] == r[a] && t[j] == r[b]);
    }
}

/// What sound chains say of chain `b`.
proof fn lemma_chain_get(
    h: Seq<BufferHead>,
    table: Seq<usize>,
    chains: Seq<Seq<usize>>,
    out: int,
    b: int,
)
    requires
        chains_ok(h, table, chains, out),
        0 <= b < 61,
    ensures
        h.len() == 64,
        table.len() == 61,
        chains.len() == 61,
        chain_ok(h, table[b], chains[b], b),
        0 <= out ==> !chains[b].contains(out as usize),
{
    reveal(chains_ok);
}

/// A chain starts with a buffer of a block, if with any.
proof fn lemma_chain_head(
    h: Seq<BufferHead>,
    table: Seq<usize>,
    chains: Seq<Seq<usize>>,
    out: int,
    b: int,
)
    requires
        chains_ok(h, table, chains, out),
        0 <= b < 61,
    ensures
        table[b] == NIL || (table[b] < 64 && table[b] != out && h[table[b] as int].b_dev != 0),
{
    lemma_chain_get(h, table, chains, out, b);
    if chains[b].len() > 0 {
        assert(chains[b].contains(chains[b][0]));
        let x = h[chains[b][0] as int];
    }
}

/// What sound chains say of buffer `i`.
proof fn lemma_chain_member(
    h: Seq<BufferHead>,
    table: Seq<usize>,
    chains: Seq<Seq<usize>>,
    out: int,
    i: int,
)
    requires
        chains_ok(h, table, chains, out),
        0 <= i < 64,
    ensures
        i == out || h[i].b_dev == 0 ==> h[i].b_next == NIL && h[i].b_prev == NIL,
        i != out && h[i].b_dev != 0 ==> chains[hash_of(h[i].b_dev, h[i].b_blocknr)].contains(
            i as usize,
        ),
{
    reveal(chains_ok);
    let x = h[i];
}

/// A buffer of no block is on no chain.
proof fn lemma_chain_none(h: Seq<BufferHead>, table: Seq<usize>, chains: Seq<Seq<usize>>, n: usize)
    requires
        chains_ok(h, table, chains, -1),
        n < 64,
        h[n as int].b_dev == 0,
    ensures
        chains_ok(h, table, chains, n as int),
{
    assert forall|b: int| 0 <= b < 61 implies !(#[trigger] chains[b]).contains(n) by {
        lemma_chain_get(h, table, chains, -1, b);
        if chains[b].contains(n) {
            let j = choose|j: int| 0 <= j < chains[b].len() && chains[b][j] == n;
            let y = h[chains[b][j] as int];
        }
    }
    reveal(chains_ok);
}

/// The place of a buffer of a block on its chain, and its neighbours there.
proof fn lemma_chain_place(h: Seq<BufferHead>, table: Seq<usize>, chains: Seq<Seq<usize>>, n: usize) -> (k:
    int)
    requires
        chains_ok(h, table, chains, -1),
        n < 64,
        h[n as int].b_dev != 0,
    ensures
        ({
            let b = hash_of(h[n as int].b_dev, h[n as int].b_blocknr);
            let c = chains[b];
            &&& 0 <= b < 61
            &&& 0 <= k < c.len()
            &&& c[k] == n
            &&& h[n as int].b_next == chain_next(c, k)
            &&& h[n as int].b_prev == chain_prev(c, k)
            &&& chain_next(c, k) == NIL || chain_next(c, k) < 64
            &&& chain_prev(c, k) == NIL || chain_prev(c, k) < 64
            &&& chain_next(c, k) != n
            &&& chain_prev(c, k) != n
            &&& chain_next(c, k) != NIL ==> chain_next(c, k) != chain_prev(c, k)
            &&& table[b] == n <==> k == 0
        }),
{
    let b = hash_of(h[n as int].b_dev, h[n as int].b_blocknr);
    let c = chains[b];
    lemma_chain_member(h, table, chains, -1, n as int);
    lemma_chain_get(h, table, chains, -1, b);
    let k = c.index_of(n);
    assert(c[k] == n);
    let x = h[c[k] as int];
    if k > 0 {
        assert(c[k - 1] < 64 && c[k - 1] != c[k] && c[0] != c[k]);
    }
    if k + 1 < c.len() {
        assert(c[k + 1] < 64 && c[k + 1] != c[k]);
    }
    if k > 0 && k + 1 < c.len() {
        assert(c[k - 1] != c[k + 1]);
    }
    k
}

/// Buffers of different chains differ.
proof fn lemma_chains_apart(
    h: Seq<BufferHead>,
    table: Seq<usize>,
    chains: Seq<Seq<usize>>,
    out: int,
    b: int,
    k: int,
    b2: int,
    j: int,
)
    requires
        chains_ok(h, table, chains, out),
        0 <= b < 61,
        0 <= b2 < 61,
        b != b2,
        0 <= k < chains[b].len(),
        0 <= j < chains[b2].len(),
    ensures
        chains[b][k] != chains[b2][j],
{
    lemma_chain_get(h, table, chains, out, b);
    lemma_chain_get(h, table, chains, out, b2);
    let x = h[chains[b][k] as int];
    let y = h[chains[b2][j] as int];
    assert(hash_of(x.b_dev, x.b_blocknr) == b);
    assert(hash_of(y.b_dev, y.b_blocknr) == b2);
}

/// Taking buffer number `k` out of one chain and joining its neighbours leaves a
/// chain.
proof fn lemma_one_chain_remove(
    h0: Seq<BufferHead>,
    h: Seq<BufferHead>,
    head: usize,
    c: Seq<usize>,
    b: int,
    k: int,
)
    requires
        chain_ok(h0, head, c, b),
        0 <= k < c.len(),
        forall|i: int| 0 <= i < 64 ==> same_body(#[trigger] h[i], h0[i]),
        forall|i: int|
            0 <= i < 64 ==> (#[trigger] h[i]).b_next == (if i == c[k] {
                NIL
            } else if i == chain_prev(c, k) {
                chain_next(c, k)
            } else {
                h0[i].b_next
            }),
        forall|i: int|
            0 <= i < 64 ==> (#[trigger] h[i]).b_prev == (if i == c[k] {
                NIL
            } else if i == chain_next(c, k) {
                chain_prev(c, k)
            } else {
                h0[i].b_prev
            }),
    ensures
        chain_ok(
            h,
            if k == 0 {
                chain_next(c, k)
            } else {
                head
            },
            c.remove(k),
            b,
        ),
        !c.remove(k).contains(c[k]),
{
    let t = c.remove(k);
    assert forall|j: int| 0 <= j < t.len() implies #[trigger] t[j] == c[if j < k { j } else { j + 1 }] by {}
    assert forall|i: int, j: int| 0 <= i < t.len() && 0 <= j < t.len() && i != j implies t[i] != t[j] by {
        let x = if i < k { i } else { i + 1 };
        let y = if j < k { j } else { j + 1 };
        assert(t[i] == c[x] && t[j] == c[y]);
    }
    assert forall|j: int| 0 <= j < t.len() implies {
        let x = #[trigger] h[t[j] as int];
        &&& x.b_dev != 0
        &&& hash_of(x.b_dev, x.b_blocknr) == b
        &&& x.b_next == chain_next(t, j)
        &&& x.b_prev == chain_prev(t, j)
    } by {
        let q = if j < k { j } else { j + 1 };
        assert(t[j] == c[q]);
        assert(c[q] != c[k]);
        let x0 = h0[c[q] as int];
        assert(x0.b_next == chain_next(c, q));
        assert(x0.b_prev == chain_prev(c, q));
        if k > 0 && q == k - 1 {
            assert(chain_next(t, j) == chain_next(c, k));
        } else {
            assert(k > 0 ==> c[q] != c[k - 1]);
            assert(chain_next(t, j) == chain_next(c, q));
        }
        if k + 1 < c.len() && q == k + 1 {
            assert(chain_prev(t, j) == chain_prev(c, k));
        } else {
            assert(k + 1 < c.len() ==> c[q] != c[k + 1]);
            assert(chain_prev(t, j) == chain_prev(c, q));
        }
    }
    if t.contains(c[k]) {
        let j = choose|j: int| 0 <= j < t.len() && t[j] == c[k];
        let q = if j < k { j } else { j + 1 };
        assert(t[j] == c[q]);
    }
}

/// Taking buffer number `k` of its chain out and joining its neighbours leaves
/// sound chains, with that buffer on none.
proof fn lemma_chain_remove(
    h0: Seq<BufferHead>,
    h: Seq<BufferHead>,
    table0: Seq<usize>,
    table: Seq<usize>,
    chains: Seq<Seq<usize>>,
    b: int,
    k: int,
)
    requires
        chains_ok(h0, table0, chains, -1),
        h.len() == 64,
        0 <= b < 61,
        0 <= k < chains[b].len(),
        table == table0.update(
            b,
            if k == 0 {
                chain_next(chains[b], k)
            } else {
                table0[b]
            },
        ),
        forall|i: int| 0 <= i < 64 ==> same_body(#[trigger] h[i], h0[i]),
        forall|i: int|
            0 <= i < 64 ==> (#[trigger] h[i]).b_next == (if i == chains[b][k] {
                NIL
            } else if i == chain_prev(chains[b], k) {
                chain_next(chains[b], k)
            } else {
                h0[i].b_next
            }),
        forall|i: int|
            0 <= i < 64 ==> (#[trigger] h[i]).b_prev == (if i == chains[b][k] {
                NIL
            } else if i == chain_next(chains[b], k) {
                chain_prev(chains[b], k)
            } else {
                h0[i].b_prev
            }),
    ensures
        chains_ok(h, table, chains.update(b, chains[b].remove(k)), chains[b][k] as int),
{
    let c = chains[b];
    let n = c[k];
    let t = c.remove(k);
    let chains2 = chains.update(b, t);
    lemma_chain_get(h0, table0, chains, -1, b);
    lemma_one_chain_remove(h0, h, table0[b], c, b, k);
    assert(n < 64);
    assert forall|b2: int| 0 <= b2 < 61 implies chain_ok(h, table[b2], #[trigger] chains2[b2], b2)
        && !chains2[b2].contains(n) by {
        if b2 != b {
            let c2 = chains[b2];
            lemma_chain_get(h0, table0, chains, -1, b2);
            assert forall|j: int| 0 <= j < c2.len() implies {
                let x = #[trigger] h[c2[j] as int];
                &&& x.b_dev != 0
                &&& hash_of(x.b_dev, x.b_blocknr) == b2
                &&& x.b_next == chain_next(c2, j)
                &&& x.b_prev == chain_prev(c2, j)
            } by {
                let x0 = h0[c2[j] as int];
                lemma_chains_apart(h0, table0, chains, -1, b, k, b2, j);
                if k > 0 {
                    lemma_chains_apart(h0, table0, chains, -1, b, k - 1, b2, j);
                }
                if k + 1 < c.len() {
                    lemma_chains_apart(h0, table0, chains, -1, b, k + 1, b2, j);
                }
            }
            if c2.contains(n) {
                let j = choose|j: int| 0 <= j < c2.len() && c2[j] == n;
                lemma_chains_apart(h0, table0, chains, -1, b, k, b2, j);
            }
        }
    }
    assert forall|i: int| 0 <= i < 64 implies {
        let x = #[trigger] h[i];
        if i == n || x.b_dev == 0 {
            x.b_next == NIL && x.b_prev == NIL
        } else {
            chains2[hash_of(x.b_dev, x.b_blocknr)].contains(i as usize)
        }
    } by {
        let x = h[i];
        lemma_chain_member(h0, table0, chains, -1, i);
        if i != n && x.b_dev == 0 {
            if k > 0 {
                let y = h0[c[k - 1] as int];
            }
            if k + 1 < c.len() {
                let y = h0[c[k + 1] as int];
            }
        } else if i != n {
            let b2 = hash_of(x.b_dev, x.b_blocknr);
            if b2 == b {
                let q = choose|q: int| 0 <= q < c.len() && c[q] == i as usize;
                let j = if q < k { q } else { q - 1 };
                assert(t[j] == c[q]);
            }
        }
    }
    reveal(chains_ok);
}

/// Hanging a buffer that is on no chain in front of the chain of its hash leaves
/// sound chains.
proof fn lemma_chain_insert(
    h0: Seq<BufferHead>,
    h: Seq<BufferHead>,
    table0: Seq<usize>,
    chains: Seq<Seq<usize>>,
    n: usize,
)
    requires
        n < 64,
        chains_ok(h0, table0, chains, n as int),
        h.len() == 64,
        h0[n as int].b_dev != 0,
        forall|i: int| 0 <= i < 64 ==> same_body(#[trigger] h[i], h0[i]),
        ({
            let b = hash_of(h0[n as int].b_dev, h0[n as int].b_blocknr);
            &&& forall|i: int|
                0 <= i < 64 ==> (#[trigger] h[i]).b_next == (if i == n {
                    table0[b]
                } else {
                    h0[i].b_next
                })
            &&& forall|i: int|
                0 <= i < 64 ==> (#[trigger] h[i]).b_prev == (if i == n {
                    NIL
                } else if i == table0[b] {
                    n
                } else {
                    h0[i].b_prev
                })
        }),
    ensures
        ({
            let b = hash_of(h0[n as int].b_dev, h0[n as int].b_blocknr);
            chains_ok(h, table0.update(b, n), chains.update(b, seq![n] + chains[b]), -1)
        }),
{
    let b = hash_of(h0[n as int].b_dev, h0[n as int].b_blocknr);
    let table = table0.update(b, n);
    let c = chains[b];
    let t = seq![n] + c;
    let chains2 = chains.update(b, t);
    lemma_chain_get(h0, table0, chains, n as int, b);
    assert forall|j: int| 0 < j < t.len() implies #[trigger] t[j] == c[j - 1] by {}
    assert forall|i: int, j: int| 0 <= i < t.len() && 0 <= j < t.len() && i != j implies t[i] != t[j] by {
        if i > 0 && j > 0 {
            assert(c[i - 1] != c[j - 1]);
        } else if i > 0 {
            assert(c.contains(c[i - 1]));
        } else {
            assert(c.contains(c[j - 1]));
        }
    }
    assert forall|j: int| 0 <= j < t.len() implies {
        let x = #[trigger] h[t[j] as int];
        &&& x.b_dev != 0
        &&& hash_of(x.b_dev, x.b_blocknr) == b
        &&& x.b_next == chain_next(t, j)
        &&& x.b_prev == chain_prev(t, j)
    } by {
        if j > 0 {
            let q = j - 1;
            assert(c.contains(c[q]));
            let x0 = h0[c[q] as int];
            assert(x0.b_next == chain_next(c, q));
            assert(x0.b_prev == chain_prev(c, q));
            assert(q > 0 ==> c[q] != c[0]);
        }
    }
    assert(chain_ok(h, table[b], t, b));
    assert forall|b2: int| 0 <= b2 < 61 implies chain_ok(h, table[b2], #[trigger] chains2[b2], b2) by {
        if b2 != b {
            let c2 = chains[b2];
            lemma_chain_get(h0, table0, chains, n as int, b2);
            assert forall|j: int| 0 <= j < c2.len() implies {
                let x = #[trigger] h[c2[j] as int];
                &&& x.b_dev != 0
                &&& hash_of(x.b_dev, x.b_blocknr) == b2
                &&& x.b_next == chain_next(c2, j)
                &&& x.b_prev == chain_prev(c2, j)
            } by {
                let x0 = h0[c2[j] as int];
                assert(c2.contains(c2[j]));
                if c.len() > 0 {
                    lemma_chains_apart(h0, table0, chains, n as int, b, 0, b2, j);
                }
            }
        }
    }
    assert forall|i: int| 0 <= i < 64 implies {
        let x = #[trigger] h[i];
        if x.b_dev == 0 {
            x.b_next == NIL && x.b_prev == NIL
        } else {
            chains2[hash_of(x.b_dev, x.b_blocknr)].contains(i as usize)
        }
    } by {
        let x = h[i];
        lemma_chain_member(h0, table0, chains, n as int, i);
        if i == n {
            assert(t[0] == n);
        } else if x.b_dev == 0 {
            if c.len() > 0 {
                let y = h0[c[0] as int];
            }
        } else {
            let b2 = hash_of(x.b_dev, x.b_blocknr);
            if b2 == b {
                let q = choose|q: int| 0 <= q < c.len() && c[q] == i as usize;
                assert(t[q + 1] == c[q]);
            }
        }
    }
    reveal(chains_ok);
}

/// A buffer that is on no chain may change hands; otherwise chains do not depend
/// on anything but links and blocks.
proof fn lemma_chain_frame(
    h0: Seq<BufferHead>,
    h: Seq<BufferHead>,
    table: Seq<usize>,
    chains: Seq<Seq<usize>>,
    out: int,
)
    requires
        chains_ok(h0, table, chains, out),
        out < 64,
        h.len() == 64,
        0 <= out ==> h[out].b_next == NIL && h[out].b_prev == NIL,
        forall|i: int|
            0 <= i < 64 && i != out ==> same_hash_links(#[trigger] h[i], h0[i]) && h[i].b_dev
                == h0[i].b_dev && h[i].b_blocknr == h0[i].b_blocknr,
    ensures
        chains_ok(h, table, chains, out),
{
    assert forall|b: int| 0 <= b < 61 implies chain_ok(h, table[b], #[trigger] chains[b], b) by {
        let c = chains[b];
        lemma_chain_get(h0, table, chains, out, b);
        assert forall|j: int| 0 <= j < c.len() implies {
            let x = #[trigger] h[c[j] as int];
            &&& x.b_dev != 0
            &&& hash_of(x.b_dev, x.b_blocknr) == b
            &&& x.b_next == chain_next(c, j)
            &&& x.b_prev == chain_prev(c, j)
        } by {
            assert(c.contains(c[j]));
            assert(c[j] != out);
            let x0 = h0[c[j] as int];
        }
    }
    assert forall|i: int| 0 <= i < 64 implies {
        let x = #[trigger] h[i];
        if i == out || x.b_dev == 0 {
            x.b_next == NIL && x.b_prev == NIL
        } else {
            chains[hash_of(x.b_dev, x.b_blocknr)].contains(i as usize)
        }
    } by {
        lemma_chain_member(h0, table, chains, out, i);
    }
    reveal(chains_ok);
}

/// Writing one block of one device changes that block alone.
proof fn lemma_disk_write(d0: Seq<Disk>, d: Seq<Disk>, i: int, block: u32, v: Seq<u8>)
    requires
        disks_ok(d0),
        0 <= i < d0.len(),
        d.len() == d0.len(),
        block < d0[i].blocks@.len(),
        v.len() == 1024,
        forall|j: int| 0 <= j < d0.len() && j != i ==> #[trigger] d[j] == d0[j],
        d[i].dev == d0[i].dev,
        d[i].blocks@.len() == d0[i].blocks@.len(),
        forall|b: int|
            0 <= b < d0[i].blocks@.len() && b != block ==> #[trigger] d[i].blocks@[b]
                == d0[i].blocks@[b],
        d[i].blocks@[block as int]@ == v,
    ensures
        disks_ok(d),
        forall|dv: u16, b: u32| #[trigger] has_block(d, dv, b) == has_block(d0, dv, b),
        forall|dv: u16, b: u32|
            has_block(d0, dv, b) ==> #[trigger] on_disk(d, dv, b) == (if dv == d0[i].dev && b
                == block {
                v
            } else {
                on_disk(d0, dv, b)
            }),
{
    assert forall|a: int, b: int| 0 <= a < d.len() && 0 <= b < d[a].blocks@.len() implies (
    #[trigger] d[a].blocks@[b])@.len() == 1024 by {
        if a != i {
            assert(d[a] == d0[a]);
            assert(d0[a].blocks@[b]@.len() == 1024);
        } else if b != block {
            assert(d[a].blocks@[b] == d0[a].blocks@[b]);
            assert(d0[a].blocks@[b]@.len() == 1024);
        }
    }
    assert forall|a: int, b: int| 0 <= a < b < d.len() implies d[a].dev != d[b].dev by {
        assert(d0[a].dev != d0[b].dev);
        assert(d[a].dev == d0[a].dev);
        assert(d[b].dev == d0[b].dev);
    }
    assert forall|a: int| 0 <= a < d.len() implies (#[trigger] d[a]).dev != 0 by {
        assert(d0[a].dev != 0);
    }
    assert forall|dv: u16, b: u32| #[trigger] has_block(d, dv, b) == has_block(d0, dv, b) by {
        if has_block(d, dv, b) {
            let j = choose|j: int| 0 <= j < d.len() && (#[trigger] d[j]).dev == dv && b < d[j].blocks@.len();
            assert(d0[j].dev == dv && b < d0[j].blocks@.len());
        }
        if has_block(d0, dv, b) {
            let j = choose|j: int| 0 <= j < d0.len() && (#[trigger] d0[j]).dev == dv && b < d0[j].blocks@.len();
            assert(d[j].dev == dv && b < d[j].blocks@.len());
        }
    }
    assert forall|dv: u16, b: u32| has_block(d0, dv, b) implies #[trigger] on_disk(d, dv, b) == (if dv
        == d0[i].dev && b == block {
        v
    } else {
        on_disk(d0, dv, b)
    }) by {
        let j = choose|j: int| 0 <= j < d0.len() && (#[trigger] d0[j]).dev == dv && b < d0[j].blocks@.len();
        lemma_on_disk(d0, j, b);
        assert(d[j].dev == dv);
        lemma_on_disk(d, j, b);
        if j != i {
            assert(d[j] == d0[j]);
            if j < i {
                assert(d0[j].dev != d0[i].dev);
            } else {
                assert(d0[i].dev != d0[j].dev);
            }
        } else if b != block {
            assert(d[i].blocks@[b as int] == d0[i].blocks@[b as int]);
        }
    }
}

/// Buffer `n` is the next to be given away: it is unused and clean, and no buffer
/// before it in the ring is.
pub open spec fn next_victim(h: Seq<BufferHead>, ring: Seq<usize>, n: usize) -> bool {
    exists|k: int|
        {
            &&& 0 <= k < ring.len()
            &&& #[trigger] ring[k] == n
            &&& h[n as int].b_count == 0 && !h[n as int].b_dirt
            &&& forall|j: int|
                0 <= j < k ==> h[#[trigger] ring[j] as int].b_count != 0 || h[ring[j] as int].b_dirt
        }
}

/// Buffer `x` is the buffer `x0` after the dirty buffers of device `dev` (of all
/// devices, where it is zero) were written out. Where the block does not exist
/// the data is lost, and no longer good.
pub open spec fn synced(x0: BufferHead, x: BufferHead, dev: u16, d: Seq<Disk>) -> bool {
    if (dev == 0 || x0.b_dev == dev) && x0.b_dirt {
        x == (BufferHead {
            b_dirt: false,
            b_req: true,
            b_uptodate: has_block(d, x0.b_dev, x0.b_blocknr),
            ..x0
        })
    } else {
        x == x0
    }
}

/// As `synced`, but for the links.
pub open spec fn synced_body(x0: BufferHead, x: BufferHead, dev: u16, d: Seq<Disk>) -> bool {
    if to_write(x0, dev) {
        same_body(
            x,
            BufferHead {
                b_dirt: false,
                b_req: true,
                b_uptodate: has_block(d, x0.b_dev, x0.b_blocknr),
                ..x0
            },
        )
    } else {
        same_body(x, x0)
    }
}

/// The buffer is to be written out.
pub open spec fn to_write(x: BufferHead, dev: u16) -> bool {
    (dev == 0 || x.b_dev == dev) && x.b_dirt
}

/// A transfer of the buffer failed.
pub open spec fn failed(x: BufferHead, dev: u16) -> bool {
    (dev == 0 || x.b_dev == dev) && x.b_req && !x.b_dirt && !x.b_uptodate
}

/// The devices after the buffers `h0` were written out.
pub open spec fn disks_synced(h0: Seq<BufferHead>, d0: Seq<Disk>, d: Seq<Disk>, dev: u16) -> bool {
    &&& forall|dv: u16, b: u32| #[trigger] has_block(d, dv, b) == has_block(d0, dv, b)
    &&& forall|i: int|
        0 <= i < h0.len() && to_write(#[trigger] h0[i], dev) && has_block(
            d0,
            h0[i].b_dev,
            h0[i].b_blocknr,
        ) ==> on_disk(d, h0[i].b_dev, h0[i].b_blocknr) == h0[i].b_data@
    &&& forall|dv: u16, b: u32|
        has_block(d0, dv, b) && (forall|i: int|
            0 <= i < h0.len() && to_write(#[trigger] h0[i], dev) ==> !holds(h0[i], dv, b))
            ==> #[trigger] on_disk(d, dv, b) == on_disk(d0, dv, b)
}

/// Reads give the same before and after.
pub open spec fn same_reads(h0: Seq<BufferHead>, d0: Seq<Disk>, h: Seq<BufferHead>, d: Seq<Disk>) -> bool {
    &&& forall|dv: u16, b: u32| #[trigger] has_block(d, dv, b) == has_block(d0, dv, b)
    &&& forall|dv: u16, b: u32|
        has_block(d0, dv, b) ==> #[trigger] current(h, d, dv, b) == current(h0, d0, dv, b)
}

/// The devices `d` are `d0`, or everything that reads gave has been written to them.
pub open spec fn kept_or_written(h0: Seq<BufferHead>, d0: Seq<Disk>, d: Seq<Disk>) -> bool {
    d == d0 || forall|dv: u16, b: u32|
        has_block(d0, dv, b) ==> #[trigger] on_disk(d, dv, b) == current(h0, d0, dv, b)
}

/// Where every buffer was written out, the devices hold what reads give.
proof fn lemma_all_written(h0: Seq<BufferHead>, d0: Seq<Disk>, h: Seq<BufferHead>, d: Seq<Disk>)
    requires
        one_each(h0),
        h.len() == h0.len(),
        forall|i: int| 0 <= i < h0.len() ==> synced(h0[i], #[trigger] h[i], 0, d0),
        disks_synced(h0, d0, d, 0),
        coherent_with(h0, d0),
    ensures
        kept_or_written(h0, d0, d),
{
    lemma_synced_reads(h0, d0, h, d, 0);
    assert forall|dv: u16, b: u32| has_block(d0, dv, b) implies #[trigger] on_disk(d, dv, b)
        == current(h0, d0, dv, b) by {
        assert(current(h, d, dv, b) == current(h0, d0, dv, b));
        if is_cached(h, dv, b) {
            let i = choose|i: int|
                0 <= i < h.len() && holds(#[trigger] h[i], dv, b) && h[i].b_uptodate;
            lemma_current(h, d, i);
            assert(synced(h0[i], h[i], 0, d0));
        }
    }
}

/// A block that no buffer has is read from the device.
proof fn lemma_uncached(h: Seq<BufferHead>, d: Seq<Disk>, dv: u16, b: u32)
    requires
        forall|i: int| 0 <= i < h.len() && holds(#[trigger] h[i], dv, b) ==> !h[i].b_uptodate,
    ensures
        current(h, d, dv, b) == on_disk(d, dv, b),
{
}

/// Giving a clean buffer to a block that no buffer has changes no read.
proof fn lemma_reassign(h0: Seq<BufferHead>, h: Seq<BufferHead>, d: Seq<Disk>, v: int, dev: u16, block: u32)
    requires
        one_each(h0),
        h0.len() == h.len(),
        0 <= v < h.len(),
        !h0[v].b_dirt,
        forall|i: int| 0 <= i < h0.len() ==> !holds(#[trigger] h0[i], dev, block),
        forall|i: int| 0 <= i < h0.len() && i != v ==> same_body(#[trigger] h[i], h0[i]),
        h[v].b_dev == dev,
        h[v].b_blocknr == block,
        !h[v].b_uptodate,
        !h[v].b_dirt,
    ensures
        one_each(h),
        coherent_with(h0, d) ==> coherent_with(h, d) && same_reads(h0, d, h, d),
{
    assert forall|i: int, j: int|
        #![trigger h[i], h[j]]
        0 <= i < j < h.len() && h[i].b_dev != 0 implies !(h[i].b_dev == h[j].b_dev && h[i].b_blocknr
        == h[j].b_blocknr) by {
        let a = h0[i];
        let b = h0[j];
        if i == v {
            assert(!holds(h0[j], dev, block));
        } else if j == v {
            assert(!holds(h0[i], dev, block));
        }
    }
    if coherent_with(h0, d) {
        assert forall|i: int| 0 <= i < h.len() implies {
            let x = #[trigger] h[i];
            &&& x.b_dirt ==> x.b_uptodate
            &&& x.b_uptodate ==> x.b_dev != 0 && has_block(d, x.b_dev, x.b_blocknr)
            &&& x.b_uptodate && !x.b_dirt ==> x.b_data@ == on_disk(d, x.b_dev, x.b_blocknr)
        } by {
            let x0 = h0[i];
        }
        assert forall|dv: u16, b: u32| has_block(d, dv, b) implies #[trigger] current(h, d, dv, b)
            == current(h0, d, dv, b) by {
            if is_cached(h, dv, b) {
                let i = choose|i: int|
                    0 <= i < h.len() && holds(#[trigger] h[i], dv, b) && h[i].b_uptodate;
                assert(i != v);
                let x0 = h0[i];
                lemma_current(h, d, i);
                lemma_current(h0, d, i);
            } else {
                lemma_uncached(h, d, dv, b);
                if is_cached(h0, dv, b) {
                    let i = choose|i: int|
                        0 <= i < h0.len() && holds(#[trigger] h0[i], dv, b) && h0[i].b_uptodate;
                    lemma_current(h0, d, i);
                    if i != v {
                        assert(holds(h[i], dv, b));
                    }
                } else {
                    lemma_uncached(h0, d, dv, b);
                }
            }
        }
    }
}

/// Writing buffers out changes no read.
proof fn lemma_synced_reads(
    h0: Seq<BufferHead>,
    d0: Seq<Disk>,
    h: Seq<BufferHead>,
    d: Seq<Disk>,
    dev: u16,
)
    requires
        one_each(h0),
        h.len() == h0.len(),
        forall|i: int| 0 <= i < h0.len() ==> synced(h0[i], #[trigger] h[i], dev, d0),
        disks_synced(h0, d0, d, dev),
        coherent_with(h0, d0),
    ensures
        one_each(h),
        coherent_with(h, d),
        same_reads(h0, d0, h, d),
{
    assert(one_each(h)) by {
        assert forall|i: int, j: int|
            #![trigger h[i], h[j]]
            0 <= i < j < h.len() && h[i].b_dev != 0 implies !(h[i].b_dev == h[j].b_dev
            && h[i].b_blocknr == h[j].b_blocknr) by {
            let a = h0[i];
            let b = h0[j];
            assert(synced(h0[i], h[i], dev, d0) && synced(h0[j], h[j], dev, d0));
        }
    }
    assert forall|i: int| 0 <= i < h.len() implies {
        let x = #[trigger] h[i];
        &&& x.b_dirt ==> x.b_uptodate
        &&& x.b_uptodate ==> x.b_dev != 0 && has_block(d, x.b_dev, x.b_blocknr)
        &&& x.b_uptodate && !x.b_dirt ==> x.b_data@ == on_disk(d, x.b_dev, x.b_blocknr)
    } by {
        let x0 = h0[i];
        assert(synced(h0[i], h[i], dev, d0));
        if x0.b_uptodate && !x0.b_dirt {
            assert forall|j: int| 0 <= j < h0.len() && to_write(#[trigger] h0[j], dev) implies !holds(
                h0[j],
                x0.b_dev,
                x0.b_blocknr,
            ) by {
                if i < j {
                    assert(!(h0[i].b_dev == h0[j].b_dev && h0[i].b_blocknr == h0[j].b_blocknr));
                } else if j < i {
                    assert(!(h0[j].b_dev == h0[i].b_dev && h0[j].b_blocknr == h0[i].b_blocknr));
                }
            }
        }
    }
    assert forall|dv: u16, b: u32| has_block(d0, dv, b) implies #[trigger] current(h, d, dv, b)
        == current(h0, d0, dv, b) by {
        if is_cached(h0, dv, b) {
            let i = choose|i: int|
                0 <= i < h0.len() && holds(#[trigger] h0[i], dv, b) && h0[i].b_uptodate;
            assert(synced(h0[i], h[i], dev, d0));
            lemma_current(h0, d0, i);
            lemma_current(h, d, i);
        } else {
            assert forall|i: int| 0 <= i < h.len() && holds(#[trigger] h[i], dv, b) implies !h[i].b_uptodate by {
                let x0 = h0[i];
                assert(synced(h0[i], h[i], dev, d0));
                assert(holds(h0[i], dv, b));
            }
            lemma_uncached(h, d, dv, b);
            lemma_uncached(h0, d0, dv, b);
            assert forall|i: int| 0 <= i < h0.len() && to_write(#[trigger] h0[i], dev) implies !holds(
                h0[i],
                dv,
                b,
            ) by {}
            assert(on_disk(d, dv, b) == on_disk(d0, dv, b));
        }
    }
}

/// Buffer `n` was taken for a block. It was the block's already and now has one
/// reference more, or it was the next to be given away and now is the block's,
/// its data not good. Other buffers stay, except that before a dirty one is
/// given away all of them are written out.
pub open spec fn getblk_took(
    h0: Seq<BufferHead>,
    ring0: Seq<usize>,
    d0: Seq<Disk>,
    h: Seq<BufferHead>,
    ring: Seq<usize>,
    n: usize,
    dev: u16,
    block: u32,
) -> bool {
    let hit = exists|i: int| 0 <= i < 64 && holds(#[trigger] h0[i], dev, block);
    let clean = exists|i: int| 0 <= i < 64 && (#[trigger] h0[i]).b_count == 0 && !h0[i].b_dirt;
    let x0 = h0[n as int];
    let x = h[n as int];
    let used_last = ring0.remove(ring0.index_of(n)).push(n);
    &&& n < 64
    &&& h.len() == 64
    &&& if hit {
        &&& holds(x0, dev, block)
        &&& same_body(x, BufferHead { b_count: (x0.b_count + 1) as u16, ..x0 })
        &&& ring == (if x0.b_uptodate && !x0.b_dirt {
            used_last
        } else {
            ring0
        })
        &&& forall|i: int| 0 <= i < 64 && i != n ==> same_body(#[trigger] h[i], h0[i])
    } else {
        &&& x0.b_count == 0
        &&& x.b_dev == dev && x.b_blocknr == block && x.b_count == 1
        &&& !x.b_uptodate && !x.b_dirt && !x.b_req
        &&& ring == used_last
        &&& clean ==> next_victim(h0, ring0, n) && forall|i: int|
            0 <= i < 64 && i != n ==> same_body(#[trigger] h[i], h0[i])
        &&& !clean ==> forall|i: int|
            0 <= i < 64 && i != n ==> synced_body(h0[i], #[trigger] h[i], 0, d0)
    }
}

/// What taking a buffer does to the counts and to who is whose.
proof fn lemma_took(
    h0: Seq<BufferHead>,
    d0: Seq<Disk>,
    ring0: Seq<usize>,
    h: Seq<BufferHead>,
    ring: Seq<usize>,
    n: usize,
    dev: u16,
    block: u32,
)
    requires
        getblk_took(h0, ring0, d0, h, ring, n, dev, block),
        h0.len() == 64,
        one_each(h0),
        one_each(h),
        forall|i: int|
            0 <= i < 64 && holds(#[trigger] h0[i], dev, block) ==> h0[i].b_count < u16::MAX,
    ensures
        forall|i: int|
            0 <= i < 64 ==> (#[trigger] h[i]).b_count == h0[i].b_count + (if i == n {
                1int
            } else {
                0
            }),
        h[n as int].b_dev == dev,
        h[n as int].b_blocknr == block,
        h[n as int].b_uptodate && dev != 0 <==> is_cached(h0, dev, block),
        h[n as int].b_uptodate ==> dev != 0,
{
    let hit = exists|i: int| 0 <= i < 64 && holds(#[trigger] h0[i], dev, block);
    let clean = exists|i: int| 0 <= i < 64 && (#[trigger] h0[i]).b_count == 0 && !h0[i].b_dirt;
    assert forall|i: int| 0 <= i < 64 implies (#[trigger] h[i]).b_count == h0[i].b_count + (if i == n {
        1int
    } else {
        0
    }) by {
        if i != n {
            let x0 = h0[i];
            if !hit && !clean {
                assert(synced_body(h0[i], h[i], 0, d0));
            }
        } else if hit {
            assert(holds(h0[i], dev, block));
        }
    }
    if hit {
        assert(holds(h0[n as int], dev, block));
        if is_cached(h0, dev, block) {
            let i = choose|i: int|
                0 <= i < h0.len() && holds(#[trigger] h0[i], dev, block) && h0[i].b_uptodate;
            if i < n {
                assert(h0[i].b_dev == h0[n as int].b_dev);
            } else if i > n {
                assert(h0[n as int].b_dev == h0[i].b_dev);
            }
        }
    } else if is_cached(h0, dev, block) {
        let i = choose|i: int|
            0 <= i < h0.len() && holds(#[trigger] h0[i], dev, block) && h0[i].b_uptodate;
        assert(holds(h0[i], dev, block));
    }
}

/// Moving one element to the end keeps all elements and repeats none.
proof fn lemma_rotated(r: Seq<usize>, n: usize)
    requires
        r.no_duplicates(),
        r.contains(n),
    ensures
        !r.remove(r.index_of(n)).contains(n),
        r.remove(r.index_of(n)).push(n).len() == r.len(),
        r.remove(r.index_of(n)).push(n).no_duplicates(),
        forall|i: usize|
            r.contains(i) ==> #[trigger] r.remove(r.index_of(n)).push(n).contains(i),
{
    let k = r.index_of(n);
    let t = r.remove(k);
    let u = t.push(n);
    assert(r[k] == n);
    assert forall|j: int| 0 <= j < t.len() implies #[trigger] t[j] == r[if j < k { j } else { j + 1 }] by {}
    if t.contains(n) {
        let j = choose|j: int| 0 <= j < t.len() && t[j] == n;
        assert(t[j] == r[if j < k { j } else { j + 1 }]);
    }
    assert forall|i: usize| r.contains(i) implies #[trigger] u.contains(i) by {
        let q = choose|q: int| 0 <= q < r.len() && r[q] == i;
        if q < k {
            assert(u[q] == i);
        } else if q > k {
            assert(t[q - 1] == r[q]);
            assert(u[q - 1] == i);
        } else {
            assert(u[t.len() as int] == i);
        }
    }
    assert forall|i: int, j: int| 0 <= i < u.len() && 0 <= j < u.len() && i != j implies u[i] != u[j] by {
        if i < t.len() && j < t.len() {
            assert(t[i] == r[if i < k { i } else { i + 1 }]);
            assert(t[j] == r[if j < k { j } else { j + 1 }]);
        } else if i < t.len() {
            assert(t.contains(t[i]));
        } else {
            assert(t.contains(t[j]));
        }
    }
}

/// Links do not matter to reads.
proof fn lemma_same_bodies(h0: Seq<BufferHead>, h: Seq<BufferHead>, d: Seq<Disk>)
    requires
        h0.len() == 64,
        h.len() == 64,
        one_each(h0),
        forall|i: int| 0 <= i < 64 ==> same_body(#[trigger] h[i], h0[i]),
    ensures
        one_each(h),
        bodies_ok(h0) ==> bodies_ok(h),
        coherent_with(h0, d) ==> coherent_with(h, d),
        same_reads(h0, d, h, d),
{
    lemma_good_same(h0, h, d);
    assert forall|i: int| 0 <= i < 64 && bodies_ok(h0) implies (#[trigger] h[i]).data_ok()
        && h[i].b_slot == i && !h[i].b_lock by {
        let x = h0[i];
    }
}

/// Counts do not matter to reads.
proof fn lemma_count_change(h0: Seq<BufferHead>, h: Seq<BufferHead>, d: Seq<Disk>, n: int)
    requires
        h0.len() == 64,
        one_each(h0),
        0 <= n < 64,
        h == h0.update(n, BufferHead { b_count: h[n].b_count, ..h0[n] }),
    ensures
        one_each(h),
        coherent_with(h0, d) ==> coherent_with(h, d),
        same_reads(h0, d, h, d),
{
    lemma_good_same(h0, h, d);
}

/// Buffers with the same blocks, flags and data are read alike.
proof fn lemma_good_same(h0: Seq<BufferHead>, h: Seq<BufferHead>, d: Seq<Disk>)
    requires
        h0.len() == h.len(),
        one_each(h0),
        forall|i: int|
            0 <= i < h.len() ==> {
                let x = #[trigger] h[i];
                let y = h0[i];
                &&& x.b_data == y.b_data
                &&& x.b_dev == y.b_dev
                &&& x.b_blocknr == y.b_blocknr
                &&& x.b_uptodate == y.b_uptodate
                &&& x.b_dirt == y.b_dirt
            },
    ensures
        one_each(h),
        coherent_with(h0, d) ==> coherent_with(h, d),
        same_reads(h0, d, h, d),
{
    assert forall|i: int, j: int|
        #![trigger h[i], h[j]]
        0 <= i < j < h.len() && h[i].b_dev != 0 implies !(h[i].b_dev == h[j].b_dev && h[i].b_blocknr
        == h[j].b_blocknr) by {
        let a = h0[i];
        let b = h0[j];
    }
    if coherent_with(h0, d) {
        assert forall|i: int| 0 <= i < h.len() implies {
            let x = #[trigger] h[i];
            &&& x.b_dirt ==> x.b_uptodate
            &&& x.b_uptodate ==> x.b_dev != 0 && has_block(d, x.b_dev, x.b_blocknr)
            &&& x.b_uptodate && !x.b_dirt ==> x.b_data@ == on_disk(d, x.b_dev, x.b_blocknr)
        } by {
            let x0 = h0[i];
        }
    }
    assert forall|dv: u16, b: u32| has_block(d, dv, b) implies #[trigger] current(h, d, dv, b)
        == current(h0, d, dv, b) by {
        if is_cached(h, dv, b) {
            let i = choose|i: int|
                0 <= i < h.len() && holds(#[trigger] h[i], dv, b) && h[i].b_uptodate;
            let x0 = h0[i];
            lemma_current(h, d, i);
            lemma_current(h0, d, i);
        } else {
            lemma_uncached(h, d, dv, b);
            if is_cached(h0, dv, b) {
                let i = choose|i: int|
                    0 <= i < h0.len() && holds(#[trigger] h0[i], dv, b) && h0[i].b_uptodate;
                assert(holds(h[i], dv, b));
            }
        }
    }
}

/// Fetching the data of a buffer that is not good changes no read.
proof fn lemma_fetched(h0: Seq<BufferHead>, h: Seq<BufferHead>, d: Seq<Disk>, n: int)
    requires
        h0.len() == 64,
        one_each(h0),
        coherent_with(h0, d),
        disks_ok(d),
        0 <= n < 64,
        !h0[n].b_uptodate,
        h == h0.update(n, h[n]),
        h[n].b_dev == h0[n].b_dev,
        h[n].b_blocknr == h0[n].b_blocknr,
        h[n].b_dirt == h0[n].b_dirt,
        h[n].b_uptodate ==> has_block(d, h[n].b_dev, h[n].b_blocknr) && h[n].b_data@ == on_disk(
            d,
            h[n].b_dev,
            h[n].b_blocknr,
        ),
    ensures
        one_each(h),
        coherent_with(h, d),
        same_reads(h0, d, h, d),
{
    assert forall|i: int, j: int|
        #![trigger h[i], h[j]]
        0 <= i < j < h.len() && h[i].b_dev != 0 implies !(h[i].b_dev == h[j].b_dev && h[i].b_blocknr
        == h[j].b_blocknr) by {
        let a = h0[i];
        let b = h0[j];
    }
    assert forall|i: int| 0 <= i < h.len() implies {
        let x = #[trigger] h[i];
        &&& x.b_dirt ==> x.b_uptodate
        &&& x.b_uptodate ==> x.b_dev != 0 && has_block(d, x.b_dev, x.b_blocknr)
        &&& x.b_uptodate && !x.b_dirt ==> x.b_data@ == on_disk(d, x.b_dev, x.b_blocknr)
    } by {
        let x0 = h0[i];
        if i == n && h[n].b_uptodate {
            let q = choose|q: int|
                0 <= q < d.len() && (#[trigger] d[q]).dev == h[n].b_dev && h[n].b_blocknr
                    < d[q].blocks@.len();
            assert(d[q].dev != 0);
        }
    }
    assert forall|dv: u16, b: u32| has_block(d, dv, b) implies #[trigger] current(h, d, dv, b)
        == current(h0, d, dv, b) by {
        if is_cached(h, dv, b) {
            let i = choose|i: int|
                0 <= i < h.len() && holds(#[trigger] h[i], dv, b) && h[i].b_uptodate;
            lemma_current(h, d, i);
            if i != n {
                assert(holds(h0[i], dv, b));
                lemma_current(h0, d, i);
            } else {
                assert forall|j: int| 0 <= j < h0.len() && holds(#[trigger] h0[j], dv, b) implies !h0[j].b_uptodate by {
                    if j < n {
                        assert(h0[j].b_dev == h0[n].b_dev);
                    } else if j > n {
                        assert(h0[n].b_dev == h0[j].b_dev);
                    }
                }
                lemma_uncached(h0, d, dv, b);
            }
        } else {
            lemma_uncached(h, d, dv, b);
            if is_cached(h0, dv, b) {
                let i = choose|i: int|
                    0 <= i < h0.len() && holds(#[trigger] h0[i], dv, b) && h0[i].b_uptodate;
                assert(i != n);
                assert(holds(h[i], dv, b));
            }
        }
    }
}

/// Putting new data into a good buffer changes what reads give of its block, and
/// nothing else.
proof fn lemma_written(h0: Seq<BufferHead>, h: Seq<BufferHead>, d: Seq<Disk>, n: int)
    requires
        h0.len() == 64,
        one_each(h0),
        coherent_with(h0, d),
        0 <= n < 64,
        h0[n].b_uptodate,
        h == h0.update(n, h[n]),
        h[n].b_dev == h0[n].b_dev,
        h[n].b_blocknr == h0[n].b_blocknr,
        h[n].b_dirt,
        h[n].b_uptodate,
    ensures
        coherent_with(h, d),
        forall|dv: u16, b: u32|
            has_block(d, dv, b) ==> #[trigger] current(h, d, dv, b) == (if dv == h0[n].b_dev && b
                == h0[n].b_blocknr {
                h[n].b_data@
            } else {
                current(h0, d, dv, b)
            }),
{
    let x = h0[n];
    assert(one_each(h)) by {
        assert forall|i: int, j: int|
            #![trigger h[i], h[j]]
            0 <= i < j < h.len() && h[i].b_dev != 0 implies !(h[i].b_dev == h[j].b_dev
            && h[i].b_blocknr == h[j].b_blocknr) by {
            let a = h0[i];
            let b = h0[j];
        }
    }
    assert forall|i: int| 0 <= i < h.len() implies {
        let x = #[trigger] h[i];
        &&& x.b_dirt ==> x.b_uptodate
        &&& x.b_uptodate ==> x.b_dev != 0 && has_block(d, x.b_dev, x.b_blocknr)
        &&& x.b_uptodate && !x.b_dirt ==> x.b_data@ == on_disk(d, x.b_dev, x.b_blocknr)
    } by {
        let x0 = h0[i];
    }
    lemma_current(h, d, n);
    assert forall|dv: u16, b: u32|
        has_block(d, dv, b) && !(dv == x.b_dev && b == x.b_blocknr) implies #[trigger] current(
        h,
        d,
        dv,
        b,
    ) == current(h0, d, dv, b) by {
        if is_cached(h, dv, b) {
            let i = choose|i: int|
                0 <= i < h.len() && holds(#[trigger] h[i], dv, b) && h[i].b_uptodate;
            assert(i != n);
            assert(holds(h0[i], dv, b));
            lemma_current(h, d, i);
            lemma_current(h0, d, i);
        } else {
            lemma_uncached(h, d, dv, b);
            if is_cached(h0, dv, b) {
                let i = choose|i: int|
                    0 <= i < h0.len() && holds(#[trigger] h0[i], dv, b) && h0[i].b_uptodate;
                assert(holds(h[i], dv, b));
            }
        }
    }
}

/// How many of the buffers behind number `i`, up to `n`, belong to the same
/// block as number `i`.
pub open spec fn twins_of(h: Seq<BufferHead>, i: int, n: int) -> int
    decreases n - i,
{
    if n <= i + 1 {
        0
    } else {
        twins_of(h, i, n - 1) + (if h[i].b_dev != 0 && h[n - 1].b_dev == h[i].b_dev && h[n
            - 1].b_blocknr == h[i].b_blocknr {
            1int
        } else {
            0
        })
    }
}

/// How many pairs of buffers belong to one block, the first of them among the
/// first `i`.
pub open spec fn twins(h: Seq<BufferHead>, i: int) -> int
    decreases i,
{
    if i <= 0 {
        0
    } else {
        twins(h, i - 1) + twins_of(h, i - 1, h.len() as int)
    }
}

proof fn lemma_twins_of_bound(h: Seq<BufferHead>, i: int, n: int)
    requires
        0 <= i < h.len(),
        n <= h.len(),
    ensures
        0 <= twins_of(h, i, n) <= h.len(),
        n > i ==> twins_of(h, i, n) <= n - i,
        one_each(h) ==> twins_of(h, i, n) == 0,
    decreases n - i,
{
    if n > i + 1 {
        lemma_twins_of_bound(h, i, n - 1);
        let a = h[i];
        let b = h[n - 1];
    }
}

proof fn lemma_twins_bound(h: Seq<BufferHead>, i: int)
    requires
        0 <= i <= h.len(),
    ensures
        0 <= twins(h, i) <= i * h.len(),
        one_each(h) ==> twins(h, i) == 0,
    decreases i,
{
    if i > 0 {
        lemma_twins_bound(h, i - 1);
        lemma_twins_of_bound(h, i - 1, h.len() as int);
        assert((i - 1) * h.len() + h.len() == i * h.len()) by (nonlinear_arith);
    }
}

/// Counts the pairs of buffers in a table that belong to one block.
pub fn check_duplicates(heads: &[BufferHead]) -> (r: usize)
    requires
        heads@.len() <= 64,
    ensures
        r == twins(heads@, heads@.len() as int),
        r == 0 <== one_each(heads@),
{
    let n: usize = heads.len();
    let mut dups: usize = 0;
    let mut i: usize = 0;
    while i < n
        invariant
            i <= n == heads@.len() <= 64,
            dups == twins(heads@, i as int),
            dups <= i * 64,
        decreases n - i,
    {
        let ghost before = dups;
        let mut j: usize = i + 1;
        while j < n && heads[i].b_dev != 0
            invariant
                i < j <= n == heads@.len() <= 64,
                before <= i * 64,
                dups == before + twins_of(heads@, i as int, j as int),
                dups <= before + (j - i),
            decreases n - j,
        {
            if heads[j].b_dev == heads[i].b_dev && heads[j].b_blocknr == heads[i].b_blocknr {
                dups = dups + 1;
            }
            j = j + 1;
        }
        proof {
            if heads@[i as int].b_dev == 0 {
                lemma_no_twins(heads@, i as int, j as int);
                lemma_no_twins(heads@, i as int, n as int);
            }
            lemma_twins_of_bound(heads@, i as int, n as int);
        }
        i = i + 1;
    }
    proof {
        lemma_twins_bound(heads@, n as int);
    }
    dups
}

proof fn lemma_no_twins(h: Seq<BufferHead>, i: int, n: int)
    requires
        h[i].b_dev == 0,
    ensures
        twins_of(h, i, n) == 0,
    decreases n - i,
{
    if n > i + 1 {
        lemma_no_twins(h, i, n - 1);
    }
}

/// A buffer has a block's room, and its links lead to buffers or nowhere.
pub open spec fn sound_head(x: BufferHead) -> bool {
    &&& x.data_ok()
    &&& x.b_next == NIL || x.b_next < 64
    &&& x.b_prev == NIL || x.b_prev < 64
    &&& x.b_next_free == NIL || x.b_next_free < 64
    &&& x.b_prev_free == NIL || x.b_prev_free < 64
}

/// How many of the first `n` buffers are unsound.
pub open spec fn count_unsound(h: Seq<BufferHead>, n: int) -> int
    decreases n,
{
    if n <= 0 {
        0
    } else {
        count_unsound(h, n - 1) + (if sound_head(h[n - 1]) {
            0int
        } else {
            1
        })
    }
}

/// Counts the unsound buffers of a table.
pub fn verify(heads: &[BufferHead]) -> (r: usize)
    ensures
        r == count_unsound(heads@, heads@.len() as int),
        r == 0 <== forall|i: int| 0 <= i < heads@.len() ==> sound_head(#[trigger] heads@[i]),
{
    let mut bad: usize = 0;
    for n in 0..heads.len()
        invariant
            bad == count_unsound(heads@, n as int),
            bad <= n,
            bad == 0 <== forall|i: int| 0 <= i < heads@.len() ==> sound_head(#[trigger] heads@[i]),
    {
        let b = &heads[n];
        let size_ok: bool = b.b_size == BLOCK_SIZE;
        let data_ok: bool = b.b_data.len() == BLOCK_SIZE;
        let link_ok: bool = (b.b_next == NIL || b.b_next < NR_BUFFERS) && (b.b_prev == NIL || b.b_prev
            < NR_BUFFERS) && (b.b_next_free == NIL || b.b_next_free < NR_BUFFERS) && (b.b_prev_free
            == NIL || b.b_prev_free < NR_BUFFERS);
        assert(size_ok && data_ok && link_ok <==> sound_head(heads@[n as int]));
        if !(size_ok && data_ok && link_ok) {
            bad = bad + 1;
        }
    }
    bad
}

/// The buffer that `k` steps along the ring from `head` lead to.
pub open spec fn ring_node(h: Seq<BufferHead>, head: usize, k: int) -> usize
    decreases k,
{
    if k <= 0 {
        head
    } else {
        h[ring_node(h, head, k - 1) as int].b_next_free
    }
}

/// From `head`, `n` steps lead round a ring of `n` buffers whose links agree both
/// ways; one of the 64 buffers may be missing.
pub open spec fn sound_ring(h: Seq<BufferHead>, head: usize, n: int) -> bool {
    &&& 63 <= n <= 64
    &&& forall|k: int| 0 <= k <= n ==> #[trigger] ring_node(h, head, k) < 64
    &&& forall|k: int|
        0 <= k < n ==> h[#[trigger] ring_node(h, head, k + 1) as int].b_prev_free == ring_node(
            h,
            head,
            k,
        )
    &&& ring_node(h, head, n) == head
    &&& forall|k: int| 0 < k < n ==> #[trigger] ring_node(h, head, k) != head
}

/// What is wrong with a ring.
#[derive(Debug, Clone, Copy, PartialEq, Eq, Structural)]
pub enum RingFault {
    /// It has no start, or the start is not on it.
    HeadOffRing,
    /// A link leads nowhere.
    Broken,
    /// Two buffers disagree about their order.
    Asymmetric,
    /// It does not lead back to the start.
    NotCircular,
    /// More than one buffer is missing.
    TooShort,
}

/// Walks the ring of a table of 64 buffers and answers its length, or the first
/// thing found wrong with it.
pub fn check_free_ring(heads: &[BufferHead], head: usize) -> (r: Result<usize, RingFault>)
    requires
        heads@.len() == 64,
    ensures
        r is Ok <==> exists|n: int| sound_ring(heads@, head, n),
        r is Ok ==> sound_ring(heads@, head, r->Ok_0 as int),
{
    let ghost h = heads@;
    if head >= NR_BUFFERS {
        assert(forall|n: int| sound_ring(h, head, n) ==> ring_node(h, head, 0) < 64);
        return Err(RingFault::HeadOffRing);
    }
    if heads[head].b_prev_free >= NR_BUFFERS {
        proof {
            if exists|n: int| sound_ring(h, head, n) {
                let n = choose|n: int| sound_ring(h, head, n);
                assert(h[ring_node(h, head, (n - 1) + 1) as int].b_prev_free == ring_node(
                    h,
                    head,
                    n - 1,
                ));
                assert(ring_node(h, head, n - 1) < 64);
            }
        }
        return Err(RingFault::HeadOffRing);
    }
    let mut p: usize = head;
    let mut cnt: usize = 0;
    loop
        invariant_except_break
            cnt > 0 ==> p != head,
            cnt <= 64,
            forall|k: int| 0 < k <= cnt ==> #[trigger] ring_node(h, head, k) != head,
        invariant
            h == heads@,
            h.len() == 64,
            cnt <= 65,
            p < 64,
            head < 64,
            p == ring_node(h, head, cnt as int),
            forall|k: int| 0 <= k <= cnt ==> #[trigger] ring_node(h, head, k) < 64,
            forall|k: int|
                0 <= k < cnt ==> h[#[trigger] ring_node(h, head, k + 1) as int].b_prev_free
                    == ring_node(h, head, k),
            forall|k: int| 0 < k < cnt ==> #[trigger] ring_node(h, head, k) != head,
        ensures
            p == head,
            cnt >= 1,
        decreases 66 - cnt,
    {
        let nx: usize = heads[p].b_next_free;
        assert(nx == ring_node(h, head, cnt + 1));
        if nx >= NR_BUFFERS {
            proof {
                if exists|n: int| sound_ring(h, head, n) {
                    let n = choose|n: int| sound_ring(h, head, n);
                    assert(n > cnt) by {
                        if n <= cnt {
                            assert(ring_node(h, head, n) != head);
                        }
                    }
                    assert(ring_node(h, head, cnt + 1) < 64);
                }
            }
            return Err(RingFault::Broken);
        }
        if heads[nx].b_prev_free != p {
            proof {
                if exists|n: int| sound_ring(h, head, n) {
                    let n = choose|n: int| sound_ring(h, head, n);
                    assert(n > cnt) by {
                        if n <= cnt {
                            assert(ring_node(h, head, n) != head);
                        }
                    }
                    assert(h[ring_node(h, head, cnt + 1) as int].b_prev_free == ring_node(
                        h,
                        head,
                        cnt as int,
                    ));
                }
            }
            return Err(RingFault::Asymmetric);
        }
        proof {
            assert forall|k: int| 0 <= k < cnt + 1 implies h[#[trigger] ring_node(
                h,
                head,
                k + 1,
            ) as int].b_prev_free == ring_node(h, head, k) by {}
        }
        cnt = cnt + 1;
        p = nx;
        if p == head {
            break;
        }
        if cnt > NR_BUFFERS {
            proof {
                if exists|n: int| sound_ring(h, head, n) {
                    let n = choose|n: int| sound_ring(h, head, n);
                    assert(ring_node(h, head, n) != head);
                }
            }
            return Err(RingFault::NotCircular);
        }
    }
    if cnt > NR_BUFFERS {
        proof {
            if exists|n: int| sound_ring(h, head, n) {
                let n = choose|n: int| sound_ring(h, head, n);
                assert(ring_node(h, head, n) != head);
            }
        }
        return Err(RingFault::NotCircular);
    }
    if cnt + 1 < NR_BUFFERS {
        proof {
            if exists|n: int| sound_ring(h, head, n) {
                let n = choose|n: int| sound_ring(h, head, n);
                assert(ring_node(h, head, cnt as int) != head);
            }
        }
        return Err(RingFault::TooShort);
    }
    assert(sound_ring(h, head, cnt as int));
    Ok(cnt)
}

/// The place of a buffer in its table.
pub fn index_of(b: &BufferHead) -> (r: usize)
    ensures
        r == b.b_slot,
{
    b.b_slot
}

/// Answers whether blocks may have that size: 1024 bytes is the only one.
pub fn set_blocksize(dev: u16, size: usize) -> (r: bool)
    ensures
        r == (size == 1024),
{
    size == BLOCK_SIZE
}

/// Numbers of the buffers in use, locked and dirty.
pub struct BufferStats {
    pub used: usize,
    pub locked: usize,
    pub dirty: usize,
}

/// How many of the first `n` buffers are in use, locked, dirty.
pub open spec fn count_used(h: Seq<BufferHead>, n: int) -> int
    decreases n,
{
    if n <= 0 {
        0
    } else {
        count_used(h, n - 1) + (if h[n - 1].b_count != 0 {
            1int
        } else {
            0
        })
    }
}

pub open spec fn count_locked(h: Seq<BufferHead>, n: int) -> int
    decreases n,
{
    if n <= 0 {
        0
    } else {
        count_locked(h, n - 1) + (if h[n - 1].b_lock {
            1int
        } else {
            0
        })
    }
}

pub open spec fn count_dirty(h: Seq<BufferHead>, n: int) -> int
    decreases n,
{
    if n <= 0 {
        0
    } else {
        count_dirty(h, n - 1) + (if h[n - 1].b_dirt {
            1int
        } else {
            0
        })
    }
}

/// The block cache and the devices below it.
pub struct BufferCache {
    heads: Vec<BufferHead>,
    hash_table: Vec<usize>,
    free_list: usize,
    disks: Vec<Disk>,
    ring: Ghost<Seq<usize>>,
    chains: Ghost<Seq<Seq<usize>>>,
}

impl BufferCache {
    /// The buffers.
    pub closed spec fn bufs(&self) -> Seq<BufferHead> {
        self.heads@
    }

    /// The buffers in the order in which they would be given away.
    pub closed spec fn order(&self) -> Seq<usize> {
        self.ring@
    }

    /// The devices.
    pub closed spec fn devices(&self) -> Seq<Disk> {
        self.disks@
    }

    spec fn sized(&self) -> bool {
        self.heads@.len() == 64 && self.hash_table@.len() == 61 && self.chains@.len() == 61
    }

    /// The ring goes through every buffer once, both ways; the chains lead to
    /// every buffer of a block; there is one buffer for a block at most.
    pub closed spec fn wf(&self) -> bool {
        &&& self.sized()
        &&& ring_ok(self.heads@, self.free_list, self.ring@)
        &&& self.ring@.len() == 64
        &&& self.ring@.no_duplicates()
        &&& forall|i: usize| i < 64 ==> #[trigger] self.ring@.contains(i)
        &&& chains_ok(self.heads@, self.hash_table@, self.chains@, -1)
        &&& one_each(self.heads@)
        &&& bodies_ok(self.heads@)
        &&& disks_ok(self.disks@)
    }

    /// What well-formedness says of the buffers and the devices.
    pub proof fn lemma_wf(&self)
        requires
            self.wf(),
        ensures
            self.bufs().len() == 64,
            self.order().len() == 64,
            self.order().no_duplicates(),
            forall|k: int| 0 <= k < 64 ==> (#[trigger] self.order()[k]) < 64,
            forall|i: usize| i < 64 ==> #[trigger] self.order().contains(i),
            one_each(self.bufs()),
            disks_ok(self.devices()),
            forall|i: int|
                0 <= i < 64 ==> (#[trigger] self.bufs()[i]).data_ok() && !self.bufs()[i].b_lock
                    && self.bufs()[i].b_slot == i,
    {
        reveal(ring_ok);
    }

    /// No buffer is in use.
    pub open spec fn quiet(&self) -> bool {
        forall|i: int| 0 <= i < self.bufs().len() ==> (#[trigger] self.bufs()[i]).b_count == 0
    }

    /// Well formed, at rest, and true to the devices.
    pub open spec fn ready(&self) -> bool {
        self.wf() && self.quiet() && coherent_with(self.bufs(), self.devices())
    }

    /// What reads give: for every block of every device, its bytes.
    pub open spec fn content(&self) -> Map<(u16, u32), Seq<u8>> {
        Map::new(
            |k: (u16, u32)| has_block(self.devices(), k.0, k.1),
            |k: (u16, u32)| current(self.bufs(), self.devices(), k.0, k.1),
        )
    }

    /// What the devices hold.
    pub open spec fn stored(&self) -> Map<(u16, u32), Seq<u8>> {
        Map::new(
            |k: (u16, u32)| has_block(self.devices(), k.0, k.1),
            |k: (u16, u32)| on_disk(self.devices(), k.0, k.1),
        )
    }

    // ---- the ring ----

    /// Takes buffer `n` out of the ring.
    #[verifier::spinoff_prover]
    #[verifier::rlimit(80)]
    fn remove_from_free_list(&mut self, n: usize)
        requires
            old(self).sized(),
            ring_ok(old(self).heads@, old(self).free_list, old(self).ring@),
            old(self).ring@.len() >= 2,
            old(self).ring@.contains(n),
        ensures
            final(self).sized(),
            final(self).ring@ == old(self).ring@.remove(old(self).ring@.index_of(n)),
            ring_ok(final(self).heads@, final(self).free_list, final(self).ring@),
            forall|i: int|
                0 <= i < 64 ==> same_body(#[trigger] final(self).heads@[i], old(self).heads@[i])
                    && same_hash_links(final(self).heads@[i], old(self).heads@[i]),
            final(self).hash_table == old(self).hash_table,
            final(self).disks == old(self).disks,
            final(self).chains == old(self).chains,
    {
        let ghost r = self.ring@;
        let ghost k = r.index_of(n);
        proof {
            assert(r[k] == n);
            lemma_ring_at(self.heads@, self.free_list, r, k);
        }
        let prev: usize = self.heads[n].b_prev_free;
        let next: usize = self.heads[n].b_next_free;
        self.heads[prev].b_next_free = next;
        self.heads[next].b_prev_free = prev;
        if self.free_list == n {
            self.free_list = next;
        }
        self.heads[n].b_next_free = NIL;
        self.heads[n].b_prev_free = NIL;
        self.ring = Ghost(r.remove(k));
        proof {
            lemma_ring_remove(old(self).heads@, self.heads@, old(self).free_list, r, k);
        }
    }

    /// Puts buffer `n` behind the last one of the ring.
    fn insert_at_free_tail(&mut self, n: usize)
        requires
            old(self).sized(),
            ring_ok(old(self).heads@, old(self).free_list, old(self).ring@),
            n < 64,
            !old(self).ring@.contains(n),
        ensures
            final(self).sized(),
            final(self).ring@ == old(self).ring@.push(n),
            final(self).free_list == old(self).free_list,
            ring_ok(final(self).heads@, final(self).free_list, final(self).ring@),
            forall|i: int|
                0 <= i < 64 ==> same_body(#[trigger] final(self).heads@[i], old(self).heads@[i])
                    && same_hash_links(final(self).heads@[i], old(self).heads@[i]),
            final(self).hash_table == old(self).hash_table,
            final(self).disks == old(self).disks,
            final(self).chains == old(self).chains,
    {
        let ghost r = self.ring@;
        let head: usize = self.free_list;
        proof {
            reveal(ring_ok);
            lemma_ring_at(self.heads@, self.free_list, r, 0);
            assert(r.contains(r[0]) && r.contains(r[r.len() - 1]));
        }
        let tail: usize = self.heads[head].b_prev_free;
        self.heads[n].b_next_free = head;
        self.heads[n].b_prev_free = tail;
        self.heads[tail].b_next_free = n;
        self.heads[head].b_prev_free = n;
        self.ring = Ghost(r.push(n));
        proof {
            lemma_ring_push(old(self).heads@, self.heads@, self.free_list, r, n);
        }
    }

    /// Moves buffer `n` to the end of the ring, as the one used last.
    fn put_last_free(&mut self, n: usize)
        requires
            old(self).sized(),
            ring_ok(old(self).heads@, old(self).free_list, old(self).ring@),
            old(self).ring@.len() >= 2,
            old(self).ring@.contains(n),
        ensures
            final(self).sized(),
            final(self).ring@ == old(self).ring@.remove(old(self).ring@.index_of(n)).push(n),
            ring_ok(final(self).heads@, final(self).free_list, final(self).ring@),
            forall|i: int|
                0 <= i < 64 ==> same_body(#[trigger] final(self).heads@[i], old(self).heads@[i])
                    && same_hash_links(final(self).heads@[i], old(self).heads@[i]),
            final(self).hash_table == old(self).hash_table,
            final(self).disks == old(self).disks,
            final(self).chains == old(self).chains,
    {
        let ghost r = self.ring@;
        let ghost k = r.index_of(n);
        proof {
            assert(r[k] == n);
            lemma_ring_at(self.heads@, self.free_list, r, k);
        }
        if self.free_list == n {
            assert(k == 0) by {
                reveal(ring_ok);
            }
            self.free_list = self.heads[n].b_next_free;
            self.ring = Ghost(r.remove(0).push(n));
            proof {
                lemma_ring_rotate(self.heads@, old(self).free_list, r);
            }
            return;
        }
        self.remove_from_free_list(n);
        assert(!self.ring@.contains(n)) by {
            reveal(ring_ok);
            let t = r.remove(k);
            if t.contains(n) {
                let j = choose|j: int| 0 <= j < t.len() && t[j] == n;
                let q = if j < k { j } else { j + 1 };
                assert(t[j] == r[q]);
            }
        }
        self.insert_at_free_tail(n);
    }

    // ---- the chains ----

    /// Takes buffer `n` off its chain.
    #[verifier::spinoff_prover]
    #[verifier::rlimit(80)]
    fn remove_from_hash_queue(&mut self, n: usize)
        requires
            old(self).sized(),
            n < 64,
            chains_ok(old(self).heads@, old(self).hash_table@, old(self).chains@, -1),
        ensures
            final(self).sized(),
            chains_ok(final(self).heads@, final(self).hash_table@, final(self).chains@, n as int),
            forall|i: int|
                0 <= i < 64 ==> same_body(#[trigger] final(self).heads@[i], old(self).heads@[i])
                    && same_free_links(final(self).heads@[i], old(self).heads@[i]),
            final(self).free_list == old(self).free_list,
            final(self).disks == old(self).disks,
            final(self).ring == old(self).ring,
    {
        let ghost h0 = self.heads@;
        let ghost table0 = self.hash_table@;
        let ghost chains = self.chains@;
        let prev: usize = self.heads[n].b_prev;
        let next: usize = self.heads[n].b_next;
        let dev: u16 = self.heads[n].b_dev;
        let blk: u32 = self.heads[n].b_blocknr;
        let hb: usize = hashfn(dev, blk);
        let ghost b = hash_of(dev, blk);
        let ghost mut k: int = 0;
        proof {
            lemma_chain_head(h0, table0, chains, -1, b);
            lemma_chain_member(h0, table0, chains, -1, n as int);
            if dev != 0 {
                k = lemma_chain_place(h0, table0, chains, n);
            }
        }
        if next != NIL {
            self.heads[next].b_prev = prev;
        }
        if prev != NIL {
            self.heads[prev].b_next = next;
        }
        if self.hash_table[hb] == n {
            self.hash_table[hb] = next;
        }
        self.heads[n].b_prev = NIL;
        self.heads[n].b_next = NIL;
        proof {
            if dev != 0 {
                assert(self.hash_table@ =~= table0.update(
                    b,
                    if k == 0 {
                        chain_next(chains[b], k)
                    } else {
                        table0[b]
                    },
                ));
                lemma_chain_remove(h0, self.heads@, table0, self.hash_table@, chains, b, k);
                self.chains@ = chains.update(b, chains[b].remove(k));
            } else {
                assert(self.hash_table@ =~= table0);
                assert(self.heads@ =~= h0);
                lemma_chain_none(h0, table0, chains, n);
            }
        }
    }

    /// Hangs buffer `n` at the end of the ring and, where it belongs to a block,
    /// in front of its chain.
    #[verifier::spinoff_prover]
    #[verifier::rlimit(80)]
    fn insert_into_queues(&mut self, n: usize)
        requires
            old(self).sized(),
            n < 64,
            chains_ok(old(self).heads@, old(self).hash_table@, old(self).chains@, n as int),
            ring_ok(old(self).heads@, old(self).free_list, old(self).ring@),
            !old(self).ring@.contains(n),
        ensures
            final(self).sized(),
            chains_ok(final(self).heads@, final(self).hash_table@, final(self).chains@, -1),
            ring_ok(final(self).heads@, final(self).free_list, final(self).ring@),
            final(self).ring@ == old(self).ring@.push(n),
            forall|i: int|
                0 <= i < 64 ==> same_body(#[trigger] final(self).heads@[i], old(self).heads@[i]),
            final(self).disks == old(self).disks,
    {
        let ghost hs = self.heads@;
        self.insert_at_free_tail(n);
        proof {
            lemma_chain_member(hs, self.hash_table@, self.chains@, n as int, n as int);
            lemma_chain_frame(hs, self.heads@, self.hash_table@, self.chains@, n as int);
        }
        let ghost h0 = self.heads@;
        let ghost table0 = self.hash_table@;
        let ghost chains = self.chains@;
        self.heads[n].b_prev = NIL;
        self.heads[n].b_next = NIL;
        let dev: u16 = self.heads[n].b_dev;
        let blk: u32 = self.heads[n].b_blocknr;
        if dev == 0 {
            proof {
                lemma_chain_member(h0, table0, chains, n as int, n as int);
                assert(self.heads@ =~= h0);
                reveal(chains_ok);
            }
            return;
        }
        let hb: usize = hashfn(dev, blk);
        let ghost b = hash_of(dev, blk);
        let first: usize = self.hash_table[hb];
        proof {
            lemma_chain_head(h0, table0, chains, n as int, b);
        }
        self.heads[n].b_next = first;
        self.hash_table[hb] = n;
        if first != NIL {
            self.heads[first].b_prev = n;
        }
        proof {
            lemma_chain_insert(h0, self.heads@, table0, chains, n);
            self.chains@ = chains.update(b, seq![n] + chains[b]);
            lemma_ring_frame(h0, self.heads@, self.free_list, self.ring@);
        }
    }

    /// The buffer of a block. Buffers of another size than asked for do not
    /// count.
    fn find_buffer(&self, dev: u16, block: u32, size: usize) -> (r: Option<usize>)
        requires
            self.wf(),
        ensures
            r is None <==> size != 1024 || forall|i: int|
                0 <= i < 64 ==> !holds(#[trigger] self.bufs()[i], dev, block),
            r is Some ==> r->0 < 64 && holds(self.bufs()[r->0 as int], dev, block),
    {
        let hb: usize = hashfn(dev, block);
        let ghost b = hash_of(dev, block);
        let ghost c = self.chains@[b];
        let ghost mut k: int = 0;
        proof {
            lemma_chain_get(self.heads@, self.hash_table@, self.chains@, -1, b);
        }
        let mut p: usize = self.hash_table[hb];
        while p != NIL
            invariant
                self.wf(),
                0 <= b < 61,
                b == hash_of(dev, block),
                c == self.chains@[b],
                chain_ok(self.heads@, self.hash_table@[b], c, b),
                0 <= k <= c.len(),
                p == (if k < c.len() {
                    c[k]
                } else {
                    NIL
                }),
                forall|j: int|
                    0 <= j < k ==> !holds(self.heads@[#[trigger] c[j] as int], dev, block),
            decreases c.len() - k,
        {
            let ghost x = self.heads@[c[k] as int];
            if self.heads[p].b_dev == dev && self.heads[p].b_blocknr == block {
                assert(holds(self.bufs()[p as int], dev, block));
                assert(self.heads@[p as int].data_ok());
                if self.heads[p].b_size == size {
                    return Some(p);
                }
                return None;
            }
            p = self.heads[p].b_next;
            proof {
                k = k + 1;
            }
        }
        proof {
            assert forall|i: int| 0 <= i < 64 implies !holds(#[trigger] self.heads@[i], dev, block) by {
                if holds(self.heads@[i], dev, block) {
                    lemma_chain_member(self.heads@, self.hash_table@, self.chains@, -1, i);
                    let j = choose|j: int| 0 <= j < c.len() && c[j] == i as usize;
                    assert(!holds(self.heads@[c[j] as int], dev, block));
                }
            }
        }
        None
    }

    // ---- the devices ----

    /// The place of the device that has that block.
    fn find_disk(&self, dev: u16, block: u32) -> (r: Option<usize>)
        requires
            self.wf(),
        ensures
            r is None <==> !has_block(self.devices(), dev, block),
            r is Some ==> {
                &&& r->0 < self.devices().len()
                &&& self.devices()[r->0 as int].dev == dev
                &&& block < self.devices()[r->0 as int].blocks@.len()
            },
    {
        for i in 0..self.disks.len()
            invariant
                self.wf(),
                forall|j: int|
                    0 <= j < i ==> !((#[trigger] self.disks@[j]).dev == dev && block
                        < self.disks@[j].blocks@.len()),
        {
            if self.disks[i].dev == dev && (block as usize) < self.disks[i].blocks.len() {
                assert(has_block(self.disks@, dev, block));
                return Some(i);
            }
        }
        None
    }

    /// Hands the data of buffer `n` to its device.
    fn write_out(&mut self, n: usize)
        requires
            old(self).wf(),
            n < 64,
        ensures
            final(self).wf(),
            final(self).order() == old(self).order(),
            ({
                let x = old(self).bufs()[n as int];
                &&& final(self).bufs() == old(self).bufs().update(
                    n as int,
                    BufferHead {
                        b_dirt: false,
                        b_req: true,
                        b_uptodate: has_block(old(self).devices(), x.b_dev, x.b_blocknr),
                        ..x
                    },
                )
                &&& forall|dv: u16, b: u32|
                    #[trigger] has_block(final(self).devices(), dv, b) == has_block(
                        old(self).devices(),
                        dv,
                        b,
                    )
                &&& forall|dv: u16, b: u32|
                    has_block(old(self).devices(), dv, b) ==> #[trigger] on_disk(
                        final(self).devices(),
                        dv,
                        b,
                    ) == (if dv == x.b_dev && b == x.b_blocknr {
                        x.b_data@
                    } else {
                        on_disk(old(self).devices(), dv, b)
                    })
            }),
    {
        let ghost h0 = self.heads@;
        let dev: u16 = self.heads[n].b_dev;
        let block: u32 = self.heads[n].b_blocknr;
        let mut ok: bool = false;
        match self.find_disk(dev, block) {
            None => {},
            Some(i) => {
                let v: Vec<u8> = self.heads[n].b_data.clone();
                self.disks[i].blocks[block as usize] = v;
                ok = true;
                proof {
                    assert(h0[n as int].data_ok());
                    lemma_disk_write(
                        old(self).disks@,
                        self.disks@,
                        i as int,
                        block,
                        h0[n as int].b_data@,
                    );
                }
            },
        }
        self.heads[n].b_dirt = false;
        self.heads[n].b_req = true;
        self.heads[n].b_uptodate = ok;
        proof {
            lemma_ring_frame(h0, self.heads@, self.free_list, self.ring@);
            lemma_chain_frame(h0, self.heads@, self.hash_table@, self.chains@, -1);
            assert(one_each(self.heads@)) by {
                assert forall|i: int, j: int|
                    #![trigger self.heads@[i], self.heads@[j]]
                    0 <= i < j < 64 && self.heads@[i].b_dev != 0 implies !(self.heads@[i].b_dev
                    == self.heads@[j].b_dev && self.heads@[i].b_blocknr
                    == self.heads@[j].b_blocknr) by {
                    let a = h0[i];
                    let b = h0[j];
                }
            }
        }
    }

    /// Fetches the data of buffer `n` from its device.
    fn read_in(&mut self, n: usize)
        requires
            old(self).wf(),
            n < 64,
        ensures
            final(self).wf(),
            final(self).order() == old(self).order(),
            final(self).devices() == old(self).devices(),
            ({
                let x = old(self).bufs()[n as int];
                let y = final(self).bufs()[n as int];
                let has = has_block(old(self).devices(), x.b_dev, x.b_blocknr);
                &&& y == (BufferHead { b_req: true, b_uptodate: has, b_data: y.b_data, ..x })
                &&& y.b_data@ == (if has {
                    on_disk(old(self).devices(), x.b_dev, x.b_blocknr)
                } else {
                    x.b_data@
                })
                &&& final(self).bufs() == old(self).bufs().update(n as int, y)
            }),
    {
        let ghost h0 = self.heads@;
        let dev: u16 = self.heads[n].b_dev;
        let block: u32 = self.heads[n].b_blocknr;
        let mut ok: bool = false;
        match self.find_disk(dev, block) {
            None => {},
            Some(i) => {
                let v: Vec<u8> = self.disks[i].blocks[block as usize].clone();
                proof {
                    lemma_on_disk(self.disks@, i as int, block);
                    assert(self.disks@[i as int].blocks@[block as int]@.len() == 1024);
                }
                self.heads[n].b_data = v;
                ok = true;
            },
        }
        self.heads[n].b_req = true;
        self.heads[n].b_uptodate = ok;
        proof {
            assert(self.heads@ =~= h0.update(n as int, self.heads@[n as int]));
            lemma_ring_frame(h0, self.heads@, self.free_list, self.ring@);
            lemma_chain_frame(h0, self.heads@, self.hash_table@, self.chains@, -1);
            assert(one_each(self.heads@)) by {
                assert forall|i: int, j: int|
                    #![trigger self.heads@[i], self.heads@[j]]
                    0 <= i < j < 64 && self.heads@[i].b_dev != 0 implies !(self.heads@[i].b_dev
                    == self.heads@[j].b_dev && self.heads@[i].b_blocknr
                    == self.heads@[j].b_blocknr) by {
                    let a = h0[i];
                    let b = h0[j];
                }
            }
            assert(h0[n as int].data_ok());
        }
    }

    /// Goes round the ring once and writes the dirty buffers of a device out.
    /// Answers whether a failed transfer was seen and whether anything was
    /// written.
    fn sync_pass(&mut self, dev: u16, wait: bool) -> (r: (bool, bool))
        requires
            old(self).wf(),
        ensures
            final(self).wf(),
            final(self).order() == old(self).order(),
            forall|i: int|
                0 <= i < 64 ==> synced(
                    old(self).bufs()[i],
                    #[trigger] final(self).bufs()[i],
                    dev,
                    old(self).devices(),
                ),
            disks_synced(old(self).bufs(), old(self).devices(), final(self).devices(), dev),
            r.0 == (wait && exists|i: int|
                0 <= i < 64 && failed(#[trigger] old(self).bufs()[i], dev)),
            r.1 == exists|i: int| 0 <= i < 64 && to_write(#[trigger] old(self).bufs()[i], dev),
    {
        let ghost h0 = self.heads@;
        let ghost d0 = self.disks@;
        let ghost ring = self.ring@;
        let mut err: bool = false;
        let mut retry: bool = false;
        let mut p: usize = self.free_list;
        let mut k: usize = 0;
        proof {
            self.lemma_wf();
            lemma_ring_at(self.heads@, self.free_list, self.ring@, 0);
        }
        while k < NR_BUFFERS
            invariant
                self.wf(),
                k <= 64,
                ring == self.ring@,
                ring.len() == 64,
                ring.no_duplicates(),
                one_each(h0),
                h0.len() == 64,
                forall|j: int| 0 <= j < 64 ==> (#[trigger] ring[j]) < 64,
                k < 64 ==> p == ring[k as int],
                forall|j: int|
                    0 <= j < k ==> synced(
                        h0[ring[j] as int],
                        #[trigger] self.heads@[ring[j] as int],
                        dev,
                        d0,
                    ),
                forall|j: int|
                    k <= j < 64 ==> #[trigger] self.heads@[ring[j] as int] == h0[ring[j] as int],
                forall|dv: u16, b: u32|
                    #[trigger] has_block(self.disks@, dv, b) == has_block(d0, dv, b),
                forall|j: int|
                    0 <= j < k && to_write(#[trigger] h0[ring[j] as int], dev) && has_block(
                        d0,
                        h0[ring[j] as int].b_dev,
                        h0[ring[j] as int].b_blocknr,
                    ) ==> on_disk(
                        self.disks@,
                        h0[ring[j] as int].b_dev,
                        h0[ring[j] as int].b_blocknr,
                    ) == h0[ring[j] as int].b_data@,
                forall|dv: u16, b: u32|
                    has_block(d0, dv, b) && (forall|j: int|
                        0 <= j < k && to_write(#[trigger] h0[ring[j] as int], dev) ==> !holds(
                            h0[ring[j] as int],
                            dv,
                            b,
                        )) ==> #[trigger] on_disk(self.disks@, dv, b) == on_disk(d0, dv, b),
                err == (wait && exists|j: int|
                    0 <= j < k && failed(#[trigger] h0[ring[j] as int], dev)),
                retry == exists|j: int| 0 <= j < k && to_write(#[trigger] h0[ring[j] as int], dev),
            decreases 64 - k,
        {
            proof {
                lemma_ring_at(self.heads@, self.free_list, self.ring@, k as int);
            }
            let this: usize = p;
            let ghost x = h0[ring[k as int] as int];
            let ghost before = self.disks@;
            let ghost hb = self.heads@;
            assert(self.heads@[ring[k as int] as int] == x);
            p = self.heads[this].b_next_free;
            if dev == 0 || self.heads[this].b_dev == dev {
                if self.heads[this].b_req && !self.heads[this].b_dirt
                    && !self.heads[this].b_uptodate {
                    if wait {
                        err = true;
                    }
                } else if self.heads[this].b_dirt {
                    assert(self.devices() == before);
                    self.write_out(this);
                    assert(self.devices() == self.disks@);
                    retry = true;
                }
            }
            proof {
                assert(failed(x, dev) ==> !to_write(x, dev));
                assert forall|j: int| 0 <= j < k + 1 implies synced(
                    h0[ring[j] as int],
                    #[trigger] self.heads@[ring[j] as int],
                    dev,
                    d0,
                ) by {
                    if j < k {
                        assert(ring[j] != ring[k as int]);
                        assert(synced(h0[ring[j] as int], hb[ring[j] as int], dev, d0));
                    }
                }
                assert forall|j: int| k + 1 <= j < 64 implies #[trigger] self.heads@[ring[j] as int]
                    == h0[ring[j] as int] by {
                    assert(ring[j] != ring[k as int]);
                    assert(hb[ring[j] as int] == h0[ring[j] as int]);
                }
                assert forall|j: int|
                    0 <= j < k + 1 && to_write(#[trigger] h0[ring[j] as int], dev) && has_block(
                        d0,
                        h0[ring[j] as int].b_dev,
                        h0[ring[j] as int].b_blocknr,
                    ) implies on_disk(
                    self.disks@,
                    h0[ring[j] as int].b_dev,
                    h0[ring[j] as int].b_blocknr,
                ) == h0[ring[j] as int].b_data@ by {
                    let y = h0[ring[j] as int];
                    assert(has_block(before, y.b_dev, y.b_blocknr));
                    if j < k {
                        assert(ring[j] != ring[k as int]);
                        if y.b_dev == x.b_dev && y.b_blocknr == x.b_blocknr && y.b_dev != 0 {
                            let a = ring[j] as int;
                            let c = ring[k as int] as int;
                            if a < c {
                                assert(h0[a].b_dev == h0[c].b_dev);
                            } else {
                                assert(h0[c].b_dev == h0[a].b_dev);
                            }
                        }
                        assert(y.b_dev != 0) by {
                            let q = choose|q: int|
                                0 <= q < d0.len() && (#[trigger] d0[q]).dev == y.b_dev
                                    && y.b_blocknr < d0[q].blocks@.len();
                            assert(has_block(self.disks@, y.b_dev, y.b_blocknr));
                        }
                    }
                }
                assert forall|dv: u16, b: u32|
                    has_block(d0, dv, b) && (forall|j: int|
                        0 <= j < k + 1 && to_write(#[trigger] h0[ring[j] as int], dev) ==> !holds(
                            h0[ring[j] as int],
                            dv,
                            b,
                        )) implies #[trigger] on_disk(self.disks@, dv, b) == on_disk(d0, dv, b) by {
                    assert(has_block(before, dv, b));
                    assert(on_disk(before, dv, b) == on_disk(d0, dv, b));
                    if to_write(x, dev) {
                        assert(!holds(h0[ring[k as int] as int], dv, b));
                        assert(dv != 0) by {
                            let q = choose|q: int|
                                0 <= q < before.len() && (#[trigger] before[q]).dev == dv && b
                                    < before[q].blocks@.len();
                        }
                    }
                }
                if k + 1 < 64 {
                    assert(p == ring[k + 1]);
                }
            }
            k = k + 1;
        }
        proof {
            self.lemma_wf();
            assert forall|i: int| 0 <= i < 64 implies synced(h0[i], #[trigger] self.heads@[i], dev, d0) by {
                assert(ring.contains(i as usize));
                let j = ring.index_of(i as usize);
                assert(synced(h0[ring[j] as int], self.heads@[ring[j] as int], dev, d0));
            }
            assert forall|i: int|
                0 <= i < h0.len() && to_write(#[trigger] h0[i], dev) && has_block(
                    d0,
                    h0[i].b_dev,
                    h0[i].b_blocknr,
                ) implies on_disk(self.disks@, h0[i].b_dev, h0[i].b_blocknr) == h0[i].b_data@ by {
                assert(ring.contains(i as usize));
                let j = ring.index_of(i as usize);
                assert(to_write(h0[ring[j] as int], dev));
            }
            assert forall|dv: u16, b: u32|
                has_block(d0, dv, b) && (forall|i: int|
                    0 <= i < h0.len() && to_write(#[trigger] h0[i], dev) ==> !holds(h0[i], dv, b))
                implies #[trigger] on_disk(self.disks@, dv, b) == on_disk(d0, dv, b) by {
                assert(forall|j: int|
                    0 <= j < 64 && to_write(#[trigger] h0[ring[j] as int], dev) ==> !holds(
                        h0[ring[j] as int],
                        dv,
                        b,
                    ));
            }
            if exists|i: int| 0 <= i < 64 && failed(#[trigger] h0[i], dev) {
                let i = choose|i: int| 0 <= i < 64 && failed(#[trigger] h0[i], dev);
                assert(ring.contains(i as usize));
                let j = ring.index_of(i as usize);
                assert(failed(h0[ring[j] as int], dev));
            }
            if exists|i: int| 0 <= i < 64 && to_write(#[trigger] h0[i], dev) {
                let i = choose|i: int| 0 <= i < 64 && to_write(#[trigger] h0[i], dev);
                assert(ring.contains(i as usize));
                let j = ring.index_of(i as usize);
                assert(to_write(h0[ring[j] as int], dev));
            }
        }
        (err, retry)
    }

    /// Writes the dirty buffers of a device out (of all devices, where `dev` is
    /// zero). With `wait`, answers whether a buffer of the device is left whose
    /// transfer failed.
    pub fn sync_buffers(&mut self, dev: u16, wait: bool) -> (r: bool)
        requires
            old(self).wf(),
        ensures
            final(self).wf(),
            final(self).order() == old(self).order(),
            forall|i: int|
                0 <= i < 64 ==> synced(
                    old(self).bufs()[i],
                    #[trigger] final(self).bufs()[i],
                    dev,
                    old(self).devices(),
                ),
            disks_synced(old(self).bufs(), old(self).devices(), final(self).devices(), dev),
            r == (wait && exists|i: int|
                0 <= i < 64 && failed(#[trigger] final(self).bufs()[i], dev)),
    {
        let (mut err, retry) = self.sync_pass(dev, wait);
        let ghost h0 = old(self).bufs();
        let ghost d0 = old(self).devices();
        let ghost h1 = self.bufs();
        let ghost d1 = self.devices();
        if wait && retry {
            let (again, more) = self.sync_pass(dev, wait);
            err = err || again;
            proof {
                self.lemma_wf();
                assert forall|i: int| 0 <= i < 64 implies !to_write(#[trigger] h1[i], dev) by {
                    assert(synced(h0[i], h1[i], dev, d0));
                }
                assert forall|i: int| 0 <= i < 64 implies #[trigger] self.bufs()[i] == h1[i] by {
                    assert(synced(h1[i], self.bufs()[i], dev, d1));
                }
                assert(self.bufs() =~= h1);
                assert forall|dv: u16, b: u32| has_block(d1, dv, b) implies #[trigger] on_disk(
                    self.devices(),
                    dv,
                    b,
                ) == on_disk(d1, dv, b) by {}
                assert forall|i: int|
                    0 <= i < h0.len() && to_write(#[trigger] h0[i], dev) && has_block(
                        d0,
                        h0[i].b_dev,
                        h0[i].b_blocknr,
                    ) implies on_disk(self.devices(), h0[i].b_dev, h0[i].b_blocknr)
                    == h0[i].b_data@ by {
                    assert(has_block(d1, h0[i].b_dev, h0[i].b_blocknr));
                }
                assert forall|dv: u16, b: u32|
                    has_block(d0, dv, b) && (forall|i: int|
                        0 <= i < h0.len() && to_write(#[trigger] h0[i], dev) ==> !holds(h0[i], dv, b))
                    implies #[trigger] on_disk(self.devices(), dv, b) == on_disk(d0, dv, b) by {
                    assert(has_block(d1, dv, b));
                    assert(on_disk(d1, dv, b) == on_disk(d0, dv, b));
                }
            }
        }
        proof {
            if wait {
                if exists|i: int| 0 <= i < 64 && failed(#[trigger] h0[i], dev) {
                    let i = choose|i: int| 0 <= i < 64 && failed(#[trigger] h0[i], dev);
                    assert(synced(h0[i], h1[i], dev, d0));
                    assert(failed(h1[i], dev));
                }
                if !retry {
                    assert forall|i: int| 0 <= i < 64 implies #[trigger] h1[i] == h0[i] by {
                        assert(synced(h0[i], h1[i], dev, d0));
                        assert(!to_write(h0[i], dev));
                    }
                }
            }
        }
        err
    }

    // ---- taking and giving back ----

    /// Everything but the body of buffer `n` is as it was, and that change does
    /// not touch its block.
    proof fn lemma_body_change(self, before: Self, n: int)
        requires
            before.wf(),
            0 <= n < 64,
            self.free_list == before.free_list,
            self.hash_table == before.hash_table,
            self.ring == before.ring,
            self.chains == before.chains,
            self.disks == before.disks,
            self.heads@.len() == 64,
            forall|i: int| 0 <= i < 64 && i != n ==> #[trigger] self.heads@[i] == before.heads@[i],
            same_free_links(self.heads@[n], before.heads@[n]),
            same_hash_links(self.heads@[n], before.heads@[n]),
            self.heads@[n].b_dev == before.heads@[n].b_dev,
            self.heads@[n].b_blocknr == before.heads@[n].b_blocknr,
            self.heads@[n].data_ok(),
            self.heads@[n].b_slot == n,
            !self.heads@[n].b_lock,
        ensures
            self.wf(),
    {
        lemma_ring_frame(before.heads@, self.heads@, self.free_list, self.ring@);
        lemma_chain_frame(before.heads@, self.heads@, self.hash_table@, self.chains@, -1);
        assert forall|i: int, j: int|
            #![trigger self.heads@[i], self.heads@[j]]
            0 <= i < j < 64 && self.heads@[i].b_dev != 0 implies !(self.heads@[i].b_dev
            == self.heads@[j].b_dev && self.heads@[i].b_blocknr == self.heads@[j].b_blocknr) by {
            let a = before.heads@[i];
            let b = before.heads@[j];
        }
    }

    /// Finds the buffer of a block and takes a reference to it.
    pub fn get_hash_table(&mut self, dev: u16, block: u32, size: usize) -> (r: Option<usize>)
        requires
            old(self).wf(),
            forall|i: int|
                0 <= i < 64 && holds(#[trigger] old(self).bufs()[i], dev, block) ==> old(
                    self,
                ).bufs()[i].b_count < u16::MAX,
        ensures
            final(self).wf(),
            final(self).order() == old(self).order(),
            final(self).devices() == old(self).devices(),
            r is None <==> size != 1024 || forall|i: int|
                0 <= i < 64 ==> !holds(#[trigger] old(self).bufs()[i], dev, block),
            r is None ==> final(self).bufs() == old(self).bufs(),
            r is Some ==> {
                let x = old(self).bufs()[r->0 as int];
                &&& r->0 < 64
                &&& holds(x, dev, block)
                &&& final(self).bufs() == old(self).bufs().update(
                    r->0 as int,
                    BufferHead { b_count: (x.b_count + 1) as u16, ..x },
                )
            },
    {
        match self.find_buffer(dev, block, size) {
            None => None,
            Some(n) => {
                self.heads[n].b_count = self.heads[n].b_count + 1;
                proof {
                    assert(old(self).heads@[n as int].data_ok());
                    self.lemma_body_change(*old(self), n as int);
                }
                Some(n)
            },
        }
    }

    /// How much is lost by giving buffer `n` away: a dirty one has to be written
    /// first, a locked one waited for.
    fn badness(&self, n: usize) -> (r: u32)
        requires
            n < self.bufs().len(),
        ensures
            r == 2 * (if self.bufs()[n as int].b_dirt {
                1int
            } else {
                0
            }) + (if self.bufs()[n as int].b_lock {
                1int
            } else {
                0
            }),
    {
        let dirt: u32 = if self.heads[n].b_dirt {
            2
        } else {
            0
        };
        let lock: u32 = if self.heads[n].b_lock {
            1
        } else {
            0
        };
        dirt + lock
    }

    /// The unused buffer that is given away next: the first clean one of the
    /// ring, else the first one. `NIL` where every buffer is in use.
    fn pick_free(&self, size: usize) -> (best: usize)
        requires
            self.wf(),
        ensures
            best == NIL <==> size != 1024 || forall|i: int|
                0 <= i < 64 ==> (#[trigger] self.bufs()[i]).b_count != 0,
            best != NIL ==> best < 64 && self.bufs()[best as int].b_count == 0,
            best != NIL && !self.bufs()[best as int].b_dirt ==> next_victim(
                self.bufs(),
                self.order(),
                best,
            ),
            best != NIL && self.bufs()[best as int].b_dirt ==> forall|i: int|
                0 <= i < 64 && (#[trigger] self.bufs()[i]).b_count == 0 ==> self.bufs()[i].b_dirt,
    {
        let ghost ring = self.ring@;
        let ghost h = self.heads@;
        let mut best: usize = NIL;
        let mut p: usize = self.free_list;
        let mut k: usize = 0;
        proof {
            self.lemma_wf();
            lemma_ring_at(self.heads@, self.free_list, self.ring@, 0);
        }
        while k < NR_BUFFERS
            invariant
                self.wf(),
                k <= 64,
                ring == self.ring@,
                h == self.heads@,
                h.len() == 64,
                ring.len() == 64,
                forall|j: int| 0 <= j < 64 ==> (#[trigger] ring[j]) < 64,
                forall|i: int|
                    0 <= i < 64 ==> (#[trigger] h[i]).b_size == 1024 && !h[i].b_lock,
                k < 64 ==> p == ring[k as int],
                best == NIL ==> size != 1024 || forall|j: int|
                    0 <= j < k ==> (#[trigger] h[ring[j] as int]).b_count != 0,
                best != NIL ==> best < 64 && h[best as int].b_count == 0 && h[best as int].b_dirt
                    && size == 1024,
                forall|j: int|
                    0 <= j < k && size == 1024 ==> (#[trigger] h[ring[j] as int]).b_count != 0
                        || h[ring[j] as int].b_dirt,
            decreases 64 - k,
        {
            proof {
                lemma_ring_at(self.heads@, self.free_list, self.ring@, k as int);
            }
            let ghost x = h[ring[k as int] as int];
            if self.heads[p].b_count == 0 && self.heads[p].b_size == size && (best == NIL
                || self.badness(p) < self.badness(best)) {
                best = p;
                if self.badness(p) == 0 {
                    proof {
                        assert(ring[k as int] == best);
                        assert(next_victim(self.bufs(), self.order(), best));
                        assert(self.bufs()[best as int].b_count == 0);
                    }
                    return best;
                }
            }
            p = self.heads[p].b_next_free;
            k = k + 1;
        }
        proof {
            assert forall|i: int| 0 <= i < 64 && size == 1024 implies ((#[trigger] h[i]).b_count != 0
                || h[i].b_dirt) && (best == NIL ==> h[i].b_count != 0) by {
                assert(ring.contains(i as usize));
                let j = ring.index_of(i as usize);
                let y = h[ring[j] as int];
            }
            if best != NIL {
                assert(self.bufs()[best as int].b_count == 0);
            }
        }
        best
    }

    /// Takes a buffer for a block, whose data need not be good. `None` is for a
    /// caller that has to wait until a buffer is given back. Where another
    /// buffer would do, a dirty one is not taken; where none would, everything
    /// dirty is written out first.
    #[verifier::spinoff_prover]
    #[verifier::rlimit(80)]
    pub fn getblk(&mut self, dev: u16, block: u32, size: usize) -> (r: Option<usize>)
        requires
            old(self).wf(),
            forall|i: int|
                0 <= i < 64 && holds(#[trigger] old(self).bufs()[i], dev, block) ==> old(
                    self,
                ).bufs()[i].b_count < u16::MAX,
        ensures
            final(self).wf(),
            r is None <==> size != 1024 || forall|i: int|
                0 <= i < 64 ==> !holds(#[trigger] old(self).bufs()[i], dev, block) && old(
                    self,
                ).bufs()[i].b_count != 0,
            r is None ==> final(self).bufs() == old(self).bufs() && final(self).order() == old(
                self,
            ).order(),
            r is Some ==> getblk_took(
                old(self).bufs(),
                old(self).order(),
                old(self).devices(),
                final(self).bufs(),
                final(self).order(),
                r->0,
                dev,
                block,
            ),
            r is Some && (exists|i: int|
                0 <= i < 64 && (holds(#[trigger] old(self).bufs()[i], dev, block) || (old(
                    self,
                ).bufs()[i].b_count == 0 && !old(self).bufs()[i].b_dirt))) ==> final(self).devices()
                == old(self).devices(),
            forall|dv: u16, b: u32|
                #[trigger] has_block(final(self).devices(), dv, b) == has_block(
                    old(self).devices(),
                    dv,
                    b,
                ),
            coherent_with(old(self).bufs(), old(self).devices()) ==> coherent_with(
                final(self).bufs(),
                final(self).devices(),
            ) && same_reads(
                old(self).bufs(),
                old(self).devices(),
                final(self).bufs(),
                final(self).devices(),
            ) && kept_or_written(old(self).bufs(), old(self).devices(), final(self).devices()),
    {
        let ghost h0 = self.heads@;
        let ghost d0 = self.disks@;
        let ghost ring0 = self.ring@;
        proof {
            self.lemma_wf();
        }
        match self.get_hash_table(dev, block, size) {
            None => {},
            Some(n) => {
                let ghost h1 = self.heads@;
                let ghost pre = *self;
                if self.heads[n].b_uptodate && !self.heads[n].b_dirt {
                    self.put_last_free(n);
                    proof {
                        lemma_chain_frame(h1, self.heads@, self.hash_table@, self.chains@, -1);
                        lemma_rotated(ring0, n);
                        lemma_same_bodies(h1, self.heads@, self.disks@);
                    }
                } else {
                    proof {
                        lemma_same_bodies(h1, self.heads@, self.disks@);
                    }
                }
                proof {
                    lemma_count_change(h0, h1, d0, n as int);
                    assert(holds(old(self).bufs()[n as int], dev, block));
                    assert(same_body(self.heads@[n as int], h1[n as int]));
                }
                return Some(n);
            },
        }
        let mut best: usize = self.pick_free(size);
        if best == NIL {
            return None;
        }
        assert(old(self).bufs()[best as int].b_count == 0);
        assert(self.bufs() == h0);
        let ghost dirty = self.heads@[best as int].b_dirt;
        let ghost old_best = best;
        if self.heads[best].b_dirt {
            let failed_any: bool = self.sync_buffers(0, false);
            proof {
                self.lemma_wf();
                if coherent_with(h0, d0) {
                    lemma_synced_reads(h0, d0, self.heads@, self.disks@, 0);
                    lemma_all_written(h0, d0, self.heads@, self.disks@);
                }
                assert(synced(h0[best as int], self.bufs()[best as int], 0, d0));
            }
            best = self.pick_free(size);
            proof {
                assert(synced(h0[best as int], self.bufs()[best as int], 0, d0));
            }
        }
        let ghost h1 = self.heads@;
        let ghost d1 = self.disks@;
        let ghost pre = *self;
        assert(best < 64 && h1[best as int].b_count == 0 && !h1[best as int].b_dirt);
        assert(next_victim(h1, ring0, best));
        assert forall|i: int| 0 <= i < 64 implies !holds(#[trigger] h1[i], dev, block) by {
            assert(!holds(h0[i], dev, block));
            if dirty {
                assert(synced(h0[i], h1[i], 0, d0));
            }
        }
        self.heads[best].b_count = 1;
        self.heads[best].b_dirt = false;
        self.heads[best].b_uptodate = false;
        self.heads[best].b_req = false;
        proof {
            assert(h1[best as int].data_ok());
            self.lemma_body_change(pre, best as int);
            self.lemma_wf();
        }
        let ghost h2 = self.heads@;
        self.remove_from_hash_queue(best);
        proof {
            lemma_ring_frame(h2, self.heads@, self.free_list, self.ring@);
        }
        let ghost h3 = self.heads@;
        self.remove_from_free_list(best);
        proof {
            lemma_chain_member(h3, self.hash_table@, self.chains@, best as int, best as int);
            lemma_chain_frame(h3, self.heads@, self.hash_table@, self.chains@, best as int);
        }
        let ghost h4 = self.heads@;
        self.heads[best].b_dev = dev;
        self.heads[best].b_blocknr = block;
        proof {
            lemma_chain_member(h4, self.hash_table@, self.chains@, best as int, best as int);
            lemma_chain_frame(h4, self.heads@, self.hash_table@, self.chains@, best as int);
            lemma_ring_frame(h4, self.heads@, self.free_list, self.ring@);
            lemma_rotated(ring0, best);
        }
        let ghost h5 = self.heads@;
        self.insert_into_queues(best);
        proof {
            let h = self.heads@;
            assert forall|i: int| 0 <= i < 64 && i != best implies same_body(#[trigger] h[i], h1[i]) by {
                assert(same_body(h[i], h5[i]) && same_body(h4[i], h3[i]) && same_body(h3[i], h2[i]));
            }
            let b = best as int;
            assert(same_body(h[b], h5[b]) && same_body(h4[b], h3[b]) && same_body(h3[b], h2[b]));
            lemma_reassign(h1, h, d1, b, dev, block);
            assert(bodies_ok(h)) by {
                assert forall|i: int| 0 <= i < 64 implies (#[trigger] h[i]).data_ok() && h[i].b_slot
                    == i && !h[i].b_lock by {
                    let x1 = h1[i];
                }
            }
            assert(forall|i: int| 0 <= i < 64 ==> !holds(#[trigger] h0[i], dev, block));
            if dirty {
                assert forall|i: int| 0 <= i < 64 && i != best implies synced_body(
                    h0[i],
                    #[trigger] h[i],
                    0,
                    d0,
                ) by {
                    assert(synced(h0[i], h1[i], 0, d0) && same_body(h[i], h1[i]));
                }
                assert(synced(h0[b], h1[b], 0, d0));
                assert(forall|i: int|
                    0 <= i < 64 && (#[trigger] h0[i]).b_count == 0 ==> h0[i].b_dirt);
            } else {
                assert(h0[b].b_count == 0 && !h0[b].b_dirt);
                assert(next_victim(h0, ring0, best));
            }
            assert(getblk_took(h0, ring0, d0, h, self.ring@, best, dev, block));
        }
        Some(best)
    }

    /// Gives a reference back; a buffer that is not in use is left alone.
    pub fn brelse(&mut self, n: usize)
        requires
            old(self).wf(),
            n == NIL || n < 64,
        ensures
            final(self).wf(),
            final(self).order() == old(self).order(),
            final(self).devices() == old(self).devices(),
            final(self).bufs() == (if n == NIL || old(self).bufs()[n as int].b_count == 0 {
                old(self).bufs()
            } else {
                let x = old(self).bufs()[n as int];
                old(self).bufs().update(
                    n as int,
                    BufferHead { b_count: (x.b_count - 1) as u16, ..x },
                )
            }),
    {
        if n == NIL {
            return;
        }
        if self.heads[n].b_count == 0 {
            return;
        }
        self.heads[n].b_count = self.heads[n].b_count - 1;
        proof {
            assert(old(self).heads@[n as int].data_ok());
            self.lemma_body_change(*old(self), n as int);
        }
    }

    /// Marks buffer `n` as newer than its device.
    pub fn mark_buffer_dirty(&mut self, n: usize)
        requires
            old(self).wf(),
            n < 64,
        ensures
            final(self).wf(),
            final(self).order() == old(self).order(),
            final(self).devices() == old(self).devices(),
            final(self).bufs() == old(self).bufs().update(
                n as int,
                BufferHead { b_dirt: true, ..old(self).bufs()[n as int] },
            ),
    {
        self.heads[n].b_dirt = true;
        proof {
            assert(old(self).heads@[n as int].data_ok());
            self.lemma_body_change(*old(self), n as int);
        }
    }

    /// Buffer `n`.
    pub fn bh(&self, n: usize) -> (r: &BufferHead)
        requires
            n < self.bufs().len(),
        ensures
            *r == self.bufs()[n as int],
    {
        &self.heads[n]
    }

    /// Takes a buffer that holds the data of a block. `None` where the block
    /// cannot be read, or a buffer would have to be waited for.
    pub fn bread(&mut self, dev: u16, block: u32, size: usize) -> (r: Option<usize>)
        requires
            old(self).wf(),
            forall|i: int|
                0 <= i < 64 && holds(#[trigger] old(self).bufs()[i], dev, block) ==> old(
                    self,
                ).bufs()[i].b_count < u16::MAX,
        ensures
            final(self).wf(),
            r is Some <==> size == 1024 && (is_cached(old(self).bufs(), dev, block) || (has_block(
                old(self).devices(),
                dev,
                block,
            ) && exists|i: int|
                0 <= i < 64 && (holds(#[trigger] old(self).bufs()[i], dev, block) || old(
                    self,
                ).bufs()[i].b_count == 0))),
            r is Some ==> {
                &&& r->0 < 64
                &&& holds(final(self).bufs()[r->0 as int], dev, block)
                &&& final(self).bufs()[r->0 as int].b_uptodate
            },
            forall|i: int|
                0 <= i < 64 ==> (#[trigger] final(self).bufs()[i]).b_count == old(
                    self,
                ).bufs()[i].b_count + (if r == Some(i as usize) {
                    1int
                } else {
                    0
                }),
            coherent_with(old(self).bufs(), old(self).devices()) ==> {
                &&& coherent_with(final(self).bufs(), final(self).devices())
                &&& same_reads(
                    old(self).bufs(),
                    old(self).devices(),
                    final(self).bufs(),
                    final(self).devices(),
                )
                &&& kept_or_written(old(self).bufs(), old(self).devices(), final(self).devices())
                &&& r is Some ==> final(self).bufs()[r->0 as int].b_data@ == current(
                    old(self).bufs(),
                    old(self).devices(),
                    dev,
                    block,
                )
            },
    {
        let ghost h0 = self.heads@;
        let ghost d0 = self.disks@;
        proof {
            self.lemma_wf();
        }
        let n: usize = match self.getblk(dev, block, size) {
            Some(n) => n,
            None => {
                proof {
                    if is_cached(h0, dev, block) {
                        let i = choose|i: int|
                            0 <= i < h0.len() && holds(#[trigger] h0[i], dev, block)
                                && h0[i].b_uptodate;
                        assert(holds(old(self).bufs()[i], dev, block));
                    }
                    lemma_same_bodies(h0, self.heads@, d0);
                }
                return None;
            },
        };
        let ghost h1 = self.heads@;
        let ghost d1 = self.disks@;
        proof {
            self.lemma_wf();
            lemma_took(h0, d0, old(self).order(), h1, self.order(), n, dev, block);
            assert(holds(old(self).bufs()[n as int], dev, block) || old(self).bufs()[n as int].b_count
                == 0);
            assert(has_block(self.devices(), dev, block) == has_block(d0, dev, block));
        }
        if self.heads[n].b_uptodate {
            proof {
                lemma_current(h1, d1, n as int);
                assert(holds(self.bufs()[n as int], dev, block));
                assert(is_cached(h0, dev, block));
            }
            return Some(n);
        }
        self.read_in(n);
        let ghost h2 = self.heads@;
        proof {
            self.lemma_wf();
            assert(!is_cached(h0, dev, block));
            if coherent_with(h1, d1) {
                lemma_fetched(h1, h2, d1, n as int);
            }
        }
        if self.heads[n].b_uptodate {
            proof {
                lemma_current(h2, d1, n as int);
                assert(holds(self.bufs()[n as int], dev, block));
            }
            return Some(n);
        }
        self.brelse(n);
        proof {
            lemma_count_change(h2, self.heads@, d1, n as int);
        }
        None
    }

    // ---- whole blocks ----

    /// A cache of 64 buffers that belong to no block, over no device.
    pub fn new() -> (r: Self)
        ensures
            r.ready(),
            r.devices() == Seq::<Disk>::empty(),
            forall|i: int| 0 <= i < 64 ==> (#[trigger] r.bufs()[i]).is_fresh(i),
            forall|k: int| 0 <= k < 64 ==> #[trigger] r.order()[k] == k,
    {
        let mut heads: Vec<BufferHead> = Vec::new();
        for i in 0..NR_BUFFERS
            invariant
                heads@.len() == i,
                forall|j: int| 0 <= j < i ==> (#[trigger] heads@[j]).is_fresh(j),
        {
            heads.push(BufferHead::new(i));
        }
        let mut hash_table: Vec<usize> = Vec::new();
        for i in 0..NR_HASH
            invariant
                hash_table@.len() == i,
                forall|j: int| 0 <= j < i ==> (#[trigger] hash_table@[j]) == NIL,
        {
            hash_table.push(NIL);
        }
        let mut c = BufferCache {
            heads,
            hash_table,
            free_list: 0,
            disks: Vec::new(),
            ring: Ghost(Seq::<usize>::empty().push(0usize)),
            chains: Ghost(Seq::new(61, |b: int| Seq::<usize>::empty())),
        };
        c.heads[0].b_next_free = 0;
        c.heads[0].b_prev_free = 0;
        proof {
            reveal(ring_ok);
            reveal(chains_ok);
            assert(ring_ok(c.heads@, c.free_list, c.ring@));
            assert(chains_ok(c.heads@, c.hash_table@, c.chains@, -1));
        }
        let mut n: usize = 1;
        while n < NR_BUFFERS
            invariant
                1 <= n <= 64,
                c.sized(),
                c.ring@.len() == n,
                forall|k: int| 0 <= k < n ==> #[trigger] c.ring@[k] == k,
                ring_ok(c.heads@, c.free_list, c.ring@),
                chains_ok(c.heads@, c.hash_table@, c.chains@, -1),
                c.disks@ == Seq::<Disk>::empty(),
                forall|i: int| 0 <= i < 64 ==> (#[trigger] c.heads@[i]).is_fresh(i),
            decreases 64 - n,
        {
            let ghost h0 = c.heads@;
            assert(!c.ring@.contains(n));
            c.insert_at_free_tail(n);
            proof {
                lemma_chain_frame(h0, c.heads@, c.hash_table@, c.chains@, -1);
                assert forall|i: int| 0 <= i < 64 implies (#[trigger] c.heads@[i]).is_fresh(i) by {
                    let x = h0[i];
                }
            }
            n = n + 1;
        }
        proof {
            assert forall|i: usize| i < 64 implies #[trigger] c.ring@.contains(i) by {
                assert(c.ring@[i as int] == i);
            }
            reveal(ring_ok);
        }
        c
    }

    /// Adds a device of `nblocks` zero blocks. A device number is used once.
    pub fn attach_disk(&mut self, dev: u16, nblocks: usize)
        requires
            old(self).ready(),
            dev != 0,
            forall|i: int| 0 <= i < old(self).devices().len() ==> (#[trigger] old(self).devices()[i]).dev != dev,
        ensures
            final(self).ready(),
            final(self).devices().len() == old(self).devices().len() + 1,
            final(self).devices().drop_last() == old(self).devices(),
            final(self).devices().last().dev == dev,
            final(self).devices().last().blocks@.len() == nblocks,
            forall|b: int|
                0 <= b < nblocks ==> (#[trigger] final(self).devices().last().blocks@[b])@
                    == crate::bytes::zeros(1024),
            final(self).bufs() == old(self).bufs(),
    {
        let mut blocks: Vec<Vec<u8>> = Vec::new();
        for i in 0..nblocks
            invariant
                blocks@.len() == i,
                forall|b: int| 0 <= b < i ==> (#[trigger] blocks@[b])@ == crate::bytes::zeros(1024),
        {
            blocks.push(crate::bytes::zeroed(1024));
        }
        let ghost d0 = self.disks@;
        self.disks.push(Disk { dev, blocks });
        proof {
            let d = self.disks@;
            assert(d.drop_last() =~= d0);
            assert forall|i: int, b: int| 0 <= i < d.len() && 0 <= b < d[i].blocks@.len() implies (
            #[trigger] d[i].blocks@[b])@.len() == 1024 by {
                if i < d0.len() {
                    assert(d0[i].blocks@[b]@.len() == 1024);
                }
            }
            assert forall|i: int, j: int|
                #![trigger d[i], d[j]]
                0 <= i < j < d.len() implies d[i].dev != d[j].dev by {
                assert(d0[i].dev != dev);
            }
            assert forall|i: int| 0 <= i < d.len() implies (#[trigger] d[i]).dev != 0 by {
                if i < d0.len() {
                    assert(d0[i].dev != 0);
                }
            }
            assert forall|i: int| 0 <= i < 64 && (#[trigger] self.heads@[i]).b_uptodate implies {
                let x = self.heads@[i];
                &&& has_block(d, x.b_dev, x.b_blocknr)
                &&& on_disk(d, x.b_dev, x.b_blocknr) == on_disk(d0, x.b_dev, x.b_blocknr)
            } by {
                let x = self.heads@[i];
                let q = choose|q: int|
                    0 <= q < d0.len() && (#[trigger] d0[q]).dev == x.b_dev && x.b_blocknr
                        < d0[q].blocks@.len();
                lemma_on_disk(d0, q, x.b_blocknr);
                assert(d[q] == d0[q]);
                lemma_on_disk(d, q, x.b_blocknr);
            }
        }
    }

    /// The bytes of a block, where it exists.
    pub fn read_block(&mut self, dev: u16, block: u32) -> (r: Option<Vec<u8>>)
        requires
            old(self).ready(),
        ensures
            final(self).ready(),
            final(self).content() == old(self).content(),
            r is Some <==> old(self).content().dom().contains((dev, block)),
            r is Some ==> r->0@ == old(self).content()[(dev, block)] && r->0@.len() == 1024,
            wrote_back(old(self), final(self)),
    {
        let ghost h0 = self.heads@;
        let ghost d0 = self.disks@;
        proof {
            self.lemma_wf();
            assert(old(self).bufs()[0].b_count == 0);
            if is_cached(h0, dev, block) {
                let i = choose|i: int|
                    0 <= i < h0.len() && holds(#[trigger] h0[i], dev, block) && h0[i].b_uptodate;
                assert(has_block(d0, h0[i].b_dev, h0[i].b_blocknr));
            }
        }
        match self.bread(dev, block, BLOCK_SIZE) {
            None => {
                proof {
                    assert(self.content() =~= old(self).content());
                    lemma_wrote_back(old(self), self);
                }
                None
            },
            Some(n) => {
                let ghost h1 = self.heads@;
                let ghost d1 = self.disks@;
                proof {
                    self.lemma_wf();
                }
                let v: Vec<u8> = self.heads[n].b_data.clone();
                self.brelse(n);
                proof {
                    lemma_count_change(h1, self.heads@, d1, n as int);
                    assert(has_block(d1, dev, block) == has_block(d0, dev, block));
                    assert(self.content() =~= old(self).content());
                    assert(h1[n as int].data_ok());
                    lemma_wrote_back(old(self), self);
                }
                Some(v)
            },
        }
    }

    /// Replaces the bytes of a block, where it exists, and answers whether it
    /// does.
    pub fn write_block(&mut self, dev: u16, block: u32, data: &[u8]) -> (r: bool)
        requires
            old(self).ready(),
            data@.len() == 1024,
        ensures
            final(self).ready(),
            r == old(self).content().dom().contains((dev, block)),
            final(self).content() == (if r {
                old(self).content().insert((dev, block), data@)
            } else {
                old(self).content()
            }),
            wrote_back(old(self), final(self)),
    {
        let ghost h0 = self.heads@;
        let ghost d0 = self.disks@;
        proof {
            self.lemma_wf();
            assert(old(self).bufs()[0].b_count == 0);
            if is_cached(h0, dev, block) {
                let i = choose|i: int|
                    0 <= i < h0.len() && holds(#[trigger] h0[i], dev, block) && h0[i].b_uptodate;
                assert(has_block(d0, h0[i].b_dev, h0[i].b_blocknr));
            }
        }
        match self.bread(dev, block, BLOCK_SIZE) {
            None => {
                proof {
                    assert(self.content() =~= old(self).content());
                    lemma_wrote_back(old(self), self);
                }
                false
            },
            Some(n) => {
                let ghost h1 = self.heads@;
                let ghost d1 = self.disks@;
                let ghost pre = *self;
                proof {
                    self.lemma_wf();
                }
                self.heads[n].b_data = crate::bytes::copy_range(data, 0, data.len());
                proof {
                    assert(data@.subrange(0, data@.len() as int) =~= data@);
                    assert(h1[n as int].data_ok());
                    self.lemma_body_change(pre, n as int);
                }
                self.mark_buffer_dirty(n);
                let ghost h2 = self.heads@;
                proof {
                    assert(h2 =~= h1.update(n as int, h2[n as int]));
                    lemma_written(h1, h2, d1, n as int);
                    self.lemma_wf();
                }
                self.brelse(n);
                proof {
                    lemma_count_change(h2, self.heads@, d1, n as int);
                    assert(has_block(d1, dev, block) == has_block(d0, dev, block));
                    assert(self.content() =~= old(self).content().insert((dev, block), data@));
                    lemma_wrote_back(old(self), self);
                }
                true
            },
        }
    }

    /// Writes everything dirty of a device out (of all devices, where `dev` is
    /// zero). What reads give stays, and is now what the device holds. With `wait`,
    /// answers whether a buffer of the device is left whose transfer failed.
    pub fn flush(&mut self, dev: u16, wait: bool) -> (r: bool)
        requires
            old(self).ready(),
        ensures
            final(self).ready(),
            final(self).content() == old(self).content(),
            r == (wait && exists|i: int|
                0 <= i < 64 && failed(#[trigger] final(self).bufs()[i], dev)),
            forall|k: (u16, u32)|
                (dev == 0 || k.0 == dev) && #[trigger] final(self).content().dom().contains(k)
                    ==> final(self).stored()[k] == final(self).content()[k],
    {
        let ghost h0 = self.heads@;
        let ghost d0 = self.disks@;
        proof {
            self.lemma_wf();
        }
        let err: bool = self.sync_buffers(dev, wait);
        proof {
            self.lemma_wf();
            let h = self.heads@;
            let d = self.disks@;
            lemma_synced_reads(h0, d0, h, d, dev);
            assert forall|i: int| 0 <= i < 64 implies (#[trigger] self.bufs()[i]).b_count == 0 by {
                assert(synced(h0[i], h[i], dev, d0));
                assert(old(self).bufs()[i].b_count == 0);
            }
            assert forall|dv: u16, b: u32|
                (dev == 0 || dv == dev) && has_block(d, dv, b) implies #[trigger] current(h, d, dv, b)
                == on_disk(d, dv, b) by {
                if is_cached(h, dv, b) {
                    let i = choose|i: int|
                        0 <= i < h.len() && holds(#[trigger] h[i], dv, b) && h[i].b_uptodate;
                    lemma_current(h, d, i);
                    assert(synced(h0[i], h[i], dev, d0));
                }
            }
            assert(self.content() =~= old(self).content());
        }
        err
    }

    /// Forgets the data of every buffer of a device, dirty or not.
    pub fn invalidate_buffers(&mut self, dev: u16)
        requires
            old(self).wf(),
        ensures
            final(self).wf(),
            final(self).order() == old(self).order(),
            final(self).devices() == old(self).devices(),
            forall|i: int|
                0 <= i < 64 ==> #[trigger] final(self).bufs()[i] == (if old(self).bufs()[i].b_dev
                    == dev {
                    BufferHead {
                        b_uptodate: false,
                        b_dirt: false,
                        b_req: false,
                        ..old(self).bufs()[i]
                    }
                } else {
                    old(self).bufs()[i]
                }),
    {
        let ghost h0 = self.heads@;
        let ghost ring = self.ring@;
        let mut p: usize = self.free_list;
        let mut k: usize = 0;
        proof {
            self.lemma_wf();
            lemma_ring_at(self.heads@, self.free_list, self.ring@, 0);
        }
        while k < NR_BUFFERS
            invariant
                self.wf(),
                k <= 64,
                ring == self.ring@,
                ring.len() == 64,
                ring.no_duplicates(),
                h0.len() == 64,
                self.disks == old(self).disks,
                forall|j: int| 0 <= j < 64 ==> (#[trigger] ring[j]) < 64,
                k < 64 ==> p == ring[k as int],
                forall|j: int|
                    0 <= j < k ==> #[trigger] self.heads@[ring[j] as int] == (if h0[ring[j] as int].b_dev
                        == dev {
                        BufferHead {
                            b_uptodate: false,
                            b_dirt: false,
                            b_req: false,
                            ..h0[ring[j] as int]
                        }
                    } else {
                        h0[ring[j] as int]
                    }),
                forall|j: int|
                    k <= j < 64 ==> #[trigger] self.heads@[ring[j] as int] == h0[ring[j] as int],
            decreases 64 - k,
        {
            proof {
                lemma_ring_at(self.heads@, self.free_list, self.ring@, k as int);
            }
            let this: usize = p;
            let ghost pre = *self;
            let ghost hb = self.heads@;
            assert(self.heads@[ring[k as int] as int] == h0[ring[k as int] as int]);
            p = self.heads[this].b_next_free;
            if self.heads[this].b_dev == dev {
                self.heads[this].b_uptodate = false;
                self.heads[this].b_dirt = false;
                self.heads[this].b_req = false;
                proof {
                    assert(hb[this as int].data_ok());
                    self.lemma_body_change(pre, this as int);
                }
            }
            proof {
                assert forall|j: int| 0 <= j < 64 && j != k implies #[trigger] self.heads@[ring[j] as int]
                    == hb[ring[j] as int] by {
                    assert(ring[j] != ring[k as int]);
                }
            }
            k = k + 1;
        }
        proof {
            self.lemma_wf();
            assert forall|i: int| 0 <= i < 64 implies #[trigger] self.heads@[i] == (if h0[i].b_dev
                == dev {
                BufferHead { b_uptodate: false, b_dirt: false, b_req: false, ..h0[i] }
            } else {
                h0[i]
            }) by {
                assert(ring.contains(i as usize));
                let j = ring.index_of(i as usize);
                let x = self.heads@[ring[j] as int];
            }
        }
    }

    /// Forgets the data of a device whose buffers have been written out: reads
    /// give what they gave before.
    pub fn discard(&mut self, dev: u16)
        requires
            old(self).ready(),
            dev != 0,
            forall|k: (u16, u32)|
                k.0 == dev && #[trigger] old(self).content().dom().contains(k) ==> old(self).stored()[k]
                    == old(self).content()[k],
        ensures
            final(self).ready(),
            final(self).content() == old(self).content(),
            final(self).stored() == old(self).stored(),
            forall|i: int|
                0 <= i < 64 && (#[trigger] final(self).bufs()[i]).b_dev == dev ==> !final(self).bufs()[i].b_uptodate,
    {
        let ghost h0 = self.heads@;
        let ghost d = self.disks@;
        proof {
            self.lemma_wf();
        }
        self.invalidate_buffers(dev);
        proof {
            self.lemma_wf();
            let h = self.heads@;
            assert(self.disks@ == d);
            assert forall|i: int| 0 <= i < 64 implies (#[trigger] self.bufs()[i]).b_count == 0 by {
                assert(old(self).bufs()[i].b_count == 0);
            }
            assert forall|dv: u16, b: u32| has_block(d, dv, b) implies #[trigger] current(h, d, dv, b)
                == current(h0, d, dv, b) by {
                if dv == dev {
                    assert(old(self).content().dom().contains((dv, b)));
                    assert(!is_cached(h, dv, b)) by {
                        assert forall|i: int| 0 <= i < h.len() && holds(#[trigger] h[i], dv, b) implies !h[i].b_uptodate by {
                            assert(self.bufs()[i] == h[i]);
                        }
                    }
                } else if is_cached(h, dv, b) {
                    let i = choose|i: int|
                        0 <= i < h.len() && holds(#[trigger] h[i], dv, b) && h[i].b_uptodate;
                    assert(self.bufs()[i] == h[i]);
                    lemma_current(h, d, i);
                    lemma_current(h0, d, i);
                } else if is_cached(h0, dv, b) {
                    let i = choose|i: int|
                        0 <= i < h0.len() && holds(#[trigger] h0[i], dv, b) && h0[i].b_uptodate;
                    assert(self.bufs()[i] == h0[i]);
                    assert(holds(h[i], dv, b) && h[i].b_uptodate);
                }
            }
            assert(self.content() =~= old(self).content());
            assert(self.stored() =~= old(self).stored());
            assert(coherent_with(h, d)) by {
                assert forall|i: int| 0 <= i < h.len() implies {
                    let x = #[trigger] h[i];
                    &&& x.b_dirt ==> x.b_uptodate
                    &&& x.b_uptodate ==> x.b_dev != 0 && has_block(d, x.b_dev, x.b_blocknr)
                    &&& x.b_uptodate && !x.b_dirt ==> x.b_data@ == on_disk(d, x.b_dev, x.b_blocknr)
                } by {
                    assert(self.bufs()[i] == h[i]);
                    let x0 = h0[i];
                }
            }
        }
    }

    /// Forgets the data of a block, dirty or not: a read gives what the device holds.
    pub fn forget(&mut self, dev: u16, block: u32)
        requires
            old(self).ready(),
        ensures
            final(self).ready(),
            final(self).content() == forgotten(old(self).content(), old(self).stored(), (dev, block)),
            final(self).stored() == old(self).stored(),
            forall|i: int|
                0 <= i < 64 && holds(#[trigger] final(self).bufs()[i], dev, block)
                    ==> !final(self).bufs()[i].b_uptodate && !final(self).bufs()[i].b_dirt,
    {
        let ghost h0 = self.heads@;
        let ghost d = self.disks@;
        proof {
            self.lemma_wf();
        }
        match self.get_hash_table(dev, block, BLOCK_SIZE) {
            None => {
                proof {
                    lemma_uncached(h0, d, dev, block);
                    assert forall|i: int| 0 <= i < 64 implies !holds(#[trigger] h0[i], dev, block) by {
                        assert(!holds(old(self).bufs()[i], dev, block));
                    }
                    assert(self.content() =~= forgotten(
                        old(self).content(),
                        old(self).stored(),
                        (dev, block),
                    ));
                }
            },
            Some(n) => {
                let ghost h1 = self.heads@;
                let ghost pre = *self;
                proof {
                    self.lemma_wf();
                    assert(holds(h0[n as int], dev, block));
                    assert(h1[n as int].data_ok());
                }
                self.heads[n].b_uptodate = false;
                self.heads[n].b_dirt = false;
                self.heads[n].b_req = false;
                proof {
                    self.lemma_body_change(pre, n as int);
                }
                self.brelse(n);
                proof {
                    self.lemma_wf();
                    let h = self.heads@;
                    assert forall|i: int| 0 <= i < 64 && i != n implies #[trigger] h[i] == h0[i] && !holds(
                        h0[i],
                        dev,
                        block,
                    ) by {
                        if i < n {
                            assert(h0[i].b_dev != 0 ==> !(h0[i].b_dev == h0[n as int].b_dev
                                && h0[i].b_blocknr == h0[n as int].b_blocknr));
                        } else {
                            assert(h0[n as int].b_dev != 0 ==> !(h0[n as int].b_dev == h0[i].b_dev
                                && h0[n as int].b_blocknr == h0[i].b_blocknr));
                        }
                    }
                    lemma_uncached(h, d, dev, block);
                    assert forall|dv: u16, b: u32|
                        has_block(d, dv, b) && (dv != dev || b != block) implies #[trigger] current(
                        h,
                        d,
                        dv,
                        b,
                    ) == current(h0, d, dv, b) by {
                        if is_cached(h, dv, b) {
                            let i = choose|i: int|
                                0 <= i < h.len() && holds(#[trigger] h[i], dv, b) && h[i].b_uptodate;
                            lemma_current(h, d, i);
                            lemma_current(h0, d, i);
                        } else if is_cached(h0, dv, b) {
                            let i = choose|i: int|
                                0 <= i < h0.len() && holds(#[trigger] h0[i], dv, b) && h0[i].b_uptodate;
                            assert(h[i] == h0[i]);
                        }
                    }
                    assert forall|i: int| 0 <= i < 64 implies (#[trigger] self.bufs()[i]).b_count == 0 by {
                        assert(old(self).bufs()[i].b_count == 0);
                    }
                    assert(self.stored() =~= old(self).stored());
                    assert(self.content() =~= forgotten(
                        old(self).content(),
                        old(self).stored(),
                        (dev, block),
                    ));
                    assert(coherent_with(h, d)) by {
                        assert forall|i: int| 0 <= i < h.len() implies {
                            let x = #[trigger] h[i];
                            &&& x.b_dirt ==> x.b_uptodate
                            &&& x.b_uptodate ==> x.b_dev != 0 && has_block(d, x.b_dev, x.b_blocknr)
                            &&& x.b_uptodate && !x.b_dirt ==> x.b_data@ == on_disk(
                                d,
                                x.b_dev,
                                x.b_blocknr,
                            )
                        } by {
                            let x0 = h0[i];
                        }
                    }
                }
            },
        }
    }

    /// The devices hold whole blocks.
    pub proof fn lemma_stored_whole(&self)
        requires
            self.wf(),
        ensures
            stored_whole(self),
    {
        let d = self.disks@;
        assert forall|k: (u16, u32)| #[trigger] self.content().dom().contains(k) implies self.stored()[k].len()
            == 1024 by {
            let i = choose|i: int|
                0 <= i < d.len() && (#[trigger] d[i]).dev == k.0 && k.1 < d[i].blocks@.len();
            lemma_on_disk(d, i, k.1);
            assert(d[i].blocks@[k.1 as int]@.len() == 1024);
        }
    }

    /// Counts the buffers in use, locked and dirty.
    pub fn show_buffers(&self) -> (r: BufferStats)
        requires
            self.wf(),
        ensures
            r.used == count_used(self.bufs(), 64),
            r.locked == count_locked(self.bufs(), 64),
            r.dirty == count_dirty(self.bufs(), 64),
    {
        let mut s = BufferStats { used: 0, locked: 0, dirty: 0 };
        for i in 0..NR_BUFFERS
            invariant
                self.wf(),
                s.used == count_used(self.bufs(), i as int),
                s.locked == count_locked(self.bufs(), i as int),
                s.dirty == count_dirty(self.bufs(), i as int),
                s.used <= i,
                s.locked <= i,
                s.dirty <= i,
        {
            if self.heads[i].b_count != 0 {
                s.used = s.used + 1;
            }
            if self.heads[i].b_lock {
                s.locked = s.locked + 1;
            }
            if self.heads[i].b_dirt {
                s.dirty = s.dirty + 1;
            }
        }
        s
    }

    /// The number of buffers.
    pub fn nr_buffers(&self) -> (r: usize)
        requires
            self.wf(),
        ensures
            r == 64,
    {
        self.heads.len()
    }

    /// The cache never has two buffers for a block, an unsound buffer or a broken
    /// ring: the three checks find nothing.
    pub fn self_check(&self) -> (r: bool)
        requires
            self.wf(),
        ensures
            r,
    {
        proof {
            self.lemma_wf();
            self.lemma_sound();
        }
        let ring: bool = match check_free_ring(self.heads.as_slice(), self.free_list) {
            Ok(n) => true,
            Err(e) => false,
        };
        ring && check_duplicates(self.heads.as_slice()) == 0 && verify(self.heads.as_slice()) == 0
    }

    proof fn lemma_nodes(&self, k: int)
        requires
            self.wf(),
            0 <= k <= 64,
        ensures
            ring_node(self.heads@, self.free_list, k) == (if k < 64 {
                self.ring@[k]
            } else {
                self.ring@[0]
            }),
        decreases k,
    {
        lemma_ring_at(self.heads@, self.free_list, self.ring@, 0);
        if k > 0 {
            self.lemma_nodes(k - 1);
            lemma_ring_at(self.heads@, self.free_list, self.ring@, k - 1);
        }
    }

    proof fn lemma_sound(&self)
        requires
            self.wf(),
        ensures
            sound_ring(self.heads@, self.free_list, 64),
            forall|i: int| 0 <= i < 64 ==> sound_head(#[trigger] self.heads@[i]),
    {
        let h = self.heads@;
        let head = self.free_list;
        self.lemma_wf();
        assert forall|k: int| 0 <= k <= 64 implies #[trigger] ring_node(h, head, k) < 64 by {
            self.lemma_nodes(k);
        }
        assert forall|k: int| 0 <= k < 64 implies h[#[trigger] ring_node(h, head, k + 1) as int].b_prev_free
            == ring_node(h, head, k) by {
            self.lemma_nodes(k);
            self.lemma_nodes(k + 1);
            lemma_ring_at(h, head, self.ring@, if k + 1 < 64 { k + 1 } else { 0 });
        }
        self.lemma_nodes(64);
        lemma_ring_at(h, head, self.ring@, 0);
        assert forall|k: int| 0 < k < 64 implies #[trigger] ring_node(h, head, k) != head by {
            self.lemma_nodes(k);
            assert(self.ring@[k] != self.ring@[0]);
        }
        assert forall|i: int| 0 <= i < 64 implies sound_head(#[trigger] h[i]) by {
            assert(self.ring@.contains(i as usize));
            let k = self.ring@.index_of(i as usize);
            lemma_ring_at(h, head, self.ring@, k);
            if h[i].b_dev != 0 {
                let q = lemma_chain_place(h, self.hash_table@, self.chains@, i as usize);
            } else {
                lemma_chain_member(h, self.hash_table@, self.chains@, -1, i);
            }
        }
    }
}

/// The blocks `c` after the copy of block `k` in the cache was forgotten: it is what the
/// device holds.
pub open spec fn forgotten(
    c: Map<(u16, u32), Seq<u8>>,
    stored: Map<(u16, u32), Seq<u8>>,
    k: (u16, u32),
) -> Map<(u16, u32), Seq<u8>> {
    if c.dom().contains(k) {
        c.insert(k, stored[k])
    } else {
        c
    }
}

/// From the cache `k0` to the cache `k` the devices are as they were, or everything that
/// was changed has been written to them.
pub open spec fn wrote_back(k0: &BufferCache, k: &BufferCache) -> bool {
    k.stored() == k0.stored() || k.stored() == k0.content()
}

/// Every block has 1024 bytes on its device.
pub open spec fn stored_whole(k: &BufferCache) -> bool {
    forall|b: (u16, u32)| #[trigger] k.content().dom().contains(b) ==> k.stored()[b].len() == 1024
}

/// From the cache `k0` to the cache `k` blocks were read and none was changed.
pub open spec fn only_read(k0: &BufferCache, k: &BufferCache) -> bool {
    k.content() == k0.content() && wrote_back(k0, k)
}

proof fn lemma_wrote_back(k0: &BufferCache, k: &BufferCache)
    requires
        forall|dv: u16, b: u32|
            #[trigger] has_block(k.devices(), dv, b) == has_block(k0.devices(), dv, b),
        kept_or_written(k0.bufs(), k0.devices(), k.devices()),
    ensures
        wrote_back(k0, k),
{
    if k.devices() != k0.devices() {
        assert(k.stored() =~= k0.content());
    }
}

} // verus!
