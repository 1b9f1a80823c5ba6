//! Extents: runs of blocks that follow one another on disk, kept in a tree. A
//! node is a head of twelve bytes and then entries of twelve bytes each; in a
//! leaf they are extents, above it they lead to the next level.

use crate::bytes::{get_le16, get_le32, join64, le16, le32, take12};
use vstd::prelude::*;

verus! {

/// The longest run of an extent that holds data; also the bit of the length
/// that marks one that was set aside and never written.
pub const EXT_INIT_MAX_LEN: u32 = 32768;

/// The longest run of an extent that was never written.
pub const EXT_UNWRITTEN_MAX_LEN: u32 = 32767;

/// The head of a node.
#[derive(Debug, Clone, Copy, PartialEq, Eq, Structural)]
pub struct ExtentHeader {
    pub eh_magic: u16,
    pub eh_entries: u16,
    pub eh_max: u16,
    pub eh_depth: u16,
    pub eh_generation: u32,
}

/// The head that the first twelve bytes of `d` hold.
pub open spec fn header_of(d: Seq<u8>) -> ExtentHeader {
    ExtentHeader {
        eh_magic: le16(d, 0),
        eh_entries: le16(d, 2),
        eh_max: le16(d, 4),
        eh_depth: le16(d, 6),
        eh_generation: le32(d, 8),
    }
}

impl ExtentHeader {
    pub const MAGIC: u16 = 0xF30A;

    pub fn from_bytes(data: &[u8; 12]) -> (r: Self)
        ensures
            r == header_of(data@),
    {
        Self {
            eh_magic: get_le16(data, 0),
            eh_entries: get_le16(data, 2),
            eh_max: get_le16(data, 4),
            eh_depth: get_le16(data, 6),
            eh_generation: get_le32(data, 8),
        }
    }

    pub fn is_valid(&self) -> (r: bool)
        ensures
            r == (self.eh_magic == 0xF30A),
    {
        self.eh_magic == Self::MAGIC
    }

    pub fn is_leaf(&self) -> (r: bool)
        ensures
            r == (self.eh_depth == 0),
    {
        self.eh_depth == 0
    }

    pub fn entries(&self) -> (r: usize)
        ensures
            r == self.eh_entries,
    {
        self.eh_entries as usize
    }

    pub fn depth(&self) -> (r: usize)
        ensures
            r == self.eh_depth,
    {
        self.eh_depth as usize
    }
}

/// An entry above the leaves: the first file block it covers, and the disk
/// block of the node below it.
#[derive(Debug, Clone, Copy, PartialEq, Eq, Structural)]
pub struct ExtentIdx {
    pub ei_block: u32,
    pub ei_leaf_lo: u32,
    pub ei_leaf_hi: u16,
    pub ei_unused: u16,
}

/// The entry that the bytes of `d` from `o` on hold.
pub open spec fn idx_at(d: Seq<u8>, o: int) -> ExtentIdx {
    ExtentIdx {
        ei_block: le32(d, o),
        ei_leaf_lo: le32(d, o + 4),
        ei_leaf_hi: le16(d, o + 8),
        ei_unused: le16(d, o + 10),
    }
}

impl ExtentIdx {
    pub const SIZE: usize = 12;

    pub fn from_bytes(data: &[u8; 12]) -> (r: Self)
        ensures
            r == idx_at(data@, 0),
    {
        Self {
            ei_block: get_le32(data, 0),
            ei_leaf_lo: get_le32(data, 4),
            ei_leaf_hi: get_le16(data, 8),
            ei_unused: get_le16(data, 10),
        }
    }

    pub fn ei_block(&self) -> (r: u32)
        ensures
            r == self.ei_block,
    {
        self.ei_block
    }

    /// The disk block of the node below, of 48 bits.
    pub open spec fn child(self) -> int {
        self.ei_leaf_hi * 0x1_0000_0000 + self.ei_leaf_lo
    }

    pub fn leaf_block(&self) -> (r: u64)
        ensures
            r == self.child(),
    {
        join64(self.ei_leaf_hi as u32, self.ei_leaf_lo)
    }
}

/// An extent: from file block `ee_block` on, blocks from a disk block on.
#[derive(Debug, Clone, Copy, PartialEq, Eq, Structural)]
pub struct Extent {
    pub ee_block: u32,
    pub ee_len: u16,
    pub ee_start_hi: u16,
    pub ee_start_lo: u32,
}

/// The extent that the bytes of `d` from `o` on hold.
pub open spec fn extent_at(d: Seq<u8>, o: int) -> Extent {
    Extent {
        ee_block: le32(d, o),
        ee_len: le16(d, o + 4),
        ee_start_hi: le16(d, o + 6),
        ee_start_lo: le32(d, o + 8),
    }
}

impl Extent {
    pub const SIZE: usize = 12;

    /// The first disk block, of 48 bits.
    pub open spec fn start(self) -> int {
        self.ee_start_hi * 0x1_0000_0000 + self.ee_start_lo
    }

    /// The length in blocks.
    pub open spec fn length(self) -> int {
        if self.ee_len <= 32768 {
            self.ee_len as int
        } else {
            self.ee_len - 32768
        }
    }

    /// The last file block; the first one where the length is zero.
    pub open spec fn last_block(self) -> int {
        if self.length() == 0 {
            self.ee_block as int
        } else {
            self.ee_block + self.length() - 1
        }
    }

    pub fn from_bytes(data: &[u8; 12]) -> (r: Self)
        ensures
            r == extent_at(data@, 0),
    {
        Self {
            ee_block: get_le32(data, 0),
            ee_len: get_le16(data, 4),
            ee_start_hi: get_le16(data, 6),
            ee_start_lo: get_le32(data, 8),
        }
    }

    pub fn ee_block(&self) -> (r: u32)
        ensures
            r == self.ee_block,
    {
        self.ee_block
    }

    pub fn ee_start(&self) -> (r: u64)
        ensures
            r == self.start(),
    {
        join64(self.ee_start_hi as u32, self.ee_start_lo)
    }

    pub fn ee_len(&self) -> (r: u32)
        ensures
            r == self.length(),
    {
        let raw: u16 = self.ee_len;
        if raw <= 32768 {
            raw as u32
        } else {
            (raw - 32768) as u32
        }
    }

    pub fn ee_end(&self) -> (r: u32)
        requires
            self.last_block() <= u32::MAX,
        ensures
            r == self.last_block(),
    {
        let len: u32 = self.ee_len();
        if len == 0 {
            self.ee_block()
        } else {
            self.ee_block() + (len - 1)
        }
    }

    pub fn is_unwritten(&self) -> (r: bool)
        ensures
            r == (self.ee_len > 32768),
    {
        self.ee_len > 32768
    }
}

/// Whether the bytes `d` are a node: a head with the right mark, no more
/// entries than it says there is room for, and all of them within the bytes.
pub open spec fn is_node(d: Seq<u8>) -> bool {
    &&& d.len() >= 12
    &&& header_of(d).eh_magic == 0xF30A
    &&& 12 + 12 * header_of(d).eh_entries <= d.len()
    &&& header_of(d).eh_entries <= header_of(d).eh_max
}

/// The first file block of entry `i` of a node, leaf or not.
pub open spec fn key_at(d: Seq<u8>, i: int) -> u32 {
    le32(d, 12 + 12 * i)
}

/// Where a search by halves for the first key above `lblock` ends up.
pub open spec fn upper(d: Seq<u8>, lblock: u32, lo: int, hi: int) -> int
    decreases hi - lo,
{
    if lo >= hi {
        lo
    } else {
        let mid = (lo + hi) / 2;
        if key_at(d, mid) > lblock {
            upper(d, lblock, lo, mid)
        } else {
            upper(d, lblock, mid + 1, hi)
        }
    }
}

/// The extent of the leaf `d` in which a search for `lblock` ends, if it covers
/// `lblock`.
pub open spec fn leaf_lookup(d: Seq<u8>, lblock: u32) -> Option<Extent> {
    let p = upper(d, lblock, 0, header_of(d).eh_entries as int);
    if header_of(d).eh_depth != 0 || p == 0 {
        None
    } else {
        let e = extent_at(d, 12 + 12 * (p - 1));
        if lblock <= e.last_block() {
            Some(e)
        } else {
            None
        }
    }
}

/// The disk block of the node to go down to from the inner node `d`.
pub open spec fn index_lookup(d: Seq<u8>, lblock: u32) -> Option<u64> {
    let p = upper(d, lblock, 0, header_of(d).eh_entries as int);
    if header_of(d).eh_depth == 0 || p == 0 {
        None
    } else {
        Some(idx_at(d, 12 + 12 * (p - 1)).child() as u64)
    }
}

/// Where the keys go up, the search by halves ends right behind the keys that
/// are at most `lblock`.
pub proof fn lemma_upper(d: Seq<u8>, lblock: u32, lo: int, hi: int)
    requires
        0 <= lo <= hi,
        forall|i: int, j: int| lo <= i < j < hi ==> key_at(d, i) <= key_at(d, j),
    ensures
        lo <= upper(d, lblock, lo, hi) <= hi,
        forall|i: int| lo <= i < upper(d, lblock, lo, hi) ==> key_at(d, i) <= lblock,
        forall|i: int| upper(d, lblock, lo, hi) <= i < hi ==> key_at(d, i) > lblock,
    decreases hi - lo,
{
    if lo < hi {
        let mid = (lo + hi) / 2;
        if key_at(d, mid) > lblock {
            lemma_upper(d, lblock, lo, mid);
        } else {
            lemma_upper(d, lblock, mid + 1, hi);
        }
    }
}

/// Whatever the keys are, the search ends between its bounds, and right behind
/// a key that is at most `lblock` unless it never left the start.
pub proof fn lemma_upper_bounds(d: Seq<u8>, lblock: u32, lo: int, hi: int)
    requires
        0 <= lo <= hi,
    ensures
        lo <= upper(d, lblock, lo, hi) <= hi,
        upper(d, lblock, lo, hi) > lo ==> key_at(d, upper(d, lblock, lo, hi) - 1) <= lblock,
    decreases hi - lo,
{
    if lo < hi {
        let mid = (lo + hi) / 2;
        if key_at(d, mid) > lblock {
            lemma_upper_bounds(d, lblock, lo, mid);
        } else {
            lemma_upper_bounds(d, lblock, mid + 1, hi);
        }
    }
}

/// The extents of a leaf go up and do not overlap.
pub open spec fn leaf_sorted(d: Seq<u8>) -> bool {
    forall|i: int, j: int|
        #![trigger extent_at(d, 12 + 12 * i), extent_at(d, 12 + 12 * j)]
        0 <= i < j < header_of(d).eh_entries ==> extent_at(d, 12 + 12 * i).last_block() < extent_at(
            d,
            12 + 12 * j,
        ).ee_block
}

/// In a leaf whose extents go up and do not overlap, the lookup finds the extent
/// that covers `lblock`, and nothing exactly where none covers it.
pub proof fn lemma_leaf_lookup(d: Seq<u8>, lblock: u32)
    requires
        is_node(d),
        header_of(d).eh_depth == 0,
        leaf_sorted(d),
    ensures
        forall|i: int|
            0 <= i < header_of(d).eh_entries && (#[trigger] extent_at(d, 12 + 12 * i)).ee_block
                <= lblock <= extent_at(d, 12 + 12 * i).last_block() ==> leaf_lookup(d, lblock)
                == Some(extent_at(d, 12 + 12 * i)),
        leaf_lookup(d, lblock) is None ==> forall|i: int|
            0 <= i < header_of(d).eh_entries ==> !((#[trigger] extent_at(d, 12 + 12 * i)).ee_block
                <= lblock <= extent_at(d, 12 + 12 * i).last_block()),
{
    let n = header_of(d).eh_entries as int;
    assert forall|i: int, j: int| 0 <= i < j < n implies key_at(d, i) <= key_at(d, j) by {
        let a = extent_at(d, 12 + 12 * i);
        let b = extent_at(d, 12 + 12 * j);
        assert(a.last_block() < b.ee_block);
    }
    lemma_upper(d, lblock, 0, n);
    let p = upper(d, lblock, 0, n);
    assert forall|i: int|
        0 <= i < n && (#[trigger] extent_at(d, 12 + 12 * i)).ee_block <= lblock <= extent_at(
            d,
            12 + 12 * i,
        ).last_block() implies leaf_lookup(d, lblock) == Some(extent_at(d, 12 + 12 * i)) by {
        let e = extent_at(d, 12 + 12 * i);
        assert(key_at(d, i) == e.ee_block);
        if i < p - 1 {
            let f = extent_at(d, 12 + 12 * (p - 1));
            assert(e.last_block() < f.ee_block);
            assert(key_at(d, p - 1) == f.ee_block);
        }
        assert(i == p - 1);
    }
}

/// A node of the tree: the bytes of an inode's block pointers, or a disk block.
pub struct ExtentNode<'a> {
    raw: &'a [u8],
    header: ExtentHeader,
}

impl<'a> ExtentNode<'a> {
    /// The bytes of the node.
    pub closed spec fn bytes(&self) -> Seq<u8> {
        self.raw@
    }

    #[verifier::type_invariant]
    closed spec fn wf(&self) -> bool {
        is_node(self.raw@) && self.header == header_of(self.raw@)
    }

    /// Reads a node; there is none where the mark is wrong or the entries do not
    /// fit.
    pub fn parse(raw: &'a [u8]) -> (r: Option<Self>)
        ensures
            r is Some <==> is_node(raw@),
            r is Some ==> r->0.bytes() == raw@,
    {
        if raw.len() < 12 {
            return None;
        }
        let hdr: [u8; 12] = take12(raw, 0);
        let header = ExtentHeader::from_bytes(&hdr);
        assert(header == header_of(raw@));
        if !header.is_valid() {
            return None;
        }
        let need: usize = 12 + header.entries() * Extent::SIZE;
        if need > raw.len() || header.entries() > header.eh_max as usize {
            return None;
        }
        Some(Self { raw, header })
    }

    pub fn header(&self) -> (r: &ExtentHeader)
        ensures
            *r == header_of(self.bytes()),
            is_node(self.bytes()),
    {
        proof {
            use_type_invariant(self);
        }
        &self.header
    }

    /// Extent `i`, in a leaf that has one.
    pub fn extent(&self, i: usize) -> (r: Option<Extent>)
        ensures
            r == (if i < header_of(self.bytes()).eh_entries && header_of(self.bytes()).eh_depth
                == 0 {
                Some(extent_at(self.bytes(), 12 + 12 * i))
            } else {
                None
            }),
    {
        proof {
            use_type_invariant(self);
        }
        if i >= self.header.entries() || !self.header.is_leaf() {
            return None;
        }
        let off: usize = 12 + i * Extent::SIZE;
        let buf: [u8; 12] = take12(self.raw, off);
        let e = Extent::from_bytes(&buf);
        assert(e == extent_at(self.raw@, off as int));
        Some(e)
    }

    /// Entry `i`, in an inner node that has one.
    pub fn index(&self, i: usize) -> (r: Option<ExtentIdx>)
        ensures
            r == (if i < header_of(self.bytes()).eh_entries && header_of(self.bytes()).eh_depth
                != 0 {
                Some(idx_at(self.bytes(), 12 + 12 * i))
            } else {
                None
            }),
    {
        proof {
            use_type_invariant(self);
        }
        if i >= self.header.entries() || self.header.is_leaf() {
            return None;
        }
        let off: usize = 12 + i * ExtentIdx::SIZE;
        let buf: [u8; 12] = take12(self.raw, off);
        let e = ExtentIdx::from_bytes(&buf);
        assert(e == idx_at(self.raw@, off as int));
        Some(e)
    }

    /// Looks for the extent of a file block, by halves. `None` is a hole.
    pub fn lookup_leaf(&self, lblock: u32) -> (r: Option<Extent>)
        ensures
            r == leaf_lookup(self.bytes(), lblock),
            r is Some ==> r->0.ee_block <= lblock <= r->0.last_block(),
    {
        proof {
            use_type_invariant(self);
        }
        let ghost d = self.raw@;
        if !self.header.is_leaf() {
            return None;
        }
        let n: usize = self.header.entries();
        let mut lo: usize = 0;
        let mut hi: usize = n;
        while lo < hi
            invariant
                lo <= hi <= n <= 65535,
                n == header_of(d).eh_entries,
                header_of(d).eh_depth == 0,
                d == self.bytes(),
                upper(d, lblock, 0, n as int) == upper(d, lblock, lo as int, hi as int),
            decreases hi - lo,
        {
            let mid: usize = (lo + hi) / 2;
            match self.extent(mid) {
                None => {
                    return None;
                },
                Some(e) => {
                    assert(e.ee_block == key_at(d, mid as int));
                    if e.ee_block() > lblock {
                        hi = mid;
                    } else {
                        lo = mid + 1;
                    }
                },
            }
        }
        proof {
            lemma_upper_bounds(d, lblock, 0, n as int);
        }
        if lo == 0 {
            return None;
        }
        match self.extent(lo - 1) {
            None => None,
            Some(e) => {
                let len: u32 = e.ee_len();
                assert(e.ee_block == key_at(d, lo - 1));
                let past: u32 = lblock - e.ee_block();
                if past == 0 || past < len {
                    Some(e)
                } else {
                    None
                }
            },
        }
    }

    /// Looks for the node below that leads to a file block, by halves.
    pub fn lookup_index(&self, lblock: u32) -> (r: Option<u64>)
        ensures
            r == index_lookup(self.bytes(), lblock),
    {
        proof {
            use_type_invariant(self);
        }
        let ghost d = self.raw@;
        if self.header.is_leaf() {
            return None;
        }
        let n: usize = self.header.entries();
        let mut lo: usize = 0;
        let mut hi: usize = n;
        while lo < hi
            invariant
                lo <= hi <= n <= 65535,
                n == header_of(d).eh_entries,
                header_of(d).eh_depth != 0,
                d == self.bytes(),
                upper(d, lblock, 0, n as int) == upper(d, lblock, lo as int, hi as int),
            decreases hi - lo,
        {
            let mid: usize = (lo + hi) / 2;
            match self.index(mid) {
                None => {
                    return None;
                },
                Some(ix) => {
                    assert(ix.ei_block == key_at(d, mid as int));
                    if ix.ei_block() > lblock {
                        hi = mid;
                    } else {
                        lo = mid + 1;
                    }
                },
            }
        }
        proof {
            lemma_upper_bounds(d, lblock, 0, n as int);
        }
        if lo == 0 {
            return None;
        }
        match self.index(lo - 1) {
            None => None,
            Some(ix) => Some(ix.leaf_block()),
        }
    }
}

/// An extent of some length covers the file block `lblock`.
pub open spec fn covers(e: Extent, lblock: u32) -> bool {
    e.ee_block <= lblock < e.ee_block + e.length()
}

/// The disk block of the file block `lblock` by the first of `extents` that
/// covers it; none where none does.
pub fn ext4_ext_find_goal(extents: &[Extent], lblock: u32) -> (r: Option<u64>)
    ensures
        r is None <==> forall|i: int|
            0 <= i < extents@.len() ==> !covers(#[trigger] extents@[i], lblock),
        r is Some ==> exists|i: int|
            {
                &&& 0 <= i < extents@.len()
                &&& covers(#[trigger] extents@[i], lblock)
                &&& forall|j: int| 0 <= j < i ==> !covers(#[trigger] extents@[j], lblock)
                &&& r->0 == extents@[i].start() + (lblock - extents@[i].ee_block)
            },
{
    for i in 0..extents.len()
        invariant
            forall|j: int| 0 <= j < i ==> !covers(#[trigger] extents@[j], lblock),
    {
        let start: u32 = extents[i].ee_block();
        let len: u32 = extents[i].ee_len();
        if len != 0 && lblock as u64 >= start as u64 && (lblock as u64) < start as u64 + len as u64 {
            let offset: u32 = lblock - start;
            assert(covers(extents@[i as int], lblock));
            return Some(extents[i].ee_start() + offset as u64);
        }
    }
    None
}

} // verus!
