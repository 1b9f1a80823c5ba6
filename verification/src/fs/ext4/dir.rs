//! Directory entries. An entry is a head of eight bytes (inode, record length,
//! name length, type) and a name; its record length leads to the next entry.

use super::file_type;
use crate::bytes::{get_le16, get_le32, le16, le32, same_bytes};
use crate::fs::ext2::dir::round_up4;
use vstd::prelude::*;

verus! {

pub const EXT4_DIR_ENTRY_HEADER_LEN: usize = 8;
pub const EXT4_NAME_LEN: usize = 255;

/// A directory entry that has been read.
#[derive(Debug, Clone, Copy, PartialEq, Eq, Structural)]
pub struct Ext4DirEntry {
    /// Zero marks a free slot.
    pub inode: u32,
    pub rec_len: u16,
    pub name_len: u8,
    pub file_type: u8,
    /// Where in the block the name starts.
    pub name_off: usize,
}

impl Ext4DirEntry {
    pub fn is_empty(&self) -> (r: bool)
        ensures
            r == (self.inode == 0),
    {
        self.inode == 0
    }

    pub fn file_type_name(&self) -> (r: &'static str)
        ensures
            r@ == file_type::name_spec(self.file_type),
    {
        file_type::name(self.file_type)
    }
}

/// The room that an entry with a name of `name_len` bytes needs.
pub fn ext4_dir_rec_len(name_len: u8) -> (r: u16)
    ensures
        r == round_up4(8 + name_len),
{
    let raw: u16 = 8 + name_len as u16;
    proof {
        crate::fs::ext2::dir::lemma_mask4((raw + 3) as u16);
    }
    (raw + 3) & !3u16
}

/// The entry at offset `pos` of the block `buf`, if a sound one stands there.
/// The record length is a multiple of four that holds head and name, and the
/// record ends within the block. In a `piece` of a larger block only the head
/// and the name have to.
pub open spec fn entry_at(buf: Seq<u8>, pos: int, piece: bool) -> Option<Ext4DirEntry> {
    let rec = le16(buf, pos + 4);
    let name_len = buf[pos + 6];
    if pos + 8 > buf.len() || rec < 8 || rec % 4 != 0 || rec < 8 + name_len || pos + 8 + name_len
        > buf.len() || (!piece && pos + rec > buf.len()) {
        None
    } else {
        Some(
            Ext4DirEntry {
                inode: le32(buf, pos),
                rec_len: rec,
                name_len,
                file_type: buf[pos + 7],
                name_off: (pos + 8) as usize,
            },
        )
    }
}

/// Where the entry behind one at `pos` with record length `rec` stands.
pub open spec fn step(buf: Seq<u8>, pos: int, rec: int) -> int {
    if pos + rec > buf.len() {
        buf.len() as int
    } else {
        pos + rec
    }
}

/// The entries of the block `buf` from offset `pos` on, up to the first one that
/// is not sound.
pub open spec fn entries_from(buf: Seq<u8>, pos: int, piece: bool) -> Seq<Ext4DirEntry>
    decreases buf.len() - pos,
{
    match entry_at(buf, pos, piece) {
        None => Seq::empty(),
        Some(e) => seq![e] + entries_from(buf, step(buf, pos, e.rec_len as int), piece),
    }
}

/// The name of an entry of the block `buf`.
pub open spec fn name_of(buf: Seq<u8>, e: Ext4DirEntry) -> Seq<u8> {
    buf.subrange(e.name_off as int, e.name_off + e.name_len)
}

/// The entry is in use and has that name.
pub open spec fn is_named(buf: Seq<u8>, e: Ext4DirEntry, name: Seq<u8>) -> bool {
    e.inode != 0 && name_of(buf, e) == name
}

/// The first of the entries `es` of `buf` that is in use and has that name.
pub open spec fn first_named(buf: Seq<u8>, es: Seq<Ext4DirEntry>, name: Seq<u8>) -> Option<
    Ext4DirEntry,
>
    decreases es.len(),
{
    if es.len() == 0 {
        None
    } else if is_named(buf, es[0], name) {
        Some(es[0])
    } else {
        first_named(buf, es.drop_first(), name)
    }
}

/// The inode number that a directory block gives for a name.
pub open spec fn block_lookup(buf: Seq<u8>, name: Seq<u8>) -> Option<u32> {
    match first_named(buf, entries_from(buf, 0, false), name) {
        None => None,
        Some(e) => Some(e.inode),
    }
}

/// Every entry that a walk gives lies in the block, name included, and its name has
/// the length that the entry says.
pub proof fn lemma_entries_fit(buf: Seq<u8>, pos: int, piece: bool)
    requires
        0 <= pos <= buf.len(),
        buf.len() <= usize::MAX,
    ensures
        forall|i: int|
            0 <= i < entries_from(buf, pos, piece).len() ==> {
                let e = #[trigger] entries_from(buf, pos, piece)[i];
                &&& 8 <= e.name_off && e.name_off + e.name_len <= buf.len()
                &&& name_of(buf, e).len() == e.name_len
            },
    decreases buf.len() - pos,
{
    match entry_at(buf, pos, piece) {
        None => {},
        Some(e) => {
            let next = step(buf, pos, e.rec_len as int);
            lemma_entries_fit(buf, next, piece);
            let rest = entries_from(buf, next, piece);
            assert forall|i: int| 0 <= i < entries_from(buf, pos, piece).len() implies {
                let x = #[trigger] entries_from(buf, pos, piece)[i];
                8 <= x.name_off && x.name_off + x.name_len <= buf.len()
            } by {
                if i > 0 {
                    assert(entries_from(buf, pos, piece)[i] == rest[i - 1]);
                }
            }
        },
    }
}

/// The lookup finds an entry exactly where one of the entries is in use under
/// that name, and what it finds is one of them.
pub proof fn lemma_first_named(buf: Seq<u8>, es: Seq<Ext4DirEntry>, name: Seq<u8>)
    ensures
        first_named(buf, es, name) is None <==> forall|i: int|
            0 <= i < es.len() ==> !is_named(buf, #[trigger] es[i], name),
        first_named(buf, es, name) is Some ==> es.contains(first_named(buf, es, name)->0)
            && is_named(buf, first_named(buf, es, name)->0, name),
    decreases es.len(),
{
    if es.len() > 0 && !is_named(buf, es[0], name) {
        let rest = es.drop_first();
        lemma_first_named(buf, rest, name);
        assert forall|i: int| 0 <= i < es.len() && (forall|j: int|
            0 <= j < rest.len() ==> !is_named(buf, #[trigger] rest[j], name)) implies !is_named(
            buf,
            #[trigger] es[i],
            name,
        ) by {
            if i > 0 {
                assert(es[i] == rest[i - 1]);
            }
        }
        if first_named(buf, es, name) is Some {
            let e = first_named(buf, es, name)->0;
            let k = choose|k: int| 0 <= k < rest.len() && rest[k] == e;
            assert(es[k + 1] == e);
        }
        assert(forall|j: int| 0 <= j < rest.len() ==> rest[j] == es[j + 1]);
    } else if es.len() > 0 {
        assert(es[0] == first_named(buf, es, name)->0);
    }
}

/// Walks the entries of one directory block.
pub struct DirIter<'a> {
    buf: &'a [u8],
    pos: usize,
    piece: bool,
}

impl<'a> DirIter<'a> {
    /// The block.
    pub closed spec fn block(&self) -> Seq<u8> {
        self.buf@
    }

    /// Where the next entry stands.
    pub closed spec fn at(&self) -> int {
        self.pos as int
    }

    /// Whether the block is a piece of a larger one.
    pub closed spec fn is_piece(&self) -> bool {
        self.piece
    }

    /// The entries still to come.
    pub open spec fn remaining(&self) -> Seq<Ext4DirEntry> {
        entries_from(self.block(), self.at(), self.is_piece())
    }

    #[verifier::type_invariant]
    closed spec fn wf(&self) -> bool {
        self.pos <= self.buf@.len()
    }

    /// Starts at the first entry of a block.
    pub fn new(buf: &'a [u8]) -> (r: Self)
        ensures
            r.block() == buf@,
            r.at() == 0,
            !r.is_piece(),
    {
        Self { buf, pos: 0, piece: false }
    }

    /// Starts at the first entry of a piece of a larger block: the last record
    /// may run past the end of the piece.
    pub fn sub_block(buf: &'a [u8]) -> (r: Self)
        ensures
            r.block() == buf@,
            r.at() == 0,
            r.is_piece(),
    {
        Self { buf, pos: 0, piece: true }
    }

    pub fn offset(&self) -> (r: usize)
        ensures
            r == self.at(),
    {
        self.pos
    }

    /// The bytes of the name of an entry; none where they would lie outside the
    /// block.
    pub fn name_bytes(&self, e: &Ext4DirEntry) -> (r: &'a [u8])
        ensures
            r@ == (if e.name_off + e.name_len <= self.block().len() {
                name_of(self.block(), *e)
            } else {
                Seq::empty()
            }),
    {
        let len: usize = self.buf.len();
        if e.name_off <= len && e.name_len as usize <= len - e.name_off {
            &self.buf[e.name_off..e.name_off + e.name_len as usize]
        } else {
            let none = &self.buf[0..0];
            assert(none@ =~= Seq::<u8>::empty());
            none
        }
    }

    /// The next entry. An entry that is not sound ends the walk.
    pub fn next(&mut self) -> (r: Option<Ext4DirEntry>)
        ensures
            final(self).block() == old(self).block(),
            final(self).is_piece() == old(self).is_piece(),
            r == entry_at(old(self).block(), old(self).at(), old(self).is_piece()),
            r is None ==> final(self).at() == old(self).at(),
            r is Some ==> final(self).at() == step(
                old(self).block(),
                old(self).at(),
                r->0.rec_len as int,
            ),
            0 <= old(self).at() <= old(self).block().len() <= usize::MAX,
    {
        proof {
            use_type_invariant(&*self);
        }
        let len: usize = self.buf.len();
        if len - self.pos < EXT4_DIR_ENTRY_HEADER_LEN {
            return None;
        }
        let pos: usize = self.pos;
        let inode: u32 = get_le32(self.buf, pos);
        let rec_len: u16 = get_le16(self.buf, pos + 4);
        let name_len: u8 = self.buf[pos + 6];
        let file_type: u8 = self.buf[pos + 7];
        if rec_len < 8 || rec_len % 4 != 0 || (rec_len as usize) < EXT4_DIR_ENTRY_HEADER_LEN
            + name_len as usize {
            return None;
        }
        if EXT4_DIR_ENTRY_HEADER_LEN + name_len as usize > len - pos {
            return None;
        }
        if !self.piece && rec_len as usize > len - pos {
            return None;
        }
        let e = Ext4DirEntry {
            inode,
            rec_len,
            name_len,
            file_type,
            name_off: pos + EXT4_DIR_ENTRY_HEADER_LEN,
        };
        self.pos = if rec_len as usize > len - pos {
            len
        } else {
            pos + rec_len as usize
        };
        Some(e)
    }
}

/// The first entry of a directory block, or of a piece of one, that is in use and
/// has that name.
pub fn find_named(buf: &[u8], name: &[u8], piece: bool) -> (r: Option<Ext4DirEntry>)
    ensures
        r == first_named(buf@, entries_from(buf@, 0, piece), name@),
        r is Some ==> 8 <= r->0.name_off && r->0.name_off + r->0.name_len <= buf@.len(),
{
    let mut it = if piece {
        DirIter::sub_block(buf)
    } else {
        DirIter::new(buf)
    };
    loop
        invariant
            it.block() == buf@,
            it.is_piece() == piece,
            first_named(buf@, entries_from(buf@, 0, piece), name@) == first_named(
                buf@,
                it.remaining(),
                name@,
            ),
        decreases buf@.len() - it.at(),
    {
        let ghost rest = it.remaining();
        match it.next() {
            None => {
                return None;
            },
            Some(e) => {
                assert(rest.drop_first() =~= it.remaining());
                assert(rest[0] == e);
                if !e.is_empty() && e.name_len as usize == name.len() {
                    let start: usize = e.name_off;
                    let end: usize = start + e.name_len as usize;
                    if same_bytes(&buf[start..end], name) {
                        return Some(e);
                    }
                }
            },
        }
    }
}

/// Looks a name up in a directory block, past the free slots. There is no empty
/// name, and none of more than 255 bytes.
pub fn find_entry(buf: &[u8], name: &[u8]) -> (r: Option<u32>)
    ensures
        r == (if name@.len() == 0 || name@.len() > 255 {
            None
        } else {
            block_lookup(buf@, name@)
        }),
{
    if name.len() == 0 || name.len() > EXT4_NAME_LEN {
        return None;
    }
    match find_named(buf, name, false) {
        None => None,
        Some(e) => Some(e.inode),
    }
}

} // verus!
