//! A name that was added to a directory block is found there, and one that was taken
//! out is not.

use crate::bytes::{lemma_with_le16, lemma_with_le32, le16, le32, with_le16, with_le32};
use crate::fs::ext2::dir::round_up4;
use crate::fs::ext4::dir::{
    block_lookup, entries_from, entry_at, first_named, is_named, name_of, step,
};
use crate::fs::ext4::namei::{entry_in, place_in, with_entry};
use vstd::prelude::*;

verus! {

/// The entries of the block from `off` on are sound and fill it.
pub open spec fn sound_from(d: Seq<u8>, off: int) -> bool
    decreases d.len() - off,
{
    off == d.len() || match entry_at(d, off, false) {
        None => false,
        Some(e) => sound_from(d, off + e.rec_len),
    }
}

/// The inode number that the entries from `off` on give for a name.
pub open spec fn lookup_from(d: Seq<u8>, off: int, name: Seq<u8>) -> Option<u32> {
    match first_named(d, entries_from(d, off, false), name) {
        None => None,
        Some(e) => Some(e.inode),
    }
}

proof fn lemma_lookup_step(d: Seq<u8>, off: int, name: Seq<u8>)
    ensures
        lookup_from(d, off, name) == match entry_at(d, off, false) {
            None => None,
            Some(e) => if is_named(d, e, name) {
                Some(e.inode)
            } else {
                lookup_from(d, step(d, off, e.rec_len as int), name)
            },
        },
{
    match entry_at(d, off, false) {
        None => {},
        Some(e) => {
            let rest = entries_from(d, step(d, off, e.rec_len as int), false);
            assert((seq![e] + rest).drop_first() =~= rest);
        },
    }
}

/// What stands before `q` does not matter for the entries from there on.
proof fn lemma_after(d: Seq<u8>, d1: Seq<u8>, q: int, name: Seq<u8>)
    requires
        0 <= q <= d.len() <= 65535,
        d1.len() == d.len(),
        forall|k: int| q <= k < d.len() ==> d1[k] == d[k],
        sound_from(d, q),
    ensures
        lookup_from(d1, q, name) == lookup_from(d, q, name),
        sound_from(d1, q),
    decreases d.len() - q,
{
    lemma_lookup_step(d, q, name);
    lemma_lookup_step(d1, q, name);
    if q < d.len() {
        match entry_at(d, q, false) {
            None => {},
            Some(e) => {
                assert(entry_at(d1, q, false) == Some(e));
                assert(name_of(d1, e) =~= name_of(d, e));
                lemma_after(d, d1, q + e.rec_len, name);
            },
        }
    }
}

/// The entry at `o` of a block to which one was written.
proof fn lemma_with_entry(d: Seq<u8>, o: int, ino: u32, name: Seq<u8>, ftype: u8)
    requires
        0 <= o,
        name.len() <= 255,
        o + 8 + name.len() <= d.len() <= 65535,
    ensures
        ({
            let d1 = with_entry(d, o, ino, name, ftype);
            &&& d1.len() == d.len()
            &&& le32(d1, o) == ino
            &&& le16(d1, o + 4) == le16(d, o + 4)
            &&& d1[o + 6] == name.len()
            &&& d1.subrange(o + 8, o + 8 + name.len()) == name
            &&& forall|k: int| 0 <= k < o || o + 8 + name.len() <= k < d.len() ==> d1[k] == d[k]
        }),
{
    lemma_with_le32(d, o, ino);
    let d1 = with_entry(d, o, ino, name, ftype);
    let d0 = with_le32(d, o, ino);
    assert(d0.len() == d.len());
    assert(d1[o] == d0[o] && d1[o + 1] == d0[o + 1] && d1[o + 2] == d0[o + 2] && d1[o + 3] == d0[o
        + 3]);
    assert(d1[o + 4] == d[o + 4] && d1[o + 5] == d[o + 5]);
    assert(d1.subrange(o + 8, o + 8 + name.len()) =~= name);
}

/// What adding a name to a block, from `off` on, gives.
spec fn is_added(d: Seq<u8>, d1: Seq<u8>, off: int, ino: u32, name: Seq<u8>, other: Seq<u8>) -> bool {
    &&& sound_from(d1, off)
    &&& lookup_from(d1, off, name) == Some(ino)
    &&& lookup_from(d1, off, other) == lookup_from(d, off, other)
}

/// The name goes into an unused entry.
proof fn lemma_in_unused(d: Seq<u8>, off: int, ino: u32, name: Seq<u8>, ftype: u8, other: Seq<u8>)
    requires
        0 <= off < d.len() <= 65535,
        sound_from(d, off),
        ino != 0,
        name.len() <= 255,
        other != name,
        le32(d, off) == 0,
        le16(d, off + 4) >= round_up4(8 + name.len() as int),
    ensures
        is_added(d, with_entry(d, off, ino, name, ftype), off, ino, name, other),
{
    let d1 = with_entry(d, off, ino, name, ftype);
    let rec = le16(d, off + 4) as int;
    let e = entry_at(d, off, false)->0;
    assert(entry_at(d, off, false) is Some);
    lemma_with_entry(d, off, ino, name, ftype);
    lemma_after(d, d1, off + rec, name);
    lemma_after(d, d1, off + rec, other);
    let x = entry_at(d1, off, false)->0;
    assert(entry_at(d1, off, false) is Some);
    assert(name_of(d1, x) =~= name);
    lemma_lookup_step(d, off, other);
    lemma_lookup_step(d1, off, name);
    lemma_lookup_step(d1, off, other);
}

/// The bytes of a block in which an entry was put behind the name of another.
proof fn lemma_behind_bytes(d: Seq<u8>, off: int, ino: u32, name: Seq<u8>, ftype: u8)
    requires
        0 <= off < d.len() <= 65535,
        entry_at(d, off, false) is Some,
        name.len() <= 255,
        le16(d, off + 4) >= round_up4(8 + d[off + 6]) + round_up4(8 + name.len() as int),
    ensures
        ({
            let d1 = entry_in(d, (off, true), ino, name, ftype);
            let used = round_up4(8 + d[off + 6]);
            let at = off + used;
            &&& d1.len() == d.len()
            &&& le32(d1, off) == le32(d, off)
            &&& le16(d1, off + 4) == used
            &&& le32(d1, at) == ino
            &&& le16(d1, at + 4) == le16(d, off + 4) - used
            &&& d1[at + 6] == name.len()
            &&& d1.subrange(at + 8, at + 8 + name.len()) == name
            &&& forall|k: int|
                0 <= k < at && k != off + 4 && k != off + 5 || at + 8 + name.len() <= k < d.len()
                    ==> d1[k] == d[k]
        }),
{
    let rec = le16(d, off + 4) as int;
    let used = round_up4(8 + d[off + 6]);
    let at = off + used;
    let da = with_le16(d, off + 4, used as u16);
    let db = with_le16(da, at + 4, (rec - used) as u16);
    let d1 = entry_in(d, (off, true), ino, name, ftype);
    lemma_with_le16(d, off + 4, used as u16);
    lemma_with_le16(da, at + 4, (rec - used) as u16);
    lemma_with_entry(db, at, ino, name, ftype);
    assert(d1[off + 4] == da[off + 4] && d1[off + 5] == da[off + 5]);
    assert(d1[off] == d[off] && d1[off + 1] == d[off + 1] && d1[off + 2] == d[off + 2] && d1[off
        + 3] == d[off + 3]);
}

/// The name goes behind that of another entry.
proof fn lemma_in_behind(d: Seq<u8>, off: int, ino: u32, name: Seq<u8>, ftype: u8, other: Seq<u8>)
    requires
        0 <= off < d.len() <= 65535,
        sound_from(d, off),
        ino != 0,
        name.len() <= 255,
        other != name,
        lookup_from(d, off, name) is None,
        le16(d, off + 4) >= round_up4(8 + d[off + 6]) + round_up4(8 + name.len() as int),
    ensures
        is_added(d, entry_in(d, (off, true), ino, name, ftype), off, ino, name, other),
{
    let rec = le16(d, off + 4) as int;
    let used = round_up4(8 + d[off + 6]);
    let at = off + used;
    let e = entry_at(d, off, false)->0;
    assert(entry_at(d, off, false) is Some);
    let d1 = entry_in(d, (off, true), ino, name, ftype);
    lemma_behind_bytes(d, off, ino, name, ftype);
    let x = entry_at(d1, off, false)->0;
    assert(entry_at(d1, off, false) is Some && x.rec_len == used && x.inode == e.inode);
    assert(name_of(d1, x) =~= name_of(d, e));
    let y = entry_at(d1, at, false)->0;
    assert(entry_at(d1, at, false) is Some && y.rec_len == rec - used && y.inode == ino);
    assert(name_of(d1, y) =~= name);
    lemma_after(d, d1, off + rec, name);
    lemma_after(d, d1, off + rec, other);
    lemma_lookup_step(d, off, name);
    lemma_lookup_step(d, off, other);
    lemma_lookup_step(d1, off, name);
    lemma_lookup_step(d1, off, other);
    lemma_lookup_step(d1, at, name);
    lemma_lookup_step(d1, at, other);
    assert(sound_from(d1, at));
}

/// Before the place nothing changes.
proof fn lemma_before(d: Seq<u8>, place: (int, bool), ino: u32, name: Seq<u8>, ftype: u8)
    requires
        0 <= place.0 < d.len() <= 65535,
        entry_at(d, place.0, false) is Some,
        name.len() <= 255,
        place.1 ==> le16(d, place.0 + 4) >= round_up4(8 + d[place.0 + 6]) + round_up4(
            8 + name.len() as int,
        ),
        !place.1 ==> le16(d, place.0 + 4) >= round_up4(8 + name.len() as int),
    ensures
        ({
            let d1 = entry_in(d, place, ino, name, ftype);
            d1.len() == d.len() && forall|k: int| 0 <= k < place.0 ==> d1[k] == d[k]
        }),
{
    if place.1 {
        lemma_behind_bytes(d, place.0, ino, name, ftype);
    } else {
        lemma_with_entry(d, place.0, ino, name, ftype);
    }
}

/// Adding a name to a block at the first place for it, from `off` on.
proof fn lemma_placed(d: Seq<u8>, off: int, ino: u32, name: Seq<u8>, ftype: u8, other: Seq<u8>)
    requires
        0 <= off <= d.len() <= 65535,
        sound_from(d, off),
        ino != 0,
        name.len() <= 255,
        lookup_from(d, off, name) is None,
        other != name,
        place_in(d, round_up4(8 + name.len() as int), off) is Some,
    ensures
        ({
            let place = place_in(d, round_up4(8 + name.len() as int), off)->0;
            let d1 = entry_in(d, place, ino, name, ftype);
            &&& off <= place.0
            &&& d1.len() == d.len()
            &&& forall|k: int| 0 <= k < place.0 ==> d1[k] == d[k]
            &&& is_added(d, d1, off, ino, name, other)
        }),
    decreases d.len() - off,
{
    let need = round_up4(8 + name.len() as int);
    let place = place_in(d, need, off)->0;
    let d1 = entry_in(d, place, ino, name, ftype);
    let rec = le16(d, off + 4) as int;
    let e = entry_at(d, off, false)->0;
    assert(off < d.len() && entry_at(d, off, false) is Some);
    assert(rec == e.rec_len && off + rec <= d.len());
    if le32(d, off) == 0 && rec >= need {
        lemma_before(d, place, ino, name, ftype);
        lemma_in_unused(d, off, ino, name, ftype, other);
    } else if le32(d, off) != 0 && rec >= round_up4(8 + d[off + 6]) + need {
        lemma_before(d, place, ino, name, ftype);
        lemma_in_behind(d, off, ino, name, ftype, other);
    } else {
        lemma_lookup_step(d, off, name);
        lemma_lookup_step(d, off, other);
        lemma_placed(d, off + rec, ino, name, ftype, other);
        assert(entry_at(d1, off, false) == Some(e));
        assert(name_of(d1, e) =~= name_of(d, e));
        lemma_lookup_step(d1, off, name);
        lemma_lookup_step(d1, off, other);
    }
}

/// A name that was added to a sound directory block that did not have it is found
/// there, every other name is found as before, and the block is sound.
pub proof fn lemma_add_then_find(d: Seq<u8>, ino: u32, name: Seq<u8>, ftype: u8, other: Seq<u8>)
    requires
        d.len() <= 4096,
        sound_from(d, 0),
        ino != 0,
        name.len() <= 255,
        block_lookup(d, name) is None,
        other != name,
        place_in(d, round_up4(8 + name.len() as int), 0) is Some,
    ensures
        ({
            let place = place_in(d, round_up4(8 + name.len() as int), 0)->0;
            let d1 = entry_in(d, place, ino, name, ftype);
            &&& sound_from(d1, 0)
            &&& block_lookup(d1, name) == Some(ino)
            &&& block_lookup(d1, other) == block_lookup(d, other)
        }),
{
    lemma_placed(d, 0, ino, name, ftype, other);
}


/// No two entries from `off` on are in use under that name.
pub open spec fn once(d: Seq<u8>, off: int, name: Seq<u8>) -> bool
    decreases d.len() - off,
{
    match entry_at(d, off, false) {
        None => true,
        Some(e) => if is_named(d, e, name) {
            lookup_from(d, off + e.rec_len, name) is None
        } else {
            once(d, off + e.rec_len, name)
        },
    }
}

/// In a sound block it does not matter whether it is taken for a piece.
pub proof fn lemma_piece(d: Seq<u8>, off: int)
    requires
        0 <= off <= d.len(),
        sound_from(d, off),
    ensures
        entries_from(d, off, true) == entries_from(d, off, false),
    decreases d.len() - off,
{
    if off < d.len() {
        let e = entry_at(d, off, false)->0;
        assert(entry_at(d, off, true) == Some(e));
        lemma_piece(d, off + e.rec_len);
    }
}

proof fn lemma_taken_out(d: Seq<u8>, off: int, name: Seq<u8>, other: Seq<u8>)
    requires
        0 <= off <= d.len() <= 65535,
        sound_from(d, off),
        once(d, off, name),
        other != name,
        first_named(d, entries_from(d, off, false), name) is Some,
    ensures
        ({
            let o = first_named(d, entries_from(d, off, false), name)->0.name_off - 8;
            let d1 = with_le32(d, o, 0);
            &&& off <= o <= d.len() - 8
            &&& sound_from(d1, off)
            &&& lookup_from(d1, off, name) is None
            &&& lookup_from(d1, off, other) == lookup_from(d, off, other)
        }),
    decreases d.len() - off,
{
    let o = first_named(d, entries_from(d, off, false), name)->0.name_off - 8;
    let d1 = with_le32(d, o, 0);
    assert(entry_at(d, off, false) is Some);
    let e = entry_at(d, off, false)->0;
    let next = off + e.rec_len;
    let rest = entries_from(d, next, false);
    assert((seq![e] + rest).drop_first() =~= rest);
    lemma_lookup_step(d, off, name);
    lemma_lookup_step(d, off, other);
    if is_named(d, e, name) {
        lemma_with_le32(d, off, 0);
        let x = entry_at(d1, off, false)->0;
        assert(entry_at(d1, off, false) is Some && x.inode == 0 && x.rec_len == e.rec_len);
        lemma_after(d, d1, next, name);
        lemma_after(d, d1, next, other);
    } else {
        lemma_taken_out(d, next, name, other);
        lemma_with_le32(d, o, 0);
        assert(entry_at(d1, off, false) == Some(e));
        assert(name_of(d1, e) =~= name_of(d, e));
    }
    lemma_lookup_step(d1, off, name);
    lemma_lookup_step(d1, off, other);
}

/// A name that was taken out of a sound directory block that had it once is not found
/// there, every other name is found as before, and the block is sound.
pub proof fn lemma_remove_then_find(d: Seq<u8>, name: Seq<u8>, other: Seq<u8>)
    requires
        d.len() <= 4096,
        sound_from(d, 0),
        once(d, 0, name),
        other != name,
        first_named(d, entries_from(d, 0, true), name) is Some,
    ensures
        ({
            let o = first_named(d, entries_from(d, 0, true), name)->0.name_off - 8;
            let d1 = with_le32(d, o, 0);
            &&& sound_from(d1, 0)
            &&& block_lookup(d1, name) is None
            &&& block_lookup(d1, other) == block_lookup(d, other)
        }),
{
    lemma_piece(d, 0);
    lemma_taken_out(d, 0, name, other);
}

} // verus!
