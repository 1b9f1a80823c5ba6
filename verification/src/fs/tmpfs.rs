//! A file system in memory: a flat table of names, and pages for the data of
//! the files. The pages of a file follow each other.

use crate::bytes::{padded, same_bytes, zeros};
use crate::errno::{EISDIR, ENOENT, ENOMEM, ENOSPC};
use crate::fs::ext2::inode::mode::type_bits;
use crate::fs::inode::{counted, flushed, get_empty_inode, is_pick, is_taken, FsType, Inode, NIL};
use crate::fs::mode;
use crate::fs::{Dirent, Fs, DIRENT_SIZE};
use vstd::prelude::*;

verus! {

/// The device number of the inodes.
pub const TMPFS_DEV: u16 = 0x0002;
pub const MAX_FILES: usize = 16;
pub const MAX_DATA_PAGES: usize = 16;
pub const PAGE_SIZE: usize = 4096;
/// The longest name.
pub const MAX_NAME: usize = 31;

/// A name: the inode that it stands for, and the directory that it is in.
#[derive(Debug, Clone, Copy)]
pub struct TmpEntry {
    pub name: [u8; 32],
    pub name_len: u8,
    pub inode_idx: usize,
    pub parent: usize,
}

/// The names and the pages.
pub struct Tmpfs {
    pub entries: Vec<TmpEntry>,
    pub pages: Vec<Vec<u8>>,
    pub used: [bool; 16],
    pub root: usize,
    pub ino_next: u32,
}

/// The bytes of the pages.
pub type Pages = Seq<Seq<u8>>;

impl TmpEntry {
    /// The name.
    pub open spec fn text(&self) -> Seq<u8> {
        self.name@.take(self.name_len as int)
    }

    pub open spec fn wf(&self) -> bool {
        &&& self.name_len <= MAX_NAME
        &&& self.inode_idx < 64
        &&& self.parent == NIL || self.parent < 64
        &&& self.name@ == padded(self.text(), 32)
    }
}

/// The first name at `k` or after it in directory `dir` that reads `name`, or the
/// number of names.
pub open spec fn named_from(es: Seq<TmpEntry>, dir: usize, name: Seq<u8>, k: int) -> int
    decreases es.len() - k,
{
    if k >= es.len() {
        es.len() as int
    } else if es[k].parent == dir && es[k].text() == name {
        k
    } else {
        named_from(es, dir, name, k + 1)
    }
}

/// The directory that `dir` is in, as the first name at `k` or after it says
/// that stands for it and is in one; else `dir` itself.
pub open spec fn parent_from(es: Seq<TmpEntry>, dir: usize, k: int) -> usize
    decreases es.len() - k,
{
    if k >= es.len() {
        dir
    } else if es[k].inode_idx == dir && es[k].parent != NIL {
        es[k].parent
    } else {
        parent_from(es, dir, k + 1)
    }
}

/// Name number `skip`, counted from `k` on, of those in directory `dir`, or the
/// number of names.
pub open spec fn child_from(es: Seq<TmpEntry>, dir: usize, skip: int, k: int) -> int
    decreases es.len() - k,
{
    if k >= es.len() {
        es.len() as int
    } else if es[k].parent == dir {
        if skip == 0 {
            k
        } else {
            child_from(es, dir, skip - 1, k + 1)
        }
    } else {
        child_from(es, dir, skip, k + 1)
    }
}

/// The first free page at `k` or after it, or the number of pages.
pub open spec fn free_page_from(used: Seq<bool>, k: int) -> int
    decreases used.len() - k,
{
    if k >= used.len() {
        used.len() as int
    } else if !used[k] {
        k
    } else {
        free_page_from(used, k + 1)
    }
}

/// How many of `len` bytes from `off` on of a file whose pages begin at `start`
/// are there: up to the first page that is not.
pub open spec fn present(used: Seq<bool>, start: int, off: int, len: int) -> int
    decreases len,
    when 0 <= off && 0 <= start
{
    let page = start + off / 4096;
    if len <= 0 || page >= used.len() || !used[page] {
        0
    } else {
        piece(off, len) + present(used, start, off + piece(off, len), len - piece(off, len))
    }
}

/// How many of `len` bytes lie in the page of byte `off`.
pub open spec fn piece(off: int, len: int) -> int {
    if 4096 - off % 4096 < len {
        4096 - off % 4096
    } else {
        len
    }
}

/// Byte `p` of a file whose pages begin at `start`.
pub open spec fn page_byte(pages: Pages, start: int, p: int) -> u8 {
    pages[start + p / 4096][p % 4096]
}

/// The pages with page `p` empty, where it was free.
pub open spec fn claimed(used: Seq<bool>, pages: Pages, p: int) -> Pages {
    if used[p] {
        pages
    } else {
        pages.update(p, zeros(4096))
    }
}

/// The pages after a file of `count` pages from `start` on was given pages up to
/// `needed`: which are used, what they hold, and how many the file has then.
pub open spec fn extended(used: Seq<bool>, pages: Pages, start: int, count: int, needed: int) -> (
    Seq<bool>,
    Pages,
    int,
)
    decreases needed - count,
{
    if count >= needed || start + count >= 16 {
        (used, pages, count)
    } else {
        extended(
            used.update(start + count, true),
            claimed(used, pages, start + count),
            start,
            count + 1,
            needed,
        )
    }
}

/// The pages `new` are `pages` with `data` written at `pos` to the file whose
/// pages begin at `start`.
pub open spec fn is_written(pages: Pages, new: Pages, start: int, pos: int, data: Seq<u8>) -> bool {
    &&& new.len() == pages.len()
    &&& forall|p: int, b: int|
        0 <= p < pages.len() && 0 <= b < 4096 ==> #[trigger] new[p][b] == {
            let k = (p - start) * 4096 + b - pos;
            if 0 <= k < data.len() {
                data[k]
            } else {
                pages[p][b]
            }
        }
    &&& forall|p: int| 0 <= p < pages.len() ==> (#[trigger] new[p]).len() == 4096
}

/// Inode `i` is the new file `x`, a slot that was just taken.
pub open spec fn is_node(x: Inode, i: Inode, ino: u32, is_dir: bool, perm: u16) -> bool {
    &&& is_taken(x)
    &&& i == (Inode {
        i_dev: TMPFS_DEV,
        i_ino: ino,
        i_op: FsType::Tmpfs,
        i_count: 1,
        i_nlink: if is_dir {
            2
        } else {
            1
        },
        i_uid: 0,
        i_gid: 0,
        i_size: 0,
        i_blksize: 4096,
        i_mode: if is_dir {
            mode::S_IFDIR | perm
        } else {
            mode::S_IFREG | perm
        },
        data: i.data,
        ..x
    })
    &&& i.data@ == Seq::new(9, |k: int| 0u16)
}

/// The state `fs` is that of `fs0` after a new file was asked for, with the
/// answer `r`.
pub open spec fn node_made(fs0: &Fs, fs: &Fs, ino: u32, is_dir: bool, perm: u16, r: usize) -> bool {
    &&& *fs == (Fs { cache: fs.cache, inodes: fs.inodes, ..*fs0 })
    &&& r == NIL <==> forall|j: int| 0 <= j < 64 ==> (#[trigger] fs0.inodes@[j]).i_count != 0
    &&& r == NIL ==> fs.blocks() == fs0.blocks() && fs.inodes@ == fs0.inodes@
    &&& r != NIL ==> {
        &&& r < 64
        &&& is_pick(fs0.inodes@, r as int)
        &&& fs.blocks() == flushed(fs0.blocks(), fs0.supers@, fs0.inodes@[r as int])
        &&& fs.inodes@ == fs0.inodes@.update(r as int, fs.inodes@[r as int])
        &&& exists|x: Inode| #[trigger] is_node(x, fs.inodes@[r as int], ino, is_dir, perm)
    }
}

/// What a name in directory `dir` leads to.
pub open spec fn lookup_of(es: Seq<TmpEntry>, dir: usize, name: Seq<u8>) -> Result<usize, i32> {
    if name == seq![46u8] {
        Ok(dir)
    } else if name == seq![46u8, 46u8] {
        Ok(parent_from(es, dir, 0))
    } else if named_from(es, dir, name, 0) < es.len() {
        Ok(es[named_from(es, dir, name, 0)].inode_idx)
    } else {
        Err(ENOENT)
    }
}

/// The state `fs` is that of `fs0` after a name in directory `dir` was looked up.
pub open spec fn lookup_did(fs0: &Fs, fs: &Fs, es: Seq<TmpEntry>, dir: usize, name: Seq<u8>, r: Result<usize, i32>) -> bool {
    &&& r == lookup_of(es, dir, name)
    &&& *fs == (Fs { inodes: fs.inodes, ..*fs0 })
    &&& fs.inodes@ == match r {
        Ok(n) => fs0.inodes@.update(n as int, counted(fs0.inodes@[n as int], 1)),
        Err(_) => fs0.inodes@,
    }
}

/// Entry `d` for a name in a directory.
pub open spec fn is_dirent(d: Dirent, ino: u32, next: int, kind: u8, name: Seq<u8>) -> bool {
    &&& d.d_ino == ino
    &&& d.d_off == next
    &&& d.d_reclen == DIRENT_SIZE
    &&& d.d_type == kind
    &&& d.d_name@ == padded(name, 32)
}

/// What handing out entry `pos` of directory `n` gives.
pub open spec fn dirent_given(fs: &Fs, es: Seq<TmpEntry>, n: usize, pos: u64, d0: Dirent, d: Dirent, r: int) -> bool {
    if pos == 0 {
        r == 1 && is_dirent(d, fs.inodes@[n as int].i_ino, 1, 4, seq![46u8])
    } else if pos == 1 {
        r == 2 && is_dirent(d, fs.inodes@[n as int].i_ino, 2, 4, seq![46u8, 46u8])
    } else {
        let k = child_from(es, n, pos - 2, 0);
        if k < es.len() {
            let i = fs.inodes@[es[k].inode_idx as int];
            &&& r == pos + 1
            &&& is_dirent(
                d,
                i.i_ino,
                pos + 1,
                if type_bits(i.i_mode) == mode::S_IFDIR {
                    4
                } else {
                    8
                },
                es[k].text(),
            )
        } else {
            r == 0 && d == d0
        }
    }
}

impl Tmpfs {
    /// The bytes of the pages.
    pub open spec fn bytes(&self) -> Pages {
        Seq::new(self.pages@.len(), |p: int| self.pages@[p]@)
    }

    pub open spec fn wf(&self) -> bool {
        &&& self.entries@.len() <= MAX_FILES
        &&& forall|k: int| 0 <= k < self.entries@.len() ==> (#[trigger] self.entries@[k]).wf()
        &&& self.pages@.len() == MAX_DATA_PAGES
        &&& forall|p: int| 0 <= p < MAX_DATA_PAGES ==> (#[trigger] self.pages@[p])@.len() == PAGE_SIZE
    }

    /// The pages of inode `i` are there.
    pub open spec fn pages_ok(&self, i: Inode) -> bool {
        i.data@[1] > 0 ==> i.data@[0] + i.data@[1] <= 16
    }

    /// No files.
    pub fn new() -> (r: Tmpfs)
        ensures
            r.wf(),
            r.entries@.len() == 0,
            r.root == NIL,
            r.ino_next == 200,
            forall|p: int| 0 <= p < 16 ==> !#[trigger] r.used@[p],
    {
        let mut pages: Vec<Vec<u8>> = Vec::new();
        for p in 0..MAX_DATA_PAGES
            invariant
                pages@.len() == p,
                forall|k: int| 0 <= k < p ==> (#[trigger] pages@[k])@.len() == PAGE_SIZE,
        {
            pages.push(vec![0u8; PAGE_SIZE]);
        }
        Tmpfs { entries: Vec::new(), pages, used: [false; 16], root: NIL, ino_next: 200 }
    }

    /// Takes the next inode number.
    fn alloc_ino(&mut self) -> (r: u32)
        ensures
            r == old(self).ino_next,
            *final(self) == (Tmpfs {
                ino_next: ((old(self).ino_next + 1) % 0x1_0000_0000) as u32,
                ..*old(self)
            }),
    {
        let n: u32 = self.ino_next;
        self.ino_next = if n == u32::MAX {
            0
        } else {
            n + 1
        };
        n
    }

    /// Makes a page that is free empty and marks it as used.
    fn claim(&mut self, p: usize)
        requires
            old(self).wf(),
            p < MAX_DATA_PAGES,
        ensures
            final(self).wf(),
            *final(self) == (Tmpfs { pages: final(self).pages, used: final(self).used, ..*old(self) }),
            final(self).used@ == old(self).used@.update(p as int, true),
            final(self).bytes() == claimed(old(self).used@, old(self).bytes(), p as int),
    {
        if !self.used[p] {
            self.used[p] = true;
            self.pages.set(p, crate::bytes::zeroed(PAGE_SIZE));
        }
        assert(self.used@ =~= old(self).used@.update(p as int, true));
        assert(self.bytes() =~= claimed(old(self).used@, old(self).bytes(), p as int));
    }

    /// Takes a free page.
    fn alloc_data_page(&mut self) -> (r: Option<usize>)
        requires
            old(self).wf(),
        ensures
            final(self).wf(),
            match r {
                Some(p) => {
                    &&& p < 16
                    &&& p == free_page_from(old(self).used@, 0)
                    &&& *final(self) == (Tmpfs {
                        pages: final(self).pages,
                        used: final(self).used,
                        ..*old(self)
                    })
                    &&& final(self).used@ == old(self).used@.update(p as int, true)
                    &&& final(self).bytes() == old(self).bytes().update(p as int, zeros(4096))
                },
                None => free_page_from(old(self).used@, 0) == 16 && *final(self) == *old(self),
            },
    {
        for p in 0..MAX_DATA_PAGES
            invariant
                self.wf(),
                *self == *old(self),
                free_page_from(self.used@, 0) == free_page_from(self.used@, p as int),
        {
            if !self.used[p] {
                self.claim(p);
                return Some(p);
            }
        }
        None
    }

    /// Makes an inode.
    fn tmpfs_iget(&mut self, fs: &mut Fs, is_dir: bool, perm: u16) -> (r: usize)
        requires
            old(self).wf(),
            old(fs).wf(),
        ensures
            final(self).wf(),
            final(fs).wf(),
            *final(self) == if r == NIL {
                *old(self)
            } else {
                Tmpfs {
                    ino_next: ((old(self).ino_next + 1) % 0x1_0000_0000) as u32,
                    ..*old(self)
                }
            },
            node_made(old(fs), final(fs), old(self).ino_next, is_dir, perm, r),
    {
        let n: usize = get_empty_inode(fs);
        if n == NIL {
            return NIL;
        }
        let ghost x = fs.inodes@[n as int];
        let mut i: Inode = fs.inodes[n];
        i.i_dev = TMPFS_DEV;
        i.i_ino = self.alloc_ino();
        i.i_op = FsType::Tmpfs;
        i.i_count = 1;
        i.i_nlink = 1;
        i.i_uid = 0;
        i.i_gid = 0;
        i.i_size = 0;
        i.i_blksize = PAGE_SIZE as u32;
        i.data = [0u16; 9];
        if is_dir {
            i.i_mode = mode::S_IFDIR | perm;
            i.i_nlink = 2;
        } else {
            i.i_mode = mode::S_IFREG | perm;
        }
        fs.inodes[n] = i;
        proof {
            assert(i.data@ =~= Seq::new(9, |k: int| 0u16));
            assert(is_node(x, i, old(self).ino_next, is_dir, perm));
            assert(fs.inodes@ =~= old(fs).inodes@.update(n as int, i));
        }
        n
    }

    /// Mounts the file system on a directory.
    pub fn mount_tmpfs(&mut self, fs: &mut Fs, dir_inode: usize) -> (r: i64)
        requires
            old(self).wf(),
            old(fs).wf(),
            dir_inode < 64,
        ensures
            final(self).wf(),
            final(fs).wf(),
            exists|fs1: Fs, root: usize|
                {
                    &&& #[trigger] node_made(old(fs), &fs1, old(self).ino_next, true, 0o1777, root)
                    &&& if root == NIL {
                        r == -ENOMEM && *final(fs) == fs1 && *final(self) == *old(self)
                    } else {
                        &&& r == 0
                        &&& *final(self) == (Tmpfs {
                            root,
                            ino_next: ((old(self).ino_next + 1) % 0x1_0000_0000) as u32,
                            ..*old(self)
                        })
                        &&& *final(fs) == (Fs { inodes: final(fs).inodes, ..fs1 })
                        &&& final(fs).inodes@ == fs1.inodes@.update(
                            dir_inode as int,
                            Inode { i_mount: root, ..fs1.inodes@[dir_inode as int] },
                        )
                    }
                },
    {
        let root: usize = self.tmpfs_iget(fs, true, 0o1777);
        let ghost fs1 = *fs;
        assert(node_made(old(fs), &fs1, old(self).ino_next, true, 0o1777, root));
        if root == NIL {
            return -(ENOMEM as i64);
        }
        self.root = root;
        fs.inodes[dir_inode].i_mount = root;
        assert(fs.inodes@ =~= fs1.inodes@.update(
            dir_inode as int,
            Inode { i_mount: root, ..fs1.inodes@[dir_inode as int] },
        ));
        0
    }

    /// The inode that a name in directory `dir` leads to, with one reference more.
    pub fn lookup(&self, fs: &mut Fs, dir: usize, name: &[u8]) -> (r: Result<usize, i32>)
        requires
            self.wf(),
            old(fs).wf(),
            dir < 64,
            forall|n: int| 0 <= n < 64 ==> (#[trigger] old(fs).inodes@[n]).i_count < u16::MAX,
        ensures
            final(fs).wf(),
            lookup_did(old(fs), final(fs), self.entries@, dir, name@, r),
            r is Ok ==> r->Ok_0 < 64,
    {
        let n: usize = if name.len() == 1 && name[0] == 46 {
            assert(name@ =~= seq![46u8]);
            dir
        } else if name.len() == 2 && name[0] == 46 && name[1] == 46 {
            assert(name@ =~= seq![46u8, 46u8]);
            self.parent_of(dir)
        } else {
            assert(name@ != seq![46u8]) by {
                assert(seq![46u8][0] == 46u8);
            }
            assert(name@ != seq![46u8, 46u8]) by {
                assert(seq![46u8, 46u8][0] == 46u8 && seq![46u8, 46u8][1] == 46u8);
            }
            match self.find(dir, name) {
                Some(k) => self.entries[k].inode_idx,
                None => {
                    return Err(ENOENT);
                },
            }
        };
        fs.inodes[n].i_count = fs.inodes[n].i_count + 1;
        assert(fs.inodes@ =~= old(fs).inodes@.update(
            n as int,
            counted(old(fs).inodes@[n as int], 1),
        ));
        Ok(n)
    }

    /// The directory that `dir` is in.
    fn parent_of(&self, dir: usize) -> (r: usize)
        requires
            self.wf(),
            dir < 64,
        ensures
            r == parent_from(self.entries@, dir, 0),
            r < 64,
    {
        let n: usize = self.entries.len();
        for k in 0..n
            invariant
                self.wf(),
                n == self.entries@.len(),
                parent_from(self.entries@, dir, 0) == parent_from(self.entries@, dir, k as int),
        {
            if self.entries[k].inode_idx == dir && self.entries[k].parent != NIL {
                assert(self.entries@[k as int].wf());
                return self.entries[k].parent;
            }
        }
        dir
    }

    /// The place of a name in directory `dir`.
    fn find(&self, dir: usize, name: &[u8]) -> (r: Option<usize>)
        requires
            self.wf(),
        ensures
            match r {
                Some(k) => k < self.entries@.len() && k == named_from(self.entries@, dir, name@, 0)
                    && self.entries@[k as int].inode_idx < 64,
                None => named_from(self.entries@, dir, name@, 0) == self.entries@.len(),
            },
    {
        let n: usize = self.entries.len();
        for k in 0..n
            invariant
                self.wf(),
                n == self.entries@.len(),
                named_from(self.entries@, dir, name@, 0) == named_from(
                    self.entries@,
                    dir,
                    name@,
                    k as int,
                ),
        {
            let e: TmpEntry = self.entries[k];
            assert(self.entries@[k as int].wf());
            let text: Vec<u8> = crate::bytes::copy_range(e.name.as_slice(), 0, e.name_len as usize);
            assert(text@ =~= e.text());
            if e.parent == dir && same_bytes(text.as_slice(), name) {
                return Some(k);
            }
        }
        None
    }

    /// Makes a file or a directory in directory `dir`.
    pub fn create(&mut self, fs: &mut Fs, dir: usize, name: &[u8], mode_bits: u16) -> (r: Result<usize, i32>)
        requires
            old(self).wf(),
            old(fs).wf(),
            dir < 64,
        ensures
            final(self).wf(),
            final(fs).wf(),
            final(fs).same_roots(old(fs)),
            create_did(old(fs), final(fs), old(self), final(self), dir, name@, mode_bits, r),
            r is Ok ==> r->Ok_0 < 64,
    {
        if name.len() > MAX_NAME || self.entries.len() >= MAX_FILES {
            return Err(ENOSPC);
        }
        let n: usize = self.tmpfs_iget(fs, mode::is_dir(mode_bits), mode_bits & 0o7777);
        if n == NIL {
            return Err(ENOMEM);
        }
        let mut text: [u8; 32] = [0u8; 32];
        for k in 0..name.len()
            invariant
                name@.len() <= MAX_NAME,
                text@ == padded(name@.take(k as int), 32),
        {
            text[k] = name[k];
            assert(text@ =~= padded(name@.take(k + 1), 32));
        }
        assert(name@.take(name@.len() as int) =~= name@);
        let e = TmpEntry { name: text, name_len: name.len() as u8, inode_idx: n, parent: dir };
        assert(e.text() =~= name@);
        self.entries.push(e);
        Ok(n)
    }

    /// What reading from file `i` at `pos` into `b0` gives, with the answer `r`.
    pub open spec fn gives(&self, i: Inode, pos: int, b0: Seq<u8>, b: Seq<u8>, r: int) -> bool {
        let want = crate::fs::minix::file::read_count(i.i_size as int, pos, b0.len() as int);
        &&& r == present(self.used@, i.data@[0] as int, pos, want)
        &&& b.len() == b0.len()
        &&& forall|k: int|
            0 <= k < b.len() ==> #[trigger] b[k] == if k < r {
                page_byte(self.bytes(), i.data@[0] as int, pos + k)
            } else {
                b0[k]
            }
    }

    /// Reads from a file at `pos`, as far as it goes.
    pub fn read(&self, fs: &Fs, n: usize, pos: u64, buf: &mut Vec<u8>) -> (r: i64)
        requires
            self.wf(),
            fs.wf(),
            n < 64,
        ensures
            self.gives(fs.inodes@[n as int], pos as int, old(buf)@, final(buf)@, r as int),
    {
        let size: u64 = fs.inodes[n].i_size as u64;
        if pos >= size {
            return 0;
        }
        let len: usize = buf.len();
        let want: usize = if size - pos < len as u64 {
            (size - pos) as usize
        } else {
            len
        };
        let start: usize = fs.inodes[n].data[0] as usize;
        let ghost b0 = buf@;
        let mut done: usize = 0;
        while done < want
            invariant
                self.wf(),
                done <= want <= len,
                len == buf@.len(),
                b0.len() == len,
                b0 == old(buf)@,
                start <= u16::MAX,
                pos + want <= u32::MAX,
                done + present(self.used@, start as int, pos + done, want - done) == present(
                    self.used@,
                    start as int,
                    pos as int,
                    want as int,
                ),
                forall|k: int|
                    0 <= k < len ==> #[trigger] buf@[k] == if k < done {
                        page_byte(self.bytes(), start as int, pos + k)
                    } else {
                        b0[k]
                    },
                start == fs.inodes@[n as int].data@[0],
                want == crate::fs::minix::file::read_count(
                    fs.inodes@[n as int].i_size as int,
                    pos as int,
                    b0.len() as int,
                ),
            decreases want - done,
        {
            let off: usize = pos as usize + done;
            let page: usize = start + off / PAGE_SIZE;
            let at: usize = off % PAGE_SIZE;
            if page >= MAX_DATA_PAGES || !self.used[page] {
                return done as i64;
            }
            let chunk: usize = if PAGE_SIZE - at < want - done {
                PAGE_SIZE - at
            } else {
                want - done
            };
            assert(chunk == piece(off as int, want - done));
            let ghost before = buf@;
            for j in 0..chunk
                invariant
                    self.wf(),
                    page < MAX_DATA_PAGES,
                    chunk <= PAGE_SIZE - at,
                    len == buf@.len(),
                    before.len() == len,
                    done + chunk <= len,
                    forall|k: int|
                        0 <= k < len ==> #[trigger] buf@[k] == if done <= k < done + j {
                            self.pages@[page as int]@[at + k - done]
                        } else {
                            before[k]
                        },
            {
                assert(self.pages@[page as int]@.len() == PAGE_SIZE);
                buf[done + j] = self.pages[page][at + j];
            }
            assert forall|k: int| 0 <= k < len implies #[trigger] buf@[k] == if k < done + chunk {
                page_byte(self.bytes(), start as int, pos + k)
            } else {
                b0[k]
            } by {
                if done <= k < done + chunk {
                    assert((pos + k) / 4096 == off as int / 4096 && (pos + k) % 4096 == at + k - done);
                }
            }
            done = done + chunk;
        }
        done as i64
    }

    /// Writes to a file at `pos`, which gets the pages that it needs.
    #[verifier::rlimit(40)]
    pub fn write(&mut self, fs: &mut Fs, n: usize, pos: u64, buf: &[u8]) -> (r: i64)
        requires
            old(self).wf(),
            old(fs).wf(),
            n < 64,
            old(self).pages_ok(old(fs).inodes@[n as int]),
            pos + buf@.len() + 4095 <= usize::MAX,
            buf@.len() <= i64::MAX,
        ensures
            final(self).wf(),
            final(fs).wf(),
            *final(fs) == (Fs { inodes: final(fs).inodes, ..*old(fs) }),
            final(fs).inodes@ == old(fs).inodes@.update(n as int, final(fs).inodes@[n as int]),
            *final(self) == (Tmpfs { pages: final(self).pages, used: final(self).used, ..*old(self) }),
            tmp_written(
                old(fs).inodes@[n as int],
                final(fs).inodes@[n as int],
                old(self),
                final(self),
                pos as int,
                buf@,
                r as int,
            ),
    {
        let mut i: Inode = fs.inodes[n];
        let ghost i0 = i;
        let ghost t0 = *self;
        assert(fs.inodes@ =~= fs.inodes@.update(n as int, i));
        if mode::is_dir(i.i_mode) {
            return -(EISDIR as i64);
        }
        let mut start: usize = i.data[0] as usize;
        let mut count: usize = i.data[1] as usize;
        if count == 0 {
            match self.alloc_data_page() {
                None => {
                    return -(ENOSPC as i64);
                },
                Some(p) => {
                    start = p;
                    count = 1;
                },
            }
        }
        let ghost used1 = self.used@;
        let ghost pages1 = self.bytes();
        let ghost count1 = count;
        let end: usize = pos as usize + buf.len();
        let needed: usize = (end + (PAGE_SIZE - 1)) / PAGE_SIZE;
        while count < needed && start + count < MAX_DATA_PAGES
            invariant
                self.wf(),
                *self == (Tmpfs { pages: self.pages, used: self.used, ..t0 }),
                start + count <= 16,
                extended(used1, pages1, start as int, count1 as int, needed as int) == extended(
                    self.used@,
                    self.bytes(),
                    start as int,
                    count as int,
                    needed as int,
                ),
                count >= count1,
            decreases 16 - count,
        {
            self.claim(start + count);
            count = count + 1;
        }
        i.data[0] = start as u16;
        i.data[1] = count as u16;
        assert(i.data@ =~= i0.data@.update(0, start as u16).update(1, count as u16));
        if count < needed {
            fs.inodes[n] = i;
            assert(fs.inodes@ =~= old(fs).inodes@.update(n as int, i));
            return -(ENOSPC as i64);
        }
        let ghost pages2 = self.bytes();
        let ghost t2 = *self;
        let len: usize = buf.len();
        let mut done: usize = 0;
        while done < len
            invariant
                self.wf(),
                *self == (Tmpfs { pages: self.pages, ..t2 }),
                done <= len,
                len == buf@.len(),
                end == pos + len,
                end <= needed * 4096,
                needed <= count,
                start + count <= 16,
                pages2.len() == 16,
                is_written(pages2, self.bytes(), start as int, pos as int, buf@.take(done as int)),
            decreases len - done,
        {
            let off: usize = pos as usize + done;
            let page: usize = start + off / PAGE_SIZE;
            let at: usize = off % PAGE_SIZE;
            let chunk: usize = if PAGE_SIZE - at < len - done {
                PAGE_SIZE - at
            } else {
                len - done
            };
            assert(page < 16);
            let part: Vec<u8> = crate::bytes::copy_range(buf, done, done + chunk);
            assert(self.pages@[page as int]@.len() == PAGE_SIZE);
            let ghost before = self.bytes();
            let mut data: Vec<u8> = self.pages[page].clone();
            assert(data@ =~= before[page as int]);
            crate::bytes::put_bytes(&mut data, at, part.as_slice());
            self.pages.set(page, data);
            let ghost after = self.bytes();
            proof {
                let old_data = buf@.take(done as int);
                let new_data = buf@.take(done + chunk);
                assert forall|p: int, b: int| 0 <= p < 16 && 0 <= b < 4096 implies #[trigger] after[p][b] == {
                    let k = (p - start) * 4096 + b - pos;
                    if 0 <= k < new_data.len() {
                        new_data[k]
                    } else {
                        pages2[p][b]
                    }
                } by {
                    let k = (p - start) * 4096 + b - pos;
                    assert(before[p][b] == if 0 <= k < old_data.len() {
                        old_data[k]
                    } else {
                        pages2[p][b]
                    });
                    if p == page {
                        assert(after[p] == crate::bytes::overlay(before[p], at as int, part@));
                        assert((p - start) * 4096 == off as int / 4096 * 4096);
                    } else {
                        assert(after[p] == before[p]);
                        if p < page {
                            assert((p - start) * 4096 + 4096 <= off as int / 4096 * 4096);
                        } else {
                            assert((p - start) * 4096 >= off as int / 4096 * 4096 + 4096);
                        }
                    }
                }
                assert forall|p: int| 0 <= p < 16 implies (#[trigger] after[p]).len() == 4096 by {
                    assert(before[p].len() == 4096);
                }
            }
            done = done + chunk;
        }
        assert(buf@.take(len as int) =~= buf@);
        if end > i.i_size as usize {
            i.i_size = end as u32;
        }
        fs.inodes[n] = i;
        assert(fs.inodes@ =~= old(fs).inodes@.update(n as int, i));
        len as i64
    }

    /// Hands out entry `pos` of directory `n`.
    pub fn fill_dirent(&self, fs: &Fs, n: usize, pos: u64, out: &mut Dirent) -> (r: i64)
        requires
            self.wf(),
            fs.wf(),
            n < 64,
            pos < i64::MAX,
        ensures
            dirent_given(fs, self.entries@, n, pos, *old(out), *final(out), r as int),
    {
        if pos == 0 {
            let mut name: [u8; 32] = [0u8; 32];
            name[0] = 46;
            assert(name@ =~= padded(seq![46u8], 32));
            *out = Dirent {
                d_ino: fs.inodes[n].i_ino as u64,
                d_off: 1,
                d_reclen: DIRENT_SIZE,
                d_type: 4,
                d_name: name,
            };
            return 1;
        }
        if pos == 1 {
            let mut name: [u8; 32] = [0u8; 32];
            name[0] = 46;
            name[1] = 46;
            assert(name@ =~= padded(seq![46u8, 46u8], 32));
            *out = Dirent {
                d_ino: fs.inodes[n].i_ino as u64,
                d_off: 2,
                d_reclen: DIRENT_SIZE,
                d_type: 4,
                d_name: name,
            };
            return 2;
        }
        let mut skip: u64 = pos - 2;
        let len: usize = self.entries.len();
        for k in 0..len
            invariant
                self.wf(),
                fs.wf(),
                n < 64,
                2 <= pos < i64::MAX,
                len == self.entries@.len(),
                *out == *old(out),
                child_from(self.entries@, n, pos - 2, 0) == child_from(
                    self.entries@,
                    n,
                    skip as int,
                    k as int,
                ),
        {
            let e: TmpEntry = self.entries[k];
            assert(self.entries@[k as int].wf());
            if e.parent == n {
                if skip == 0 {
                    let c: usize = e.inode_idx;
                    let kind: u8 = if mode::is_dir(fs.inodes[c].i_mode) {
                        4
                    } else {
                        8
                    };
                    *out = Dirent {
                        d_ino: fs.inodes[c].i_ino as u64,
                        d_off: (pos + 1) as i64,
                        d_reclen: DIRENT_SIZE,
                        d_type: kind,
                        d_name: e.name,
                    };
                    return (pos + 1) as i64;
                }
                skip = skip - 1;
            }
        }
        0
    }
}

/// What making a file or a directory in directory `dir` does, with the answer `r`.
pub open spec fn create_did(
    fs0: &Fs,
    fs: &Fs,
    t0: &Tmpfs,
    t: &Tmpfs,
    dir: usize,
    name: Seq<u8>,
    mode_bits: u16,
    r: Result<usize, i32>,
) -> bool {
    if name.len() > MAX_NAME || t0.entries@.len() >= MAX_FILES {
        r == Err::<usize, i32>(ENOSPC) && *fs == *fs0 && *t == *t0
    } else {
        let n = if r is Ok {
            r->Ok_0
        } else {
            NIL
        };
        &&& node_made(
            fs0,
            fs,
            t0.ino_next,
            type_bits(mode_bits) == mode::S_IFDIR,
            mode_bits & 0o7777,
            n,
        )
        &&& r is Err ==> r == Err::<usize, i32>(ENOMEM) && *t == *t0
        &&& r is Ok ==> {
            let e = t.entries@.last();
            &&& *t == (Tmpfs {
                entries: t.entries,
                ino_next: ((t0.ino_next + 1) % 0x1_0000_0000) as u32,
                ..*t0
            })
            &&& t.entries@ == t0.entries@.push(e)
            &&& e.text() == name && e.inode_idx == n && e.parent == dir
        }
    }
}

/// What a write to a file does, with the answer `r`.
pub open spec fn tmp_written(i0: Inode, i: Inode, t0: &Tmpfs, t: &Tmpfs, pos: int, data: Seq<u8>, r: int) -> bool {
    let first = free_page_from(t0.used@, 0);
    let fresh = i0.data@[1] == 0;
    if type_bits(i0.i_mode) == mode::S_IFDIR {
        r == -EISDIR && i == i0 && *t == *t0
    } else if fresh && first >= 16 {
        r == -ENOSPC && i == i0 && *t == *t0
    } else {
        let start = if fresh {
            first
        } else {
            i0.data@[0] as int
        };
        let needed = (pos + data.len() + 4095) / 4096;
        let (used, pages, count) = if fresh {
            extended(
                t0.used@.update(first, true),
                t0.bytes().update(first, zeros(4096)),
                start,
                1,
                needed,
            )
        } else {
            extended(t0.used@, t0.bytes(), start, i0.data@[1] as int, needed)
        };
        &&& t.used@ == used
        &&& i.data@ == i0.data@.update(0, start as u16).update(1, count as u16)
        &&& if count < needed {
            &&& r == -ENOSPC
            &&& t.bytes() == pages
            &&& i == (Inode { data: i.data, ..i0 })
        } else {
            &&& r == data.len()
            &&& is_written(pages, t.bytes(), start, pos, data)
            &&& i == (Inode {
                data: i.data,
                i_size: if pos + data.len() > i0.i_size {
                    (pos + data.len()) as u32
                } else {
                    i0.i_size
                },
                ..i0
            })
        }
    }
}

/// The pages that a file has after it was extended are used.
proof fn lemma_extended(used: Seq<bool>, pages: Pages, start: int, count: int, needed: int)
    requires
        used.len() == 16,
        0 <= start,
        0 <= count,
        start + count <= 16,
        forall|p: int| start <= p < start + count ==> #[trigger] used[p],
    ensures
        ({
            let (u, _, c) = extended(used, pages, start, count, needed);
            &&& u.len() == 16
            &&& count <= c && start + c <= 16
            &&& forall|p: int| start <= p < start + c ==> #[trigger] u[p]
        }),
    decreases needed - count,
{
    if count < needed && start + count < 16 {
        lemma_extended(
            used.update(start + count, true),
            claimed(used, pages, start + count),
            start,
            count + 1,
            needed,
        );
    }
}

/// Bytes in pages that are used are there.
proof fn lemma_present(used: Seq<bool>, start: int, off: int, len: int, count: int)
    requires
        0 <= start,
        0 <= off,
        0 <= len,
        off + len <= count * 4096,
        start + count <= used.len(),
        forall|p: int| start <= p < start + count ==> #[trigger] used[p],
    ensures
        present(used, start, off, len) == len,
    decreases len,
{
    if len > 0 {
        assert(used[start + off / 4096]);
        lemma_present(used, start, off + piece(off, len), len - piece(off, len), count);
    }
}

/// What a write that succeeds has written, a read gives back.
pub proof fn lemma_write_read(i0: Inode, i: Inode, t0: &Tmpfs, t: &Tmpfs, pos: int, data: Seq<u8>, r: int)
    requires
        t0.wf(),
        t.wf(),
        0 <= pos,
        0 < data.len(),
        pos + data.len() <= 65536,
        t0.pages_ok(i0),
        forall|p: int| i0.data@[0] <= p < i0.data@[0] + i0.data@[1] ==> #[trigger] t0.used@[p],
        tmp_written(i0, i, t0, t, pos, data, r),
        r >= 0,
    ensures
        r == data.len(),
        present(t.used@, i.data@[0] as int, pos, data.len() as int) == data.len(),
        forall|k: int|
            0 <= k < data.len() ==> #[trigger] page_byte(t.bytes(), i.data@[0] as int, pos + k) == data[k],
        i.i_size >= pos + data.len(),
{
    let first = free_page_from(t0.used@, 0);
    let fresh = i0.data@[1] == 0;
    lemma_free_page(t0.used@, 0);
    let start = if fresh {
        first
    } else {
        i0.data@[0] as int
    };
    let needed = (pos + data.len() + 4095) / 4096;
    let used1 = if fresh {
        t0.used@.update(first, true)
    } else {
        t0.used@
    };
    let pages1 = if fresh {
        t0.bytes().update(first, zeros(4096))
    } else {
        t0.bytes()
    };
    let count1 = if fresh {
        1int
    } else {
        i0.data@[1] as int
    };
    lemma_extended(used1, pages1, start, count1, needed);
    let (used, pages, count) = extended(used1, pages1, start, count1, needed);
    assert(start as u16 == start);
    assert(i.data@[0] == start);
    lemma_present(t.used@, start, pos, data.len() as int, count);
    lemma_pages_len(used1, pages1, start, count1, needed);
    assert forall|k: int| 0 <= k < data.len() implies #[trigger] page_byte(t.bytes(), start, pos + k) == data[k] by {
        let p = start + (pos + k) / 4096;
        let b = (pos + k) % 4096;
        assert((p - start) * 4096 + b - pos == k);
        assert(t.bytes()[p][b] == data[k]);
    }
}

proof fn lemma_free_page(used: Seq<bool>, k: int)
    requires
        0 <= k <= used.len(),
    ensures
        k <= free_page_from(used, k) <= used.len(),
    decreases used.len() - k,
{
    if k < used.len() {
        lemma_free_page(used, k + 1);
    }
}

proof fn lemma_pages_len(used: Seq<bool>, pages: Pages, start: int, count: int, needed: int)
    requires
        0 <= start,
        0 <= count,
        pages.len() == 16,
    ensures
        extended(used, pages, start, count, needed).1.len() == pages.len(),
    decreases needed - count,
{
    if count < needed && start + count < 16 {
        lemma_pages_len(
            used.update(start + count, true),
            claimed(used, pages, start + count),
            start,
            count + 1,
            needed,
        );
    }
}

} // verus!
