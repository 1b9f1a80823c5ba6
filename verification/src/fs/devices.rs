//! The tables of devices, and reading and writing block devices byte by byte.

use crate::errno::{EINVAL, EIO, ENODEV, ENXIO};
use crate::fs::sync::{fsync_dev, is_synced};
use crate::fs::{major, minor, Blocks, Fs};
use vstd::prelude::*;

verus! {

pub const MAX_CHRDEV: usize = 32;
pub const MAX_BLKDEV: usize = 32;
/// The major number of the memory devices: as a block device, the RAM disk.
pub const MEM_MAJOR: u32 = 1;

/// The kinds of character devices.
#[derive(Debug, Clone, Copy, PartialEq, Eq, Structural)]
pub enum CharDev {
    /// A terminal.
    Tty,
    /// Memory.
    Mem,
}

/// The kinds of block devices.
#[derive(Debug, Clone, Copy, PartialEq, Eq, Structural)]
pub enum BlockDev {
    /// One that is read and written through the block cache.
    Generic,
}

/// The devices by their major numbers: of what kind they are, how they are
/// called, and how many blocks a block device has.
pub struct Devices {
    pub chr: [Option<CharDev>; 32],
    pub chr_names: [&'static str; 32],
    pub blk: [Option<BlockDev>; 32],
    pub blk_names: [&'static str; 32],
    pub sizes: [Option<u32>; 32],
}

/// Who has to do a read or a write of a character device.
#[derive(Debug, Clone, Copy, PartialEq, Eq, Structural)]
pub enum CharCall {
    Tty,
    /// The memory device with that minor number.
    Mem(u32),
    Failed(i32),
}

impl Devices {
    /// The kind of a character device.
    pub open spec fn chr_of(&self, ma: int) -> Option<CharDev> {
        if 0 <= ma < MAX_CHRDEV {
            self.chr@[ma]
        } else {
            None
        }
    }

    /// The kind of a block device.
    pub open spec fn blk_of(&self, ma: int) -> Option<BlockDev> {
        if 0 <= ma < MAX_BLKDEV {
            self.blk@[ma]
        } else {
            None
        }
    }

    /// How many blocks a block device has, where that is known.
    pub open spec fn size_of(&self, ma: int) -> Option<u32> {
        if 0 <= ma < MAX_BLKDEV {
            self.sizes@[ma]
        } else {
            None
        }
    }

    /// Empty tables but for the RAM disk.
    pub fn init() -> (r: Devices)
        ensures
            forall|ma: int| #[trigger] r.chr_of(ma) is None,
            forall|ma: int|
                #[trigger] r.blk_of(ma) == if ma == MEM_MAJOR {
                    Some(BlockDev::Generic)
                } else {
                    None
                },
            forall|ma: int| #[trigger] r.size_of(ma) is None,
    {
        let mut r = Devices {
            chr: [None; 32],
            chr_names: [""; 32],
            blk: [None; 32],
            blk_names: [""; 32],
            sizes: [None; 32],
        };
        let ok: bool = r.register_blkdev(MEM_MAJOR, "rd", BlockDev::Generic);
        r
    }

    pub fn get_chrfops(&self, ma: u32) -> (r: Option<CharDev>)
        ensures
            r == self.chr_of(ma as int),
    {
        if ma as usize >= MAX_CHRDEV {
            return None;
        }
        self.chr[ma as usize]
    }

    pub fn get_blkfops(&self, ma: u32) -> (r: Option<BlockDev>)
        ensures
            r == self.blk_of(ma as int),
    {
        if ma as usize >= MAX_BLKDEV {
            return None;
        }
        self.blk[ma as usize]
    }

    /// How many blocks a block device has.
    pub fn blk_size(&self, ma: u32) -> (r: Option<u32>)
        ensures
            r == self.size_of(ma as int),
    {
        if ma as usize >= MAX_BLKDEV {
            return None;
        }
        self.sizes[ma as usize]
    }

    /// Says how many blocks a block device has.
    pub fn set_blk_size(&mut self, ma: u32, blocks: u32)
        ensures
            *final(self) == (Devices { sizes: final(self).sizes, ..*old(self) }),
            final(self).sizes@ == if ma < MAX_BLKDEV {
                old(self).sizes@.update(ma as int, Some(blocks))
            } else {
                old(self).sizes@
            },
    {
        if (ma as usize) < MAX_BLKDEV {
            self.sizes[ma as usize] = Some(blocks);
        }
    }

    /// Enters a character device, where the number is free.
    pub fn register_chrdev(&mut self, ma: u32, name: &'static str, kind: CharDev) -> (r: bool)
        ensures
            r == (ma < MAX_CHRDEV && old(self).chr_of(ma as int) is None),
            !r ==> *final(self) == *old(self),
            *final(self) == (Devices {
                chr: final(self).chr,
                chr_names: final(self).chr_names,
                ..*old(self)
            }),
            r ==> final(self).chr@ == old(self).chr@.update(ma as int, Some(kind))
                && final(self).chr_names@ == old(self).chr_names@.update(ma as int, name),
    {
        if ma as usize >= MAX_CHRDEV {
            return false;
        }
        if self.chr[ma as usize].is_some() {
            return false;
        }
        self.chr_names[ma as usize] = name;
        self.chr[ma as usize] = Some(kind);
        true
    }

    /// Enters a block device, where the number is free.
    pub fn register_blkdev(&mut self, ma: u32, name: &'static str, kind: BlockDev) -> (r: bool)
        ensures
            r == (ma < MAX_BLKDEV && old(self).blk_of(ma as int) is None),
            !r ==> *final(self) == *old(self),
            *final(self) == (Devices {
                blk: final(self).blk,
                blk_names: final(self).blk_names,
                ..*old(self)
            }),
            r ==> final(self).blk@ == old(self).blk@.update(ma as int, Some(kind))
                && final(self).blk_names@ == old(self).blk_names@.update(ma as int, name),
    {
        if ma as usize >= MAX_BLKDEV {
            return false;
        }
        if self.blk[ma as usize].is_some() {
            return false;
        }
        self.blk_names[ma as usize] = name;
        self.blk[ma as usize] = Some(kind);
        true
    }

    /// Whether a block device can be opened.
    pub fn blkdev_open(&self, rdev: u16) -> (r: i64)
        ensures
            r == if self.blk_of(rdev as int / 256) is Some {
                0
            } else {
                -ENODEV as int
            },
    {
        match self.get_blkfops(major(rdev)) {
            Some(_) => 0,
            None => -(ENODEV as i64),
        }
    }

    /// Whether a character device can be opened.
    pub fn chrdev_open(&self, rdev: u16) -> (r: i64)
        ensures
            r == if self.chr_of(rdev as int / 256) is Some {
                0
            } else {
                -ENODEV as int
            },
    {
        match self.get_chrfops(major(rdev)) {
            Some(_) => 0,
            None => -(ENODEV as i64),
        }
    }

    /// Who reads or writes a character device.
    pub open spec fn char_call(&self, rdev: u16) -> CharCall {
        match self.chr_of(rdev as int / 256) {
            Some(CharDev::Tty) => CharCall::Tty,
            Some(CharDev::Mem) => CharCall::Mem((rdev % 256) as u32),
            None => CharCall::Failed(ENXIO),
        }
    }

    /// Who has to read a character device.
    pub fn chrdev_read(&self, rdev: u16) -> (r: CharCall)
        ensures
            r == self.char_call(rdev),
    {
        match self.get_chrfops(major(rdev)) {
            Some(CharDev::Tty) => CharCall::Tty,
            Some(CharDev::Mem) => CharCall::Mem(minor(rdev)),
            None => CharCall::Failed(ENXIO),
        }
    }

    /// Who has to write a character device.
    pub fn chrdev_write(&self, rdev: u16) -> (r: CharCall)
        ensures
            r == self.char_call(rdev),
    {
        self.chrdev_read(rdev)
    }
}

/// Byte `p` of a device.
pub open spec fn device_byte(c: Blocks, dev: u16, p: int) -> u8 {
    c[(dev, (p / 1024) as u32)][p % 1024]
}

/// How many of `len` bytes lie in the block of byte `off`.
pub open spec fn piece(off: int, len: int) -> int {
    if 1024 - off % 1024 < len {
        1024 - off % 1024
    } else {
        len
    }
}

/// How many of `len` bytes from `off` on are there: up to the first block that is
/// not.
pub open spec fn present(c: Blocks, dev: u16, off: int, len: int) -> int
    decreases len,
    when 0 <= off
{
    if len <= 0 || !c.dom().contains((dev, (off / 1024) as u32)) {
        0
    } else {
        piece(off, len) + present(c, dev, off + piece(off, len), len - piece(off, len))
    }
}

/// How many of `len` bytes from `pos` on a device of `blocks` blocks has.
pub open spec fn device_want(blocks: u32, pos: int, len: int) -> int {
    if blocks * 1024 - pos < len {
        blocks * 1024 - pos
    } else {
        len
    }
}

/// The blocks with `data` written to a device at `off`, as far as the blocks are
/// there.
pub open spec fn device_written(c: Blocks, dev: u16, off: int, data: Seq<u8>) -> Blocks
    decreases data.len(),
    when 0 <= off
{
    let key = (dev, (off / 1024) as u32);
    let n = piece(off, data.len() as int);
    if data.len() == 0 || !c.dom().contains(key) {
        c
    } else {
        device_written(
            c.insert(key, crate::bytes::overlay(c[key], off % 1024, data.take(n))),
            dev,
            off + n,
            data.skip(n),
        )
    }
}

/// What reading or writing comes to that got through `done` of `want` bytes.
pub open spec fn moved(done: int, want: int) -> int {
    if done == 0 && want > 0 {
        -EIO as int
    } else {
        done
    }
}

/// What reading from a block device at `pos` into `b0` does, with the answer `r`.
pub open spec fn block_read_did(fs0: &Fs, fs: &Fs, d: &Devices, dev: u16, pos: u64, b0: Seq<u8>, b: Seq<u8>, r: i64) -> bool {
    &&& *fs == (Fs { cache: fs.cache, ..*fs0 })
    &&& fs.blocks() == fs0.blocks()
    &&& b.len() == b0.len()
    &&& match d.size_of(dev as int / 256) {
        None => r == -ENXIO && b == b0,
        Some(blocks) => if pos >= blocks * 1024 {
            r == 0 && b == b0
        } else {
            let want = device_want(blocks, pos as int, b0.len() as int);
            let done = present(fs0.blocks(), dev, pos as int, want);
            &&& r == moved(done, want)
            &&& forall|k: int|
                0 <= k < b.len() ==> #[trigger] b[k] == if k < done {
                    device_byte(fs0.blocks(), dev, pos + k)
                } else {
                    b0[k]
                }
        },
    }
}

/// Reads from a block device at `pos`, as far as it goes.
pub fn block_read(fs: &mut Fs, d: &Devices, dev: u16, pos: u64, buf: &mut Vec<u8>) -> (r: i64)
    requires
        old(fs).wf(),
    ensures
        final(fs).wf(),
        block_read_did(old(fs), final(fs), d, dev, pos, old(buf)@, final(buf)@, r),
{
    let blocks: u32 = match d.blk_size(major(dev)) {
        None => {
            return -(ENXIO as i64);
        },
        Some(b) => b,
    };
    let size: u64 = blocks as u64 * 1024;
    if pos >= size {
        return 0;
    }
    let n: usize = buf.len();
    let want: usize = if size - pos < n as u64 {
        (size - pos) as usize
    } else {
        n
    };
    let ghost c = fs.blocks();
    let ghost b0 = buf@;
    let mut done: usize = 0;
    while done < want
        invariant
            fs.wf(),
            *fs == (Fs { cache: fs.cache, ..*old(fs) }),
            fs.blocks() == c,
            done <= want <= n,
            n == buf@.len(),
            b0.len() == n,
            pos + want <= size,
            size == blocks * 1024,
            done + present(c, dev, pos + done, want - done) == present(c, dev, pos as int, want as int),
            forall|k: int|
                0 <= k < n ==> #[trigger] buf@[k] == if k < done {
                    device_byte(c, dev, pos + k)
                } else {
                    b0[k]
                },
            c == old(fs).blocks(),
            b0 == old(buf)@,
            d.size_of(dev as int / 256) == Some(blocks),
            pos < size,
            want == device_want(blocks, pos as int, b0.len() as int),
        decreases want - done,
    {
        let off: u64 = pos + done as u64;
        let block: u32 = (off / 1024) as u32;
        let at: usize = (off % 1024) as usize;
        let chunk: usize = if 1024 - at < want - done {
            1024 - at
        } else {
            want - done
        };
        assert(chunk == piece(off as int, want - done));
        let data: Vec<u8> = match fs.cache.read_block(dev, block) {
            None => {
                return if done > 0 {
                    done as i64
                } else {
                    -(EIO as i64)
                };
            },
            Some(x) => x,
        };
        let ghost before = buf@;
        for i in 0..chunk
            invariant
                chunk <= 1024 - at,
                data@.len() == 1024,
                n == buf@.len(),
                before.len() == n,
                done + chunk <= n,
                forall|k: int|
                    0 <= k < n ==> #[trigger] buf@[k] == if done <= k < done + i {
                        data@[at + k - done]
                    } else {
                        before[k]
                    },
        {
            buf[done + i] = data[at + i];
        }
        assert forall|k: int| 0 <= k < n implies #[trigger] buf@[k] == if k < done + chunk {
            device_byte(c, dev, pos + k)
        } else {
            b0[k]
        } by {
            if done <= k < done + chunk {
                assert((pos + k) / 1024 == block && (pos + k) % 1024 == at + k - done);
            }
        }
        done = done + chunk;
    }
    done as i64
}

/// What writing to a block device at `pos` does, with the answer `r`.
pub open spec fn block_write_did(fs0: &Fs, fs: &Fs, d: &Devices, dev: u16, pos: u64, data: Seq<u8>, r: i64) -> bool {
    &&& *fs == (Fs { cache: fs.cache, ..*fs0 })
    &&& match d.size_of(dev as int / 256) {
        None => r == -ENXIO && fs.blocks() == fs0.blocks(),
        Some(blocks) => if pos >= blocks * 1024 {
            r == -EINVAL && fs.blocks() == fs0.blocks()
        } else {
            let want = device_want(blocks, pos as int, data.len() as int);
            &&& r == moved(present(fs0.blocks(), dev, pos as int, want), want)
            &&& fs.blocks() == device_written(
                fs0.blocks(),
                dev,
                pos as int,
                data.take(want),
            )
        },
    }
}

/// Writes to a block device at `pos`, as far as it goes.
pub fn block_write(fs: &mut Fs, d: &Devices, dev: u16, pos: u64, buf: &[u8]) -> (r: i64)
    requires
        old(fs).wf(),
    ensures
        final(fs).wf(),
        block_write_did(old(fs), final(fs), d, dev, pos, buf@, r),
{
    let blocks: u32 = match d.blk_size(major(dev)) {
        None => {
            return -(ENXIO as i64);
        },
        Some(b) => b,
    };
    let size: u64 = blocks as u64 * 1024;
    if pos >= size {
        return -(EINVAL as i64);
    }
    let n: usize = buf.len();
    let want: usize = if size - pos < n as u64 {
        (size - pos) as usize
    } else {
        n
    };
    let ghost c0 = fs.blocks();
    let ghost all = buf@.take(want as int);
    let mut done: usize = 0;
    assert(all.skip(0) =~= all);
    while done < want
        invariant
            fs.wf(),
            *fs == (Fs { cache: fs.cache, ..*old(fs) }),
            done <= want <= n,
            n == buf@.len(),
            pos + want <= size,
            size == blocks * 1024,
            all == buf@.take(want as int),
            c0 == old(fs).blocks(),
            fs.blocks().dom() == c0.dom(),
            done + present(c0, dev, pos + done, want - done) == present(c0, dev, pos as int, want as int),
            device_written(fs.blocks(), dev, pos + done, all.skip(done as int)) == device_written(
                c0,
                dev,
                pos as int,
                all,
            ),
            d.size_of(dev as int / 256) == Some(blocks),
            pos < size,
            want == device_want(blocks, pos as int, buf@.len() as int),
        decreases want - done,
    {
        let off: u64 = pos + done as u64;
        let block: u32 = (off / 1024) as u32;
        let at: usize = (off % 1024) as usize;
        let chunk: usize = if 1024 - at < want - done {
            1024 - at
        } else {
            want - done
        };
        assert(chunk == piece(off as int, want - done));
        let ghost c1 = fs.blocks();
        let ghost left = all.skip(done as int);
        match fs.cache.read_block(dev, block) {
            None => {
                return if done > 0 {
                    done as i64
                } else {
                    -(EIO as i64)
                };
            },
            Some(mut data) => {
                let part: Vec<u8> = crate::bytes::copy_range(buf, done, done + chunk);
                assert(part@ =~= left.take(chunk as int));
                crate::bytes::put_bytes(&mut data, at, part.as_slice());
                let ok: bool = fs.cache.write_block(dev, block, data.as_slice());
                assert(left.skip(chunk as int) =~= all.skip(done + chunk));
                assert(fs.blocks().dom() =~= c0.dom());
            },
        }
        done = done + chunk;
    }
    assert(all.skip(want as int).len() == 0);
    done as i64
}

/// Writes a block device out.
pub fn block_fsync(fs: &mut Fs, dev: u16) -> (r: i64)
    requires
        old(fs).wf(),
    ensures
        final(fs).wf(),
        is_synced(old(fs), final(fs), dev),
        r == if exists|i: int|
            0 <= i < 64 && crate::fs::buffer::failed(#[trigger] final(fs).cache.bufs()[i], dev) {
            -EIO as int
        } else {
            0
        },
{
    if fsync_dev(fs, dev) {
        -(EIO as i64)
    } else {
        0
    }
}

/// What is written to a device is what is read back from it.
pub proof fn lemma_write_read(c: Blocks, dev: u16, off: int, data: Seq<u8>, p: int)
    requires
        0 <= off <= p < off + data.len(),
        present(c, dev, off, data.len() as int) == data.len(),
        off + data.len() <= 0x400_0000_0000,
        forall|k: (u16, u32)| #[trigger] c.dom().contains(k) ==> c[k].len() == 1024,
    ensures
        device_byte(device_written(c, dev, off, data), dev, p) == data[p - off],
    decreases data.len(),
{
    let key = (dev, (off / 1024) as u32);
    let n = piece(off, data.len() as int);
    let c1 = c.insert(key, crate::bytes::overlay(c[key], off % 1024, data.take(n)));
    lemma_present(c, dev, off, data.len() as int);
    lemma_same_present(c, c1, dev, off + n, data.len() - n);
    if p < off + n {
        lemma_not_written(c1, dev, off + n, data.skip(n), p);
    } else {
        lemma_write_read(c1, dev, off + n, data.skip(n), p);
    }
}

/// No more bytes are there than are asked for.
proof fn lemma_present(c: Blocks, dev: u16, off: int, len: int)
    requires
        0 <= off,
        0 <= len,
    ensures
        0 <= present(c, dev, off, len) <= len,
        len > 0 && present(c, dev, off, len) == len ==> c.dom().contains((dev, (off / 1024) as u32))
            && present(c, dev, off + piece(off, len), len - piece(off, len)) == len - piece(off, len),
    decreases len,
{
    if len > 0 && c.dom().contains((dev, (off / 1024) as u32)) {
        lemma_present(c, dev, off + piece(off, len), len - piece(off, len));
    }
}

proof fn lemma_same_present(c: Blocks, c1: Blocks, dev: u16, off: int, len: int)
    requires
        0 <= off,
        0 <= len,
        forall|k: (u16, u32)| #[trigger] c.dom().contains(k) ==> c1.dom().contains(k),
        present(c, dev, off, len) == len,
    ensures
        present(c1, dev, off, len) == len,
    decreases len,
{
    if len > 0 {
        lemma_present(c, dev, off, len);
        let n = piece(off, len);
        lemma_same_present(c, c1, dev, off + n, len - n);
    }
}

/// Writing from `off` on leaves the bytes before it alone.
proof fn lemma_not_written(c: Blocks, dev: u16, off: int, data: Seq<u8>, p: int)
    requires
        0 <= p < off,
        off + data.len() <= 0x400_0000_0000,
        forall|k: (u16, u32)| #[trigger] c.dom().contains(k) ==> c[k].len() == 1024,
    ensures
        device_byte(device_written(c, dev, off, data), dev, p) == device_byte(c, dev, p),
    decreases data.len(),
{
    let key = (dev, (off / 1024) as u32);
    let n = piece(off, data.len() as int);
    if data.len() > 0 && c.dom().contains(key) {
        let c1 = c.insert(key, crate::bytes::overlay(c[key], off % 1024, data.take(n)));
        lemma_not_written(c1, dev, off + n, data.skip(n), p);
        assert(p / 1024 <= off / 1024);
    }
}

} // verus!
