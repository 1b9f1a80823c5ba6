# kernelfs

The file systems of a small kernel, and what stands beside them, as a verified
library.

- `src/fs/buffer.rs`, `src/fs/inode.rs`, `src/fs/super_block.rs`, `src/fs/sync.rs`:
  the block cache over disks, the inode table, mounted file systems.
- `src/fs/minix`, `src/fs/ext2`, `src/fs/ext4`: the file systems on disk, with
  mkfs, mounting, directories, files, bitmaps and the journal.
- `src/fs/tmpfs.rs`, `src/fs/proc.rs`, `src/fs/devices.rs`: files in memory, what
  the system tells of itself, devices.
- `src/fs/namei.rs`, `src/fs/open.rs`, `src/fs/read_write.rs`, `src/fs/stat.rs`:
  names, descriptors, reading and writing.
- `src/fs/pipe.rs`, `src/fs/mqueue.rs`, `src/fs/event.rs`, `src/fs/aio.rs`: pipes,
  message queues, event descriptors and requests.
- `src/irq.rs`, `src/ioport.rs`, `src/info.rs`: interrupt lines, ports, system
  information.

State is owned by values (`Fs`, `Vfs` and the tables) that functions take by
`&mut`. A contract relates the state before a call, often written `v0` or `fs0`, to
the state after it. Where a call has to wait, the library answers that, and the
code in `app/` waits and tries again. `app/` also holds what touches the machine.
