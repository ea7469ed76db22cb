# mos_rust

The verified core of MasterOS, a small experimental x86_64 kernel: its
filesystem, its shell's command language, and the arithmetic and decisions
of its timer and disk drivers, proved with Verus.

## Layout

- `src/` — the library, verified.
  - `block_device.rs`: the `BlockDevice` trait, a device of 512-byte blocks
    modelled as a sequence of blocks.
  - `fs.rs`: SimpleFS (`FileSystem`, `FsError`, `MemBlockDevice`). Each
    operation states what it does to the volume's files, seen as 128 slots
    of optional `(name, contents)`, and to the number of free blocks; the
    laws at the end relate the operations.
  - `layout.rs`, `bytes.rs`, `bits.rs`: the on-disk encoding of the
    superblock and inodes, little-endian integers, bitmap bits.
  - `image.rs`: what a consistent volume is, block by block, and the
    lemmas that carry it through each update.
  - `pit.rs`, `time.rs`: timer divisor, tick counting, uptime and sleep
    deadlines.
  - `ata.rs`: register values, status decisions and sector packing of the
    ATA PIO driver.
  - `shell.rs`: splitting a line into words and deciding the command.
- `app/` — the hardware and console half: port I/O for the disk and the
  timer, the shell loop, and `main`.
- `tests/` — the library's tests.
