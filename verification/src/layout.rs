//! On-disk records of SimpleFS: the superblock and the 64-byte inode.
//!
//! ```text
//! block 0        : superblock
//! blocks 1..17   : inode table (MAX_FILES inodes of INODE_SIZE bytes)
//! blocks 17..D   : free-block bitmap (1 bit per data block)
//! blocks D..end  : data blocks
//! ```

use vstd::prelude::*;
use crate::block_device::BLOCK_SIZE;
use crate::bytes::{le_u32_at, read_u32_le, write_u32_le, lemma_le_u32_zero};

verus! {

/// Identifies a formatted volume ("SFS1").
pub const MAGIC: u32 = 0x53465331;
/// Number of inodes, hence of files, on a volume.
pub const MAX_FILES: usize = 128;
/// Longest file name, in bytes.
pub const MAX_NAME_LEN: usize = 28;
/// Block pointers held in the inode itself.
pub const DIRECT_POINTERS: usize = 6;
/// Size of one on-disk inode.
pub const INODE_SIZE: usize = 64;
/// Block pointers held in one indirect block.
pub const POINTERS_PER_BLOCK: usize = 128;

/// The superblock, kept in block 0.
#[derive(Clone, Copy)]
pub struct Superblock {
    pub magic: u32,
    pub total_blocks: u32,
    pub inode_table_start: u32,
    pub inode_table_blocks: u32,
    pub bitmap_start: u32,
    pub bitmap_blocks: u32,
    pub data_start: u32,
    pub max_files: u32,
}

/// The superblock that a block holding `s` describes.
pub open spec fn decode_superblock(s: Seq<u8>) -> Superblock {
    Superblock {
        magic: le_u32_at(s, 0),
        total_blocks: le_u32_at(s, 4),
        inode_table_start: le_u32_at(s, 8),
        inode_table_blocks: le_u32_at(s, 12),
        bitmap_start: le_u32_at(s, 16),
        bitmap_blocks: le_u32_at(s, 20),
        data_start: le_u32_at(s, 24),
        max_files: le_u32_at(s, 28),
    }
}

impl Superblock {
    /// The block image of this superblock: its eight fields little-endian,
    /// then zeros.
    pub fn to_bytes(&self) -> (buf: [u8; BLOCK_SIZE])
        ensures
            decode_superblock(buf@) == *self,
            forall|i: int| 32 <= i < BLOCK_SIZE ==> buf@[i] == 0,
    {
        let mut buf = [0u8; BLOCK_SIZE];
        write_u32_le(&mut buf, 0, self.magic);
        write_u32_le(&mut buf, 4, self.total_blocks);
        write_u32_le(&mut buf, 8, self.inode_table_start);
        write_u32_le(&mut buf, 12, self.inode_table_blocks);
        write_u32_le(&mut buf, 16, self.bitmap_start);
        write_u32_le(&mut buf, 20, self.bitmap_blocks);
        write_u32_le(&mut buf, 24, self.data_start);
        write_u32_le(&mut buf, 28, self.max_files);
        buf
    }

    /// Reads a superblock back from a block image.
    pub fn from_bytes(buf: &[u8; BLOCK_SIZE]) -> (sb: Superblock)
        ensures
            sb == decode_superblock(buf@),
    {
        Superblock {
            magic: read_u32_le(buf, 0),
            total_blocks: read_u32_le(buf, 4),
            inode_table_start: read_u32_le(buf, 8),
            inode_table_blocks: read_u32_le(buf, 12),
            bitmap_start: read_u32_le(buf, 16),
            bitmap_blocks: read_u32_le(buf, 20),
            data_start: read_u32_le(buf, 24),
            max_files: read_u32_le(buf, 28),
        }
    }
}

/// An inode: one file's name, size and block pointers.
#[derive(Clone, Copy)]
pub struct Inode {
    pub used: bool,
    pub name: [u8; MAX_NAME_LEN],
    pub name_len: u8,
    pub size: u32,
    pub direct: [u32; DIRECT_POINTERS],
    pub indirect: u32,
}

impl Inode {
    /// The 64 bytes of `s` starting at `base` hold this inode:
    /// byte 0 the used flag, byte 1 the name length, bytes 4..8 the size,
    /// bytes 8..32 the direct pointers, bytes 32..36 the indirect pointer,
    /// bytes 36..64 the name.
    pub open spec fn stored_at(self, s: Seq<u8>, base: int) -> bool {
        &&& self.used == (s[base] != 0)
        &&& self.name_len == s[base + 1]
        &&& self.size == le_u32_at(s, base + 4)
        &&& forall|k: int| 0 <= k < DIRECT_POINTERS ==> #[trigger] self.direct@[k] == le_u32_at(s, base + 8 + 4 * k)
        &&& self.indirect == le_u32_at(s, base + 32)
        &&& forall|k: int| 0 <= k < MAX_NAME_LEN ==> #[trigger] self.name@[k] == s[base + 36 + k]
    }

    /// The inode of an unused slot: all fields zero.
    pub fn empty() -> (ino: Inode)
        ensures
            !ino.used,
            ino.name_len == 0,
            ino.size == 0,
            ino.indirect == 0,
            forall|k: int| 0 <= k < DIRECT_POINTERS ==> ino.direct@[k] == 0,
            forall|k: int| 0 <= k < MAX_NAME_LEN ==> ino.name@[k] == 0,
    {
        Inode {
            used: false,
            name: [0; MAX_NAME_LEN],
            name_len: 0,
            size: 0,
            direct: [0; DIRECT_POINTERS],
            indirect: 0,
        }
    }

    /// The on-disk image of this inode; reading it back gives this inode.
    pub fn to_bytes(&self) -> (buf: [u8; INODE_SIZE])
        ensures
            self.stored_at(buf@, 0),
            buf@[0] == (if self.used { 1u8 } else { 0u8 }),
            buf@[2] == 0,
            buf@[3] == 0,
    {
        let mut buf = [0u8; INODE_SIZE];
        buf[0] = if self.used { 1 } else { 0 };
        buf[1] = self.name_len;
        write_u32_le(&mut buf, 4, self.size);
        let mut i: usize = 0;
        while i < DIRECT_POINTERS
            invariant
                0 <= i <= DIRECT_POINTERS,
                buf@[0] == (if self.used { 1u8 } else { 0u8 }),
                buf@[1] == self.name_len,
                buf@[2] == 0,
                buf@[3] == 0,
                le_u32_at(buf@, 4) == self.size,
                forall|k: int| 0 <= k < i ==> #[trigger] self.direct@[k] == le_u32_at(buf@, 8 + 4 * k),
            decreases DIRECT_POINTERS - i,
        {
            write_u32_le(&mut buf, 8 + i * 4, self.direct[i]);
            i = i + 1;
        }
        write_u32_le(&mut buf, 32, self.indirect);
        let mut j: usize = 0;
        while j < MAX_NAME_LEN
            invariant
                0 <= j <= MAX_NAME_LEN,
                buf@[0] == (if self.used { 1u8 } else { 0u8 }),
                buf@[1] == self.name_len,
                buf@[2] == 0,
                buf@[3] == 0,
                le_u32_at(buf@, 4) == self.size,
                forall|k: int| 0 <= k < DIRECT_POINTERS ==> #[trigger] self.direct@[k] == le_u32_at(buf@, 8 + 4 * k),
                le_u32_at(buf@, 32) == self.indirect,
                forall|k: int| 0 <= k < j ==> #[trigger] self.name@[k] == buf@[36 + k],
            decreases MAX_NAME_LEN - j,
        {
            buf[36 + j] = self.name[j];
            j = j + 1;
        }
        buf
    }

    /// Reads an inode back from its 64-byte image.
    pub fn from_bytes(buf: &[u8; INODE_SIZE]) -> (ino: Inode)
        ensures
            ino.stored_at(buf@, 0),
    {
        let mut direct = [0u32; DIRECT_POINTERS];
        let mut i: usize = 0;
        while i < DIRECT_POINTERS
            invariant
                0 <= i <= DIRECT_POINTERS,
                forall|k: int| 0 <= k < i ==> #[trigger] direct@[k] == le_u32_at(buf@, 8 + 4 * k),
            decreases DIRECT_POINTERS - i,
        {
            direct[i] = read_u32_le(buf, 8 + i * 4);
            i = i + 1;
        }
        let mut name = [0u8; MAX_NAME_LEN];
        let mut j: usize = 0;
        while j < MAX_NAME_LEN
            invariant
                0 <= j <= MAX_NAME_LEN,
                forall|k: int| 0 <= k < j ==> #[trigger] name@[k] == buf@[36 + k],
            decreases MAX_NAME_LEN - j,
        {
            name[j] = buf[36 + j];
            j = j + 1;
        }
        Inode {
            used: buf[0] != 0,
            name,
            name_len: buf[1],
            size: read_u32_le(buf, 4),
            direct,
            indirect: read_u32_le(buf, 32),
        }
    }
}


/// An inode with zero size and no block pointers, stored at `base` with
/// bytes 2 and 3 zero, has zeros in bytes 2 to 36 of its image.
pub proof fn lemma_zero_fields(ino: Inode, s: Seq<u8>, base: int)
    requires
        0 <= base,
        base + 64 <= s.len(),
        ino.stored_at(s, base),
        s[base + 2] == 0,
        s[base + 3] == 0,
        ino.size == 0,
        ino.indirect == 0,
        forall|k: int| 0 <= k < DIRECT_POINTERS ==> ino.direct@[k] == 0,
    ensures
        forall|k: int| 2 <= k < 36 ==> #[trigger] s[base + k] == 0,
{
    lemma_le_u32_zero(s, base + 4);
    lemma_le_u32_zero(s, base + 32);
    assert forall|k: int| 2 <= k < 36 implies #[trigger] s[base + k] == 0 by {
        if 8 <= k < 32 {
            let j = (k - 8) / 4;
            assert(0 <= j < DIRECT_POINTERS);
            assert(ino.direct@[j] == le_u32_at(s, base + 8 + 4 * j));
            lemma_le_u32_zero(s, base + 8 + 4 * j);
            assert(k == 8 + 4 * j || k == 8 + 4 * j + 1 || k == 8 + 4 * j + 2 || k == 8 + 4 * j + 3);
        }
    }
}

/// An inode stored in `s1` at 0 is stored in `s2` at `base` when `s2` holds
/// the same 64 bytes there.
pub proof fn lemma_stored_shift(ino: Inode, s1: Seq<u8>, s2: Seq<u8>, base: int)
    requires
        ino.stored_at(s1, 0),
        forall|k: int| 0 <= k < 64 ==> #[trigger] s2[base + k] == s1[k],
    ensures
        ino.stored_at(s2, base),
{
    assert(s2[base + 0] == s1[0]);
    assert(s2[base + 1] == s1[1]);
    assert(s2[base + 4] == s1[4]);
    assert(s2[base + 5] == s1[5]);
    assert(s2[base + 6] == s1[6]);
    assert(s2[base + 7] == s1[7]);
    assert(s2[base + 32] == s1[32]);
    assert(s2[base + 33] == s1[33]);
    assert(s2[base + 34] == s1[34]);
    assert(s2[base + 35] == s1[35]);
    assert forall|k: int| 0 <= k < DIRECT_POINTERS implies #[trigger] ino.direct@[k] == le_u32_at(s2, base + 8 + 4 * k) by {
        assert(s2[base + (8 + 4 * k)] == s1[8 + 4 * k]);
        assert(s2[base + (8 + 4 * k + 1)] == s1[8 + 4 * k + 1]);
        assert(s2[base + (8 + 4 * k + 2)] == s1[8 + 4 * k + 2]);
        assert(s2[base + (8 + 4 * k + 3)] == s1[8 + 4 * k + 3]);
    }
    assert forall|k: int| 0 <= k < MAX_NAME_LEN implies #[trigger] ino.name@[k] == s2[base + 36 + k] by {
        assert(s2[base + (36 + k)] == s1[36 + k]);
    }
}

} // verus!
