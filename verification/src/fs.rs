//! SimpleFS: a flat filesystem of at most `MAX_FILES` named files over any
//! [`BlockDevice`].
//!
//! Every inode carries its own name, so the inode table is the directory.
//! A file has six direct block pointers and one singly-indirect block, so
//! it holds at most `134 * 512` bytes. Free blocks are found by scanning
//! the bitmap from the start.

use vstd::prelude::*;
use vstd::string::StringSliceAdditionalSpecFns;
use vstd::slice::slice_subrange;
use vstd::utf8::{valid_utf8, encode_utf8, encode_utf8_valid_utf8};
use crate::block_device::{BlockDevice, BLOCK_SIZE};
use crate::image::{
    data_blocks_of, data_start_for, free_set, image_ok, image_view, layout_for, geometry_ok,
    zero_block, lemma_formatted, lemma_free_set_finite, inode_block, inode_off, inode_rewritten,
    slot_used, slot_name, lemma_inode_fields, lemma_used_slot_ok, lemma_set_aside_unused,
    lemma_create_slot, block_bit, bit_changed, image_ok_except, extra_ok, lemma_release_step, lemma_take_step, lemma_cleared_step,
    nblocks, blocks_for_size, slot_size, slot_direct, slot_ptr, slot_indirect, slot_ok, slot_blocks,
    slot_content, lemma_set_aside, lemma_slot_ok_facts, lemma_names_distinct, lemma_commit,
    lemma_slot_frame, lemma_write_extra, lemma_commit_file, chunk, slot_name_len, lemma_owned_pointers, lemma_indirect_pointers, lemma_bit_changed, lemma_bit_position, bitmap_blocks_for,
};
use crate::bytes::{bytes_eq, le_u32_at, read_u32_le, write_u32_le};
use crate::bits::{bit_set, lemma_bit_test, lemma_bit_or, lemma_bit_clear, lemma_bit_full_byte};
use crate::layout::{decode_superblock, lemma_stored_shift, lemma_zero_fields, Inode, Superblock, MAGIC, MAX_FILES, MAX_NAME_LEN, INODE_SIZE, DIRECT_POINTERS, POINTERS_PER_BLOCK};

verus! {

/// What can go wrong in a filesystem operation.
#[derive(Debug)]
pub enum FsError<E> {
    /// The device reported an error.
    Io(E),
    NotFound,
    AlreadyExists,
    NoSpace,
    NoFreeInode,
    NotFormatted,
    NameTooLong,
    FileTooLarge,
}

/// `a / b`, rounded up.
pub fn ceil_div(a: u32, b: u32) -> (r: u32)
    requires
        b > 0,
        a + b <= u32::MAX,
    ensures
        r as int == (a + b - 1) / (b as int),
{
    (a + b - 1) / b
}

/// A mounted SimpleFS volume on device `D`.
pub struct FileSystem<D: BlockDevice> {
    dev: D,
    sb: Superblock,
}

/// The blocks hold a consistent SimpleFS volume.
pub open spec fn volume_ok(blocks: Seq<Seq<u8>>) -> bool {
    image_ok(blocks)
}

/// The files on the volume held by `blocks`, slot by slot.
pub open spec fn volume_files(blocks: Seq<Seq<u8>>) -> Seq<Option<(Seq<u8>, Seq<u8>)>> {
    image_view(blocks)
}

/// Block 0 carries the SimpleFS magic number.
pub open spec fn has_magic(blocks: Seq<Seq<u8>>) -> bool {
    decode_superblock(blocks[0]).magic == MAGIC
}

/// A volume with no files.
pub open spec fn no_files() -> Seq<Option<(Seq<u8>, Seq<u8>)>> {
    Seq::new(128, |i: int| None::<(Seq<u8>, Seq<u8>)>)
}

/// Slot `i` of `v` holds a file named `nm`.
pub open spec fn holds(v: Seq<Option<(Seq<u8>, Seq<u8>)>>, i: int, nm: Seq<u8>) -> bool {
    0 <= i < v.len() && v[i] is Some && v[i]->Some_0.0 == nm
}

/// Some slot of `v` holds a file named `nm`.
pub open spec fn has_file(v: Seq<Option<(Seq<u8>, Seq<u8>)>>, nm: Seq<u8>) -> bool {
    exists|i: int| holds(v, i, nm)
}

/// The slot holding the file named `nm`.
pub open spec fn slot_of(v: Seq<Option<(Seq<u8>, Seq<u8>)>>, nm: Seq<u8>) -> int {
    choose|i: int| holds(v, i, nm)
}

/// No two slots of `v` hold files of the same name.
pub open spec fn distinct_names(v: Seq<Option<(Seq<u8>, Seq<u8>)>>) -> bool {
    forall|i: int, j: int, nm: Seq<u8>| holds(v, i, nm) && holds(v, j, nm) ==> i == j
}

/// Every slot of `v` holds a file.
pub open spec fn is_full(v: Seq<Option<(Seq<u8>, Seq<u8>)>>) -> bool {
    forall|i: int| 0 <= i < v.len() ==> #[trigger] v[i] is Some
}

/// The lowest free slot of `v`.
pub open spec fn first_free(v: Seq<Option<(Seq<u8>, Seq<u8>)>>) -> int {
    choose|i: int| 0 <= i < v.len() && v[i] is None && forall|j: int| 0 <= j < i ==> #[trigger] v[j] is Some
}

/// The names of the files of `v`, in slot order.
pub open spec fn listing(v: Seq<Option<(Seq<u8>, Seq<u8>)>>) -> Seq<Seq<u8>>
    decreases v.len(),
{
    if v.len() == 0 {
        Seq::empty()
    } else {
        let rest = listing(v.drop_last());
        match v.last() {
            Some(f) => rest.push(f.0),
            None => rest,
        }
    }
}

/// A slot of the view holds `nm` exactly when the inode there is used and
/// carries that name.
pub proof fn lemma_holds(d: Seq<Seq<u8>>, i: int, nm: Seq<u8>)
    ensures
        holds(image_view(d), i, nm) <==> (0 <= i < 128 && slot_used(d, i) && slot_name(d, i) == nm),
{
}

/// No used inode carries `nm`, so no slot of the view holds it.
pub proof fn lemma_no_file(d: Seq<Seq<u8>>, nm: Seq<u8>)
    requires
        forall|j: int| 0 <= j < 128 && #[trigger] slot_used(d, j) ==> slot_name(d, j) != nm,
    ensures
        !has_file(image_view(d), nm),
{
    assert forall|i: int| !holds(image_view(d), i, nm) by {
        lemma_holds(d, i, nm);
    }
}

/// On a consistent volume the used inode named `nm` is the slot that the
/// view finds for `nm`.
pub proof fn lemma_slot_of(d: Seq<Seq<u8>>, idx: int, nm: Seq<u8>)
    requires
        image_ok(d),
        0 <= idx < 128,
        slot_used(d, idx),
        slot_name(d, idx) == nm,
    ensures
        has_file(image_view(d), nm),
        slot_of(image_view(d), nm) == idx,
{
    lemma_holds(d, idx, nm);
    let i = slot_of(image_view(d), nm);
    lemma_holds(d, i, nm);
    lemma_names_distinct(d, i, idx);
}

/// The lowest unused inode is the first free slot of the view.
pub proof fn lemma_first_free(d: Seq<Seq<u8>>, idx: int)
    requires
        0 <= idx < 128,
        !slot_used(d, idx),
        forall|j: int| 0 <= j < idx ==> #[trigger] slot_used(d, j),
    ensures
        first_free(image_view(d)) == idx,
        !is_full(image_view(d)),
{
    let v = image_view(d);
    assert(v[idx] is None);
    assert forall|j: int| 0 <= j < idx implies #[trigger] v[j] is Some by {
        assert(slot_used(d, j));
    }
    let i = first_free(v);
    if i < idx {
        assert(v[i] is Some);
    } else if i > idx {
        assert(v[idx] is Some);
    }
}

/// Every inode is used, so every slot of the view is taken.
pub proof fn lemma_full(d: Seq<Seq<u8>>)
    requires
        forall|j: int| 0 <= j < 128 ==> #[trigger] slot_used(d, j),
    ensures
        is_full(image_view(d)),
{
    assert forall|j: int| 0 <= j < image_view(d).len() implies #[trigger] image_view(d)[j] is Some by {
        assert(slot_used(d, j));
    }
}

/// `core::str::from_utf8`: the bytes read as a string slice when they are
/// valid UTF-8; the slice's bytes are then the given bytes.
#[verifier::external_body]
fn str_from_utf8<'a>(bytes: &'a [u8]) -> (r: Option<&'a str>)
    ensures
        r is Some <==> valid_utf8(bytes@),
        r is Some ==> r->Some_0.spec_bytes() == bytes@,
{
    core::str::from_utf8(bytes).ok()
}

impl Inode {
    /// The name as a string slice; empty when its bytes are not valid UTF-8.
    fn name_str(&self) -> (s: &str)
        requires
            self.name_len <= MAX_NAME_LEN,
        ensures
            valid_utf8(self.name@.subrange(0, self.name_len as int)) ==> s.spec_bytes() == self.name@.subrange(0, self.name_len as int),
            !valid_utf8(self.name@.subrange(0, self.name_len as int)) ==> s.spec_bytes() == Seq::<u8>::empty(),
    {
        match str_from_utf8(slice_subrange(self.name.as_slice(), 0, self.name_len as usize)) {
            Some(s) => s,
            None => {
                proof {
                    reveal_strlit("");
                }
                ""
            },
        }
    }
}

impl<D: BlockDevice> View for FileSystem<D> {
    type V = Seq<Option<(Seq<u8>, Seq<u8>)>>;

    /// Slot `i` is `Some((name, contents))` when inode `i` holds a file.
    closed spec fn view(&self) -> Self::V {
        volume_files(self.dev.contents())
    }
}

impl<D: BlockDevice> FileSystem<D> {
    /// The blocks of the underlying device.
    pub closed spec fn blocks(&self) -> Seq<Seq<u8>> {
        self.dev.contents()
    }

    /// The underlying device is usable.
    pub closed spec fn device_ok(&self) -> bool {
        self.dev.well_formed()
    }

    /// The device is usable and holds a consistent volume, which the cached
    /// superblock describes.
    pub closed spec fn wf(&self) -> bool {
        &&& self.dev.well_formed()
        &&& volume_ok(self.dev.contents())
        &&& self.sb == layout_for(self.dev.contents().len() as int)
    }

    /// Number of data blocks that the bitmap marks free.
    pub closed spec fn free_blocks(&self) -> nat {
        free_set(self.dev.contents()).len()
    }

    /// The device is usable and laid out as formatting leaves it, which
    /// the cached superblock describes.
    closed spec fn geom(&self) -> bool {
        &&& self.dev.well_formed()
        &&& geometry_ok(self.dev.contents())
        &&& self.sb == layout_for(self.dev.contents().len() as int)
    }

    proof fn lemma_wf_geom(&self)
        requires
            self.wf(),
        ensures
            self.geom(),
    {
    }

    /// Reads inode `idx` from the inode table.
    fn read_inode(&mut self, idx: u32) -> (r: Result<Inode, FsError<D::Error>>)
        requires
            old(self).geom(),
            idx < MAX_FILES,
        ensures
            D::never_fails() ==> r is Ok,
            final(self).geom(),
            final(self).dev.contents() == old(self).dev.contents(),
            final(self).sb == old(self).sb,
            r is Ok ==> r->Ok_0.stored_at(final(self).dev.contents()[inode_block(idx as int)], inode_off(idx as int)),
            r is Err ==> r->Err_0 is Io,
    {
        let per_block = (BLOCK_SIZE / INODE_SIZE) as u32;
        let block = self.sb.inode_table_start + idx / per_block;
        let offset = (idx % per_block) as usize * INODE_SIZE;
        let mut buf = [0u8; BLOCK_SIZE];
        let res = self.dev.read_block(block, &mut buf);
        match res {
            Ok(()) => {},
            Err(e) => return Err(FsError::Io(e)),
        }
        let mut inode_bytes = [0u8; INODE_SIZE];
        let mut k: usize = 0;
        while k < INODE_SIZE
            invariant
                0 <= k <= INODE_SIZE,
                offset + INODE_SIZE <= BLOCK_SIZE,
                forall|j: int| 0 <= j < k ==> #[trigger] inode_bytes@[j] == buf@[offset + j],
            decreases INODE_SIZE - k,
        {
            inode_bytes[k] = buf[offset + k];
            k = k + 1;
        }
        let ino = Inode::from_bytes(&inode_bytes);
        proof {
            lemma_stored_shift(ino, inode_bytes@, buf@, offset as int);
        }
        Ok(ino)
    }

    /// Writes `inode` into slot `idx` of the inode table.
    fn write_inode(&mut self, idx: u32, inode: &Inode) -> (r: Result<(), FsError<D::Error>>)
        requires
            old(self).geom(),
            idx < MAX_FILES,
        ensures
            D::never_fails() ==> r is Ok,
            final(self).dev.well_formed(),
            final(self).sb == old(self).sb,
            final(self).dev.contents().len() == old(self).dev.contents().len(),
            r is Err ==> r->Err_0 is Io,
            r is Ok ==> {
                &&& final(self).geom()
                &&& inode_rewritten(old(self).dev.contents(), final(self).dev.contents(), idx as int)
                &&& inode.stored_at(final(self).dev.contents()[inode_block(idx as int)], inode_off(idx as int))
                &&& final(self).dev.contents()[inode_block(idx as int)][inode_off(idx as int)] == (if inode.used { 1u8 } else { 0u8 })
                &&& final(self).dev.contents()[inode_block(idx as int)][inode_off(idx as int) + 2] == 0
                &&& final(self).dev.contents()[inode_block(idx as int)][inode_off(idx as int) + 3] == 0
            },
    {
        let per_block = (BLOCK_SIZE / INODE_SIZE) as u32;
        let block = self.sb.inode_table_start + idx / per_block;
        let offset = (idx % per_block) as usize * INODE_SIZE;
        let mut buf = [0u8; BLOCK_SIZE];
        let res = self.dev.read_block(block, &mut buf);
        match res {
            Ok(()) => {},
            Err(e) => return Err(FsError::Io(e)),
        }
        let ghost old_buf = buf@;
        let bytes = inode.to_bytes();
        let mut k: usize = 0;
        while k < INODE_SIZE
            invariant
                0 <= k <= INODE_SIZE,
                offset + INODE_SIZE <= BLOCK_SIZE,
                forall|j: int| 0 <= j < k ==> #[trigger] buf@[offset + j] == bytes@[j],
                forall|j: int| 0 <= j < BLOCK_SIZE && !(offset <= j < offset + k) ==> #[trigger] buf@[j] == old_buf[j],
            decreases INODE_SIZE - k,
        {
            buf[offset + k] = bytes[k];
            k = k + 1;
        }
        let res = self.dev.write_block(block, &buf);
        match res {
            Ok(()) => {},
            Err(e) => return Err(FsError::Io(e)),
        }
        proof {
            lemma_stored_shift(*inode, bytes@, buf@, offset as int);
            assert(buf@[offset + 0] == bytes@[0]);
            assert(buf@[offset + 2] == bytes@[2]);
            assert(buf@[offset + 3] == bytes@[3]);
            let d = self.dev.contents();
            assert forall|k: int| 0 <= k < d.len() implies (#[trigger] d[k]).len() == 512 by {
                if k != block {
                    assert(d[k] == old(self).dev.contents()[k]);
                }
            }
            assert(d[0] == old(self).dev.contents()[0]);
        }
        Ok(())
    }

    /// Finds the used inode whose name is `name`: its slot and contents.
    fn find_inode_by_name(&mut self, name: &str) -> (r: Result<Option<(u32, Inode)>, FsError<D::Error>>)
        requires
            old(self).wf(),
        ensures
            D::never_fails() ==> r is Ok,
            final(self).wf(),
            final(self).dev.contents() == old(self).dev.contents(),
            final(self).sb == old(self).sb,
            match r {
                Ok(Some((idx, ino))) => {
                    &&& idx < MAX_FILES
                    &&& slot_used(old(self).dev.contents(), idx as int)
                    &&& slot_name(old(self).dev.contents(), idx as int) == name.spec_bytes()
                    &&& ino.stored_at(old(self).dev.contents()[inode_block(idx as int)], inode_off(idx as int))
                },
                Ok(None) => forall|j: int| 0 <= j < MAX_FILES && #[trigger] slot_used(old(self).dev.contents(), j)
                    ==> slot_name(old(self).dev.contents(), j) != name.spec_bytes(),
                Err(e) => e is Io,
            },
    {
        let ghost d = self.dev.contents();
        let name_bytes = name.as_bytes();
        let mut idx: u32 = 0;
        while idx < self.sb.max_files
            invariant
                self.wf(),
                self.dev.contents() == d,
                d == old(self).dev.contents(),
                self.sb == old(self).sb,
                self.sb.max_files == MAX_FILES,
                idx <= MAX_FILES,
                name_bytes@ == name.spec_bytes(),
                forall|j: int| 0 <= j < idx && #[trigger] slot_used(d, j) ==> slot_name(d, j) != name.spec_bytes(),
            decreases MAX_FILES - idx,
        {
            proof {
                self.lemma_wf_geom();
            }
            let inode = match self.read_inode(idx) {
                Ok(inode) => inode,
                Err(e) => return Err(e),
            };
            proof {
                lemma_inode_fields(d, idx as int, inode);
                if inode.used {
                    lemma_used_slot_ok(d, -1, Seq::empty(), idx as int);
                }
            }
            if inode.used && bytes_eq(inode.name_str().as_bytes(), name_bytes) {
                return Ok(Some((idx, inode)));
            }
            idx = idx + 1;
        }
        Ok(None)
    }

    /// Finds the lowest unused inode slot.
    fn find_free_inode(&mut self) -> (r: Result<u32, FsError<D::Error>>)
        requires
            old(self).wf(),
        ensures
            D::never_fails() ==> !(r is Err && r->Err_0 is Io),
            final(self).wf(),
            final(self).dev.contents() == old(self).dev.contents(),
            final(self).sb == old(self).sb,
            match r {
                Ok(idx) => {
                    &&& idx < MAX_FILES
                    &&& !slot_used(old(self).dev.contents(), idx as int)
                    &&& forall|j: int| 0 <= j < idx ==> #[trigger] slot_used(old(self).dev.contents(), j)
                },
                Err(FsError::NoFreeInode) => forall|j: int| 0 <= j < MAX_FILES ==> #[trigger] slot_used(old(self).dev.contents(), j),
                Err(e) => e is Io,
            },
    {
        let ghost d = self.dev.contents();
        let mut idx: u32 = 0;
        while idx < self.sb.max_files
            invariant
                self.wf(),
                self.dev.contents() == d,
                d == old(self).dev.contents(),
                self.sb == old(self).sb,
                self.sb.max_files == MAX_FILES,
                idx <= MAX_FILES,
                forall|j: int| 0 <= j < idx ==> #[trigger] slot_used(d, j),
            decreases MAX_FILES - idx,
        {
            proof {
                self.lemma_wf_geom();
            }
            let inode = match self.read_inode(idx) {
                Ok(inode) => inode,
                Err(e) => return Err(e),
            };
            proof {
                lemma_inode_fields(d, idx as int, inode);
            }
            if !inode.used {
                return Ok(idx);
            }
            idx = idx + 1;
        }
        Err(FsError::NoFreeInode)
    }

    /// Takes the lowest data block that the bitmap marks free, marks it used
    /// and returns its block number.
    fn alloc_block(&mut self) -> (r: Result<u32, FsError<D::Error>>)
        requires
            old(self).geom(),
        ensures
            D::never_fails() ==> !(r is Err && r->Err_0 is Io),
            final(self).dev.well_formed(),
            final(self).sb == old(self).sb,
            final(self).dev.contents().len() == old(self).dev.contents().len(),
            match r {
                Ok(b) => {
                    let d = old(self).dev.contents();
                    let rel = b - data_start_for(d.len() as int);
                    &&& 0 <= rel < data_blocks_of(d.len() as int)
                    &&& !block_bit(d, rel)
                    &&& forall|s: int| 0 <= s < rel ==> #[trigger] block_bit(d, s)
                    &&& bit_changed(d, final(self).dev.contents(), rel, true)
                    &&& final(self).geom()
                },
                Err(FsError::NoSpace) => {
                    &&& final(self).dev.contents() == old(self).dev.contents()
                    &&& final(self).geom()
                    &&& forall|s: int| 0 <= s < data_blocks_of(old(self).dev.contents().len() as int)
                        ==> #[trigger] block_bit(old(self).dev.contents(), s)
                },
                Err(e) => e is Io,
            },
    {
        let ghost d = self.dev.contents();
        let ghost n = d.len() as int;
        let data_blocks = self.sb.total_blocks - self.sb.data_start;
        let bits_per_block = BLOCK_SIZE as u32 * 8;
        let mut bitmap_block_idx: u32 = 0;
        while bitmap_block_idx < self.sb.bitmap_blocks
            invariant
                self.geom(),
                self.dev.contents() == d,
                d == old(self).dev.contents(),
                n == d.len(),
                self.sb == old(self).sb,
                data_blocks as int == data_blocks_of(n),
                bits_per_block == 4096,
                bitmap_block_idx <= self.sb.bitmap_blocks,
                forall|s: int| 0 <= s < 4096 * bitmap_block_idx && s < data_blocks ==> #[trigger] block_bit(d, s),
            decreases self.sb.bitmap_blocks - bitmap_block_idx,
        {
            let mut buf = [0u8; BLOCK_SIZE];
            let res = self.dev.read_block(self.sb.bitmap_start + bitmap_block_idx, &mut buf);
            match res {
                Ok(()) => {},
                Err(e) => return Err(FsError::Io(e)),
            }
            assert(buf@ == d[17 + bitmap_block_idx]);
            assert(4096 * bitmap_block_idx < n) by (nonlinear_arith)
                requires
                    bitmap_block_idx < (n + 4095) / 4096,
                    n > 0;
            let block_bit_base = bitmap_block_idx * bits_per_block;
            let mut byte_idx: usize = 0;
            while byte_idx < BLOCK_SIZE
                invariant
                    self.geom(),
                    self.dev.contents() == d,
                    d == old(self).dev.contents(),
                    n == d.len(),
                    self.sb == old(self).sb,
                    data_blocks as int == data_blocks_of(n),
                    bitmap_block_idx < self.sb.bitmap_blocks,
                    block_bit_base == 4096 * bitmap_block_idx,
                    buf@ == d[17 + bitmap_block_idx],
                    0 <= byte_idx <= BLOCK_SIZE,
                    forall|s: int| 0 <= s < 4096 * bitmap_block_idx + 8 * byte_idx && s < data_blocks ==> #[trigger] block_bit(d, s),
                decreases BLOCK_SIZE - byte_idx,
            {
                let byte = buf[byte_idx];
                if byte == 0xFF {
                    proof {
                        assert forall|s: int| 0 <= s < 4096 * bitmap_block_idx + 8 * (byte_idx + 1) && s < data_blocks implies #[trigger] block_bit(d, s) by {
                            if s >= 4096 * bitmap_block_idx + 8 * byte_idx {
                                let bit = s - 4096 * bitmap_block_idx - 8 * byte_idx;
                                lemma_bit_position(bitmap_block_idx as int, byte_idx as int, bit);
                                lemma_bit_full_byte(byte, bit as u8);
                            }
                        }
                    }
                    byte_idx = byte_idx + 1;
                    continue;
                }
                let mut bit: u32 = 0;
                while bit < 8
                    invariant
                        self.geom(),
                        self.dev.contents() == d,
                        d == old(self).dev.contents(),
                        n == d.len(),
                        self.sb == old(self).sb,
                        data_blocks as int == data_blocks_of(n),
                        bitmap_block_idx < self.sb.bitmap_blocks,
                        block_bit_base == 4096 * bitmap_block_idx,
                        buf@ == d[17 + bitmap_block_idx],
                        0 <= byte_idx < BLOCK_SIZE,
                        byte == buf@[byte_idx as int],
                        bit <= 8,
                        forall|s: int| 0 <= s < 4096 * bitmap_block_idx + 8 * byte_idx + bit && s < data_blocks ==> #[trigger] block_bit(d, s),
                    decreases 8 - bit,
                {
                    proof {
                        lemma_bit_position(bitmap_block_idx as int, byte_idx as int, bit as int);
                        assert(4096 * bitmap_block_idx + 8 * byte_idx + bit <= u32::MAX) by (nonlinear_arith)
                            requires
                                bitmap_block_idx < (n + 4095) / 4096,
                                byte_idx < 512,
                                bit < 8,
                                n <= u32::MAX;
                    }
                    let rel = block_bit_base + byte_idx as u32 * 8 + bit;
                    if rel >= data_blocks {
                        return Err(FsError::NoSpace);
                    }
                    let mask: u8 = 1u8 << (bit as u8);
                    proof {
                        lemma_bit_test(byte, bit as u8);
                    }
                    if byte & mask == 0 {
                        let mut updated = buf;
                        updated[byte_idx] = byte | mask;
                        proof {
                            assert forall|j: u8| j < 8 implies #[trigger] bit_set(updated@[byte_idx as int], j)
                                == (if j == (rel % 8) as u8 { true } else { bit_set(buf@[byte_idx as int], j) }) by {
                                lemma_bit_or(byte, bit as u8, j);
                            }
                        }
                        let res = self.dev.write_block(self.sb.bitmap_start + bitmap_block_idx, &updated);
                        match res {
                            Ok(()) => {},
                            Err(e) => return Err(FsError::Io(e)),
                        }
                        proof {
                            let d2 = self.dev.contents();
                            assert(bit_changed(d, d2, rel as int, true));
                            lemma_bit_changed(d, d2, rel as int, true);
                            assert(d2[0] == d[0]);
                        }
                        return Ok(self.sb.data_start + rel);
                    }
                    bit = bit + 1;
                }
                byte_idx = byte_idx + 1;
            }
            bitmap_block_idx = bitmap_block_idx + 1;
        }
        proof {
            assert(data_blocks <= 4096 * self.sb.bitmap_blocks) by (nonlinear_arith)
                requires
                    data_blocks < n,
                    self.sb.bitmap_blocks == bitmap_blocks_for(n),
                    n > 0;
        }
        Err(FsError::NoSpace)
    }

    /// Marks data block `abs_block` free in the bitmap.
    fn free_block(&mut self, abs_block: u32) -> (r: Result<(), FsError<D::Error>>)
        requires
            old(self).geom(),
            data_start_for(old(self).dev.contents().len() as int) <= abs_block < old(self).dev.contents().len(),
        ensures
            D::never_fails() ==> r is Ok,
            final(self).dev.well_formed(),
            final(self).sb == old(self).sb,
            final(self).dev.contents().len() == old(self).dev.contents().len(),
            match r {
                Ok(()) => {
                    &&& bit_changed(old(self).dev.contents(), final(self).dev.contents(),
                        abs_block - data_start_for(old(self).dev.contents().len() as int), false)
                    &&& final(self).geom()
                },
                Err(e) => e is Io,
            },
    {
        let ghost d = self.dev.contents();
        let ghost n = d.len() as int;
        let rel = abs_block - self.sb.data_start;
        let byte_idx = rel / 8;
        let bit_idx = rel % 8;
        let block = self.sb.bitmap_start + byte_idx / BLOCK_SIZE as u32;
        let offset = (byte_idx % BLOCK_SIZE as u32) as usize;
        proof {
            assert((rel / 8) / 512 == rel / 4096);
            assert(rel / 4096 < (n + 4095) / 4096);
        }
        let mut buf = [0u8; BLOCK_SIZE];
        let res = self.dev.read_block(block, &mut buf);
        match res {
            Ok(()) => {},
            Err(e) => return Err(FsError::Io(e)),
        }
        let ghost old_buf = buf@;
        let mask: u8 = 1u8 << (bit_idx as u8);
        buf[offset] = buf[offset] & !mask;
        proof {
            assert forall|j: u8| j < 8 implies #[trigger] bit_set(buf@[offset as int], j)
                == (if j == (rel % 8) as u8 { false } else { bit_set(old_buf[offset as int], j) }) by {
                lemma_bit_clear(old_buf[offset as int], bit_idx as u8, j);
            }
        }
        let res = self.dev.write_block(block, &buf);
        match res {
            Ok(()) => {},
            Err(e) => return Err(FsError::Io(e)),
        }
        proof {
            let d2 = self.dev.contents();
            assert(bit_changed(d, d2, rel as int, false));
            lemma_bit_changed(d, d2, rel as int, false);
            assert(d2[0] == d[0]);
        }
        Ok(())
    }

    /// Frees every block owned by `inode`, the inode of used slot `e`, in
    /// the order of `slot_blocks`: direct blocks, blocks listed in the
    /// indirect block, the indirect block. The inode itself is not touched.
    fn free_inode_blocks(&mut self, inode: &Inode, Ghost(e): Ghost<int>) -> (r: Result<(), FsError<D::Error>>)
        requires
            old(self).geom(),
            0 <= e < 128,
            slot_used(old(self).dev.contents(), e),
            slot_ok(old(self).dev.contents(), e),
            image_ok_except(old(self).dev.contents(), e, slot_blocks(old(self).dev.contents(), e)),
            inode.stored_at(old(self).dev.contents()[inode_block(e)], inode_off(e)),
        ensures
            D::never_fails() ==> r is Ok,
            final(self).dev.well_formed(),
            final(self).sb == old(self).sb,
            final(self).dev.contents().len() == old(self).dev.contents().len(),
            match r {
                Ok(()) => {
                    let d = old(self).dev.contents();
                    let d2 = final(self).dev.contents();
                    &&& final(self).geom()
                    &&& image_ok_except(d2, e, Seq::empty())
                    &&& free_set(d2).len() == free_set(d).len() + slot_blocks(d, e).len()
                    &&& forall|k: int| 0 <= k < d.len() && (k < 17 || k >= data_start_for(d.len() as int)) ==> #[trigger] d2[k] == d[k]
                    &&& forall|i: int| 0 <= i < 128 && i != e ==> #[trigger] image_view(d2)[i] == image_view(d)[i]
                    &&& slot_blocks(d, e).len() == 0 ==> d2 == d
                    &&& bits_cleared(d, d2, slot_blocks(d, e))
                },
                Err(e) => e is Io,
            },
    {
        let ghost d = self.dev.contents();
        let ghost n = d.len() as int;
        let ghost ds = data_start_for(n);
        let ghost fb = slot_blocks(d, e);
        let ghost nb = nblocks(slot_size(d, e));
        proof {
            lemma_owned_pointers(d, e, *inode);
            assert(fb.skip(0) =~= fb);
            assert(fb.take(0) =~= Seq::<int>::empty());
        }
        let ghost mut c: int = 0;
        let mut j: usize = 0;
        while j < DIRECT_POINTERS
            invariant
                self.geom(),
                self.sb == old(self).sb,
                d == old(self).dev.contents(),
                n == d.len(),
                ds == data_start_for(n),
                fb == slot_blocks(d, e),
                nb == nblocks(slot_size(d, e)),
                fb.len() == blocks_for_size(slot_size(d, e)),
                0 <= e < 128,
                0 <= j <= DIRECT_POINTERS,
                c == if (j as int) < nb { j as int } else { nb },
                nb <= 134,
                slot_ok(d, e),
                inode.stored_at(d[inode_block(e)], inode_off(e)),
                (inode.indirect != 0) == (nb > 6),
                nb > 6 ==> fb[nb] == inode.indirect && fb.len() == nb + 1,
                nb <= 6 ==> fb.len() == nb,
                forall|a: int| 0 <= a < fb.len() ==> ds <= #[trigger] fb[a] < n,
                forall|k: int| 0 <= k < DIRECT_POINTERS ==>
                    (k < nb ==> inode.direct@[k] == fb[k] && inode.direct@[k] != 0)
                    && (k >= nb ==> #[trigger] inode.direct@[k] == 0),
                self.dev.contents().len() == n,
                image_ok_except(self.dev.contents(), e, fb.skip(c)),
                free_set(self.dev.contents()).len() == free_set(d).len() + c,
                forall|k: int| 0 <= k < n && (k < 17 || k >= ds) ==> #[trigger] self.dev.contents()[k] == d[k],
                forall|i: int| 0 <= i < 128 && i != e ==> #[trigger] image_view(self.dev.contents())[i] == image_view(d)[i],
                fb.len() == 0 ==> self.dev.contents() == d,
                forall|s: int| 0 <= s < data_blocks_of(n) ==> #[trigger] block_bit(self.dev.contents(), s) == (block_bit(d, s) && !fb.take(c).contains(s + ds)),
            decreases DIRECT_POINTERS - j,
        {
            let b = inode.direct[j];
            if b != 0 {
                let ghost cur = self.dev.contents();
                proof {
                    assert(fb.skip(c)[0] == fb[c]);
                    reveal(extra_ok);
                }
                let res = self.free_block(b);
                match res {
                    Ok(()) => {},
                    Err(e) => return Err(e),
                }
                proof {
                    lemma_release_step(cur, self.dev.contents(), e, fb.skip(c));
                    lemma_cleared_step(d, cur, self.dev.contents(), fb, c, ds, data_blocks_of(n));
                    assert(fb.skip(c).drop_first() =~= fb.skip(c + 1));
                    c = c + 1;
                }
            }
            j = j + 1;
        }
        if inode.indirect != 0 {
            proof {
                lemma_inode_fields(d, e, *inode);
            }
            let mut buf = [0u8; BLOCK_SIZE];
            let res = self.dev.read_block(inode.indirect, &mut buf);
            match res {
                Ok(()) => {},
                Err(e) => return Err(FsError::Io(e)),
            }
            proof {
                assert(buf@ == d[inode.indirect as int]);
                lemma_indirect_pointers(d, e, buf@);
            }
            let mut i: usize = 0;
            while i < POINTERS_PER_BLOCK
                invariant
                    self.geom(),
                    self.sb == old(self).sb,
                    d == old(self).dev.contents(),
                    n == d.len(),
                    ds == data_start_for(n),
                    fb == slot_blocks(d, e),
                    nb == nblocks(slot_size(d, e)),
                    6 < nb <= 134,
                    fb.len() == nb + 1,
                    fb[nb] == inode.indirect,
                    0 <= e < 128,
                    0 <= i <= POINTERS_PER_BLOCK,
                    c == if 6 + (i as int) < nb { 6 + i as int } else { nb },
                    forall|a: int| 0 <= a < fb.len() ==> ds <= #[trigger] fb[a] < n,
                    forall|k: int| 0 <= k < POINTERS_PER_BLOCK ==>
                        (6 + k < nb ==> le_u32_at(buf@, 4 * k) == fb[6 + k] && le_u32_at(buf@, 4 * k) != 0)
                        && (6 + k >= nb ==> #[trigger] le_u32_at(buf@, 4 * k) == 0),
                    self.dev.contents().len() == n,
                    image_ok_except(self.dev.contents(), e, fb.skip(c)),
                    free_set(self.dev.contents()).len() == free_set(d).len() + c,
                    forall|k: int| 0 <= k < n && (k < 17 || k >= ds) ==> #[trigger] self.dev.contents()[k] == d[k],
                    forall|k: int| 0 <= k < 128 && k != e ==> #[trigger] image_view(self.dev.contents())[k] == image_view(d)[k],
                    forall|s: int| 0 <= s < data_blocks_of(n) ==> #[trigger] block_bit(self.dev.contents(), s) == (block_bit(d, s) && !fb.take(c).contains(s + ds)),
                decreases POINTERS_PER_BLOCK - i,
            {
                let p = read_u32_le(&buf, i * 4);
                assert(p == le_u32_at(buf@, 4 * (i as int)));
                if p != 0 {
                    let ghost cur = self.dev.contents();
                    proof {
                        assert(fb.skip(c)[0] == fb[c]);
                        reveal(extra_ok);
                    }
                    let res = self.free_block(p);
                    match res {
                        Ok(()) => {},
                        Err(e) => return Err(e),
                    }
                    proof {
                        lemma_release_step(cur, self.dev.contents(), e, fb.skip(c));
                    lemma_cleared_step(d, cur, self.dev.contents(), fb, c, ds, data_blocks_of(n));
                        assert(fb.skip(c).drop_first() =~= fb.skip(c + 1));
                        c = c + 1;
                    }
                }
                i = i + 1;
            }
            let ghost cur = self.dev.contents();
            proof {
                assert(c == nb);
                assert(fb.skip(c)[0] == fb[c]);
                reveal(extra_ok);
            }
            let res = self.free_block(inode.indirect);
            match res {
                Ok(()) => {},
                Err(e) => return Err(e),
            }
            proof {
                lemma_release_step(cur, self.dev.contents(), e, fb.skip(c));
                    lemma_cleared_step(d, cur, self.dev.contents(), fb, c, ds, data_blocks_of(n));
                assert(fb.skip(c).drop_first() =~= fb.skip(c + 1));
                c = c + 1;
            }
        }
        proof {
            assert(c == fb.len());
            assert(fb.skip(c) =~= Seq::<int>::empty());
            assert(fb.take(c) =~= fb);
        }
        Ok(())
    }

    /// Writes an empty volume on `dev`: the superblock, a zeroed inode
    /// table and a zeroed bitmap. Fails with `NoSpace` when the device has
    /// no room for a data block after the metadata.
    pub fn format(dev: D) -> (r: Result<Self, FsError<D::Error>>)
        requires
            dev.well_formed(),
            dev.contents().len() + 4096 <= u32::MAX,
        ensures
            D::never_fails() ==> !(r is Err && r->Err_0 is Io),
            match r {
                Ok(fs) => {
                    &&& fs.wf()
                    &&& fs@ == no_files()
                    &&& fs.blocks().len() == dev.contents().len()
                    &&& fs.free_blocks() == data_blocks_of(dev.contents().len() as int)
                    &&& decode_superblock(fs.blocks()[0]) == layout_for(dev.contents().len() as int)
                    &&& forall|k: int| 32 <= k < BLOCK_SIZE ==> #[trigger] fs.blocks()[0][k] == 0
                    &&& forall|k: int| 1 <= k < data_start_for(dev.contents().len() as int) ==> #[trigger] fs.blocks()[k] == zero_block()
                    &&& data_kept(dev.contents(), fs.blocks())
                },
                Err(FsError::NoSpace) => data_start_for(dev.contents().len() as int) >= dev.contents().len(),
                Err(FsError::Io(_)) => data_start_for(dev.contents().len() as int) < dev.contents().len(),
                Err(_) => false,
            },
    {
        let ghost d0 = dev.contents();
        let mut device = dev;
        let total_blocks = device.total_blocks();
        let inode_table_blocks = ceil_div((MAX_FILES * INODE_SIZE) as u32, BLOCK_SIZE as u32);
        let c = ceil_div(total_blocks, (BLOCK_SIZE * 8) as u32);
        let bitmap_blocks = if c < 1 { 1 } else { c };
        let inode_table_start: u32 = 1;
        let bitmap_start = inode_table_start + inode_table_blocks;
        let data_start = bitmap_start + bitmap_blocks;

        if data_start >= total_blocks {
            return Err(FsError::NoSpace);
        }

        let sb = Superblock {
            magic: MAGIC,
            total_blocks,
            inode_table_start,
            inode_table_blocks,
            bitmap_start,
            bitmap_blocks,
            data_start,
            max_files: MAX_FILES as u32,
        };
        assert(sb == layout_for(d0.len() as int));

        let sb_bytes = sb.to_bytes();
        let res = device.write_block(0, &sb_bytes);
        match res {
            Ok(()) => {},
            Err(e) => return Err(FsError::Io(e)),
        }
        let ghost d1 = device.contents();
        assert(d1 == d0.update(0, sb_bytes@));

        let zero = [0u8; BLOCK_SIZE];
        assert(zero@ == zero_block());
        let mut b = inode_table_start;
        while b < inode_table_start + inode_table_blocks
            invariant
                1 <= b <= 17,
                inode_table_start == 1,
                inode_table_blocks == 16,
                device.well_formed(),
                d0 == dev.contents(),
                zero@ == zero_block(),
                device.contents().len() == d1.len(),
                d1.len() == total_blocks,
                d0.len() == total_blocks,
                d1 == d0.update(0, sb_bytes@),
                17 <= data_start < total_blocks,
                data_start as int == data_start_for(d0.len() as int),
                forall|k: int| 1 <= k < b ==> #[trigger] device.contents()[k] == zero_block(),
                forall|k: int| 0 <= k < d1.len() && (k == 0 || k >= b) ==> #[trigger] device.contents()[k] == d1[k],
            decreases 17 - b,
        {
            match device.write_block(b, &zero) {
                Ok(()) => {},
                Err(e) => return Err(FsError::Io(e)),
            }
            b = b + 1;
        }
        let mut b = bitmap_start;
        while b < bitmap_start + bitmap_blocks
            invariant
                17 <= b <= data_start,
                bitmap_start == 17,
                data_start == bitmap_start + bitmap_blocks,
                device.well_formed(),
                d0 == dev.contents(),
                zero@ == zero_block(),
                device.contents().len() == d1.len(),
                d1.len() == total_blocks,
                d0.len() == total_blocks,
                d1 == d0.update(0, sb_bytes@),
                17 <= data_start < total_blocks,
                data_start as int == data_start_for(d0.len() as int),
                forall|k: int| 1 <= k < b ==> #[trigger] device.contents()[k] == zero_block(),
                forall|k: int| 0 <= k < d1.len() && (k == 0 || k >= b) ==> #[trigger] device.contents()[k] == d1[k],
            decreases data_start - b,
        {
            match device.write_block(b, &zero) {
                Ok(()) => {},
                Err(e) => return Err(FsError::Io(e)),
            }
            b = b + 1;
        }
        proof {
            let d = device.contents();
            assert(d[0] == sb_bytes@);
            assert forall|k: int| 0 <= k < d.len() implies (#[trigger] d[k]).len() == 512 by {
                if 1 <= k < data_start {
                    assert(d[k] == zero_block());
                } else if k > 0 {
                    assert(d[k] == d1[k]);
                    assert(d1[k] == d0[k]);
                }
            }
            assert(geometry_ok(d));
            lemma_formatted(d);
            assert(image_view(d) == no_files());
        }
        Ok(FileSystem { dev: device, sb })
    }

    /// Opens the volume on `dev`. Fails with `NotFormatted` when block 0
    /// does not carry the SimpleFS magic number; nothing else is checked.
    pub fn mount(dev: D) -> (r: Result<Self, FsError<D::Error>>)
        requires
            dev.well_formed(),
            dev.contents().len() > 0,
        ensures
            D::never_fails() ==> !(r is Err && r->Err_0 is Io),
            match r {
                Ok(fs) => {
                    &&& has_magic(dev.contents())
                    &&& fs.blocks() == dev.contents()
                    &&& fs.wf() <==> volume_ok(dev.contents())
                },
                Err(FsError::NotFormatted) => !has_magic(dev.contents()),
                Err(FsError::Io(_)) => true,
                Err(_) => false,
            },
    {
        let mut dev = dev;
        let mut buf = [0u8; BLOCK_SIZE];
        match dev.read_block(0, &mut buf) {
            Ok(()) => {},
            Err(e) => return Err(FsError::Io(e)),
        }
        let sb = Superblock::from_bytes(&buf);
        if sb.magic != MAGIC {
            return Err(FsError::NotFormatted);
        }
        Ok(FileSystem { dev, sb })
    }

    /// Gives the device back.
    pub fn into_device(self) -> (dev: D)
        ensures
            dev.contents() == self.blocks(),
            self.device_ok() ==> dev.well_formed(),
    {
        self.dev
    }
}


impl<D: BlockDevice> FileSystem<D> {
    /// The names of all files, in slot order.
    pub fn list_files(&mut self) -> (r: Result<Vec<String>, FsError<D::Error>>)
        requires
            old(self).wf(),
        ensures
            D::never_fails() ==> r is Ok,
            final(self).wf(),
            final(self).blocks() == old(self).blocks(),
            match r {
                Ok(names) => {
                    &&& names@.len() == listing(old(self)@).len()
                    &&& forall|k: int| 0 <= k < names@.len() ==> encode_utf8(#[trigger] names@[k]@) == listing(old(self)@)[k]
                },
                Err(e) => e is Io,
            },
    {
        let ghost d = self.dev.contents();
        let ghost v = image_view(d);
        let mut names: Vec<String> = Vec::new();
        let mut idx: u32 = 0;
        while idx < self.sb.max_files
            invariant
                self.wf(),
                self.dev.contents() == d,
                d == old(self).dev.contents(),
                v == image_view(d),
                self.sb == old(self).sb,
                self.sb.max_files == MAX_FILES,
                idx <= MAX_FILES,
                names@.len() == listing(v.take(idx as int)).len(),
                forall|k: int| 0 <= k < names@.len() ==> encode_utf8(#[trigger] names@[k]@) == listing(v.take(idx as int))[k],
            decreases MAX_FILES - idx,
        {
            proof {
                self.lemma_wf_geom();
            }
            let inode = match self.read_inode(idx) {
                Ok(inode) => inode,
                Err(e) => return Err(e),
            };
            proof {
                lemma_inode_fields(d, idx as int, inode);
                assert(v.take(idx + 1).drop_last() =~= v.take(idx as int));
                assert(v.take(idx + 1).last() == v[idx as int]);
            }
            if inode.used {
                proof {
                    lemma_used_slot_ok(d, -1, Seq::empty(), idx as int);
                }
                let s = inode.name_str().to_owned();
                names.push(s);
                proof {
                    assert(listing(v.take(idx + 1)) == listing(v.take(idx as int)).push(slot_name(d, idx as int)));
                }
            }
            idx = idx + 1;
        }
        proof {
            assert(v.take(128) =~= v);
        }
        Ok(names)
    }

    /// Creates an empty file named `name` in the lowest free slot.
    pub fn create_file(&mut self, name: &str) -> (r: Result<(), FsError<D::Error>>)
        requires
            old(self).wf(),
        ensures
            D::never_fails() ==> !(r is Err && r->Err_0 is Io),
            name.spec_bytes().len() > MAX_NAME_LEN ==> r is Err && r->Err_0 is NameTooLong,
            final(self).device_ok(),
            match r {
                Ok(()) => {
                    &&& name.spec_bytes().len() <= MAX_NAME_LEN
                    &&& !has_file(old(self)@, name.spec_bytes())
                    &&& !is_full(old(self)@)
                    &&& final(self).wf()
                    &&& final(self)@ == old(self)@.update(first_free(old(self)@), Some((name.spec_bytes(), Seq::<u8>::empty())))
                    &&& final(self).free_blocks() == old(self).free_blocks()
                    &&& inode_rewritten(old(self).blocks(), final(self).blocks(), first_free(old(self)@))
                    &&& slot_image(final(self).blocks(), first_free(old(self)@)) == new_file_image(name.spec_bytes())
                },
                Err(FsError::NameTooLong) => {
                    &&& name.spec_bytes().len() > MAX_NAME_LEN
                    &&& final(self).wf()
                    &&& final(self).blocks() == old(self).blocks()
                },
                Err(FsError::AlreadyExists) => {
                    &&& name.spec_bytes().len() <= MAX_NAME_LEN
                    &&& has_file(old(self)@, name.spec_bytes())
                    &&& final(self).wf()
                    &&& final(self).blocks() == old(self).blocks()
                },
                Err(FsError::NoFreeInode) => {
                    &&& name.spec_bytes().len() <= MAX_NAME_LEN
                    &&& !has_file(old(self)@, name.spec_bytes())
                    &&& is_full(old(self)@)
                    &&& final(self).wf()
                    &&& final(self).blocks() == old(self).blocks()
                },
                Err(FsError::Io(_)) => {
                    &&& name.spec_bytes().len() <= MAX_NAME_LEN
                    &&& final(self).blocks().len() == old(self).blocks().len()
                },
                Err(_) => false,
            },
    {
        let ghost d = self.dev.contents();
        let ghost v = image_view(d);
        let ghost nm = name.spec_bytes();
        let name_bytes = name.as_bytes();
        if name_bytes.len() > MAX_NAME_LEN {
            return Err(FsError::NameTooLong);
        }
        match self.find_inode_by_name(name) {
            Ok(Some((found, _))) => {
                proof {
                    lemma_holds(d, found as int, nm);
                }
                return Err(FsError::AlreadyExists);
            },
            Ok(None) => {},
            Err(e) => return Err(e),
        }
        proof {
            lemma_no_file(d, nm);
        }
        let idx = match self.find_free_inode() {
            Ok(idx) => idx,
            Err(e) => {
                proof {
                    if e is NoFreeInode {
                        lemma_full(d);
                    }
                }
                return Err(e);
            },
        };
        let mut inode = Inode::empty();
        inode.used = true;
        inode.name_len = name_bytes.len() as u8;
        let mut k: usize = 0;
        while k < name_bytes.len()
            invariant
                name_bytes@ == nm,
                nm.len() <= MAX_NAME_LEN,
                0 <= k <= nm.len(),
                inode.used,
                inode.name_len == nm.len(),
                inode.size == 0,
                inode.indirect == 0,
                forall|j: int| 0 <= j < DIRECT_POINTERS ==> inode.direct@[j] == 0,
                forall|j: int| 0 <= j < k ==> #[trigger] inode.name@[j] == nm[j],
                forall|j: int| k <= j < MAX_NAME_LEN ==> #[trigger] inode.name@[j] == 0,
            decreases nm.len() - k,
        {
            inode.name[k] = name_bytes[k];
            k = k + 1;
        }
        proof {
            self.lemma_wf_geom();
        }
        let res = self.write_inode(idx, &inode);
        match res {
            Ok(()) => {},
            Err(e) => return Err(e),
        }
        proof {
            let d2 = self.dev.contents();
            assert(inode.name@.subrange(0, inode.name_len as int) =~= nm);
            encode_utf8_valid_utf8(name@);
            lemma_create_slot(d, d2, idx as int, inode, nm);
            lemma_first_free(d, idx as int);
            lemma_image_of(d2, idx as int, inode, nm);
        }
        Ok(())
    }
}

impl<D: BlockDevice> FileSystem<D> {
    /// The contents of the file named `name`.
    pub fn read_file(&mut self, name: &str) -> (r: Result<Vec<u8>, FsError<D::Error>>)
        requires
            old(self).wf(),
        ensures
            D::never_fails() ==> !(r is Err && r->Err_0 is Io),
            final(self).wf(),
            final(self).blocks() == old(self).blocks(),
            match r {
                Ok(bytes) => {
                    &&& has_file(old(self)@, name.spec_bytes())
                    &&& bytes@ == old(self)@[slot_of(old(self)@, name.spec_bytes())]->Some_0.1
                },
                Err(FsError::NotFound) => !has_file(old(self)@, name.spec_bytes()),
                Err(e) => e is Io,
            },
    {
        let ghost d = self.dev.contents();
        let ghost nm = name.spec_bytes();
        let (idx, inode) = match self.find_inode_by_name(name) {
            Ok(Some(found)) => found,
            Ok(None) => {
                proof {
                    lemma_no_file(d, nm);
                }
                return Err(FsError::NotFound);
            },
            Err(e) => return Err(e),
        };
        let ghost e = idx as int;
        let ghost content = slot_content(d, e);
        let ghost nb = nblocks(slot_size(d, e));
        proof {
            lemma_slot_of(d, e, nm);
            lemma_used_slot_ok(d, -1, Seq::empty(), e);
            lemma_owned_pointers(d, e, inode);
            lemma_inode_fields(d, e, inode);
            lemma_slot_ok_facts(d, e);
            self.lemma_wf_geom();
        }
        let mut out: Vec<u8> = Vec::with_capacity(inode.size as usize);
        let blocks_needed = ceil_div(inode.size, BLOCK_SIZE as u32);
        let mut indirect_ptrs: Vec<u32> = Vec::new();
        if inode.indirect != 0 {
            let mut buf = [0u8; BLOCK_SIZE];
            let res = self.dev.read_block(inode.indirect, &mut buf);
            match res {
                Ok(()) => {},
                Err(e) => return Err(FsError::Io(e)),
            }
            proof {
                lemma_indirect_pointers(d, e, buf@);
            }
            let mut i: usize = 0;
            while i < POINTERS_PER_BLOCK
                invariant
                    0 <= i <= POINTERS_PER_BLOCK,
                    indirect_ptrs@.len() == i,
                    forall|k: int| 0 <= k < i ==> #[trigger] indirect_ptrs@[k] == le_u32_at(buf@, 4 * k),
                decreases POINTERS_PER_BLOCK - i,
            {
                let p = read_u32_le(&buf, i * 4);
                indirect_ptrs.push(p);
                i = i + 1;
            }
            proof {
                assert forall|k: int| 6 <= k < nb implies #[trigger] slot_ptr(d, e, k) == indirect_ptrs@[k - 6] by {
                    assert(slot_blocks(d, e)[k] == slot_ptr(d, e, k));
                    assert(indirect_ptrs@[k - 6] == le_u32_at(buf@, 4 * (k - 6)));
                }
            }
        }
        let mut i: u32 = 0;
        while i < blocks_needed
            invariant
                self.wf(),
                self.dev.contents() == d,
                d == old(self).dev.contents(),
                self.sb == old(self).sb,
                0 <= e < 128,
                content == slot_content(d, e),
                nb == nblocks(slot_size(d, e)),
                nb <= 134,
                inode.size == slot_size(d, e),
                blocks_needed == nb,
                0 <= i <= blocks_needed,
                out@ == content.take(if (i as int) * 512 < inode.size { (i as int) * 512 } else { inode.size as int }),
                forall|k: int| 0 <= k < 6 && k < nb ==> #[trigger] slot_ptr(d, e, k) == inode.direct@[k],
                nb > 6 ==> indirect_ptrs@.len() == 128,
                nb > 6 ==> forall|k: int| 6 <= k < nb ==> #[trigger] slot_ptr(d, e, k) == indirect_ptrs@[k - 6],
                forall|a: int| 0 <= a < slot_blocks(d, e).len() ==> data_start_for(d.len() as int) <= #[trigger] slot_blocks(d, e)[a] < d.len(),
            decreases blocks_needed - i,
        {
            let block = if (i as usize) < DIRECT_POINTERS {
                inode.direct[i as usize]
            } else {
                indirect_ptrs[i as usize - DIRECT_POINTERS]
            };
            proof {
                assert(slot_blocks(d, e)[i as int] == slot_ptr(d, e, i as int));
                self.lemma_wf_geom();
            }
            let mut buf = [0u8; BLOCK_SIZE];
            let res = self.dev.read_block(block, &mut buf);
            match res {
                Ok(()) => {},
                Err(e) => return Err(FsError::Io(e)),
            }
            let remaining = inode.size as usize - out.len();
            let take = if BLOCK_SIZE < remaining { BLOCK_SIZE } else { remaining };
            let ghost before = out@;
            out.extend_from_slice(slice_subrange(buf.as_slice(), 0, take));
            proof {
                let start = (i as int) * 512;
                assert(before.len() == start);
                assert forall|x: int| 0 <= x < start + take implies #[trigger] out@[x] == content[x] by {
                    if x >= start {
                        assert(x / 512 == i as int);
                        assert(x % 512 == x - start);
                        assert(out@[x] == buf@[x - start]);
                    } else {
                        assert(out@[x] == before[x]);
                    }
                }
                assert(out@ =~= content.take(if (i as int + 1) * 512 < inode.size { (i as int + 1) * 512 } else { inode.size as int }));
            }
            i = i + 1;
        }
        proof {
            assert(content.take(inode.size as int) =~= content);
        }
        Ok(out)
    }
}

impl<D: BlockDevice> FileSystem<D> {
    /// Removes the file named `name` and frees its blocks.
    pub fn delete_file(&mut self, name: &str) -> (r: Result<(), FsError<D::Error>>)
        requires
            old(self).wf(),
        ensures
            D::never_fails() ==> !(r is Err && r->Err_0 is Io),
            final(self).device_ok(),
            final(self).blocks().len() == old(self).blocks().len(),
            match r {
                Ok(()) => {
                    let nm = name.spec_bytes();
                    &&& has_file(old(self)@, nm)
                    &&& final(self).wf()
                    &&& final(self)@ == old(self)@.update(slot_of(old(self)@, nm), None)
                    &&& final(self).free_blocks() == old(self).free_blocks()
                        + blocks_for_size(old(self)@[slot_of(old(self)@, nm)]->Some_0.1.len() as int)
                    &&& table_kept_but_slot(old(self).blocks(), final(self).blocks(), slot_of(old(self)@, nm))
                    &&& slot_image(final(self).blocks(), slot_of(old(self)@, nm)) == unused_image()
                    &&& data_kept(old(self).blocks(), final(self).blocks())
                    &&& bits_cleared(old(self).blocks(), final(self).blocks(), slot_blocks(old(self).blocks(), slot_of(old(self)@, nm)))
                },
                Err(FsError::NotFound) => {
                    &&& !has_file(old(self)@, name.spec_bytes())
                    &&& final(self).wf()
                    &&& final(self).blocks() == old(self).blocks()
                },
                Err(e) => e is Io,
            },
    {
        let ghost d = self.dev.contents();
        let ghost nm = name.spec_bytes();
        let (idx, inode) = match self.find_inode_by_name(name) {
            Ok(Some(found)) => found,
            Ok(None) => {
                proof {
                    lemma_no_file(d, nm);
                }
                return Err(FsError::NotFound);
            },
            Err(e) => return Err(e),
        };
        let ghost e = idx as int;
        proof {
            lemma_slot_of(d, e, nm);
            lemma_set_aside(d, e);
            self.lemma_wf_geom();
        }
        let res = self.free_inode_blocks(&inode, Ghost(e));
        match res {
            Ok(()) => {},
            Err(e) => return Err(e),
        }
        let ghost d1 = self.dev.contents();
        let cleared = Inode::empty();
        let res = self.write_inode(idx, &cleared);
        match res {
            Ok(()) => {},
            Err(e) => return Err(e),
        }
        proof {
            let d2 = self.dev.contents();
            lemma_inode_fields(d2, e, cleared);
            lemma_commit(d1, d2, e, Seq::empty());
            assert(image_view(d2) =~= image_view(d).update(e, None));
            lemma_image_of(d2, e, cleared, Seq::empty());
            let ib = inode_block(e);
            let n = d.len() as int;
            assert forall|k: int| 0 <= k < 17 && k != ib implies #[trigger] d2[k] == d[k] by {
                assert(d2[k] == d1[k]);
                assert(d1[k] == d[k]);
            }
            assert(d1[ib] == d[ib]);
            assert forall|k: int| data_start_for(n) <= k < n implies #[trigger] d2[k] == d[k] by {
                assert(d2[k] == d1[k]);
                assert(d1[k] == d[k]);
            }
            assert forall|s: int| 0 <= s < data_blocks_of(n) implies #[trigger] block_bit(d2, s)
                == (block_bit(d, s) && !slot_blocks(d, e).contains(s + data_start_for(n))) by {
                let q = 17 + (s / 8) / 512;
                assert(d2[q] == d1[q]);
                assert(block_bit(d1, s) == (block_bit(d, s) && !slot_blocks(d, e).contains(s + data_start_for(n))));
            }
        }
        Ok(())
    }
}

/// The superblock and the inode table, blocks 0 to 16, read the same in
/// `a` and `b`: every file keeps its recorded name, size and block pointers.
pub open spec fn metadata_kept(a: Seq<Seq<u8>>, b: Seq<Seq<u8>>) -> bool {
    forall|k: int| 0 <= k < 17 ==> #[trigger] b[k] == a[k]
}

/// The 64 bytes of inode slot `i` in the blocks `d`.
pub open spec fn slot_image(d: Seq<Seq<u8>>, i: int) -> Seq<u8> {
    d[inode_block(i)].subrange(inode_off(i), inode_off(i) + 64)
}

/// The inode image of a new, empty file named `nm`: used flag 1, the
/// name's length, zero size and block pointers, then the name padded with
/// zeros.
pub open spec fn new_file_image(nm: Seq<u8>) -> Seq<u8> {
    Seq::new(64, |k: int|
        if k == 0 {
            1u8
        } else if k == 1 {
            nm.len() as u8
        } else if 36 <= k < 36 + nm.len() {
            nm[k - 36]
        } else {
            0u8
        })
}

/// The inode image of an unused slot: 64 zero bytes.
pub open spec fn unused_image() -> Seq<u8> {
    Seq::new(64, |k: int| 0u8)
}

/// Among the superblock and the inode table, `b` differs from `a` at most
/// in the 64 bytes of inode slot `i`.
pub open spec fn table_kept_but_slot(a: Seq<Seq<u8>>, b: Seq<Seq<u8>>, i: int) -> bool {
    &&& forall|k: int| 0 <= k < 17 && k != inode_block(i) ==> #[trigger] b[k] == a[k]
    &&& b[inode_block(i)].len() == 512
    &&& forall|k: int| 0 <= k < 512 && !(inode_off(i) <= k < inode_off(i) + 64) ==> #[trigger] b[inode_block(i)][k] == a[inode_block(i)][k]
}

/// The bitmap of `b` marks the data blocks that the bitmap of `a` marks,
/// but for those listed in `freed`, which it marks free.
pub open spec fn bits_cleared(a: Seq<Seq<u8>>, b: Seq<Seq<u8>>, freed: Seq<int>) -> bool {
    forall|s: int| 0 <= s < data_blocks_of(a.len() as int) ==> #[trigger] block_bit(b, s)
        == (block_bit(a, s) && !freed.contains(s + data_start_for(a.len() as int)))
}

/// The image of an inode with zero size and no block pointers, stored with
/// bytes 2 and 3 zero and its name padded with zeros: a new file's image
/// when it is used, an unused slot's when it is not and has no name.
proof fn lemma_image_of(d: Seq<Seq<u8>>, i: int, inode: Inode, nm: Seq<u8>)
    requires
        0 <= i < 128,
        d[inode_block(i)].len() == 512,
        inode.stored_at(d[inode_block(i)], inode_off(i)),
        d[inode_block(i)][inode_off(i)] == (if inode.used { 1u8 } else { 0u8 }),
        d[inode_block(i)][inode_off(i) + 2] == 0,
        d[inode_block(i)][inode_off(i) + 3] == 0,
        inode.size == 0,
        inode.indirect == 0,
        forall|k: int| 0 <= k < DIRECT_POINTERS ==> inode.direct@[k] == 0,
        nm.len() <= MAX_NAME_LEN,
        inode.name_len == nm.len(),
        forall|j: int| 0 <= j < nm.len() ==> #[trigger] inode.name@[j] == nm[j],
        forall|j: int| nm.len() <= j < MAX_NAME_LEN ==> #[trigger] inode.name@[j] == 0,
    ensures
        inode.used ==> slot_image(d, i) == new_file_image(nm),
        !inode.used && nm.len() == 0 ==> slot_image(d, i) == unused_image(),
{
    let s = d[inode_block(i)];
    let off = inode_off(i);
    lemma_zero_fields(inode, s, off);
    assert forall|k: int| 36 <= k < 64 implies #[trigger] s[off + k] == (if k < 36 + nm.len() { nm[k - 36] } else { 0u8 }) by {
        assert(inode.name@[k - 36] == s[off + 36 + (k - 36)]);
    }
    assert(s[off + 1] == inode.name_len);
    assert(0 <= off && off + 64 <= 512);
    assert((nm.len() as u8) == nm.len());
    assert forall|k: int| 0 <= k < 64 implies #[trigger] slot_image(d, i)[k] == s[off + k] by {}
    if inode.used {
        assert forall|k: int| 0 <= k < 64 implies #[trigger] slot_image(d, i)[k] == new_file_image(nm)[k] by {
            if 2 <= k < 36 {
                assert(s[off + k] == 0);
            } else if 36 <= k {
                assert(s[off + k] == (if k < 36 + nm.len() { nm[k - 36] } else { 0u8 }));
            }
        }
        assert(slot_image(d, i) =~= new_file_image(nm));
    }
    if !inode.used && nm.len() == 0 {
        assert forall|k: int| 0 <= k < 64 implies #[trigger] slot_image(d, i)[k] == unused_image()[k] by {
            if 2 <= k < 36 {
                assert(s[off + k] == 0);
            } else if 36 <= k {
                assert(s[off + k] == 0u8);
            }
        }
        assert(slot_image(d, i) =~= unused_image());
    }
}

/// Every block from the first data block on reads the same in `a` and
/// `b`: no file's data is touched.
pub open spec fn data_kept(a: Seq<Seq<u8>>, b: Seq<Seq<u8>>) -> bool {
    forall|k: int| data_start_for(a.len() as int) <= k < a.len() ==> #[trigger] b[k] == a[k]
}

impl<D: BlockDevice> FileSystem<D> {
    /// Replaces the contents of the file named `name` by `data`.
    ///
    /// The file's old blocks are freed first. If the new contents do not
    /// fit in a file (`FileTooLarge`: more than `134 * 512` bytes) or in the
    /// free blocks (`NoSpace`), the inode is left pointing at its old, now
    /// freed, blocks.
    pub fn write_file(&mut self, name: &str, data: &[u8]) -> (r: Result<(), FsError<D::Error>>)
        requires
            old(self).wf(),
        ensures
            D::never_fails() ==> !(r is Err && r->Err_0 is Io),
            final(self).device_ok(),
            final(self).blocks().len() == old(self).blocks().len(),
            match r {
                Ok(()) => {
                    let nm = name.spec_bytes();
                    let i = slot_of(old(self)@, nm);
                    let len = data@.len() as int;
                    &&& has_file(old(self)@, nm)
                    &&& nblocks(len) <= 134
                    &&& blocks_for_size(len) <= old(self).free_blocks() + blocks_for_size(old(self)@[i]->Some_0.1.len() as int)
                    &&& final(self).wf()
                    &&& final(self)@ == old(self)@.update(i, Some((nm, data@)))
                    &&& final(self).free_blocks() + blocks_for_size(len)
                        == old(self).free_blocks() + blocks_for_size(old(self)@[i]->Some_0.1.len() as int)
                },
                Err(FsError::NotFound) => {
                    &&& !has_file(old(self)@, name.spec_bytes())
                    &&& final(self).wf()
                    &&& final(self).blocks() == old(self).blocks()
                },
                Err(FsError::FileTooLarge) => {
                    let nm = name.spec_bytes();
                    let i = slot_of(old(self)@, nm);
                    &&& has_file(old(self)@, nm)
                    &&& nblocks(data@.len() as int) > 134
                    &&& final(self)@ == old(self)@
                    &&& metadata_kept(old(self).blocks(), final(self).blocks())
                    &&& data_kept(old(self).blocks(), final(self).blocks())
                    &&& old(self)@[i]->Some_0.1.len() == 0 ==> final(self).wf() && final(self).blocks() == old(self).blocks()
                    &&& final(self).free_blocks() == old(self).free_blocks() + blocks_for_size(old(self)@[i]->Some_0.1.len() as int)
                },
                Err(FsError::NoSpace) => {
                    let nm = name.spec_bytes();
                    let i = slot_of(old(self)@, nm);
                    let len = data@.len() as int;
                    &&& has_file(old(self)@, nm)
                    &&& nblocks(len) <= 134
                    &&& old(self).free_blocks() + blocks_for_size(old(self)@[i]->Some_0.1.len() as int) < blocks_for_size(len)
                    &&& final(self).free_blocks() == 0
                    &&& metadata_kept(old(self).blocks(), final(self).blocks())
                    &&& forall|j: int| 0 <= j < MAX_FILES && j != i ==> #[trigger] final(self)@[j] == old(self)@[j]
                    &&& final(self)@[i] is Some && final(self)@[i]->Some_0.0 == nm
                },
                Err(e) => e is Io,
            },
    {
        let ghost d = self.dev.contents();
        let ghost n = d.len() as int;
        let ghost ds = data_start_for(n);
        let ghost nm = name.spec_bytes();
        let (idx, mut inode) = match self.find_inode_by_name(name) {
            Ok(Some(found)) => found,
            Ok(None) => {
                proof {
                    lemma_no_file(d, nm);
                }
                return Err(FsError::NotFound);
            },
            Err(e) => return Err(e),
        };
        let ghost e = idx as int;
        let ghost old_size = slot_size(d, e);
        let ghost fb_old = slot_blocks(d, e);
        proof {
            lemma_slot_of(d, e, nm);
            lemma_set_aside(d, e);
            lemma_slot_ok_facts(d, e);
            lemma_inode_fields(d, e, inode);
            lemma_free_set_finite(d);
            self.lemma_wf_geom();
        }
        let res = self.free_inode_blocks(&inode, Ghost(e));
        match res {
            Ok(()) => {},
            Err(e) => return Err(e),
        }
        let ghost d1 = self.dev.contents();
        let ghost free1 = free_set(d1).len();
        proof {
            assert forall|k: int| inode_off(e) <= k < inode_off(e) + 64 implies #[trigger] d1[inode_block(e)][k] == d[inode_block(e)][k] by {
                assert(d1[inode_block(e)] == d[inode_block(e)]);
            }
            assert forall|a: int| 0 <= a < slot_blocks(d, e).len() implies d1[#[trigger] slot_blocks(d, e)[a]] == d[slot_blocks(d, e)[a]] by {
            }
            lemma_slot_frame(d, d1, e);
            assert(image_view(d1) =~= image_view(d));
        }
        inode.direct = [0; DIRECT_POINTERS];
        inode.indirect = 0;

        let len = data.len();
        if len > (DIRECT_POINTERS + POINTERS_PER_BLOCK) * BLOCK_SIZE {
            return Err(FsError::FileTooLarge);
        }
        let len32 = len as u32;
        let blocks_needed = ceil_div(len32, BLOCK_SIZE as u32);

        let mut indirect_ptrs: Vec<u32> = Vec::new();
        let ghost mut extra: Seq<int> = Seq::empty();
        let mut i: u32 = 0;
        while i < blocks_needed
            invariant
                self.geom(),
                self.sb == old(self).sb,
                self.dev.contents().len() == n,
                n == d.len(),
                ds == data_start_for(n),
                d == old(self).dev.contents(),
                0 <= e < 128,
                slot_used(d, e),
                slot_name_len(d, e) <= 28,
                valid_utf8(slot_name(d, e)),
                nm == name.spec_bytes(),
                slot_name(d, e) == nm,
                has_file(image_view(d), nm),
                slot_of(image_view(d), nm) == e,
                old_size == slot_size(d, e),
                free1 == free_set(d).len() + blocks_for_size(old_size),
                inode.used,
                inode.name_len == slot_name_len(d, e),
                inode.name@.subrange(0, inode.name_len as int) == slot_name(d, e),
                len == data@.len(),
                len32 == len,
                len32 <= len,
                blocks_needed as int == nblocks(len32 as int),
                blocks_needed <= 134,
                0 <= i <= blocks_needed,
                extra.len() == i,
                image_ok_except(self.dev.contents(), e, extra),
                free_set(self.dev.contents()).len() + i == free1,
                forall|k: int| 0 <= k < 17 ==> #[trigger] self.dev.contents()[k] == d[k],
                forall|j: int| 0 <= j < 128 && j != e ==> #[trigger] image_view(self.dev.contents())[j] == image_view(d)[j],
                forall|a: int| 0 <= a < i ==> self.dev.contents()[#[trigger] extra[a]] == chunk(data@, a),
                forall|k: int| 0 <= k < 6 ==> #[trigger] inode.direct@[k] == if k < i { extra[k] } else { 0 },
                inode.indirect == 0,
                i <= 6 ==> indirect_ptrs@.len() == 0,
                i > 6 ==> indirect_ptrs@.len() == 128,
                i > 6 ==> forall|k: int| 0 <= k < 128 ==> #[trigger] indirect_ptrs@[k] == if 6 + k < i { extra[6 + k] } else { 0 },
            decreases blocks_needed - i,
        {
            let ghost cur = self.dev.contents();
            let block = match self.alloc_block() {
                Ok(b) => b,
                Err(err) => {
                    proof {
                        if err is NoSpace {
                            assert(free_set(cur) =~= Set::<int>::empty());
                            assert(cur[inode_block(e)] == d[inode_block(e)]);
                            assert(slot_content(d, e).len() == old_size);
                        }
                    }
                    return Err(err);
                },
            };
            let ghost cur2 = self.dev.contents();
            proof {
                lemma_take_step(cur, cur2, e, extra, block - ds);
                extra = extra.push(block as int);
            }
            assert(512 * i < len32) by (nonlinear_arith)
                requires
                    i < blocks_needed,
                    blocks_needed as int == (len32 + 511) / 512;
            let start = i as usize * BLOCK_SIZE;
            let end = if start + BLOCK_SIZE < data.len() { start + BLOCK_SIZE } else { data.len() };
            let mut buf = [0u8; BLOCK_SIZE];
            let mut k: usize = 0;
            while k < end - start
                invariant
                    start == 512 * i,
                    start <= end <= data@.len(),
                    end - start <= BLOCK_SIZE,
                    end == if start + BLOCK_SIZE < data@.len() { start + BLOCK_SIZE } else { data@.len() as int },
                    0 <= k <= end - start,
                    forall|x: int| 0 <= x < k ==> #[trigger] buf@[x] == data@[start + x],
                    forall|x: int| k <= x < BLOCK_SIZE ==> #[trigger] buf@[x] == 0,
                decreases end - start - k,
            {
                buf[k] = data[start + k];
                k = k + 1;
            }
            proof {
                assert(buf@ =~= chunk(data@, i as int));
            }
            let res = self.dev.write_block(block, &buf);
            match res {
                Ok(()) => {},
                Err(e) => return Err(FsError::Io(e)),
            }
            proof {
                let cur3 = self.dev.contents();
                lemma_write_extra(cur2, cur3, e, extra, i as int, buf@);
                assert(cur3[0] == cur2[0]);
                assert forall|a: int| 0 <= a < i + 1 implies cur3[#[trigger] extra[a]] == chunk(data@, a) by {
                    reveal(extra_ok);
                    if a < i {
                        assert(extra[a] != extra[i as int]);
                        assert(extra[a] >= ds);
                        assert(cur2[extra[a]] == cur[extra[a]]);
                    }
                }
            }
            if (i as usize) < DIRECT_POINTERS {
                inode.direct[i as usize] = block;
            } else {
                if indirect_ptrs.len() == 0 {
                    let mut z: usize = 0;
                    while z < POINTERS_PER_BLOCK
                        invariant
                            0 <= z <= POINTERS_PER_BLOCK,
                            indirect_ptrs@.len() == z,
                            forall|k: int| 0 <= k < z ==> #[trigger] indirect_ptrs@[k] == 0,
                        decreases POINTERS_PER_BLOCK - z,
                    {
                        indirect_ptrs.push(0);
                        z = z + 1;
                    }
                }
                indirect_ptrs.set(i as usize - DIRECT_POINTERS, block);
            }
            i = i + 1;
        }

        if indirect_ptrs.len() > 0 {
            let ghost cur = self.dev.contents();
            let indirect_block = match self.alloc_block() {
                Ok(b) => b,
                Err(err) => {
                    proof {
                        if err is NoSpace {
                            assert(free_set(cur) =~= Set::<int>::empty());
                        }
                    }
                    return Err(err);
                },
            };
            let ghost cur2 = self.dev.contents();
            proof {
                lemma_take_step(cur, cur2, e, extra, indirect_block - ds);
                extra = extra.push(indirect_block as int);
            }
            let mut buf = [0u8; BLOCK_SIZE];
            let mut k: usize = 0;
            while k < indirect_ptrs.len()
                invariant
                    indirect_ptrs@.len() == 128,
                    0 <= k <= 128,
                    forall|x: int| 0 <= x < k ==> #[trigger] le_u32_at(buf@, 4 * x) == indirect_ptrs@[x],
                decreases 128 - k,
            {
                let ghost prev = buf@;
                write_u32_le(&mut buf, k * 4, indirect_ptrs[k]);
                proof {
                    assert forall|x: int| 0 <= x < k + 1 implies #[trigger] le_u32_at(buf@, 4 * x) == indirect_ptrs@[x] by {
                        if x < k {
                            assert(buf@[4 * x] == prev[4 * x]);
                            assert(buf@[4 * x + 1] == prev[4 * x + 1]);
                            assert(buf@[4 * x + 2] == prev[4 * x + 2]);
                            assert(buf@[4 * x + 3] == prev[4 * x + 3]);
                            assert(le_u32_at(prev, 4 * x) == indirect_ptrs@[x]);
                        }
                    }
                }
                k = k + 1;
            }
            let res = self.dev.write_block(indirect_block, &buf);
            match res {
                Ok(()) => {},
                Err(e) => return Err(FsError::Io(e)),
            }
            proof {
                let cur3 = self.dev.contents();
                lemma_write_extra(cur2, cur3, e, extra, blocks_needed as int, buf@);
                reveal(extra_ok);
                assert(cur3[0] == cur2[0]);
            }
            inode.indirect = indirect_block;
        }

        inode.size = data.len() as u32;
        let ghost pre = self.dev.contents();
        let res = self.write_inode(idx, &inode);
        match res {
            Ok(()) => {},
            Err(e) => return Err(e),
        }
        proof {
            let d2 = self.dev.contents();
            lemma_commit_file(pre, d2, e, extra, inode, data@);
            assert(data@.take(len32 as int) =~= data@);
            assert(image_view(d2) =~= image_view(d).update(e, Some((nm, data@))));
        }
        Ok(())
    }
}

impl<D: BlockDevice> FileSystem<D> {
    /// A consistent volume has 128 slots, no two files share a name, and it
    /// is what its blocks describe: a volume that `mount` accepts and
    /// reads back as the same files.
    pub proof fn lemma_consistent(&self)
        requires
            self.wf(),
        ensures
            self@.len() == MAX_FILES,
            distinct_names(self@),
            self@ == volume_files(self.blocks()),
            volume_ok(self.blocks()),
            has_magic(self.blocks()),
            self.blocks().len() > 0,
            self.device_ok(),
    {
        let d = self.dev.contents();
        assert forall|i: int, j: int, nm: Seq<u8>| holds(self@, i, nm) && holds(self@, j, nm) implies i == j by {
            lemma_holds(d, i, nm);
            lemma_holds(d, j, nm);
            lemma_names_distinct(d, i, j);
        }
    }

    /// The view of any filesystem is what its blocks describe.
    pub proof fn lemma_view_of_blocks(&self)
        ensures
            self@ == volume_files(self.blocks()),
    {
    }
}

/// Reading back a file after a write gives what was written, and names
/// stay distinct.
pub proof fn law_read_after_write(v: Seq<Option<(Seq<u8>, Seq<u8>)>>, nm: Seq<u8>, data: Seq<u8>)
    requires
        distinct_names(v),
        has_file(v, nm),
    ensures
        ({
            let v2 = v.update(slot_of(v, nm), Some((nm, data)));
            &&& has_file(v2, nm)
            &&& v2[slot_of(v2, nm)]->Some_0.1 == data
            &&& distinct_names(v2)
        }),
{
    let i = slot_of(v, nm);
    let v2 = v.update(i, Some((nm, data)));
    assert(holds(v2, i, nm));
    let j = slot_of(v2, nm);
    if j != i {
        assert(holds(v, j, nm));
    }
    assert forall|a: int, b: int, m: Seq<u8>| holds(v2, a, m) && holds(v2, b, m) implies a == b by {
        if a != i && b != i {
            assert(holds(v, a, m) && holds(v, b, m));
        } else if a == i && b != i {
            assert(holds(v, b, m));
            assert(holds(v, i, m));
        } else if b == i && a != i {
            assert(holds(v, a, m));
            assert(holds(v, i, m));
        }
    }
}

/// Writing, creating or deleting one file changes no other file: a slot
/// update for `nm` keeps whether `other` exists and what it holds.
pub proof fn law_other_files_unchanged(v: Seq<Option<(Seq<u8>, Seq<u8>)>>, i: int, entry: Option<(Seq<u8>, Seq<u8>)>, nm: Seq<u8>, other: Seq<u8>)
    requires
        distinct_names(v),
        0 <= i < v.len(),
        v[i] is Some ==> v[i]->Some_0.0 == nm,
        entry is Some ==> entry->Some_0.0 == nm,
        other != nm,
    ensures
        has_file(v.update(i, entry), other) == has_file(v, other),
        has_file(v, other) ==> slot_of(v.update(i, entry), other) == slot_of(v, other),
{
    let v2 = v.update(i, entry);
    if has_file(v, other) {
        let k = slot_of(v, other);
        assert(k != i);
        assert(holds(v2, k, other));
        let k2 = slot_of(v2, other);
        assert(k2 != i);
        assert(holds(v, k2, other));
    }
    if has_file(v2, other) {
        let k2 = slot_of(v2, other);
        assert(holds(v, k2, other));
    }
}

/// After a delete, the file is gone.
pub proof fn law_delete_removes(v: Seq<Option<(Seq<u8>, Seq<u8>)>>, nm: Seq<u8>)
    requires
        distinct_names(v),
        has_file(v, nm),
    ensures
        !has_file(v.update(slot_of(v, nm), None), nm),
        distinct_names(v.update(slot_of(v, nm), None)),
{
    let i = slot_of(v, nm);
    let v2 = v.update(i, None);
    if has_file(v2, nm) {
        let j = slot_of(v2, nm);
        assert(holds(v, j, nm));
    }
    assert forall|a: int, b: int, m: Seq<u8>| holds(v2, a, m) && holds(v2, b, m) implies a == b by {
        assert(holds(v, a, m) && holds(v, b, m));
    }
}

/// A created file exists and is empty, and names stay distinct.
pub proof fn law_create_then_read(v: Seq<Option<(Seq<u8>, Seq<u8>)>>, nm: Seq<u8>)
    requires
        distinct_names(v),
        !has_file(v, nm),
        !is_full(v),
    ensures
        ({
            let v2 = v.update(first_free(v), Some((nm, Seq::<u8>::empty())));
            &&& has_file(v2, nm)
            &&& v2[slot_of(v2, nm)]->Some_0.1 == Seq::<u8>::empty()
            &&& distinct_names(v2)
        }),
{
    let k = choose|k: int| 0 <= k < v.len() && !(v[k] is Some);
    assert(exists|i: int| 0 <= i < v.len() && v[i] is None && forall|j: int| 0 <= j < i ==> #[trigger] v[j] is Some) by {
        lemma_least_free(v, k);
    }
    let i = first_free(v);
    let v2 = v.update(i, Some((nm, Seq::<u8>::empty())));
    assert(holds(v2, i, nm));
    let j = slot_of(v2, nm);
    if j != i {
        assert(holds(v, j, nm));
    }
    assert forall|a: int, b: int, m: Seq<u8>| holds(v2, a, m) && holds(v2, b, m) implies a == b by {
        if a != i && b != i {
            assert(holds(v, a, m) && holds(v, b, m));
        } else if a == i && b != i {
            assert(holds(v, b, nm));
        } else if b == i && a != i {
            assert(holds(v, a, nm));
        }
    }
}

/// Below any free slot `k` there is a lowest free slot.
proof fn lemma_least_free(v: Seq<Option<(Seq<u8>, Seq<u8>)>>, k: int)
    requires
        0 <= k < v.len(),
        v[k] is None,
    ensures
        exists|i: int| 0 <= i < v.len() && v[i] is None && forall|j: int| 0 <= j < i ==> #[trigger] v[j] is Some,
    decreases k,
{
    if forall|j: int| 0 <= j < k ==> #[trigger] v[j] is Some {
        assert(0 <= k < v.len() && v[k] is None && forall|j: int| 0 <= j < k ==> #[trigger] v[j] is Some);
    } else {
        let j = choose|j: int| 0 <= j < k && !(#[trigger] v[j] is Some);
        lemma_least_free(v, j);
    }
}

/// `listing` names exactly the files of the volume, each once.
pub proof fn law_listing(v: Seq<Option<(Seq<u8>, Seq<u8>)>>, nm: Seq<u8>)
    ensures
        listing(v).contains(nm) <==> has_file(v, nm),
    decreases v.len(),
{
    if v.len() == 0 {
        if has_file(v, nm) {
            let i = slot_of(v, nm);
        }
    } else {
        let w = v.drop_last();
        law_listing(w, nm);
        let last = v.len() - 1;
        if has_file(w, nm) {
            let i = slot_of(w, nm);
            assert(holds(v, i, nm));
        }
        if has_file(v, nm) {
            let i = slot_of(v, nm);
            if i < last {
                assert(holds(w, i, nm));
            }
        }
        match v.last() {
            Some(f) => {
                let rest = listing(w);
                assert(listing(v) == rest.push(f.0));
                if f.0 == nm {
                    assert(rest.push(f.0)[rest.len() as int] == nm);
                    assert(holds(v, last, nm));
                }
                if rest.push(f.0).contains(nm) {
                    let k = choose|k: int| 0 <= k < rest.push(f.0).len() && rest.push(f.0)[k] == nm;
                    if k < rest.len() {
                        assert(rest[k] == nm);
                    }
                }
                if rest.contains(nm) {
                    let k = choose|k: int| 0 <= k < rest.len() && rest[k] == nm;
                    assert(rest.push(f.0)[k] == nm);
                }
            },
            None => {
                if has_file(v, nm) {
                    let i = slot_of(v, nm);
                    assert(i != last);
                }
            },
        }
    }
}

/// The name a slot lists: its file's name, or none when it is free.
pub open spec fn listed_name(o: Option<(Seq<u8>, Seq<u8>)>) -> Option<Seq<u8>> {
    match o {
        Some(f) => Some(f.0),
        None => None,
    }
}

/// The listing holds one entry for each occupied slot, in slot order: the
/// name of the file there.
pub proof fn law_listing_per_slot(v: Seq<Option<(Seq<u8>, Seq<u8>)>>)
    ensures
        listing(v) == v.filter_map(|o: Option<(Seq<u8>, Seq<u8>)>| listed_name(o)),
    decreases v.len(),
{
    if v.len() > 0 {
        law_listing_per_slot(v.drop_last());
        match v.last() {
            Some(f) => {
                assert(listing(v.drop_last()).push(f.0) =~= listing(v.drop_last()) + seq![f.0]);
            },
            None => {},
        }
    }
}

/// On a volume whose names are distinct, no name is listed twice.
pub proof fn law_listing_no_repeats(v: Seq<Option<(Seq<u8>, Seq<u8>)>>)
    requires
        distinct_names(v),
    ensures
        listing(v).no_duplicates(),
    decreases v.len(),
{
    if v.len() > 0 {
        let w = v.drop_last();
        let last = v.len() - 1;
        assert(distinct_names(w)) by {
            assert forall|i: int, j: int, nm: Seq<u8>| holds(w, i, nm) && holds(w, j, nm) implies i == j by {
                assert(holds(v, i, nm) && holds(v, j, nm));
            }
        }
        law_listing_no_repeats(w);
        match v.last() {
            Some(f) => {
                let rest = listing(w);
                law_listing(w, f.0);
                if has_file(w, f.0) {
                    let i = slot_of(w, f.0);
                    assert(holds(v, i, f.0));
                    assert(holds(v, last, f.0));
                }
                assert(!rest.contains(f.0));
                let l = rest.push(f.0);
                assert forall|a: int, b: int| 0 <= a < l.len() && 0 <= b < l.len() && a != b implies l[a] != l[b] by {
                    if a < rest.len() && b < rest.len() {
                        assert(l[a] == rest[a] && l[b] == rest[b]);
                    } else if a < rest.len() {
                        assert(l[a] == rest[a]);
                        assert(l[b] == f.0);
                    } else {
                        assert(l[b] == rest[b]);
                        assert(l[a] == f.0);
                    }
                }
            },
            None => {},
        }
    }
}

/// Space comes back: writing `data` into the empty file `nm` and then
/// deleting it leaves the other files as they were, `nm` gone, and as many
/// free blocks as before the write. `free_written` and `free_deleted` are
/// the free-block counts that `write_file` and `delete_file` report.
pub proof fn law_write_delete_frees(
    v: Seq<Option<(Seq<u8>, Seq<u8>)>>,
    nm: Seq<u8>,
    data: Seq<u8>,
    free_before: nat,
    free_written: nat,
    free_deleted: nat,
)
    requires
        distinct_names(v),
        has_file(v, nm),
        v[slot_of(v, nm)]->Some_0.1.len() == 0,
        free_written + blocks_for_size(data.len() as int) == free_before + blocks_for_size(0),
        ({
            let written = v.update(slot_of(v, nm), Some((nm, data)));
            free_deleted == free_written + blocks_for_size(written[slot_of(written, nm)]->Some_0.1.len() as int)
        }),
    ensures
        ({
            let written = v.update(slot_of(v, nm), Some((nm, data)));
            &&& written.update(slot_of(written, nm), None) == v.update(slot_of(v, nm), None)
            &&& free_deleted == free_before
        }),
{
    law_read_after_write(v, nm, data);
    let i = slot_of(v, nm);
    let written = v.update(i, Some((nm, data)));
    let j = slot_of(written, nm);
    assert(holds(written, i, nm));
    assert(holds(written, j, nm));
    assert(j == i);
    assert(written.update(j, None) =~= v.update(i, None));
}

/// A block device held in memory, for running a filesystem without a disk.
pub struct MemBlockDevice {
    blocks: Vec<[u8; BLOCK_SIZE]>,
}

impl MemBlockDevice {
    /// A device of `total_blocks` zeroed blocks.
    pub fn new(total_blocks: u32) -> (dev: Self)
        ensures
            dev.well_formed(),
            dev.contents() == Seq::new(total_blocks as nat, |i: int| zero_block()),
    {
        let mut blocks: Vec<[u8; BLOCK_SIZE]> = Vec::new();
        let mut i: u32 = 0;
        while i < total_blocks
            invariant
                i <= total_blocks,
                blocks@.len() == i,
                forall|k: int| 0 <= k < i ==> (#[trigger] blocks@[k])@ == zero_block(),
            decreases total_blocks - i,
        {
            let zero = [0u8; BLOCK_SIZE];
            assert(zero@ == zero_block());
            blocks.push(zero);
            i = i + 1;
        }
        let dev = MemBlockDevice { blocks };
        assert(dev.contents() =~= Seq::new(total_blocks as nat, |i: int| zero_block()));
        dev
    }
}

impl BlockDevice for MemBlockDevice {
    type Error = core::convert::Infallible;

    closed spec fn contents(&self) -> Seq<Seq<u8>> {
        self.blocks@.map_values(|b: [u8; BLOCK_SIZE]| b@)
    }

    closed spec fn well_formed(&self) -> bool {
        self.blocks@.len() <= u32::MAX
    }

    /// Reads and writes in memory always succeed.
    open spec fn never_fails() -> bool {
        true
    }

    fn total_blocks(&self) -> (n: u32) {
        self.blocks.len() as u32
    }

    /// Copies block `block` out; a device in memory never fails.
    fn read_block(&mut self, block: u32, buf: &mut [u8; BLOCK_SIZE]) -> (r: Result<(), Self::Error>)
        ensures
            r is Ok,
    {
        *buf = self.blocks[block as usize];
        Ok(())
    }

    /// Replaces block `block`; a device in memory never fails.
    fn write_block(&mut self, block: u32, buf: &[u8; BLOCK_SIZE]) -> (r: Result<(), Self::Error>)
        ensures
            r is Ok,
    {
        self.blocks.set(block as usize, *buf);
        assert(self.contents() =~= old(self).contents().update(block as int, buf@));
        Ok(())
    }
}

} // verus!