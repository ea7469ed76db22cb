//! What a sequence of blocks means as a SimpleFS volume, and the facts
//! about it that the filesystem operations rest on.

use vstd::prelude::*;
use vstd::utf8::valid_utf8;
use vstd::set_lib::{set_int_range, lemma_int_range, lemma_len_subset};
use vstd::arithmetic::div_mod::lemma_fundamental_div_mod_converse;
use crate::bits::{bit_set, lemma_bit_zero_byte};
use crate::bytes::le_u32_at;
use crate::layout::{decode_superblock, Inode, Superblock, MAGIC};

verus! {

/// Number of bitmap blocks on a volume of `n` blocks: one bit per block,
/// at least one block.
pub open spec fn bitmap_blocks_for(n: int) -> int {
    let c = (n + 4095) / 4096;
    if c >= 1 { c } else { 1 }
}

/// First data block on a volume of `n` blocks.
pub open spec fn data_start_for(n: int) -> int {
    17 + bitmap_blocks_for(n)
}

/// The superblock that formatting writes on a volume of `n` blocks.
pub open spec fn layout_for(n: int) -> Superblock {
    Superblock {
        magic: MAGIC,
        total_blocks: n as u32,
        inode_table_start: 1,
        inode_table_blocks: 16,
        bitmap_start: 17,
        bitmap_blocks: bitmap_blocks_for(n) as u32,
        data_start: data_start_for(n) as u32,
        max_files: 128,
    }
}

/// Block of the inode table holding inode `i`.
pub open spec fn inode_block(i: int) -> int {
    1 + i / 8
}

/// Byte offset of inode `i` inside its block.
pub open spec fn inode_off(i: int) -> int {
    (i % 8) * 64
}

pub open spec fn slot_used(d: Seq<Seq<u8>>, i: int) -> bool {
    d[inode_block(i)][inode_off(i)] != 0
}

pub open spec fn slot_name_len(d: Seq<Seq<u8>>, i: int) -> int {
    d[inode_block(i)][inode_off(i) + 1] as int
}

pub open spec fn slot_size(d: Seq<Seq<u8>>, i: int) -> int {
    le_u32_at(d[inode_block(i)], inode_off(i) + 4) as int
}

pub open spec fn slot_direct(d: Seq<Seq<u8>>, i: int, k: int) -> int {
    le_u32_at(d[inode_block(i)], inode_off(i) + 8 + 4 * k) as int
}

pub open spec fn slot_indirect(d: Seq<Seq<u8>>, i: int) -> int {
    le_u32_at(d[inode_block(i)], inode_off(i) + 32) as int
}

pub open spec fn slot_name(d: Seq<Seq<u8>>, i: int) -> Seq<u8> {
    d[inode_block(i)].subrange(inode_off(i) + 36, inode_off(i) + 36 + slot_name_len(d, i))
}

/// Number of data blocks a file of `size` bytes occupies.
pub open spec fn nblocks(size: int) -> int {
    (size + 511) / 512
}

/// Number of blocks a file of `size` bytes owns: its data blocks, and the
/// indirect block when it needs more than the six direct pointers.
pub open spec fn blocks_for_size(size: int) -> int {
    nblocks(size) + if nblocks(size) > 6 { 1int } else { 0int }
}

/// Entry `k` of the pointer list of inode `i`, `k` counting from the
/// direct pointers into the indirect block.
pub open spec fn slot_ptr(d: Seq<Seq<u8>>, i: int, k: int) -> int {
    if k < 6 {
        slot_direct(d, i, k)
    } else {
        le_u32_at(d[slot_indirect(d, i)], 4 * (k - 6)) as int
    }
}

/// The blocks that inode `i` owns: its data blocks in file order, then its
/// indirect block if it has one.
pub open spec fn slot_blocks(d: Seq<Seq<u8>>, i: int) -> Seq<int> {
    let nb = nblocks(slot_size(d, i));
    Seq::new(
        blocks_for_size(slot_size(d, i)) as nat,
        |a: int| if a < nb { slot_ptr(d, i, a) } else { slot_indirect(d, i) },
    )
}

/// The bytes of the file of inode `i`.
pub open spec fn slot_content(d: Seq<Seq<u8>>, i: int) -> Seq<u8> {
    Seq::new(slot_size(d, i) as nat, |x: int| d[slot_ptr(d, i, x / 512)][x % 512])
}

/// Bitmap bit of data block `r` (counted from the first data block).
pub open spec fn block_bit(d: Seq<Seq<u8>>, r: int) -> bool {
    bit_set(d[17 + (r / 8) / 512][(r / 8) % 512], (r % 8) as u8)
}

/// Number of data blocks on a volume of `n` blocks.
pub open spec fn data_blocks_of(n: int) -> int {
    n - data_start_for(n)
}

/// Data blocks (counted from the first data block) that the bitmap marks free.
pub open spec fn free_set(d: Seq<Seq<u8>>) -> Set<int> {
    Set::new(|r: int| 0 <= r < data_blocks_of(d.len() as int) && !block_bit(d, r))
}

/// Shape of a used inode: a name of at most 28 valid UTF-8 bytes, at most
/// 134 data blocks, unused pointers zero, owned blocks in the data area.
#[verifier::opaque]
pub open spec fn slot_ok(d: Seq<Seq<u8>>, i: int) -> bool {
    let n = d.len() as int;
    let nb = nblocks(slot_size(d, i));
    let blocks = slot_blocks(d, i);
    &&& slot_name_len(d, i) <= 28
    &&& valid_utf8(slot_name(d, i))
    &&& nb <= 134
    &&& forall|k: int| nb <= k < 6 ==> #[trigger] slot_direct(d, i, k) == 0
    &&& nb <= 6 ==> slot_indirect(d, i) == 0
    &&& nb > 6 ==> forall|k: int| nb <= k < 134 ==> #[trigger] slot_ptr(d, i, k) == 0
    &&& forall|a: int|
        0 <= a < blocks.len() ==> data_start_for(n) <= #[trigger] blocks[a] < n
}

/// The volume is laid out as formatting leaves it.
pub open spec fn geometry_ok(d: Seq<Seq<u8>>) -> bool {
    let n = d.len() as int;
    &&& 0 < n <= u32::MAX
    &&& forall|k: int| 0 <= k < n ==> (#[trigger] d[k]).len() == 512
    &&& decode_superblock(d[0]) == layout_for(n)
    &&& data_start_for(n) < n
}

/// Every used inode other than `e` is well shaped.
#[verifier::opaque]
pub open spec fn slots_shaped(d: Seq<Seq<u8>>, e: int) -> bool {
    forall|i: int| 0 <= i < 128 && i != e && #[trigger] slot_used(d, i) ==> slot_ok(d, i)
}

/// No two used inodes carry the same name.
#[verifier::opaque]
pub open spec fn names_unique(d: Seq<Seq<u8>>) -> bool {
    forall|i: int, j: int|
        0 <= i < 128 && 0 <= j < 128 && i != j && #[trigger] slot_used(d, i) && #[trigger] slot_used(d, j)
            ==> slot_name(d, i) != slot_name(d, j)
}

/// The bitmap marks every block owned by a used inode other than `e`.
#[verifier::opaque]
pub open spec fn owned_marked(d: Seq<Seq<u8>>, e: int) -> bool {
    forall|i: int, a: int|
        0 <= i < 128 && i != e && slot_used(d, i) && 0 <= a < slot_blocks(d, i).len()
            ==> block_bit(d, #[trigger] slot_blocks(d, i)[a] - data_start_for(d.len() as int))
}

/// No block is owned twice by used inodes other than `e`.
#[verifier::opaque]
pub open spec fn owned_disjoint(d: Seq<Seq<u8>>, e: int) -> bool {
    forall|i: int, a: int, j: int, b: int|
        0 <= i < 128 && i != e && slot_used(d, i) && 0 <= a < slot_blocks(d, i).len()
        && 0 <= j < 128 && j != e && slot_used(d, j) && 0 <= b < slot_blocks(d, j).len()
        && (i != j || a != b)
            ==> #[trigger] slot_blocks(d, i)[a] != #[trigger] slot_blocks(d, j)[b]
}

/// `extra` lists distinct data blocks, marked used, owned by no used
/// inode other than `e`.
#[verifier::opaque]
pub open spec fn extra_ok(d: Seq<Seq<u8>>, e: int, extra: Seq<int>) -> bool {
    let n = d.len() as int;
    let ds = data_start_for(n);
    &&& forall|a: int| 0 <= a < extra.len() ==> ds <= #[trigger] extra[a] < n
    &&& forall|a: int| 0 <= a < extra.len() ==> block_bit(d, #[trigger] extra[a] - ds)
    &&& extra.no_duplicates()
    &&& forall|i: int, a: int, b: int|
        0 <= i < 128 && i != e && slot_used(d, i) && 0 <= a < slot_blocks(d, i).len()
        && 0 <= b < extra.len()
            ==> #[trigger] slot_blocks(d, i)[a] != #[trigger] extra[b]
}

/// The volume is laid out as formatting leaves it, every used inode other
/// than `e` is well shaped, names are unique, no two owned blocks coincide,
/// and the bitmap marks every owned block. `extra` lists further blocks,
/// marked used and owned by no inode other than `e` (blocks that an
/// operation on inode `e` has taken but not yet recorded there).
pub open spec fn image_ok_except(d: Seq<Seq<u8>>, e: int, extra: Seq<int>) -> bool {
    &&& geometry_ok(d)
    &&& slots_shaped(d, e)
    &&& names_unique(d)
    &&& owned_marked(d, e)
    &&& owned_disjoint(d, e)
    &&& extra_ok(d, e, extra)
}

/// A consistent SimpleFS volume.
pub open spec fn image_ok(d: Seq<Seq<u8>>) -> bool {
    image_ok_except(d, -1, Seq::empty())
}

/// The files of a volume, slot by slot: name bytes and contents.
pub open spec fn image_view(d: Seq<Seq<u8>>) -> Seq<Option<(Seq<u8>, Seq<u8>)>> {
    Seq::new(
        128,
        |i: int|
            if slot_used(d, i) {
                Some((slot_name(d, i), slot_content(d, i)))
            } else {
                None
            },
    )
}


/// Inode `i` reads the same from `d` and `d2` when its 64 bytes and the
/// blocks it owns are the same in both.
pub proof fn lemma_slot_frame(d: Seq<Seq<u8>>, d2: Seq<Seq<u8>>, i: int)
    requires
        0 <= i < 128,
        d.len() == d2.len(),
        inode_block(i) < d.len(),
        d[inode_block(i)].len() == 512,
        d2[inode_block(i)].len() == 512,
        forall|k: int| inode_off(i) <= k < inode_off(i) + 64 ==> #[trigger] d2[inode_block(i)][k] == d[inode_block(i)][k],
        forall|a: int| 0 <= a < slot_blocks(d, i).len() ==> d2[#[trigger] slot_blocks(d, i)[a]] == d[slot_blocks(d, i)[a]],
    ensures
        slot_used(d2, i) == slot_used(d, i),
        slot_name_len(d2, i) == slot_name_len(d, i),
        slot_size(d2, i) == slot_size(d, i),
        slot_indirect(d2, i) == slot_indirect(d, i),
        forall|k: int| 0 <= k < 6 ==> #[trigger] slot_direct(d2, i, k) == slot_direct(d, i, k),
        forall|k: int| 0 <= k < nblocks(slot_size(d, i)) ==> #[trigger] slot_ptr(d2, i, k) == slot_ptr(d, i, k),
        nblocks(slot_size(d, i)) > 6 ==> forall|k: int| 0 <= k < 134 ==> #[trigger] slot_ptr(d2, i, k) == slot_ptr(d, i, k),
        slot_name_len(d, i) <= 28 ==> slot_name(d2, i) == slot_name(d, i),
        slot_blocks(d2, i) == slot_blocks(d, i),
        slot_content(d2, i) == slot_content(d, i),
{
    let ib = inode_block(i);
    let off = inode_off(i);
    assert(d2[ib][off] == d[ib][off]);
    assert(d2[ib][off + 1] == d[ib][off + 1]);
    assert(slot_size(d2, i) == slot_size(d, i)) by {
        assert(d2[ib][off + 4] == d[ib][off + 4]);
        assert(d2[ib][off + 5] == d[ib][off + 5]);
        assert(d2[ib][off + 6] == d[ib][off + 6]);
        assert(d2[ib][off + 7] == d[ib][off + 7]);
    }
    assert(slot_indirect(d2, i) == slot_indirect(d, i)) by {
        assert(d2[ib][off + 32] == d[ib][off + 32]);
        assert(d2[ib][off + 33] == d[ib][off + 33]);
        assert(d2[ib][off + 34] == d[ib][off + 34]);
        assert(d2[ib][off + 35] == d[ib][off + 35]);
    }
    assert forall|k: int| 0 <= k < 6 implies #[trigger] slot_direct(d2, i, k) == slot_direct(d, i, k) by {
        assert(d2[ib][off + 8 + 4 * k] == d[ib][off + 8 + 4 * k]);
        assert(d2[ib][off + 8 + 4 * k + 1] == d[ib][off + 8 + 4 * k + 1]);
        assert(d2[ib][off + 8 + 4 * k + 2] == d[ib][off + 8 + 4 * k + 2]);
        assert(d2[ib][off + 8 + 4 * k + 3] == d[ib][off + 8 + 4 * k + 3]);
    }
    let nb = nblocks(slot_size(d, i));
    let blocks = slot_blocks(d, i);
    if nb > 6 {
        assert(blocks[nb] == slot_indirect(d, i));
        assert(d2[slot_indirect(d, i)] == d[slot_indirect(d, i)]);
    }
    assert forall|k: int| 0 <= k < nblocks(slot_size(d, i)) implies #[trigger] slot_ptr(d2, i, k) == slot_ptr(d, i, k) by {
        if k >= 6 {
            assert(blocks[nb] == slot_indirect(d, i));
        }
    }
    if nb > 6 {
        assert forall|k: int| 0 <= k < 134 implies #[trigger] slot_ptr(d2, i, k) == slot_ptr(d, i, k) by {
            assert(blocks[nb] == slot_indirect(d, i));
        }
    }
    if slot_name_len(d, i) <= 28 {
        assert forall|k: int| 0 <= k < slot_name_len(d, i) implies slot_name(d2, i)[k] == slot_name(d, i)[k] by {
            assert(d2[ib][off + 36 + k] == d[ib][off + 36 + k]);
        }
        assert(slot_name(d2, i) =~= slot_name(d, i));
    }
    assert(slot_blocks(d2, i) =~= slot_blocks(d, i));
    assert forall|x: int| 0 <= x < slot_size(d, i) implies slot_content(d2, i)[x] == slot_content(d, i)[x] by {
        let a = x / 512;
        assert(0 <= a < nb);
        assert(blocks[a] == slot_ptr(d, i, a));
    }
    assert(slot_content(d2, i) =~= slot_content(d, i));
}


/// Inodes read the same from `d2` as from `d` when the inode table is the
/// same and every used inode other than `e` keeps its owned blocks.
pub proof fn lemma_slots_unchanged(d: Seq<Seq<u8>>, d2: Seq<Seq<u8>>, e: int)
    requires
        geometry_ok(d),
        slots_shaped(d, e),
        d2.len() == d.len(),
        forall|k: int| 0 <= k < d2.len() ==> (#[trigger] d2[k]).len() == 512,
        forall|k: int| 0 <= k < 17 ==> #[trigger] d2[k] == d[k],
        forall|i: int, a: int|
            0 <= i < 128 && i != e && slot_used(d, i) && 0 <= a < slot_blocks(d, i).len()
                ==> d2[#[trigger] slot_blocks(d, i)[a]] == d[slot_blocks(d, i)[a]],
    ensures
        forall|i: int| 0 <= i < 128 ==> #[trigger] slot_used(d2, i) == slot_used(d, i),
        forall|i: int| 0 <= i < 128 ==> #[trigger] slot_name(d2, i) == slot_name(d, i),
        forall|i: int| 0 <= i < 128 ==> #[trigger] slot_size(d2, i) == slot_size(d, i),
        forall|i: int| 0 <= i < 128 && i != e && slot_used(d, i) ==> #[trigger] slot_blocks(d2, i) == slot_blocks(d, i),
        forall|i: int| 0 <= i < 128 && i != e && slot_used(d, i) ==> #[trigger] slot_ok(d2, i),
        forall|i: int| 0 <= i < 128 && i != e ==> #[trigger] image_view(d2)[i] == image_view(d)[i],
{
    assert forall|i: int| 0 <= i < 128 implies
        #[trigger] slot_used(d2, i) == slot_used(d, i)
        && slot_name(d2, i) == slot_name(d, i)
        && slot_size(d2, i) == slot_size(d, i) by {
        assert(d2[inode_block(i)] == d[inode_block(i)]);
    }
    assert forall|i: int| 0 <= i < 128 implies #[trigger] slot_name(d2, i) == slot_name(d, i) by {
        assert(slot_used(d2, i) == slot_used(d, i));
    }
    assert forall|i: int| 0 <= i < 128 implies #[trigger] slot_size(d2, i) == slot_size(d, i) by {
        assert(slot_used(d2, i) == slot_used(d, i));
    }
    assert forall|i: int| 0 <= i < 128 && i != e && slot_used(d, i) implies
        #[trigger] slot_blocks(d2, i) == slot_blocks(d, i) by {
        assert(d2[inode_block(i)] == d[inode_block(i)]);
        lemma_slot_frame(d, d2, i);
    }
    assert forall|i: int| 0 <= i < 128 && i != e && slot_used(d, i) implies #[trigger] slot_ok(d2, i) by {
        assert(d2[inode_block(i)] == d[inode_block(i)]);
        reveal(slots_shaped);
        lemma_slot_frame(d, d2, i);
        reveal(slot_ok);
    }
    assert forall|i: int| 0 <= i < 128 && i != e implies #[trigger] image_view(d2)[i] == image_view(d)[i] by {
        assert(d2[inode_block(i)] == d[inode_block(i)]);
        if slot_used(d, i) {
            lemma_slot_frame(d, d2, i);
        }
    }
}

/// The invariant carries over to `d2` when `d2` keeps the superblock, the
/// inode table and the blocks owned by every inode other than `e`, still
/// marks those blocks used, and `extra2` meets the conditions on `extra`.
pub proof fn lemma_transfer(d: Seq<Seq<u8>>, d2: Seq<Seq<u8>>, e: int, extra: Seq<int>, extra2: Seq<int>)
    requires
        image_ok_except(d, e, extra),
        d2.len() == d.len(),
        forall|k: int| 0 <= k < d2.len() ==> (#[trigger] d2[k]).len() == 512,
        forall|k: int| 0 <= k < 17 ==> #[trigger] d2[k] == d[k],
        forall|i: int, a: int|
            0 <= i < 128 && i != e && slot_used(d, i) && 0 <= a < slot_blocks(d, i).len()
                ==> d2[#[trigger] slot_blocks(d, i)[a]] == d[slot_blocks(d, i)[a]],
        forall|i: int, a: int|
            0 <= i < 128 && i != e && slot_used(d, i) && 0 <= a < slot_blocks(d, i).len()
                ==> block_bit(d2, #[trigger] slot_blocks(d, i)[a] - data_start_for(d.len() as int)),
        forall|a: int| 0 <= a < extra2.len() ==> data_start_for(d.len() as int) <= #[trigger] extra2[a] < d.len(),
        forall|a: int| 0 <= a < extra2.len() ==> block_bit(d2, #[trigger] extra2[a] - data_start_for(d.len() as int)),
        extra2.no_duplicates(),
        forall|i: int, a: int, b: int|
            0 <= i < 128 && i != e && slot_used(d, i) && 0 <= a < slot_blocks(d, i).len()
            && 0 <= b < extra2.len()
                ==> #[trigger] slot_blocks(d, i)[a] != #[trigger] extra2[b],
    ensures
        image_ok_except(d2, e, extra2),
        forall|i: int| 0 <= i < 128 ==> #[trigger] slot_used(d2, i) == slot_used(d, i),
        forall|i: int| 0 <= i < 128 ==> #[trigger] slot_name(d2, i) == slot_name(d, i),
        forall|i: int| 0 <= i < 128 ==> #[trigger] slot_size(d2, i) == slot_size(d, i),
        forall|i: int| 0 <= i < 128 && i != e && slot_used(d, i) ==> #[trigger] slot_blocks(d2, i) == slot_blocks(d, i),
        forall|i: int| 0 <= i < 128 && i != e ==> #[trigger] image_view(d2)[i] == image_view(d)[i],
{
    lemma_slots_unchanged(d, d2, e);
    assert(d2[0] == d[0]);
    assert(slots_shaped(d2, e)) by {
        reveal(slots_shaped);
    }
    assert(names_unique(d2)) by {
        reveal(names_unique);
    }
    assert(owned_marked(d2, e)) by {
        reveal(owned_marked);
    }
    assert(owned_disjoint(d2, e)) by {
        reveal(owned_disjoint);
    }
    assert(extra_ok(d2, e, extra2)) by {
        reveal(extra_ok);
    }
}


/// `d2` is `d` with the bitmap bit of data block `r` set to `v`, every other
/// bit and block as it was.
pub open spec fn bit_changed(d: Seq<Seq<u8>>, d2: Seq<Seq<u8>>, r: int, v: bool) -> bool {
    let q = 17 + (r / 8) / 512;
    let byte = (r / 8) % 512;
    &&& d2.len() == d.len()
    &&& forall|k: int| 0 <= k < d.len() && k != q ==> #[trigger] d2[k] == d[k]
    &&& d2[q].len() == 512
    &&& forall|k: int| 0 <= k < 512 && k != byte ==> #[trigger] d2[q][k] == d[q][k]
    &&& forall|j: u8| j < 8 ==> #[trigger] bit_set(d2[q][byte], j) == (if j == (r % 8) as u8 { v } else { bit_set(d[q][byte], j) })
}

pub proof fn lemma_bit_changed(d: Seq<Seq<u8>>, d2: Seq<Seq<u8>>, r: int, v: bool)
    requires
        geometry_ok(d),
        0 <= r < data_blocks_of(d.len() as int),
        bit_changed(d, d2, r, v),
    ensures
        17 <= 17 + (r / 8) / 512 < data_start_for(d.len() as int),
        forall|k: int| 0 <= k < d2.len() ==> (#[trigger] d2[k]).len() == 512,
        forall|s: int| 0 <= s < data_blocks_of(d.len() as int) ==> #[trigger] block_bit(d2, s) == if s == r { v } else { block_bit(d, s) },
{
    let n = d.len() as int;
    assert((r / 8) / 512 == r / 4096);
    assert(r / 4096 < (n + 4095) / 4096);
    assert forall|s: int| 0 <= s < data_blocks_of(n) implies #[trigger] block_bit(d2, s) == if s == r { v } else { block_bit(d, s) } by {
        let q = 17 + (r / 8) / 512;
        let qs = 17 + (s / 8) / 512;
        if qs == q && (s / 8) % 512 == (r / 8) % 512 {
            assert(s / 8 == r / 8);
            assert(((s % 8) as u8) < 8);
        }
    }
}

/// Marking free data block `r` used: the invariant holds with block `ds + r`
/// added to `extra`, and `r` leaves the free set.
pub proof fn lemma_take_block(d: Seq<Seq<u8>>, d2: Seq<Seq<u8>>, e: int, extra: Seq<int>, r: int)
    requires
        image_ok_except(d, e, extra),
        0 <= r < data_blocks_of(d.len() as int),
        !block_bit(d, r),
        bit_changed(d, d2, r, true),
    ensures
        image_ok_except(d2, e, extra.push(data_start_for(d.len() as int) + r)),
        free_set(d2) == free_set(d).remove(r),
        forall|i: int| 0 <= i < 128 ==> #[trigger] slot_used(d2, i) == slot_used(d, i),
        forall|i: int| 0 <= i < 128 ==> #[trigger] slot_name(d2, i) == slot_name(d, i),
        forall|i: int| 0 <= i < 128 ==> #[trigger] slot_size(d2, i) == slot_size(d, i),
        forall|i: int| 0 <= i < 128 && i != e && slot_used(d, i) ==> #[trigger] slot_blocks(d2, i) == slot_blocks(d, i),
        forall|i: int| 0 <= i < 128 && i != e ==> #[trigger] image_view(d2)[i] == image_view(d)[i],
        forall|k: int| 0 <= k < d.len() && k >= data_start_for(d.len() as int) ==> #[trigger] d2[k] == d[k],
{
    let n = d.len() as int;
    let ds = data_start_for(n);
    let b = ds + r;
    let extra2 = extra.push(b);
    lemma_bit_changed(d, d2, r, true);
    assert forall|i: int, a: int|
        0 <= i < 128 && i != e && slot_used(d, i) && 0 <= a < slot_blocks(d, i).len()
            implies d2[#[trigger] slot_blocks(d, i)[a]] == d[slot_blocks(d, i)[a]] by {
        reveal(slots_shaped);
        reveal(slot_ok);
    }
    assert forall|i: int, a: int|
        0 <= i < 128 && i != e && slot_used(d, i) && 0 <= a < slot_blocks(d, i).len()
            implies block_bit(d2, #[trigger] slot_blocks(d, i)[a] - ds) by {
        reveal(slots_shaped);
        reveal(slot_ok);
        reveal(owned_marked);
    }
    assert forall|i: int, a: int, c: int|
        0 <= i < 128 && i != e && slot_used(d, i) && 0 <= a < slot_blocks(d, i).len()
        && 0 <= c < extra2.len()
            implies #[trigger] slot_blocks(d, i)[a] != #[trigger] extra2[c] by {
        reveal(owned_marked);
        reveal(extra_ok);
        if c == extra.len() {
            assert(block_bit(d, slot_blocks(d, i)[a] - ds));
        } else {
            assert(extra2[c] == extra[c]);
        }
    }
    assert forall|a: int| 0 <= a < extra2.len() implies block_bit(d2, #[trigger] extra2[a] - ds) by {
        reveal(extra_ok);
        if a < extra.len() {
            assert(extra2[a] == extra[a]);
            assert(block_bit(d, extra[a] - ds));
        }
    }
    assert forall|a: int| 0 <= a < extra2.len() implies ds <= #[trigger] extra2[a] < n by {
        reveal(extra_ok);
        if a < extra.len() {
            assert(extra2[a] == extra[a]);
        }
    }
    assert(extra2.no_duplicates()) by {
        reveal(extra_ok);
        assert forall|a: int, c: int| 0 <= a < c < extra2.len() implies extra2[a] != extra2[c] by {
            assert(extra2[a] == extra[a]);
            if c == extra.len() {
                assert(block_bit(d, extra[a] - ds));
            } else {
                assert(extra2[c] == extra[c]);
            }
        }
    }
    lemma_transfer(d, d2, e, extra, extra2);
    assert(free_set(d2) =~= free_set(d).remove(r));
}

/// Marking the first block of `extra` free: the invariant holds without it,
/// and it joins the free set.
pub proof fn lemma_release_block(d: Seq<Seq<u8>>, d2: Seq<Seq<u8>>, e: int, extra: Seq<int>)
    requires
        image_ok_except(d, e, extra),
        extra.len() > 0,
        bit_changed(d, d2, extra[0] - data_start_for(d.len() as int), false),
    ensures
        image_ok_except(d2, e, extra.drop_first()),
        free_set(d2) == free_set(d).insert(extra[0] - data_start_for(d.len() as int)),
        !free_set(d).contains(extra[0] - data_start_for(d.len() as int)),
        forall|i: int| 0 <= i < 128 ==> #[trigger] slot_used(d2, i) == slot_used(d, i),
        forall|i: int| 0 <= i < 128 ==> #[trigger] slot_name(d2, i) == slot_name(d, i),
        forall|i: int| 0 <= i < 128 ==> #[trigger] slot_size(d2, i) == slot_size(d, i),
        forall|i: int| 0 <= i < 128 && i != e && slot_used(d, i) ==> #[trigger] slot_blocks(d2, i) == slot_blocks(d, i),
        forall|i: int| 0 <= i < 128 && i != e ==> #[trigger] image_view(d2)[i] == image_view(d)[i],
        forall|k: int| 0 <= k < d.len() && k >= data_start_for(d.len() as int) ==> #[trigger] d2[k] == d[k],
{
    let n = d.len() as int;
    let ds = data_start_for(n);
    let r = extra[0] - ds;
    let extra2 = extra.drop_first();
    reveal(owned_marked);
    reveal(extra_ok);
    reveal(slots_shaped);
    assert(0 <= r < data_blocks_of(n));
    lemma_bit_changed(d, d2, r, false);
    assert forall|i: int, a: int|
        0 <= i < 128 && i != e && slot_used(d, i) && 0 <= a < slot_blocks(d, i).len()
            implies d2[#[trigger] slot_blocks(d, i)[a]] == d[slot_blocks(d, i)[a]] by {
        reveal(slot_ok);
    }
    assert forall|i: int, a: int|
        0 <= i < 128 && i != e && slot_used(d, i) && 0 <= a < slot_blocks(d, i).len()
            implies block_bit(d2, #[trigger] slot_blocks(d, i)[a] - ds) by {
        reveal(slot_ok);
        assert(slot_blocks(d, i)[a] != extra[0]);
    }
    assert forall|a: int| 0 <= a < extra2.len() implies block_bit(d2, #[trigger] extra2[a] - ds) by {
        assert(extra[a + 1] != extra[0]);
        assert(block_bit(d, extra[a + 1] - ds));
    }
    assert forall|a: int| 0 <= a < extra2.len() implies ds <= #[trigger] extra2[a] < n by {
        assert(extra2[a] == extra[a + 1]);
    }
    assert(extra2.no_duplicates()) by {
        assert forall|a: int, c: int| 0 <= a < c < extra2.len() implies extra2[a] != extra2[c] by {
            assert(extra2[a] == extra[a + 1]);
            assert(extra2[c] == extra[c + 1]);
        }
    }
    assert forall|i: int, a: int, c: int|
        0 <= i < 128 && i != e && slot_used(d, i) && 0 <= a < slot_blocks(d, i).len()
        && 0 <= c < extra2.len()
            implies #[trigger] slot_blocks(d, i)[a] != #[trigger] extra2[c] by {
        assert(extra2[c] == extra[c + 1]);
    }
    lemma_transfer(d, d2, e, extra, extra2);
    assert(block_bit(d, r));
    assert(free_set(d2) =~= free_set(d).insert(r));
}


/// On a consistent volume, the blocks of a used inode `e` are exactly what
/// the invariant needs as `extra` when `e` is set aside.
pub proof fn lemma_set_aside(d: Seq<Seq<u8>>, e: int)
    requires
        image_ok(d),
        0 <= e < 128,
        slot_used(d, e),
    ensures
        image_ok_except(d, e, slot_blocks(d, e)),
        slot_ok(d, e),
{
    let ds = data_start_for(d.len() as int);
    let ex = slot_blocks(d, e);
    assert(slot_ok(d, e)) by {
        reveal(slots_shaped);
    }
    assert(slots_shaped(d, e)) by {
        reveal(slots_shaped);
    }
    assert(owned_marked(d, e)) by {
        reveal(owned_marked);
    }
    assert(owned_disjoint(d, e)) by {
        reveal(owned_disjoint);
    }
    assert(extra_ok(d, e, ex)) by {
        reveal(extra_ok);
        reveal(owned_marked);
        reveal(owned_disjoint);
        reveal(slot_ok);
        assert forall|a: int| 0 <= a < ex.len() implies block_bit(d, #[trigger] ex[a] - ds) by {
        }
        assert forall|a: int, c: int| 0 <= a < c < ex.len() implies ex[a] != ex[c] by {
        }
        assert forall|i: int, a: int, b: int|
            0 <= i < 128 && i != e && slot_used(d, i) && 0 <= a < slot_blocks(d, i).len()
            && 0 <= b < ex.len()
                implies #[trigger] slot_blocks(d, i)[a] != #[trigger] ex[b] by {
        }
    }
}

/// `d2` is `d` with the 64 bytes of inode `e` rewritten and nothing else.
pub open spec fn inode_rewritten(d: Seq<Seq<u8>>, d2: Seq<Seq<u8>>, e: int) -> bool {
    let ib = inode_block(e);
    &&& d2.len() == d.len()
    &&& forall|k: int| 0 <= k < d.len() && k != ib ==> #[trigger] d2[k] == d[k]
    &&& d2[ib].len() == 512
    &&& forall|k: int| 0 <= k < 512 && !(inode_off(e) <= k < inode_off(e) + 64) ==> #[trigger] d2[ib][k] == d[ib][k]
}

/// Rewriting inode `e` leaves inode `i` as it was.
pub proof fn lemma_rewrite_other(d: Seq<Seq<u8>>, d2: Seq<Seq<u8>>, e: int, i: int)
    requires
        geometry_ok(d),
        slots_shaped(d, e),
        0 <= e < 128,
        0 <= i < 128,
        i != e,
        inode_rewritten(d, d2, e),
        forall|k: int| 0 <= k < d2.len() ==> (#[trigger] d2[k]).len() == 512,
    ensures
        slot_used(d2, i) == slot_used(d, i),
        slot_used(d, i) ==> slot_name(d2, i) == slot_name(d, i),
        slot_used(d, i) ==> slot_blocks(d2, i) == slot_blocks(d, i),
        slot_used(d, i) ==> slot_ok(d2, i),
        image_view(d2)[i] == image_view(d)[i],
{
    let ib = inode_block(e);
    assert forall|k: int| inode_off(i) <= k < inode_off(i) + 64 implies #[trigger] d2[inode_block(i)][k] == d[inode_block(i)][k] by {
        if inode_block(i) == ib {
            assert(i % 8 != e % 8);
        }
    }
    assert(d2[inode_block(i)][inode_off(i)] == d[inode_block(i)][inode_off(i)]);
    assert(d2[inode_block(i)][inode_off(i) + 1] == d[inode_block(i)][inode_off(i) + 1]);
    if slot_used(d, i) {
        reveal(slots_shaped);
        reveal(slot_ok);
        assert(slot_name(d2, i) =~= slot_name(d, i));
        assert forall|a: int| 0 <= a < slot_blocks(d, i).len() implies d2[#[trigger] slot_blocks(d, i)[a]] == d[slot_blocks(d, i)[a]] by {
        }
        lemma_slot_frame(d, d2, i);
    }
}

/// Rewriting inode `e` leaves every other inode, the bitmap and the data
/// blocks as they were.
pub proof fn lemma_rewrite_frame(d: Seq<Seq<u8>>, d2: Seq<Seq<u8>>, e: int)
    requires
        geometry_ok(d),
        slots_shaped(d, e),
        0 <= e < 128,
        inode_rewritten(d, d2, e),
    ensures
        geometry_ok(d2),
        forall|s: int| 0 <= s < data_blocks_of(d.len() as int) ==> #[trigger] block_bit(d2, s) == block_bit(d, s),
        free_set(d2) == free_set(d),
        forall|i: int| 0 <= i < 128 && i != e ==> #[trigger] slot_used(d2, i) == slot_used(d, i),
        forall|i: int| 0 <= i < 128 && i != e && slot_used(d, i) ==> #[trigger] slot_name(d2, i) == slot_name(d, i),
        forall|i: int| 0 <= i < 128 && i != e && slot_used(d, i) ==> #[trigger] slot_blocks(d2, i) == slot_blocks(d, i),
        forall|i: int| 0 <= i < 128 && i != e && slot_used(d, i) ==> #[trigger] slot_ok(d2, i),
        forall|i: int| 0 <= i < 128 && i != e ==> #[trigger] image_view(d2)[i] == image_view(d)[i],
        forall|k: int| 0 <= k < d.len() && k >= 17 ==> #[trigger] d2[k] == d[k],
{
    let n = d.len() as int;
    let ib = inode_block(e);
    assert forall|k: int| 0 <= k < n implies (#[trigger] d2[k]).len() == 512 by {
        if k != ib {
            assert(d2[k] == d[k]);
        }
    }
    assert(d2[0] == d[0]);
    assert forall|s: int| 0 <= s < data_blocks_of(n) implies #[trigger] block_bit(d2, s) == block_bit(d, s) by {
        assert((s / 8) / 512 == s / 4096);
        assert(s / 4096 < (n + 4095) / 4096);
        assert(d2[17 + (s / 8) / 512] == d[17 + (s / 8) / 512]);
    }
    assert(free_set(d2) =~= free_set(d));
    assert forall|i: int| 0 <= i < 128 && i != e implies
        #[trigger] slot_used(d2, i) == slot_used(d, i)
        && (slot_used(d, i) ==> slot_name(d2, i) == slot_name(d, i))
        && (slot_used(d, i) ==> slot_blocks(d2, i) == slot_blocks(d, i))
        && (slot_used(d, i) ==> slot_ok(d2, i))
        && image_view(d2)[i] == image_view(d)[i] by {
        lemma_rewrite_other(d, d2, e, i);
    }
    assert forall|i: int| 0 <= i < 128 && i != e && slot_used(d, i) implies #[trigger] slot_name(d2, i) == slot_name(d, i) by {
        assert(slot_used(d2, i) == slot_used(d, i));
    }
    assert forall|i: int| 0 <= i < 128 && i != e && slot_used(d, i) implies #[trigger] slot_blocks(d2, i) == slot_blocks(d, i) by {
        assert(slot_used(d2, i) == slot_used(d, i));
    }
    assert forall|i: int| 0 <= i < 128 && i != e && slot_used(d, i) implies #[trigger] slot_ok(d2, i) by {
        assert(slot_used(d2, i) == slot_used(d, i));
    }
    assert forall|i: int| 0 <= i < 128 && i != e implies #[trigger] image_view(d2)[i] == image_view(d)[i] by {
        assert(slot_used(d2, i) == slot_used(d, i));
    }
}

/// Recording in inode `e` exactly the blocks of `extra` (or clearing an
/// inode that owns nothing) restores the full invariant.
pub proof fn lemma_commit(d: Seq<Seq<u8>>, d2: Seq<Seq<u8>>, e: int, extra: Seq<int>)
    requires
        image_ok_except(d, e, extra),
        0 <= e < 128,
        inode_rewritten(d, d2, e),
        slot_used(d2, e) ==> slot_ok(d2, e),
        slot_used(d2, e) ==> slot_blocks(d2, e) == extra,
        slot_used(d2, e) ==> forall|j: int| 0 <= j < 128 && j != e && #[trigger] slot_used(d, j) ==> slot_name(d2, e) != slot_name(d, j),
        !slot_used(d2, e) ==> extra.len() == 0,
    ensures
        image_ok(d2),
        free_set(d2) == free_set(d),
        forall|i: int| 0 <= i < 128 && i != e ==> #[trigger] image_view(d2)[i] == image_view(d)[i],
{
    let n = d.len() as int;
    let ds = data_start_for(n);
    lemma_rewrite_frame(d, d2, e);
    assert(slots_shaped(d2, -1)) by {
        reveal(slots_shaped);
        assert forall|i: int| 0 <= i < 128 && i != -1 && #[trigger] slot_used(d2, i) implies slot_ok(d2, i) by {
            if i != e {
                assert(slot_used(d, i));
            }
        }
    }
    assert(names_unique(d2)) by {
        reveal(names_unique);
        assert forall|i: int, j: int|
            0 <= i < 128 && 0 <= j < 128 && i != j && #[trigger] slot_used(d2, i) && #[trigger] slot_used(d2, j)
                implies slot_name(d2, i) != slot_name(d2, j) by {
            if i == e {
                assert(slot_used(d, j));
            } else if j == e {
                assert(slot_used(d, i));
            } else {
                assert(slot_used(d, i) && slot_used(d, j));
            }
        }
    }
    assert(owned_marked(d2, -1)) by {
        reveal(owned_marked);
        reveal(extra_ok);
        assert forall|i: int, a: int|
            0 <= i < 128 && i != -1 && slot_used(d2, i) && 0 <= a < slot_blocks(d2, i).len()
                implies block_bit(d2, #[trigger] slot_blocks(d2, i)[a] - ds) by {
            if i == e {
                assert(slot_blocks(d2, i)[a] == extra[a]);
            } else {
                assert(slot_used(d, i));
                assert(slot_blocks(d2, i) == slot_blocks(d, i));
                reveal(slots_shaped);
                reveal(slot_ok);
                assert(slot_blocks(d, i)[a] - ds < data_blocks_of(n));
            }
        }
    }
    assert(owned_disjoint(d2, -1)) by {
        reveal(owned_disjoint);
        reveal(extra_ok);
        assert forall|i: int, a: int, j: int, b: int|
            0 <= i < 128 && i != -1 && slot_used(d2, i) && 0 <= a < slot_blocks(d2, i).len()
            && 0 <= j < 128 && j != -1 && slot_used(d2, j) && 0 <= b < slot_blocks(d2, j).len()
            && (i != j || a != b)
                implies #[trigger] slot_blocks(d2, i)[a] != #[trigger] slot_blocks(d2, j)[b] by {
            if i == e && j == e {
                assert(slot_blocks(d2, i)[a] == extra[a]);
                assert(slot_blocks(d2, j)[b] == extra[b]);
            } else if i == e {
                assert(slot_used(d, j));
                assert(slot_blocks(d2, j) == slot_blocks(d, j));
                assert(slot_blocks(d2, i)[a] == extra[a]);
                assert(slot_blocks(d, j)[b] != extra[a]);
            } else if j == e {
                assert(slot_used(d, i));
                assert(slot_blocks(d2, i) == slot_blocks(d, i));
                assert(slot_blocks(d2, j)[b] == extra[b]);
                assert(slot_blocks(d, i)[a] != extra[b]);
            } else {
                assert(slot_used(d, i) && slot_used(d, j));
                assert(slot_blocks(d2, i) == slot_blocks(d, i));
                assert(slot_blocks(d2, j) == slot_blocks(d, j));
            }
        }
    }
    assert(extra_ok(d2, -1, Seq::empty())) by {
        reveal(extra_ok);
    }
}


/// The free set lies in the data area, so it is finite.
pub proof fn lemma_free_set_finite(d: Seq<Seq<u8>>)
    ensures
        free_set(d).finite(),
        free_set(d).len() <= if data_blocks_of(d.len() as int) >= 0 { data_blocks_of(d.len() as int) } else { 0 },
{
    let db = data_blocks_of(d.len() as int);
    let hi = if db >= 0 { db } else { 0 };
    lemma_int_range(0, hi);
    assert(free_set(d).subset_of(set_int_range(0, hi)));
    lemma_len_subset(free_set(d), set_int_range(0, hi));
}

/// A block of zeros.
pub open spec fn zero_block() -> Seq<u8> {
    Seq::new(512, |i: int| 0u8)
}

/// A volume whose superblock is the formatted one and whose inode table
/// and bitmap are zero is consistent, holds no files, and has every data
/// block free.
pub proof fn lemma_formatted(d: Seq<Seq<u8>>)
    requires
        geometry_ok(d),
        forall|k: int| 1 <= k < data_start_for(d.len() as int) ==> #[trigger] d[k] == zero_block(),
    ensures
        image_ok(d),
        image_view(d) == Seq::new(128, |i: int| None::<(Seq<u8>, Seq<u8>)>),
        free_set(d) == set_int_range(0, data_blocks_of(d.len() as int)),
        free_set(d).len() == data_blocks_of(d.len() as int),
        free_set(d).finite(),
{
    let n = d.len() as int;
    assert forall|i: int| 0 <= i < 128 implies !#[trigger] slot_used(d, i) by {
        assert(d[inode_block(i)] == zero_block());
    }
    assert(slots_shaped(d, -1)) by {
        reveal(slots_shaped);
    }
    assert(names_unique(d)) by {
        reveal(names_unique);
    }
    assert(owned_marked(d, -1)) by {
        reveal(owned_marked);
    }
    assert(owned_disjoint(d, -1)) by {
        reveal(owned_disjoint);
    }
    assert(extra_ok(d, -1, Seq::empty())) by {
        reveal(extra_ok);
    }
    assert(image_view(d) =~= Seq::new(128, |i: int| None::<(Seq<u8>, Seq<u8>)>));
    assert forall|r: int| 0 <= r < data_blocks_of(n) implies !#[trigger] block_bit(d, r) by {
        assert((r / 8) / 512 == r / 4096);
        assert(r / 4096 < (n + 4095) / 4096);
        assert(d[17 + (r / 8) / 512] == zero_block());
        lemma_bit_zero_byte((r % 8) as u8);
    }
    assert(free_set(d) =~= set_int_range(0, data_blocks_of(n)));
    lemma_int_range(0, data_blocks_of(n));
}


/// The fields of an inode stored at slot `i` are what the slot reads.
pub proof fn lemma_inode_fields(d: Seq<Seq<u8>>, i: int, ino: Inode)
    requires
        0 <= i < 128,
        inode_block(i) < d.len(),
        d[inode_block(i)].len() == 512,
        ino.stored_at(d[inode_block(i)], inode_off(i)),
    ensures
        slot_used(d, i) == ino.used,
        slot_name_len(d, i) == ino.name_len,
        slot_size(d, i) == ino.size,
        slot_indirect(d, i) == ino.indirect,
        forall|k: int| 0 <= k < 6 ==> #[trigger] slot_direct(d, i, k) == ino.direct@[k],
        ino.name_len <= 28 ==> slot_name(d, i) == ino.name@.subrange(0, ino.name_len as int),
{
    if ino.name_len <= 28 {
        assert(slot_name(d, i) =~= ino.name@.subrange(0, ino.name_len as int));
    }
}


/// Setting aside an unused inode, with nothing taken for it, keeps the
/// invariant.
pub proof fn lemma_set_aside_unused(d: Seq<Seq<u8>>, e: int)
    requires
        image_ok(d),
        0 <= e < 128,
        !slot_used(d, e),
    ensures
        image_ok_except(d, e, Seq::empty()),
{
    assert(slots_shaped(d, e)) by {
        reveal(slots_shaped);
    }
    assert(owned_marked(d, e)) by {
        reveal(owned_marked);
    }
    assert(owned_disjoint(d, e)) by {
        reveal(owned_disjoint);
    }
    assert(extra_ok(d, e, Seq::empty())) by {
        reveal(extra_ok);
    }
}

/// Used inodes of a consistent volume are well shaped.
pub proof fn lemma_used_slot_ok(d: Seq<Seq<u8>>, e: int, extra: Seq<int>, i: int)
    requires
        image_ok_except(d, e, extra),
        0 <= i < 128,
        i != e,
        slot_used(d, i),
    ensures
        slot_ok(d, i),
        slot_name_len(d, i) <= 28,
        valid_utf8(slot_name(d, i)),
{
    reveal(slots_shaped);
    reveal(slot_ok);
}

/// Used inodes of a consistent volume carry distinct names.
pub proof fn lemma_names_distinct(d: Seq<Seq<u8>>, i: int, j: int)
    requires
        names_unique(d),
        0 <= i < 128,
        0 <= j < 128,
        slot_used(d, i),
        slot_used(d, j),
        slot_name(d, i) == slot_name(d, j),
    ensures
        i == j,
{
    reveal(names_unique);
}


/// Writing a fresh, empty, uniquely named inode into unused slot `e` of a
/// consistent volume gives a consistent volume with one more (empty) file.
pub proof fn lemma_create_slot(d: Seq<Seq<u8>>, d2: Seq<Seq<u8>>, e: int, ino: Inode, nm: Seq<u8>)
    requires
        image_ok(d),
        0 <= e < 128,
        !slot_used(d, e),
        inode_rewritten(d, d2, e),
        ino.stored_at(d2[inode_block(e)], inode_off(e)),
        ino.used,
        ino.name_len == nm.len(),
        nm.len() <= 28,
        ino.name@.subrange(0, ino.name_len as int) == nm,
        valid_utf8(nm),
        ino.size == 0,
        ino.indirect == 0,
        forall|k: int| 0 <= k < 6 ==> ino.direct@[k] == 0,
        forall|j: int| 0 <= j < 128 && #[trigger] slot_used(d, j) ==> slot_name(d, j) != nm,
    ensures
        image_ok(d2),
        image_view(d2) == image_view(d).update(e, Some((nm, Seq::<u8>::empty()))),
        free_set(d2) == free_set(d),
{
    lemma_inode_fields(d2, e, ino);
    lemma_set_aside_unused(d, e);
    assert(slot_blocks(d2, e) =~= Seq::<int>::empty());
    assert(slot_ok(d2, e)) by {
        reveal(slot_ok);
    }
    lemma_commit(d, d2, e, Seq::empty());
    assert(slot_content(d2, e) =~= Seq::<u8>::empty());
    assert(image_view(d2) =~= image_view(d).update(e, Some((nm, Seq::<u8>::empty()))));
}


/// Bit `bit` of byte `byte` of bitmap block `q` stands for data block
/// `4096 * q + 8 * byte + bit`.
pub proof fn lemma_bit_position(q: int, byte: int, bit: int)
    requires
        0 <= q,
        0 <= byte < 512,
        0 <= bit < 8,
    ensures
        ({
            let r = 4096 * q + 8 * byte + bit;
            &&& r / 8 == 512 * q + byte
            &&& r % 8 == bit
            &&& (r / 8) / 512 == q
            &&& (r / 8) % 512 == byte
        }),
{
    let r = 4096 * q + 8 * byte + bit;
    lemma_fundamental_div_mod_converse(r, 8, 512 * q + byte, bit);
    lemma_fundamental_div_mod_converse(512 * q + byte, 512, q, byte);
}


/// Freeing the head of `extra`, as the bitmap update `d2` does, in the
/// terms the filesystem tracks: the invariant without that block, one more
/// free block, inode table and data area unchanged.
pub proof fn lemma_release_step(d: Seq<Seq<u8>>, d2: Seq<Seq<u8>>, e: int, extra: Seq<int>)
    requires
        image_ok_except(d, e, extra),
        extra.len() > 0,
        bit_changed(d, d2, extra[0] - data_start_for(d.len() as int), false),
    ensures
        image_ok_except(d2, e, extra.drop_first()),
        free_set(d2).len() == free_set(d).len() + 1,
        forall|k: int| 0 <= k < d.len() && (k < 17 || k >= data_start_for(d.len() as int)) ==> #[trigger] d2[k] == d[k],
        forall|i: int| 0 <= i < 128 && i != e ==> #[trigger] image_view(d2)[i] == image_view(d)[i],
        forall|s: int| 0 <= s < data_blocks_of(d.len() as int) ==> #[trigger] block_bit(d2, s)
            == if s == extra[0] - data_start_for(d.len() as int) { false } else { block_bit(d, s) },
{
    reveal(extra_ok);
    lemma_release_block(d, d2, e, extra);
    lemma_free_set_finite(d);
    lemma_bit_changed(d, d2, extra[0] - data_start_for(d.len() as int), false);
}

/// Clearing the bit of `fb[c]` after those of `fb.take(c)`: the bits
/// cleared so far are those of `fb.take(c + 1)`.
pub proof fn lemma_cleared_step(d: Seq<Seq<u8>>, cur: Seq<Seq<u8>>, cur2: Seq<Seq<u8>>, fb: Seq<int>, c: int, ds: int, nd: int)
    requires
        0 <= c < fb.len(),
        forall|s: int| 0 <= s < nd ==> #[trigger] block_bit(cur, s) == (block_bit(d, s) && !fb.take(c).contains(s + ds)),
        forall|s: int| 0 <= s < nd ==> #[trigger] block_bit(cur2, s) == if s == fb[c] - ds { false } else { block_bit(cur, s) },
    ensures
        forall|s: int| 0 <= s < nd ==> #[trigger] block_bit(cur2, s) == (block_bit(d, s) && !fb.take(c + 1).contains(s + ds)),
{
    let t = fb.take(c);
    assert(fb.take(c + 1) =~= t.push(fb[c]));
    assert forall|s: int| 0 <= s < nd implies #[trigger] block_bit(cur2, s) == (block_bit(d, s) && !fb.take(c + 1).contains(s + ds)) by {
        let y = s + ds;
        if y == fb[c] {
            assert(t.push(fb[c])[c] == y);
        } else {
            if t.push(fb[c]).contains(y) {
                let k = choose|k: int| 0 <= k < t.push(fb[c]).len() && t.push(fb[c])[k] == y;
                assert(k < c);
                assert(t[k] == y);
            }
            if t.contains(y) {
                let k = choose|k: int| 0 <= k < t.len() && t[k] == y;
                assert(t.push(fb[c])[k] == y);
            }
        }
    }
}

/// Taking free data block `r`, as the bitmap update `d2` does, in the terms
/// the filesystem tracks: the invariant with that block added to `extra`,
/// one free block fewer, inode table and data area unchanged.
pub proof fn lemma_take_step(d: Seq<Seq<u8>>, d2: Seq<Seq<u8>>, e: int, extra: Seq<int>, r: int)
    requires
        image_ok_except(d, e, extra),
        0 <= r < data_blocks_of(d.len() as int),
        !block_bit(d, r),
        bit_changed(d, d2, r, true),
    ensures
        image_ok_except(d2, e, extra.push(data_start_for(d.len() as int) + r)),
        free_set(d2).len() + 1 == free_set(d).len(),
        forall|k: int| 0 <= k < d.len() && (k < 17 || k >= data_start_for(d.len() as int)) ==> #[trigger] d2[k] == d[k],
        forall|i: int| 0 <= i < 128 && i != e ==> #[trigger] image_view(d2)[i] == image_view(d)[i],
{
    lemma_take_block(d, d2, e, extra, r);
    lemma_free_set_finite(d);
    lemma_bit_changed(d, d2, r, true);
    assert(free_set(d).contains(r));
}


/// What a well-shaped inode promises, spelled out.
pub proof fn lemma_slot_ok_facts(d: Seq<Seq<u8>>, i: int)
    requires
        slot_ok(d, i),
    ensures
        slot_name_len(d, i) <= 28,
        valid_utf8(slot_name(d, i)),
        nblocks(slot_size(d, i)) <= 134,
        forall|k: int| nblocks(slot_size(d, i)) <= k < 6 ==> #[trigger] slot_direct(d, i, k) == 0,
        nblocks(slot_size(d, i)) <= 6 ==> slot_indirect(d, i) == 0,
        nblocks(slot_size(d, i)) > 6 ==> forall|k: int| nblocks(slot_size(d, i)) <= k < 134 ==> #[trigger] slot_ptr(d, i, k) == 0,
        forall|a: int|
            0 <= a < slot_blocks(d, i).len() ==> data_start_for(d.len() as int) <= #[trigger] slot_blocks(d, i)[a] < d.len(),
{
    reveal(slot_ok);
}


/// How the pointers of a well-shaped inode `ino` at slot `e` list the
/// blocks it owns.
pub proof fn lemma_owned_pointers(d: Seq<Seq<u8>>, e: int, ino: Inode)
    requires
        geometry_ok(d),
        0 <= e < 128,
        slot_ok(d, e),
        ino.stored_at(d[inode_block(e)], inode_off(e)),
    ensures
        ({
            let nb = nblocks(slot_size(d, e));
            let fb = slot_blocks(d, e);
            &&& ino.size == slot_size(d, e)
            &&& nb <= 134
            &&& fb.len() == blocks_for_size(slot_size(d, e))
            &&& forall|k: int| 0 <= k < 6 ==>
                (k < nb ==> ino.direct@[k] == fb[k] && ino.direct@[k] != 0)
                && (k >= nb ==> #[trigger] ino.direct@[k] == 0)
            &&& (ino.indirect != 0) == (nb > 6)
            &&& nb > 6 ==> fb[nb] == ino.indirect && fb.len() == nb + 1
            &&& nb <= 6 ==> fb.len() == nb
            &&& forall|a: int| 0 <= a < fb.len() ==> data_start_for(d.len() as int) <= #[trigger] fb[a] < d.len()
        }),
{
    let nb = nblocks(slot_size(d, e));
    let fb = slot_blocks(d, e);
    lemma_inode_fields(d, e, ino);
    lemma_slot_ok_facts(d, e);
    assert forall|k: int| 0 <= k < 6 implies
        (k < nb ==> ino.direct@[k] == fb[k] && ino.direct@[k] != 0)
        && (k >= nb ==> #[trigger] ino.direct@[k] == 0) by {
        assert(slot_direct(d, e, k) == ino.direct@[k]);
        if k < nb {
            assert(fb[k] == slot_ptr(d, e, k));
        }
    }
    if nb > 6 {
        assert(fb[nb] == slot_indirect(d, e));
    }
}

/// The indirect block of a well-shaped inode lists its blocks past the
/// sixth, then zeros.
pub proof fn lemma_indirect_pointers(d: Seq<Seq<u8>>, e: int, buf: Seq<u8>)
    requires
        slot_ok(d, e),
        nblocks(slot_size(d, e)) > 6,
        buf == d[slot_indirect(d, e)],
    ensures
        forall|k: int| 0 <= k < 128 ==>
            (6 + k < nblocks(slot_size(d, e)) ==> le_u32_at(buf, 4 * k) == slot_blocks(d, e)[6 + k] && le_u32_at(buf, 4 * k) != 0)
            && (6 + k >= nblocks(slot_size(d, e)) ==> #[trigger] le_u32_at(buf, 4 * k) == 0),
{
    let nb = nblocks(slot_size(d, e));
    let fb = slot_blocks(d, e);
    lemma_slot_ok_facts(d, e);
    assert forall|k: int| 0 <= k < 128 implies
        (6 + k < nb ==> le_u32_at(buf, 4 * k) == fb[6 + k] && le_u32_at(buf, 4 * k) != 0)
        && (6 + k >= nb ==> #[trigger] le_u32_at(buf, 4 * k) == 0) by {
        assert(slot_ptr(d, e, 6 + k) == le_u32_at(d[slot_indirect(d, e)], 4 * k));
        if 6 + k < nb {
            assert(fb[6 + k] == slot_ptr(d, e, 6 + k));
        }
    }
}


/// Writing a block listed in `extra` keeps the invariant and touches no
/// inode other than `e`.
pub proof fn lemma_write_extra(d: Seq<Seq<u8>>, d2: Seq<Seq<u8>>, e: int, extra: Seq<int>, a: int, x: Seq<u8>)
    requires
        image_ok_except(d, e, extra),
        0 <= a < extra.len(),
        x.len() == 512,
        d2 == d.update(extra[a], x),
    ensures
        image_ok_except(d2, e, extra),
        free_set(d2) == free_set(d),
        forall|k: int| 0 <= k < d.len() && k != extra[a] ==> #[trigger] d2[k] == d[k],
        forall|i: int| 0 <= i < 128 && i != e ==> #[trigger] image_view(d2)[i] == image_view(d)[i],
{
    let n = d.len() as int;
    let ds = data_start_for(n);
    let b = extra[a];
    assert(ds <= b < n) by {
        reveal(extra_ok);
    }
    assert forall|k: int| 0 <= k < d2.len() implies (#[trigger] d2[k]).len() == 512 by {
    }
    assert forall|k: int| 0 <= k < 17 implies #[trigger] d2[k] == d[k] by {
    }
    assert forall|i: int, c: int|
        0 <= i < 128 && i != e && slot_used(d, i) && 0 <= c < slot_blocks(d, i).len()
            implies d2[#[trigger] slot_blocks(d, i)[c]] == d[slot_blocks(d, i)[c]] by {
        reveal(extra_ok);
        lemma_used_slot_ok(d, e, extra, i);
        lemma_slot_ok_facts(d, i);
        assert(slot_blocks(d, i)[c] != extra[a]);
    }
    assert forall|s: int| 0 <= s < data_blocks_of(n) implies #[trigger] block_bit(d2, s) == block_bit(d, s) by {
        assert((s / 8) / 512 == s / 4096);
        assert(s / 4096 < (n + 4095) / 4096);
        assert(d2[17 + (s / 8) / 512] == d[17 + (s / 8) / 512]);
    }
    assert forall|i: int, c: int|
        0 <= i < 128 && i != e && slot_used(d, i) && 0 <= c < slot_blocks(d, i).len()
            implies block_bit(d2, #[trigger] slot_blocks(d, i)[c] - ds) by {
        lemma_used_slot_ok(d, e, extra, i);
        lemma_slot_ok_facts(d, i);
        reveal(owned_marked);
    }
    assert forall|c: int| 0 <= c < extra.len() implies ds <= #[trigger] extra[c] < n by {
        reveal(extra_ok);
    }
    assert forall|c: int| 0 <= c < extra.len() implies block_bit(d2, #[trigger] extra[c] - ds) by {
        reveal(extra_ok);
    }
    assert(extra.no_duplicates()) by {
        reveal(extra_ok);
    }
    assert forall|i: int, c: int, k: int|
        0 <= i < 128 && i != e && slot_used(d, i) && 0 <= c < slot_blocks(d, i).len()
        && 0 <= k < extra.len()
            implies #[trigger] slot_blocks(d, i)[c] != #[trigger] extra[k] by {
        reveal(extra_ok);
    }
    lemma_transfer(d, d2, e, extra, extra);
    assert(free_set(d2) =~= free_set(d));
}

/// Data block `a` of a file holding `data`: bytes `512 * a ..` of `data`,
/// padded with zeros.
pub open spec fn chunk(data: Seq<u8>, a: int) -> Seq<u8> {
    Seq::new(512, |x: int| if 512 * a + x < data.len() { data[512 * a + x] } else { 0u8 })
}

/// Recording in inode `e` a file of `size` bytes whose data blocks are the
/// first blocks of `extra`, holding the chunks of `data`, and whose indirect
/// block (if any) is the last block of `extra` listing the others: the
/// volume is consistent again and slot `e` holds the first `size` bytes of
/// `data`.
pub proof fn lemma_commit_file(d: Seq<Seq<u8>>, d2: Seq<Seq<u8>>, e: int, extra: Seq<int>, ino: Inode, data: Seq<u8>)
    requires
        image_ok_except(d, e, extra),
        0 <= e < 128,
        slot_used(d, e),
        slot_name_len(d, e) <= 28,
        valid_utf8(slot_name(d, e)),
        inode_rewritten(d, d2, e),
        ino.stored_at(d2[inode_block(e)], inode_off(e)),
        ino.used,
        ino.name_len == slot_name_len(d, e),
        ino.name@.subrange(0, ino.name_len as int) == slot_name(d, e),
        ino.size <= data.len(),
        nblocks(ino.size as int) <= 134,
        extra.len() == blocks_for_size(ino.size as int),
        forall|k: int| 0 <= k < 6 ==> #[trigger] ino.direct@[k] == if k < nblocks(ino.size as int) { extra[k] } else { 0 },
        ino.indirect == if nblocks(ino.size as int) > 6 { extra[nblocks(ino.size as int)] } else { 0 },
        forall|a: int| 0 <= a < nblocks(ino.size as int) ==> d[#[trigger] extra[a]] == chunk(data, a),
        nblocks(ino.size as int) > 6 ==> forall|k: int| 0 <= k < 128 ==>
            #[trigger] le_u32_at(d[extra[nblocks(ino.size as int)]], 4 * k) == if 6 + k < nblocks(ino.size as int) { extra[6 + k] } else { 0 },
    ensures
        image_ok(d2),
        free_set(d2) == free_set(d),
        image_view(d2) == image_view(d).update(e, Some((slot_name(d, e), data.take(ino.size as int)))),
{
    let n = d.len() as int;
    let ds = data_start_for(n);
    let nb = nblocks(ino.size as int);
    lemma_rewrite_frame(d, d2, e);
    lemma_inode_fields(d2, e, ino);
    reveal(extra_ok);
    assert(slot_name(d2, e) == slot_name(d, e));
    assert forall|k: int| 0 <= k < 134 && (k < 6 || nb > 6) implies #[trigger] slot_ptr(d2, e, k) == if k < nb { extra[k] } else { 0 } by {
        if k < 6 {
            assert(slot_direct(d2, e, k) == ino.direct@[k]);
        } else {
            if nb > 6 {
                assert(d2[extra[nb]] == d[extra[nb]]);
                assert(le_u32_at(d[extra[nb]], 4 * (k - 6)) == if 6 + (k - 6) < nb { extra[6 + (k - 6)] } else { 0 });
            }
        }
    }
    assert(slot_blocks(d2, e) =~= extra);
    assert(slot_ok(d2, e)) by {
        reveal(slot_ok);
        assert forall|k: int| nb <= k < 6 implies #[trigger] slot_direct(d2, e, k) == 0 by {
            assert(slot_direct(d2, e, k) == ino.direct@[k]);
        }
        if nb > 6 {
            assert forall|k: int| nb <= k < 134 implies #[trigger] slot_ptr(d2, e, k) == 0 by {
            }
        }
    }
    assert forall|j: int| 0 <= j < 128 && j != e && #[trigger] slot_used(d, j) implies slot_name(d2, e) != slot_name(d, j) by {
        reveal(names_unique);
    }
    lemma_commit(d, d2, e, extra);
    assert forall|x: int| 0 <= x < ino.size implies #[trigger] slot_content(d2, e)[x] == data[x] by {
        let a = x / 512;
        assert(0 <= a < nb);
        assert(slot_ptr(d2, e, a) == extra[a]);
        assert(d2[extra[a]] == d[extra[a]]);
        assert(d[extra[a]] == chunk(data, a));
        assert(512 * a + x % 512 == x);
    }
    assert(slot_content(d2, e) =~= data.take(ino.size as int));
    assert(image_view(d2) =~= image_view(d).update(e, Some((slot_name(d, e), data.take(ino.size as int)))));
}

} // verus!
