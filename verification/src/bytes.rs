//! Little-endian `u32` fields inside byte buffers.

use vstd::prelude::*;

verus! {

/// The value of four bytes read as a little-endian `u32`.
pub open spec fn le_u32(b0: u8, b1: u8, b2: u8, b3: u8) -> int {
    b0 + 256 * b1 + 65536 * b2 + 16777216 * b3
}

/// The `u32` stored little-endian at byte offset `off` of `s`.
pub open spec fn le_u32_at(s: Seq<u8>, off: int) -> u32 {
    le_u32(s[off], s[off + 1], s[off + 2], s[off + 3]) as u32
}

/// Reads the little-endian `u32` at `off` in `buf`.
pub fn read_u32_le<const N: usize>(buf: &[u8; N], off: usize) -> (v: u32)
    requires
        off + 4 <= N,
    ensures
        v == le_u32_at(buf@, off as int),
{
    let b0 = buf[off] as u32;
    let b1 = buf[off + 1] as u32;
    let b2 = buf[off + 2] as u32;
    let b3 = buf[off + 3] as u32;
    b0 + b1 * 256 + b2 * 65536 + b3 * 16777216
}

/// Writes `v` little-endian at `off` in `buf`, leaving every other byte as it was.
pub fn write_u32_le<const N: usize>(buf: &mut [u8; N], off: usize, v: u32)
    requires
        off + 4 <= N,
    ensures
        le_u32_at(final(buf)@, off as int) == v,
        forall|i: int| 0 <= i < N && !(off <= i < off + 4) ==> final(buf)@[i] == old(buf)@[i],
{
    buf[off] = (v % 256) as u8;
    buf[off + 1] = ((v / 256) % 256) as u8;
    buf[off + 2] = ((v / 65536) % 256) as u8;
    buf[off + 3] = (v / 16777216) as u8;
}

/// A little-endian `u32` field reads 0 only when its four bytes are 0.
pub proof fn lemma_le_u32_zero(s: Seq<u8>, off: int)
    requires
        0 <= off,
        off + 4 <= s.len(),
        le_u32_at(s, off) == 0,
    ensures
        s[off] == 0,
        s[off + 1] == 0,
        s[off + 2] == 0,
        s[off + 3] == 0,
{
    let v = le_u32(s[off], s[off + 1], s[off + 2], s[off + 3]);
    assert(0 <= v <= u32::MAX);
    assert(v as u32 == v);
}

/// Byte-wise equality of two slices.
pub fn bytes_eq(a: &[u8], b: &[u8]) -> (r: bool)
    ensures
        r == (a@ == b@),
{
    if a.len() != b.len() {
        return false;
    }
    let mut i: usize = 0;
    while i < a.len()
        invariant
            a@.len() == b@.len(),
            0 <= i <= a@.len(),
            forall|k: int| 0 <= k < i ==> a@[k] == b@[k],
        decreases a@.len() - i,
    {
        if a[i] != b[i] {
            return false;
        }
        i = i + 1;
    }
    assert(a@ =~= b@);
    true
}

} // verus!
