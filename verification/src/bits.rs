//! Single bits of a byte, as the free-block bitmap uses them.

use vstd::prelude::*;

verus! {

/// Bit `k` (0 = least significant) of `b` is one.
pub open spec fn bit_set(b: u8, k: u8) -> bool {
    (b >> k) & 1u8 == 1u8
}

pub proof fn lemma_bit_test(b: u8, k: u8)
    requires
        k < 8,
    ensures
        ((b & (1u8 << k)) == 0u8) == !bit_set(b, k),
{
    assert(k < 8 ==> (((b & (1u8 << k)) == 0u8) == !((b >> k) & 1u8 == 1u8))) by (bit_vector);
}

pub proof fn lemma_bit_or(b: u8, k: u8, j: u8)
    requires
        k < 8,
        j < 8,
    ensures
        bit_set(b | (1u8 << k), j) == (j == k || bit_set(b, j)),
{
    assert(k < 8 && j < 8 ==> ((((b | (1u8 << k)) >> j) & 1u8 == 1u8) == (j == k || (b >> j) & 1u8
        == 1u8))) by (bit_vector);
}

pub proof fn lemma_bit_clear(b: u8, k: u8, j: u8)
    requires
        k < 8,
        j < 8,
    ensures
        bit_set(b & !(1u8 << k), j) == (j != k && bit_set(b, j)),
{
    assert(k < 8 && j < 8 ==> ((((b & !(1u8 << k)) >> j) & 1u8 == 1u8) == (j != k && (b >> j) & 1u8
        == 1u8))) by (bit_vector);
}

pub proof fn lemma_bit_full_byte(b: u8, j: u8)
    requires
        b == 0xFFu8,
        j < 8,
    ensures
        bit_set(b, j),
{
    assert(b == 0xFFu8 && j < 8 ==> (b >> j) & 1u8 == 1u8) by (bit_vector);
}

pub proof fn lemma_bit_zero_byte(j: u8)
    requires
        j < 8,
    ensures
        !bit_set(0u8, j),
{
    assert(j < 8 ==> ((0u8 >> j) & 1u8 != 1u8)) by (bit_vector);
}

} // verus!
