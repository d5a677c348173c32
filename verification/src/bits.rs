//! Facts about single bits of 64-bit words, used by the bit sets and masks.

use vstd::prelude::*;

verus! {

/// Bit `k` of `w` is set.
pub open spec fn bit64(w: u64, k: u64) -> bool {
    (w >> k) & 1u64 == 1u64
}

pub proof fn lemma_bit_or_single(w: u64, k: u64, j: u64)
    requires
        k < 64,
        j < 64,
    ensures
        bit64(w | (1u64 << k), j) == (j == k || bit64(w, j)),
{
    assert(((w | (1u64 << k)) >> j) & 1u64 == 1u64 <==> (j == k || (w >> j) & 1u64 == 1u64))
        by (bit_vector)
        requires k < 64, j < 64;
}

pub proof fn lemma_bit_clear_single(w: u64, k: u64, j: u64)
    requires
        k < 64,
        j < 64,
    ensures
        bit64(w & !(1u64 << k), j) == (j != k && bit64(w, j)),
{
    assert(((w & !(1u64 << k)) >> j) & 1u64 == 1u64 <==> (j != k && (w >> j) & 1u64 == 1u64))
        by (bit_vector)
        requires k < 64, j < 64;
}

pub proof fn lemma_bit_test_single(w: u64, k: u64)
    requires
        k < 64,
    ensures
        ((w & (1u64 << k)) != 0) == bit64(w, k),
{
    assert(((w & (1u64 << k)) != 0) <==> ((w >> k) & 1u64 == 1u64)) by (bit_vector)
        requires k < 64;
}

pub proof fn lemma_bit_or(a: u64, b: u64, j: u64)
    requires
        j < 64,
    ensures
        bit64(a | b, j) == (bit64(a, j) || bit64(b, j)),
{
    assert((((a | b) >> j) & 1u64 == 1u64) <==> ((a >> j) & 1u64 == 1u64 || (b >> j) & 1u64 == 1u64))
        by (bit_vector)
        requires j < 64;
}

pub proof fn lemma_bit_and_not(a: u64, b: u64, j: u64)
    requires
        j < 64,
    ensures
        bit64(!a & b, j) == (!bit64(a, j) && bit64(b, j)),
{
    assert((((!a & b) >> j) & 1u64 == 1u64) <==> (!((a >> j) & 1u64 == 1u64) && (b >> j) & 1u64 == 1u64))
        by (bit_vector)
        requires j < 64;
}

pub proof fn lemma_bit_zero(j: u64)
    ensures
        !bit64(0u64, j),
{
    assert(!((0u64 >> j) & 1u64 == 1u64)) by (bit_vector);
}

/// The mask of the lowest `n` bits.
pub proof fn lemma_low_mask(n: u64, j: u64)
    requires
        n < 64,
        j < 64,
    ensures
        (1u64 << n) >= 1,
        bit64(((1u64 << n) - 1) as u64, j) == (j < n),
{
    assert((1u64 << n) >= 1) by (bit_vector)
        requires n < 64;
    assert((((((1u64 << n) - 1) as u64) >> j) & 1u64 == 1u64) <==> (j < n)) by (bit_vector)
        requires n < 64, j < 64;
}

/// A word that is not zero has a set bit.
pub proof fn lemma_nonzero_has_bit(x: u64)
    requires
        x != 0,
    ensures
        exists|j: u64| j < 64 && #[trigger] bit64(x, j),
{
    assert(x != 0 ==> (x >> 0u64) != 0) by (bit_vector);
    lemma_nonzero_has_bit_from(x, 0);
}

proof fn lemma_nonzero_has_bit_from(x: u64, k: u64)
    requires
        k < 64,
        (x >> k) != 0,
    ensures
        exists|j: u64| j < 64 && #[trigger] bit64(x, j),
    decreases 64 - k,
{
    if bit64(x, k) {
    } else if k == 63 {
        assert(((x >> k) != 0 && k == 63) ==> (x >> k) & 1u64 == 1u64) by (bit_vector);
    } else {
        assert(((x >> k) != 0 && !((x >> k) & 1u64 == 1u64) && k < 63) ==> (x >> ((k + 1) as u64)) != 0)
            by (bit_vector);
        lemma_nonzero_has_bit_from(x, (k + 1) as u64);
    }
}

/// Word and bit of a flat index below 1024.
pub proof fn lemma_split_index(idx: usize)
    requires
        idx < 1024,
    ensures
        idx >> 6usize == idx / 64,
        idx & 63usize == idx % 64,
{
    assert(idx >> 6usize == idx / 64 && idx & 63usize == idx % 64) by (bit_vector)
        requires idx < 1024;
}

} // verus!
