//! Single bits of 64-bit words.

use vstd::prelude::*;
use vstd::std_specs::bits::{axiom_u64_trailing_zeros, u64_trailing_zeros};

verus! {

/// Whether bit `i` of `word` is set, where bit 0 is the least significant one.
pub open spec fn bit(word: u64, i: int) -> bool {
    (word >> (i as u64)) & 1 == 1
}

/// No bit of zero is set.
pub(crate) proof fn lemma_bit_zero(i: int)
    requires
        0 <= i < 64,
    ensures
        !bit(0, i),
{
    let j = i as u64;
    assert((0u64 >> j) & 1 == 0) by (bit_vector);
}

/// Masking with a single bit tests that bit.
pub(crate) proof fn lemma_bit_mask(word: u64, i: int)
    requires
        0 <= i < 64,
    ensures
        (word & (1u64 << (i as u64)) != 0) == bit(word, i),
{
    let j = i as u64;
    assert((word & (1u64 << j) != 0) == ((word >> j) & 1 == 1)) by (bit_vector)
        requires
            j < 64,
    ;
}

/// Or-ing a single bit in sets it and leaves the others alone.
pub(crate) proof fn lemma_bit_set(word: u64, i: int, k: int)
    requires
        0 <= i < 64,
        0 <= k < 64,
    ensures
        bit(word | (1u64 << (i as u64)), k) == (bit(word, k) || k == i),
{
    let j = i as u64;
    let m = k as u64;
    assert((((word | (1u64 << j)) >> m) & 1 == 1) == ((word >> m) & 1 == 1 || m == j))
        by (bit_vector)
        requires
            j < 64,
            m < 64,
    ;
}

/// Masking a single bit out clears it and leaves the others alone.
pub(crate) proof fn lemma_bit_clear(word: u64, i: int, k: int)
    requires
        0 <= i < 64,
        0 <= k < 64,
    ensures
        bit(word & !(1u64 << (i as u64)), k) == (bit(word, k) && k != i),
{
    let j = i as u64;
    let m = k as u64;
    assert((((word & !(1u64 << j)) >> m) & 1 == 1) == ((word >> m) & 1 == 1 && m != j))
        by (bit_vector)
        requires
            j < 64,
            m < 64,
    ;
}

/// The number of trailing zeros of a nonzero word is the position of its lowest set bit.
pub(crate) proof fn lemma_lowest_bit(word: u64)
    requires
        word != 0,
    ensures
        u64_trailing_zeros(word) < 64,
        bit(word, u64_trailing_zeros(word) as int),
        forall|k: int| 0 <= k < u64_trailing_zeros(word) ==> !#[trigger] bit(word, k),
{
    axiom_u64_trailing_zeros(word);
    assert forall|k: int| 0 <= k < u64_trailing_zeros(word) implies !#[trigger] bit(word, k) by {
        let m = k as u64;
        assert((word >> m) & 1u64 == 0u64);
    }
}

} // verus!
