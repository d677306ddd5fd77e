//! Pointwise reasoning about bits of a `u128` word, shared by the cell bitset
//! and the constraint masks.

use vstd::prelude::*;

verus! {

/// Whether bit `j` of `m` is set.
pub(crate) open spec fn nth(m: u128, j: u128) -> bool {
    (m >> j) & 1 == 1
}

/// Setting bit `k` sets exactly that bit.
pub(crate) proof fn lemma_or_bit(m: u128, k: u128, j: u128)
    requires
        k < 128,
        j < 128,
    ensures
        nth(m | (1u128 << k), j) <==> (nth(m, j) || j == k),
{
    assert((((m | (1u128 << k)) >> j) & 1 == 1) <==> (((m >> j) & 1 == 1) || j == k))
        by (bit_vector)
        requires
            k < 128,
            j < 128,
    ;
}

/// Clearing bit `k` clears exactly that bit.
pub(crate) proof fn lemma_and_not_bit(m: u128, k: u128, j: u128)
    requires
        k < 128,
        j < 128,
    ensures
        nth(m & !(1u128 << k), j) <==> (nth(m, j) && j != k),
{
    assert((((m & !(1u128 << k)) >> j) & 1 == 1) <==> (((m >> j) & 1 == 1) && j != k))
        by (bit_vector)
        requires
            k < 128,
            j < 128,
    ;
}

/// Clearing a set bit and then setting it restores the original word.
pub(crate) proof fn lemma_clear_then_set(m: u128, k: u128)
    requires
        k < 128,
        nth(m, k),
    ensures
        (m & !(1u128 << k)) | (1u128 << k) == m,
{
    assert((m >> k) & 1 == 1 ==> (m & !(1u128 << k)) | (1u128 << k) == m) by (bit_vector)
        requires
            k < 128,
    ;
}

/// Setting a clear bit and then clearing it restores the original word.
pub(crate) proof fn lemma_set_then_clear(m: u128, k: u128)
    requires
        k < 128,
        !nth(m, k),
    ensures
        (m | (1u128 << k)) & !(1u128 << k) == m,
{
    assert((m >> k) & 1 != 1 ==> (m | (1u128 << k)) & !(1u128 << k) == m) by (bit_vector)
        requires
            k < 128,
    ;
}

/// Bitwise operations below bit 81 stay below `1 << 81`.
pub(crate) proof fn lemma_low_ops(m: u128, k: u128)
    requires
        m < (1u128 << 81),
        k < 81,
    ensures
        m | (1u128 << k) < (1u128 << 81),
        m & !(1u128 << k) < (1u128 << 81),
{
    assert(m < (1u128 << 81) && k < 81 ==> (m | (1u128 << k)) < (1u128 << 81) && (m & !(1u128
        << k)) < (1u128 << 81)) by (bit_vector);
}

/// A word below `1 << 81` whose 81 low bits are all clear is zero.
pub(crate) proof fn lemma_all_clear_zero(m: u128)
    requires
        m < (1u128 << 81),
        forall|t: u128| t < 81 ==> !nth(m, t),
    ensures
        m == 0,
{
    lemma_low_clear(m, 81);
    assert(m & !(u128::MAX << 81) == 0 && m < (1u128 << 81) ==> m == 0) by (bit_vector);
}

/// If every bit below `j` is clear, the low-`j` mask of the word is zero.
pub(crate) proof fn lemma_low_clear(m: u128, j: u128)
    requires
        j <= 81,
        forall|t: u128| t < j ==> !nth(m, t),
    ensures
        m & !(u128::MAX << j) == 0,
    decreases j,
{
    if j == 0 {
        assert(m & !(u128::MAX << 0) == 0) by (bit_vector);
    } else {
        let i = (j - 1) as u128;
        lemma_low_clear(m, i);
        assert(!nth(m, i));
        assert(m & !(u128::MAX << i) == 0 && (m >> i) & 1 != 1 && i < 81 && j == i + 1 ==> m & !(
        u128::MAX << j) == 0) by (bit_vector)
            requires
                j == i + 1,
        ;
    }
}

/// A nonzero word below `1 << 81` has a set bit below 81.
pub(crate) proof fn lemma_nonzero_has_bit(m: u128)
    requires
        m != 0,
        m < (1u128 << 81),
    ensures
        exists|j: u128| j < 81 && nth(m, j),
{
    if !(exists|j: u128| j < 81 && nth(m, j)) {
        assert(forall|t: u128| t < 81 ==> !nth(m, t));
        lemma_all_clear_zero(m);
    }
}

/// If the low-`j` mask of a word is zero, every bit below `j` is clear.
pub(crate) proof fn lemma_low_mask_clear_bits(m: u128, j: u128, t: u128)
    requires
        j <= 81,
        t < j,
        m & !(u128::MAX << j) == 0,
    ensures
        !nth(m, t),
{
    assert(m & !(u128::MAX << j) == 0 && t < j && j <= 81 ==> (m >> t) & 1 != 1) by (bit_vector);
}

} // verus!
