//! Index-to-(word, bit) arithmetic for a bitmap packed into 64-bit words,
//! with the lemmas that describe how setting and clearing a single bit
//! changes each position of a word.

use vstd::prelude::*;

verus! {

/// Number of bits in one bitmap word.
pub const WORD_BITS: usize = 64;

/// Whether bit `b` (counted from the least significant end) is set in `w`.
pub open spec fn nth_bit(w: u64, b: u64) -> bool {
    (w >> b) & 1 == 1
}

/// Map a slot index to the bitmap word that holds its bit and to the
/// single-bit mask for that bit within the word.
pub fn word_and_bit(index: usize) -> (r: (usize, u64))
    ensures
        r.0 == index / WORD_BITS,
        r.1 == 1u64 << ((index % WORD_BITS) as u64),
{
    (index / WORD_BITS, 1u64 << ((index % WORD_BITS) as u64))
}

/// In the all-zero word no bit is set.
pub proof fn lemma_zero_bit(j: u64)
    requires
        j < 64,
    ensures
        !nth_bit(0u64, j),
{
    assert(!nth_bit(0u64, j)) by (bit_vector)
        requires
            j < 64,
    ;
}

/// Or-ing a single-bit mask into a word sets exactly that bit and leaves
/// every other bit as it was.
pub proof fn lemma_set_bit(w: u64, b: u64, j: u64)
    requires
        b < 64,
        j < 64,
    ensures
        nth_bit(w | (1u64 << b), j) == (j == b || nth_bit(w, j)),
{
    assert(nth_bit(w | (1u64 << b), j) == (j == b || nth_bit(w, j))) by (bit_vector)
        requires
            b < 64,
            j < 64,
    ;
}

/// And-ing with the complement of a single-bit mask clears exactly that bit
/// and leaves every other bit as it was.
pub proof fn lemma_clear_bit(w: u64, b: u64, j: u64)
    requires
        b < 64,
        j < 64,
    ensures
        nth_bit(w & !(1u64 << b), j) == (j != b && nth_bit(w, j)),
{
    assert(nth_bit(w & !(1u64 << b), j) == (j != b && nth_bit(w, j))) by (bit_vector)
        requires
            b < 64,
            j < 64,
    ;
}

} // verus!
