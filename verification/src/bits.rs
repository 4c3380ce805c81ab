//! Rows of bits, packed into words.

use vstd::prelude::*;

verus! {

/// The number of bits in a word.
pub const WORD_BITS: usize = 64;

/// Bit `b` of a word is set.
pub open spec fn word_bit(w: u64, b: int) -> bool {
    (w >> (b as u64)) & 1 == 1
}

/// Bit `i` of a row of words is set; bits past the end of the row are clear.
pub open spec fn row_bit(words: Seq<u64>, i: int) -> bool {
    0 <= i && i / 64 < words.len() && word_bit(words[i / 64], i % 64)
}

/// What the bitwise operations do to a single bit.
pub proof fn lemma_word_ops(x: u64, y: u64, b: int)
    requires
        0 <= b < 64,
    ensures
        word_bit(x | y, b) == (word_bit(x, b) || word_bit(y, b)),
        word_bit(x & y, b) == (word_bit(x, b) && word_bit(y, b)),
        word_bit(!x, b) == !word_bit(x, b),
        !word_bit(0, b),
{
    let s = b as u64;
    assert(((x | y) >> s) & 1 == 1 <==> ((x >> s) & 1 == 1 || (y >> s) & 1 == 1)) by (bit_vector);
    assert(((x & y) >> s) & 1 == 1 <==> ((x >> s) & 1 == 1 && (y >> s) & 1 == 1)) by (bit_vector);
    assert(((!x) >> s) & 1 == 1 <==> !((x >> s) & 1 == 1)) by (bit_vector)
        requires
            s < 64,
    ;
    assert((0u64 >> s) & 1 != 1) by (bit_vector);
}

/// The word with bit `a` alone.
pub proof fn lemma_single_bit(a: u64, b: int)
    requires
        a < 64,
        0 <= b < 64,
    ensures
        word_bit(1u64 << a, b) == (a == b),
{
    let s = b as u64;
    assert(((1u64 << a) >> s) & 1 == 1 <==> a == s) by (bit_vector)
        requires
            a < 64,
            s < 64,
    ;
}

/// A word that is not zero has a bit set.
pub proof fn lemma_some_bit(x: u64) -> (b: int)
    requires
        x != 0,
    ensures
        0 <= b < 64,
        word_bit(x, b),
    decreases x,
{
    if x & 1 == 1 {
        assert((x >> 0) & 1 == 1) by (bit_vector)
            requires
                x & 1 == 1,
        ;
        0
    } else {
        let half = x >> 1;
        assert(half != 0 && half < x) by (bit_vector)
            requires
                x != 0,
                x & 1 != 1,
                half == x >> 1,
        ;
        let c = lemma_some_bit(half);
        let s = c as u64;
        assert(s < 63) by (bit_vector)
            requires
                s < 64,
                half == x >> 1,
                (half >> s) & 1 == 1,
        ;
        let t = (s + 1) as u64;
        assert((x >> t) & 1 == 1) by (bit_vector)
            requires
                s < 63,
                t == s + 1,
                half == x >> 1,
                (half >> s) & 1 == 1,
        ;
        c + 1
    }
}

} // verus!
