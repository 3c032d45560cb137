//! How a 64-bit word, and a sequence of such words, holds bits.
//!
//! Bit `p` of a word is the bit of weight `2^p`. A sequence of words holds
//! the bits of its words one word after the other, so bit `p` of word `w`
//! is bit `64 * w + p` of the sequence.

use crate::bitseq::{count, zeros};
use vstd::prelude::*;

verus! {

/// Bit `p` of the word `w`.
pub open spec fn word_bit(w: u64, p: int) -> bool {
    0 <= p < 64 && (w >> (p as u64)) & 1 == 1
}

/// The 64 bits of the word `w`, lowest first.
pub open spec fn word_bits(w: u64) -> Seq<bool> {
    Seq::new(64, |p: int| word_bit(w, p))
}

/// The bits of a sequence of words, lowest bit of the first word first.
pub open spec fn bits_of(words: Seq<u64>) -> Seq<bool> {
    Seq::new(64 * words.len(), |i: int| word_bit(words[i / 64], i % 64))
}

/// `u64::count_ones` of the standard library returns the number of ones in
/// the binary representation of the word, that is, how many of its 64 bits
/// are set. This is taken on trust from the documentation of the standard
/// library.
pub assume_specification[ u64::count_ones ](w: u64) -> (r: u32)
    ensures
        r == count(word_bits(w)),
;

// What the bitwise operators do to the single bit `p`, settled by the
// bit-vector solver; the lemmas below restate it over `word_bit`.
proof fn lemma_shift_or(x: u64, y: u64, p: u64)
    by (bit_vector)
    requires
        p < 64,
    ensures
        ((x | y) >> p) & 1 == 1 <==> ((x >> p) & 1 == 1 || (y >> p) & 1 == 1),
{
}

proof fn lemma_shift_and(x: u64, y: u64, p: u64)
    by (bit_vector)
    requires
        p < 64,
    ensures
        ((x & y) >> p) & 1 == 1 <==> ((x >> p) & 1 == 1 && (y >> p) & 1 == 1),
{
}

proof fn lemma_shift_not(x: u64, p: u64)
    by (bit_vector)
    requires
        p < 64,
    ensures
        ((!x) >> p) & 1 == 1 <==> !((x >> p) & 1 == 1),
{
}

proof fn lemma_shift_one(p: u64, q: u64)
    by (bit_vector)
    requires
        p < 64,
        q < 64,
    ensures
        ((1u64 << p) >> q) & 1 == 1 <==> p == q,
{
}

proof fn lemma_shift_zero(p: u64)
    by (bit_vector)
    requires
        p < 64,
    ensures
        (0u64 >> p) & 1 == 0,
{
}

proof fn lemma_shift_test(w: u64, p: u64)
    by (bit_vector)
    requires
        p < 64,
    ensures
        (w & (1u64 << p)) != 0 <==> (w >> p) & 1 == 1,
        (w >> p) & 1 == 0 || (w >> p) & 1 == 1,
{
}

/// Bitwise or, and, not, on the level of single bits.
pub proof fn lemma_bit_ops(x: u64, y: u64, p: int)
    requires
        0 <= p < 64,
    ensures
        word_bit(x | y, p) == (word_bit(x, p) || word_bit(y, p)),
        word_bit(x & y, p) == (word_bit(x, p) && word_bit(y, p)),
        word_bit(!x, p) == !word_bit(x, p),
        !word_bit(0, p),
{
    lemma_shift_or(x, y, p as u64);
    lemma_shift_and(x, y, p as u64);
    lemma_shift_not(x, p as u64);
    lemma_shift_zero(p as u64);
}

/// The word with the single bit `p` set, and what testing against it tells.
pub proof fn lemma_bit_mask(w: u64, p: int, q: int)
    requires
        0 <= p < 64,
        0 <= q < 64,
    ensures
        word_bit(1u64 << (p as u64), q) == (p == q),
        (w & (1u64 << (p as u64)) != 0) == word_bit(w, p),
        ((w >> (p as u64)) & 1 == 1) == word_bit(w, p),
        ((w >> (p as u64)) & 1 == 0) == !word_bit(w, p),
{
    lemma_shift_one(p as u64, q as u64);
    lemma_shift_test(w, p as u64);
}

/// A word is zero exactly if none of its bits is set.
pub proof fn lemma_word_zero(w: u64)
    ensures
        w == 0 <==> forall|p: int| 0 <= p < 64 ==> !word_bit(w, p),
{
    if w == 0 {
        assert forall|p: int| 0 <= p < 64 implies !word_bit(w, p) by {
            lemma_shift_zero(p as u64);
        }
    } else {
        vstd::std_specs::bits::axiom_u64_trailing_zeros(w);
        let p = vstd::std_specs::bits::u64_trailing_zeros(w) as int;
        assert(word_bit(w, p));
    }
}

/// Words that are all zero hold cleared bits only.
pub proof fn lemma_bits_of_zeros(words: Seq<u64>)
    requires
        forall|k: int| 0 <= k < words.len() ==> words[k] == 0,
    ensures
        bits_of(words) == zeros(64 * words.len()),
{
    assert forall|i: int| 0 <= i < 64 * words.len() implies !bits_of(words)[i] by {
        assert(words[i / 64] == 0);
        lemma_shift_zero((i % 64) as u64);
    }
    assert(bits_of(words) =~= zeros(64 * words.len()));
}

/// The bits of a sequence with one more word are the bits of the sequence
/// followed by the bits of that word.
pub proof fn lemma_bits_of_push(words: Seq<u64>, w: u64)
    ensures
        bits_of(words.push(w)) == bits_of(words) + word_bits(w),
{
    let l = bits_of(words.push(w));
    let r = bits_of(words) + word_bits(w);
    assert forall|i: int| 0 <= i < l.len() implies l[i] == r[i] by {
        if i < 64 * words.len() {
            assert(words.push(w)[i / 64] == words[i / 64]);
        } else {
            assert(i / 64 == words.len());
            assert(i % 64 == i - 64 * words.len());
        }
    }
    assert(l =~= r);
}

} // verus!
