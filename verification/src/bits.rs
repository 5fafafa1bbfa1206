//! Occupancy words: 32 cells along one axis held in the bits of a `u32`.
//!
//! Everything else in the library reasons about words through [`has_bit`]
//! alone; the facts that tie the bitwise operators to it are proved here.

use vstd::prelude::*;
use vstd::std_specs::bits::u32_trailing_zeros;
use vstd::std_specs::bits::{axiom_u32_trailing_zeros, axiom_u32_trailing_ones};

verus! {

/// Whether bit `i` of `word` is set, for a bit index that is in range.
pub open spec fn bit_at(word: u32, i: u32) -> bool {
    (word >> i) & 1u32 == 1u32
}

/// Whether cell `i` of `word` is occupied; no cell lies outside `0..32`.
pub open spec fn has_bit(word: u32, i: int) -> bool {
    0 <= i < 32 && bit_at(word, i as u32)
}

/// Whether every cell of `part` is also a cell of `word`.
pub open spec fn covers_word(word: u32, part: u32) -> bool {
    forall|i: int| has_bit(part, i) ==> has_bit(word, i)
}

/// The empty word has no cell occupied.
pub proof fn lemma_bit_zero(i: int)
    ensures
        !has_bit(0u32, i),
{
    if 0 <= i < 32 {
        let j = i as u32;
        assert((0u32 >> j) & 1u32 == 0u32) by (bit_vector);
    }
}

/// `|` occupies the cells of either word.
pub proof fn lemma_bit_or(a: u32, b: u32, i: int)
    ensures
        has_bit(a | b, i) == (has_bit(a, i) || has_bit(b, i)),
{
    if 0 <= i < 32 {
        let j = i as u32;
        assert((((a | b) >> j) & 1u32 == 1u32) == (((a >> j) & 1u32 == 1u32) || ((b >> j) & 1u32
            == 1u32))) by (bit_vector);
    }
}

/// `&` keeps the cells that both words occupy.
pub proof fn lemma_bit_and(a: u32, b: u32, i: int)
    ensures
        has_bit(a & b, i) == (has_bit(a, i) && has_bit(b, i)),
{
    if 0 <= i < 32 {
        let j = i as u32;
        assert((((a & b) >> j) & 1u32 == 1u32) == (((a >> j) & 1u32 == 1u32) && ((b >> j) & 1u32
            == 1u32))) by (bit_vector);
    }
}

/// `& !` vacates the cells of the second word.
pub proof fn lemma_bit_and_not(a: u32, b: u32, i: int)
    ensures
        has_bit(a & !b, i) == (has_bit(a, i) && !has_bit(b, i)),
{
    if 0 <= i < 32 {
        let j = i as u32;
        assert((((a & !b) >> j) & 1u32 == 1u32) == (((a >> j) & 1u32 == 1u32) && !((b >> j) & 1u32
            == 1u32))) by (bit_vector)
            requires
                j < 32,
        ;
    }
}

/// `^` occupies the cells in which the words differ.
pub proof fn lemma_bit_xor(a: u32, b: u32, i: int)
    ensures
        has_bit(a ^ b, i) == (0 <= i < 32 && has_bit(a, i) != has_bit(b, i)),
{
    if 0 <= i < 32 {
        let j = i as u32;
        assert((((a ^ b) >> j) & 1u32 == 1u32) == (((a >> j) & 1u32 == 1u32) != ((b >> j) & 1u32
            == 1u32))) by (bit_vector)
            requires
                j < 32,
        ;
    }
}

/// `word & part == part` tests whether `word` holds every cell of `part`.
pub proof fn lemma_covers_word(word: u32, part: u32)
    ensures
        (word & part == part) == covers_word(word, part),
{
    if word & part == part {
        assert forall|i: int| has_bit(part, i) implies has_bit(word, i) by {
            lemma_bit_and(word, part, i);
        }
    } else {
        let rest = part & !word;
        assert(rest != 0) by (bit_vector)
            requires
                word & part != part,
                rest == part & !word,
        ;
        axiom_u32_trailing_zeros(rest);
        let i = u32_trailing_zeros(rest) as int;
        assert(has_bit(rest, i));
        lemma_bit_and_not(part, word, i);
        assert(has_bit(part, i) && !has_bit(word, i));
    }
}

/// Two words that differ differ in a cell.
pub proof fn lemma_words_differ(a: u32, b: u32) -> (i: int)
    requires
        a != b,
    ensures
        0 <= i < 32,
        has_bit(a, i) != has_bit(b, i),
{
    let diff = a ^ b;
    assert(diff != 0) by (bit_vector)
        requires
            a != b,
            diff == a ^ b,
    ;
    axiom_u32_trailing_zeros(diff);
    let i = u32_trailing_zeros(diff) as int;
    assert(has_bit(diff, i));
    lemma_bit_xor(a, b, i);
    i
}

/// The word whose occupied cells are exactly `lo..=hi`.
pub fn span_mask(lo: u32, hi: u32) -> (mask: u32)
    requires
        lo <= hi < 32,
    ensures
        forall|i: int| has_bit(mask, i) == (lo <= i <= hi),
{
    let ones: u32 = u32::MAX >> (31 - (hi - lo));
    let mask: u32 = ones << lo;
    proof {
        assert forall|i: int| has_bit(mask, i) == (lo <= i <= hi) by {
            if 0 <= i < 32 {
                let j = i as u32;
                assert(((mask >> j) & 1u32 == 1u32) == (lo <= j && j <= hi)) by (bit_vector)
                    requires
                        lo <= hi,
                        hi < 32,
                        j < 32,
                        mask == (0xffff_ffffu32 >> (31 - (hi - lo)) as u32) << lo,
                ;
            }
        }
    }
    mask
}

/// Whether cell `i` of `word` is occupied.
pub fn test_bit(word: u32, i: u32) -> (set: bool)
    requires
        i < 32,
    ensures
        set == has_bit(word, i as int),
{
    (word >> i) & 1u32 == 1u32
}

/// The lowest occupied cell of a word that has one.
pub fn lowest_set(word: u32) -> (lo: u32)
    requires
        word != 0,
    ensures
        lo < 32,
        has_bit(word, lo as int),
        forall|i: int| 0 <= i < lo ==> !has_bit(word, i),
{
    let lo = word.trailing_zeros();
    proof {
        axiom_u32_trailing_zeros(word);
        assert forall|i: int| 0 <= i < lo implies !has_bit(word, i) by {
            let j = i as u32;
            assert((word >> j) & 1u32 == 0u32);
        }
    }
    lo
}

/// How many cells in a row are occupied from cell `lo` upwards.
pub fn ones_from(word: u32, lo: u32) -> (n: u32)
    requires
        lo < 32,
    ensures
        lo + n <= 32,
        forall|i: int| lo <= i < lo + n ==> has_bit(word, i),
        !has_bit(word, lo + n),
{
    let shifted: u32 = word >> lo;
    let n = shifted.trailing_ones();
    proof {
        axiom_u32_trailing_ones(shifted);
        let top: u32 = (32 - lo) as u32;
        if n > top {
            assert((shifted >> top) & 1u32 == 1u32);
            assert((shifted >> top) & 1u32 == 0u32) by (bit_vector)
                requires
                    shifted == word >> lo,
                    top == (32 - lo) as u32,
                    0 < lo < 32,
            ;
        }
        assert forall|i: int| lo <= i < lo + n implies has_bit(word, i) by {
            let j = (i - lo) as u32;
            let k = i as u32;
            assert((shifted >> j) & 1u32 == 1u32);
            assert((word >> k) & 1u32 == (shifted >> j) & 1u32) by (bit_vector)
                requires
                    shifted == word >> lo,
                    k == lo + j,
                    k < 32,
            ;
        }
        if lo + n < 32 {
            let k = (lo + n) as u32;
            assert((word >> k) & 1u32 == (shifted >> n) & 1u32) by (bit_vector)
                requires
                    shifted == word >> lo,
                    k == lo + n,
                    k < 32,
            ;
        }
    }
    n
}

} // verus!
