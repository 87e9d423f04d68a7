use vstd::prelude::*;
use vstd::std_specs::bits::{axiom_u64_trailing_ones, axiom_u64_trailing_zeros};

verus! {

/// The word with every bit set.
pub const FULL_WORD: u64 = 0xffff_ffff_ffff_ffff;

/// Whether bit `bit` of `word` is set, bit 0 being the lowest.
pub open spec fn bit_is_set(word: u64, bit: int) -> bool {
    0 <= bit < 64 && (word >> (bit as u64)) & 1 == 1
}

proof fn lemma_bit_of_or(word: u64, bit: u64, other: u64)
    by (bit_vector)
    requires
        bit < 64,
        other < 64,
    ensures
        ((word | (1u64 << bit)) >> other) & 1 == 1 <==> (other == bit || (word >> other) & 1 == 1),
{
}

proof fn lemma_bit_of_and_not(word: u64, bit: u64, other: u64)
    by (bit_vector)
    requires
        bit < 64,
        other < 64,
    ensures
        ((word & !(1u64 << bit)) >> other) & 1 == 1 <==> (other != bit && (word >> other) & 1
            == 1),
{
}

proof fn lemma_bit_of_full(other: u64)
    by (bit_vector)
    requires
        other < 64,
    ensures
        (0xffff_ffff_ffff_ffffu64 >> other) & 1 == 1,
{
}

proof fn lemma_bit_of_zero(other: u64)
    by (bit_vector)
    requires
        other < 64,
    ensures
        (0u64 >> other) & 1 == 0,
{
}

proof fn lemma_bit_of_padding(valid: u64, other: u64)
    by (bit_vector)
    requires
        valid < 63,
        other < 64,
    ensures
        (((0xffff_ffff_ffff_ffffu64 << (valid + 1)) | 1) >> other) & 1 == 1 <==> (other == 0
            || other > valid),
{
}

proof fn lemma_bit_of_one(other: u64)
    by (bit_vector)
    requires
        other < 64,
    ensures
        (1u64 >> other) & 1 == 1 <==> other == 0,
{
}

proof fn lemma_bit_of_low_mask(count: u64, other: u64)
    by (bit_vector)
    requires
        count < 64,
        other < 64,
    ensures
        ((((1u64 << count) - 1) as u64) >> other) & 1 == 1 <==> other < count,
{
}

/// A word with every bit set is the full word.
pub proof fn lemma_all_bits_set(word: u64)
    requires
        forall|bit: int| 0 <= bit < 64 ==> bit_is_set(word, bit),
    ensures
        word == FULL_WORD,
{
    axiom_u64_trailing_ones(word);
    let ones = word.trailing_ones();
    if ones < 64 {
        assert(bit_is_set(word, ones as int));
    }
}

/// Every bit of the full word is set.
pub proof fn lemma_full_word_bits(bit: int)
    requires
        0 <= bit < 64,
    ensures
        bit_is_set(FULL_WORD, bit),
{
    lemma_bit_of_full(bit as u64);
}

/// No bit of the zero word is set.
pub proof fn lemma_zero_word_bits(bit: int)
    ensures
        !bit_is_set(0, bit),
{
    if 0 <= bit < 64 {
        lemma_bit_of_zero(bit as u64);
    }
}

/// Whether bit `bit` of `word` is set.
pub fn test_bit(word: u64, bit: usize) -> (set: bool)
    requires
        bit < 64,
    ensures
        set == bit_is_set(word, bit as int),
{
    (word >> (bit as u64)) & 1 == 1
}

/// `word` with bit `bit` set.
pub fn with_bit_set(word: u64, bit: usize) -> (marked: u64)
    requires
        bit < 64,
    ensures
        forall|other: int| #[trigger]
            bit_is_set(marked, other) == (other == bit || bit_is_set(word, other)),
{
    let marked = word | (1u64 << (bit as u64));
    proof {
        assert forall|other: int| #[trigger]
            bit_is_set(marked, other) == (other == bit || bit_is_set(word, other)) by {
            if 0 <= other < 64 {
                lemma_bit_of_or(word, bit as u64, other as u64);
            }
        }
    }
    marked
}

/// `word` with bit `bit` cleared.
pub fn with_bit_cleared(word: u64, bit: usize) -> (cleared: u64)
    requires
        bit < 64,
    ensures
        forall|other: int| #[trigger]
            bit_is_set(cleared, other) == (other != bit && bit_is_set(word, other)),
{
    let cleared = word & !(1u64 << (bit as u64));
    proof {
        assert forall|other: int| #[trigger]
            bit_is_set(cleared, other) == (other != bit && bit_is_set(word, other)) by {
            if 0 <= other < 64 {
                lemma_bit_of_and_not(word, bit as u64, other as u64);
            }
        }
    }
    cleared
}

/// The lowest bit of `word` that is clear, or none where the word is full.
pub fn lowest_clear_bit(word: u64) -> (found: Option<usize>)
    ensures
        match found {
            Some(bit) => {
                &&& bit < 64
                &&& !bit_is_set(word, bit as int)
                &&& forall|lower: int| 0 <= lower < bit ==> bit_is_set(word, lower)
            },
            None => word == FULL_WORD,
        },
{
    proof {
        axiom_u64_trailing_ones(word);
    }
    let ones = word.trailing_ones();
    if ones >= 64 {
        None
    } else {
        proof {
            assert forall|lower: int| 0 <= lower < ones implies bit_is_set(word, lower) by {
                assert((word >> (lower as u64)) & 1 == 1);
            }
        }
        Some(ones as usize)
    }
}

/// The lowest bit of `word` that is set, or none where the word is zero.
pub fn lowest_set_bit(word: u64) -> (found: Option<usize>)
    ensures
        match found {
            Some(bit) => {
                &&& bit < 64
                &&& bit_is_set(word, bit as int)
                &&& forall|lower: int| 0 <= lower < bit ==> !bit_is_set(word, lower)
            },
            None => word == 0,
        },
{
    proof {
        axiom_u64_trailing_zeros(word);
    }
    let zeros = word.trailing_zeros();
    if zeros >= 64 {
        None
    } else {
        proof {
            assert forall|lower: int| 0 <= lower < zeros implies !bit_is_set(word, lower) by {
                assert((word >> (lower as u64)) & 1 == 0);
            }
        }
        Some(zeros as usize)
    }
}

/// The word of a bitmap of which the first `valid` effective bits stand for
/// blocks: its special bit and the bits above the valid ones are set.
pub fn padding_word(valid: usize) -> (word: u64)
    requires
        valid <= 63,
    ensures
        forall|bit: int| #[trigger] bit_is_set(word, bit) == (0 <= bit < 64 && (bit == 0
            || bit > valid)),
{
    if valid == 63 {
        proof {
            assert forall|bit: int| #[trigger]
                bit_is_set(1u64, bit) == (0 <= bit < 64 && (bit == 0 || bit > valid)) by {
                if 0 <= bit < 64 {
                    lemma_bit_of_one(bit as u64);
                }
            }
        }
        1
    } else {
        let word = (FULL_WORD << ((valid + 1) as u64)) | 1;
        proof {
            assert forall|bit: int| #[trigger]
                bit_is_set(word, bit) == (0 <= bit < 64 && (bit == 0 || bit > valid)) by {
                if 0 <= bit < 64 {
                    lemma_bit_of_padding(valid as u64, bit as u64);
                }
            }
        }
        word
    }
}

/// The word whose `count` lowest bits are set and no others.
pub fn low_bits(count: usize) -> (word: u64)
    requires
        count < 64,
    ensures
        forall|bit: int| #[trigger] bit_is_set(word, bit) == (0 <= bit < count),
{
    assert((1u64 << (count as u64)) >= 1) by (bit_vector)
        requires
            count < 64,
    ;
    let word = (1u64 << (count as u64)) - 1;
    proof {
        assert forall|bit: int| #[trigger] bit_is_set(word, bit) == (0 <= bit < count) by {
            if 0 <= bit < 64 {
                lemma_bit_of_low_mask(count as u64, bit as u64);
            }
        }
    }
    word
}

} // verus!
