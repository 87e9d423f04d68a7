use vstd::arithmetic::power2::is_pow2;
use vstd::prelude::*;

verus! {

/// Whether `value` is a whole multiple of `alignment_size`.
pub open spec fn spec_is_aligned(value: int, alignment_size: int) -> bool {
    value % alignment_size == 0
}

/// The least multiple of `alignment_size` that is not below `floor`.
pub open spec fn spec_min_aligned_size(floor: int, alignment_size: int) -> int {
    if floor % alignment_size == 0 {
        floor
    } else {
        (floor / alignment_size + 1) * alignment_size
    }
}

/// The greatest multiple of `alignment_size` that is not above `ceil`.
pub open spec fn spec_max_aligned_size(ceil: int, alignment_size: int) -> int {
    (ceil / alignment_size) * alignment_size
}

/// Whether `value` is a whole multiple of `alignment_size`.
pub fn is_aligned(value: usize, alignment_size: usize) -> (aligned: bool)
    requires
        alignment_size > 0,
    ensures
        aligned == spec_is_aligned(value as int, alignment_size as int),
{
    value % alignment_size == 0
}

proof fn lemma_single_bit_step(value: usize)
    by (bit_vector)
    requires
        value > 1,
    ensures
        (value & ((value - 1) as usize)) == 0 <==> (value % 2 == 0 && ((value / 2) & ((value / 2
            - 1) as usize)) == 0),
{
}

proof fn lemma_single_bit_is_pow2(value: usize)
    requires
        value > 0,
    ensures
        (value & ((value - 1) as usize)) == 0 <==> is_pow2(value as int),
    decreases value,
{
    reveal(is_pow2);
    if value == 1 {
        assert((1usize & ((1usize - 1) as usize)) == 0) by (bit_vector);
    } else {
        lemma_single_bit_step(value);
        lemma_single_bit_is_pow2(value / 2);
    }
}

/// Whether `value` is a power of two.
pub fn is_power_of_2(value: usize) -> (power: bool)
    ensures
        power == is_pow2(value as int),
{
    if value == 0 {
        proof {
            reveal(is_pow2);
        }
        false
    } else {
        proof {
            lemma_single_bit_is_pow2(value);
        }
        (value & (value - 1)) == 0
    }
}

/// The three facts that pin the rounded-up size down: it is aligned, it is not
/// below the floor, and it is less than one alignment step above it.
pub proof fn lemma_min_aligned_size(floor: int, alignment_size: int)
    requires
        0 <= floor,
        0 < alignment_size,
    ensures
        spec_is_aligned(spec_min_aligned_size(floor, alignment_size), alignment_size),
        floor <= spec_min_aligned_size(floor, alignment_size) < floor + alignment_size,
        spec_min_aligned_size(floor, alignment_size) / alignment_size == (floor + alignment_size
            - 1) / alignment_size,
{
    let q = floor / alignment_size;
    let r = floor % alignment_size;
    assert(floor == q * alignment_size + r) by {
        vstd::arithmetic::div_mod::lemma_fundamental_div_mod(floor, alignment_size);
        assert(alignment_size * q == q * alignment_size) by (nonlinear_arith);
    }
    if r == 0 {
        vstd::arithmetic::div_mod::lemma_fundamental_div_mod_converse(
            floor + alignment_size - 1,
            alignment_size,
            q,
            alignment_size - 1,
        );
    } else {
        assert((q + 1) * alignment_size == q * alignment_size + alignment_size)
            by (nonlinear_arith);
        vstd::arithmetic::div_mod::lemma_fundamental_div_mod_converse(
            (q + 1) * alignment_size,
            alignment_size,
            q + 1,
            0,
        );
        vstd::arithmetic::div_mod::lemma_fundamental_div_mod_converse(
            floor + alignment_size - 1,
            alignment_size,
            q + 1,
            r - 1,
        );
    }
}

/// Rounding up keeps the order of sizes.
pub proof fn lemma_min_aligned_size_increases(lower: int, upper: int, alignment_size: int)
    requires
        0 <= lower <= upper,
        0 < alignment_size,
    ensures
        spec_min_aligned_size(lower, alignment_size) <= spec_min_aligned_size(
            upper,
            alignment_size,
        ),
{
    lemma_min_aligned_size(lower, alignment_size);
    lemma_min_aligned_size(upper, alignment_size);
    let low = spec_min_aligned_size(lower, alignment_size);
    let up = spec_min_aligned_size(upper, alignment_size);
    if up < low {
        vstd::arithmetic::div_mod::lemma_fundamental_div_mod(low, alignment_size);
        vstd::arithmetic::div_mod::lemma_fundamental_div_mod(up, alignment_size);
        let low_steps = low / alignment_size;
        let up_steps = up / alignment_size;
        assert(up + alignment_size <= low) by (nonlinear_arith)
            requires
                low == alignment_size * low_steps,
                up == alignment_size * up_steps,
                up < low,
                0 < alignment_size,
        ;
    }
}

/// The facts that pin the rounded-down size down: it is aligned, it is not
/// above the ceiling, and it is less than one alignment step below it.
pub proof fn lemma_max_aligned_size(ceil: int, alignment_size: int)
    requires
        0 <= ceil,
        0 < alignment_size,
    ensures
        spec_is_aligned(spec_max_aligned_size(ceil, alignment_size), alignment_size),
        ceil - alignment_size < spec_max_aligned_size(ceil, alignment_size) <= ceil,
        spec_max_aligned_size(ceil, alignment_size) / alignment_size == ceil / alignment_size,
{
    let q = ceil / alignment_size;
    let r = ceil % alignment_size;
    assert(ceil == q * alignment_size + r) by {
        vstd::arithmetic::div_mod::lemma_fundamental_div_mod(ceil, alignment_size);
        assert(alignment_size * q == q * alignment_size) by (nonlinear_arith);
    }
    assert(0 <= q) by {
        vstd::arithmetic::div_mod::lemma_div_pos_is_pos(ceil, alignment_size);
    }
    vstd::arithmetic::div_mod::lemma_fundamental_div_mod_converse(
        q * alignment_size,
        alignment_size,
        q,
        0,
    );
}

/// The least multiple of `alignment_size` that is not below `floor`.
pub fn min_aligned_size(floor: usize, alignment_size: usize) -> (size: usize)
    requires
        alignment_size > 0,
        spec_min_aligned_size(floor as int, alignment_size as int) <= usize::MAX,
    ensures
        size == spec_min_aligned_size(floor as int, alignment_size as int),
{
    if is_aligned(floor, alignment_size) {
        floor
    } else {
        proof {
            lemma_min_aligned_size(floor as int, alignment_size as int);
            assert((floor / alignment_size + 1) * alignment_size == (floor / alignment_size)
                * alignment_size + alignment_size) by (nonlinear_arith);
            assert(0 <= (floor / alignment_size) * alignment_size) by (nonlinear_arith)
                requires
                    0 <= floor / alignment_size,
                    0 < alignment_size,
            ;
        }
        ((floor / alignment_size) + 1) * alignment_size
    }
}

/// The greatest multiple of `alignment_size` that is not above `ceil`.
pub fn max_aligned_size(ceil: usize, alignment_size: usize) -> (size: usize)
    requires
        alignment_size > 0,
    ensures
        size == spec_max_aligned_size(ceil as int, alignment_size as int),
{
    proof {
        lemma_max_aligned_size(ceil as int, alignment_size as int);
    }
    (ceil / alignment_size) * alignment_size
}

} // verus!
