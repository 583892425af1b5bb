//! Predicting a sample's offset at a candidate position and checking or
//! scoring it against what was observed.
use vstd::prelude::*;
use crate::mix::{MIX_INPUT_MASK, X_MULT, Z_MULT_TB3, Z_MULT_VANILLA, mix_low_12, mix_spec, pow32, wrap32};
use crate::sample::Sample;
use crate::seed::{
    SEED_B1_6_TB3, SEED_POST_1_8, SeedMode, block_offset, code_mode, combine_parts,
    lemma_i32_wrapping_add_as_u32, lemma_parts_are_block_seed, lemma_wrapping_add_u32_is_wrap,
    x_seed_of, z_mult, z_seed_of,
};

verus! {

pub const STRICT_FULL_MASK: u8 = 0;
pub const STRICT_SIMPLE_MASK: u8 = 1;
pub const STRICT_MIXED: u8 = 2;

// ---------------------------------------------------------------------------
// Predicted offsets.

/// The predicted offset of sample `s` for a candidate whose x and z seed parts
/// are `x_seed` and `z_seed` and whose height is `y`.
pub open spec fn parts_offset(mode: SeedMode, s: Sample, x_seed: u32, y: int, z_seed: u32) -> u16 {
    mix_spec(
        combine_parts(
            mode,
            wrap32(x_seed + s.dx_seed),
            wrap32(y + s.dy),
            wrap32(z_seed + s.dz_seed),
        ),
    )
}

/// The offset of the block that sample `s` observed, for a candidate at
/// `(x, y, z)`: the block at `(x + dx, y + dy, z + dz)`.
pub open spec fn sample_offset(mode: SeedMode, s: Sample, x: int, y: int, z: int) -> u16 {
    block_offset(mode, x + s.dx, y + s.dy, z + s.dz)
}

/// With the candidate's own seed parts, the parts-based prediction is the
/// offset of the observed block.
pub proof fn lemma_parts_offset(mode: SeedMode, s: Sample, x: int, y: int, z: int)
    requires
        s.wf(mode),
    ensures
        parts_offset(mode, s, x_seed_of(x), y, z_seed_of(mode, z)) == sample_offset(
            mode,
            s,
            x,
            y,
            z,
        ),
{
    lemma_parts_are_block_seed(mode, x, s.dx as int, y, s.dy as int, z, s.dz as int);
}

pub fn z_multiplier_for_code<const MODE: u8>() -> (r: u32)
    ensures
        r == z_mult(code_mode(MODE)),
{
    if MODE == SEED_B1_6_TB3 {
        Z_MULT_TB3
    } else {
        Z_MULT_VANILLA
    }
}

/// The 32-bit seed of the block observed by `sample`, for the mode `MODE`
/// stands for.
pub fn seed_from_parts_for_code<const MODE: u8>(
    sample: Sample,
    x_seed: u32,
    y: i32,
    z_seed: u32,
) -> (r: u32)
    ensures
        r == combine_parts(
            code_mode(MODE),
            wrap32(x_seed + sample.dx_seed),
            wrap32(y + sample.dy),
            wrap32(z_seed + sample.dz_seed),
        ),
{
    let x_part = x_seed.wrapping_add(sample.dx_seed);
    let z_part = z_seed.wrapping_add(sample.dz_seed);
    proof {
        lemma_wrapping_add_u32_is_wrap(x_seed, sample.dx_seed);
        lemma_wrapping_add_u32_is_wrap(z_seed, sample.dz_seed);
    }
    if MODE == SEED_POST_1_8 {
        x_part ^ z_part
    } else {
        let y_part = y.wrapping_add(sample.dy) as u32;
        proof {
            lemma_i32_wrapping_add_as_u32(y, sample.dy);
        }
        if MODE == SEED_B1_6_TB3 {
            let r = x_part.wrapping_add(z_part).wrapping_add(y_part);
            proof {
                lemma_wrapping_add_u32_is_wrap(x_part, z_part);
                lemma_wrapping_add_u32_is_wrap(x_part.wrapping_add(z_part), y_part);
                crate::seed::lemma_wrap32_add3(x_part as int, z_part as int, y_part as int);
                vstd::arithmetic::div_mod::lemma_small_mod(x_part as nat, pow32() as nat);
                vstd::arithmetic::div_mod::lemma_small_mod(z_part as nat, pow32() as nat);
                vstd::arithmetic::div_mod::lemma_small_mod(y_part as nat, pow32() as nat);
                vstd::arithmetic::div_mod::lemma_small_mod(
                    x_part.wrapping_add(z_part) as nat,
                    pow32() as nat,
                );
                crate::seed::lemma_wrap32_add(x_part + z_part, y_part as int);
            }
            r
        } else {
            x_part ^ z_part ^ y_part
        }
    }
}

/// The predicted packed offset of `sample`'s block, for the mode `MODE`
/// stands for.
pub fn packed_from_parts_for_code<const MODE: u8>(
    sample: Sample,
    x_seed: u32,
    y: i32,
    z_seed: u32,
) -> (r: u16)
    ensures
        r == parts_offset(code_mode(MODE), sample, x_seed, y as int, z_seed),
        r < 4096,
{
    mix_low_12(seed_from_parts_for_code::<MODE>(sample, x_seed, y, z_seed))
}

/// The 32-bit seed of the block observed by `sample`, for `mode`.
pub fn seed_from_parts(mode: SeedMode, sample: Sample, x_seed: u32, y: i32, z_seed: u32) -> (r: u32)
    ensures
        r == combine_parts(
            mode,
            wrap32(x_seed + sample.dx_seed),
            wrap32(y + sample.dy),
            wrap32(z_seed + sample.dz_seed),
        ),
{
    let x_part = x_seed.wrapping_add(sample.dx_seed);
    let z_part = z_seed.wrapping_add(sample.dz_seed);
    let y_part = if mode.ignores_y() {
        0
    } else {
        y.wrapping_add(sample.dy) as u32
    };
    proof {
        lemma_wrapping_add_u32_is_wrap(x_seed, sample.dx_seed);
        lemma_wrapping_add_u32_is_wrap(z_seed, sample.dz_seed);
        lemma_i32_wrapping_add_as_u32(y, sample.dy);
        assert(x_part ^ z_part ^ 0u32 == x_part ^ z_part) by (bit_vector);
    }
    match mode {
        SeedMode::Beta16Tb3 => {
            let r = x_part.wrapping_add(z_part).wrapping_add(y_part);
            proof {
                lemma_wrapping_add_u32_is_wrap(x_part, z_part);
                lemma_wrapping_add_u32_is_wrap(x_part.wrapping_add(z_part), y_part);
                vstd::arithmetic::div_mod::lemma_small_mod(y_part as nat, pow32() as nat);
                crate::seed::lemma_wrap32_add(x_part + z_part, y_part as int);
                vstd::arithmetic::div_mod::lemma_small_mod(
                    x_part.wrapping_add(z_part) as nat,
                    pow32() as nat,
                );
            }
            r
        },
        SeedMode::Post1_8 | SeedMode::Pre1_8 => x_part ^ z_part ^ y_part,
    }
}

/// The predicted packed offset of `sample`'s block, for `mode`.
pub fn packed_from_parts(mode: SeedMode, sample: Sample, x_seed: u32, y: i32, z_seed: u32) -> (r: u16)
    ensures
        r == parts_offset(mode, sample, x_seed, y as int, z_seed),
        r < 4096,
{
    mix_low_12(seed_from_parts(mode, sample, x_seed, y, z_seed))
}

// ---------------------------------------------------------------------------
// Nibbles.

pub open spec fn pow16(axis: int) -> int {
    if axis <= 0 {
        1
    } else if axis == 1 {
        16
    } else {
        256
    }
}

/// Nibble `axis` (0 = x, 1 = y, 2 = z) of a packed offset.
pub open spec fn nibble(v: u16, axis: int) -> int {
    (v as int / pow16(axis)) % 16
}

pub fn axis_nibble(v: u16, axis: u32) -> (r: u8)
    requires
        axis < 3,
    ensures
        r == nibble(v, axis as int),
{
    let r = ((v >> (axis * 4) as u16) & 0x000f) as u8;
    proof {
        if axis == 0 {
            assert((v >> 0u16) & 0x000fu16 == v % 16) by (bit_vector);
        } else if axis == 1 {
            assert((v >> 4u16) & 0x000fu16 == (v / 16) % 16) by (bit_vector);
        } else {
            assert((v >> 8u16) & 0x000fu16 == (v / 256) % 16) by (bit_vector);
        }
    }
    r
}

/// A dripstone x/z nibble only tells which third of the block the tip is in.
pub open spec fn drip_matches(expected: int, predicted: int) -> bool {
    if expected <= 3 {
        predicted <= 3
    } else if expected >= 12 {
        predicted >= 12
    } else {
        predicted == expected
    }
}

pub open spec fn drip_distance(expected: int, predicted: int) -> int {
    if expected <= 3 {
        if predicted <= 3 {
            0
        } else {
            predicted - 3
        }
    } else if expected >= 12 {
        if predicted >= 12 {
            0
        } else {
            12 - predicted
        }
    } else {
        abs_diff(predicted, expected)
    }
}

pub open spec fn abs_diff(a: int, b: int) -> int {
    if a >= b {
        a - b
    } else {
        b - a
    }
}

pub fn dripstone_nibble_matches(expected: u8, predicted: u8) -> (r: bool)
    ensures
        r == drip_matches(expected as int, predicted as int),
{
    if expected <= 3 {
        predicted <= 3
    } else if expected >= 12 {
        predicted >= 12
    } else {
        predicted == expected
    }
}

pub fn dripstone_nibble_distance(expected: u8, predicted: u8) -> (r: i32)
    ensures
        r == drip_distance(expected as int, predicted as int),
{
    if expected <= 3 {
        if predicted <= 3 {
            0
        } else {
            (predicted - 3) as i32
        }
    } else if expected >= 12 {
        if predicted >= 12 {
            0
        } else {
            (12 - predicted) as i32
        }
    } else {
        let d = predicted as i32 - expected as i32;
        if d < 0 {
            -d
        } else {
            d
        }
    }
}

// ---------------------------------------------------------------------------
// Strict matching.

/// Whether sample `s` constrains nibble `axis`.
pub open spec fn axis_counted(s: Sample, axis: int) -> bool {
    nibble(s.mask, axis) != 0
}

/// Whether a dripstone sample's nibble `axis` agrees with `pred`.
pub open spec fn drip_axis_ok(s: Sample, pred: u16, axis: int) -> bool {
    axis_counted(s, axis) ==> if axis == 1 {
        nibble(pred, axis) == nibble(s.expected, axis)
    } else {
        drip_matches(nibble(s.expected, axis), nibble(pred, axis))
    }
}

/// Whether a predicted offset agrees with what sample `s` observed: exactly
/// on the masked bits, or for dripstone per nibble, with x and z only by third.
pub open spec fn strict_ok(s: Sample, pred: u16) -> bool {
    if !s.dripstone {
        pred & s.mask == s.expected
    } else {
        drip_axis_ok(s, pred, 0) && drip_axis_ok(s, pred, 1) && drip_axis_ok(s, pred, 2)
    }
}

pub fn strict_sample_matches(sample: Sample, pred: u16) -> (r: bool)
    ensures
        r == strict_ok(sample, pred),
{
    if !sample.dripstone {
        return (pred & sample.mask) == sample.expected;
    }
    let mut axis: u32 = 0;
    while axis < 3
        invariant
            axis <= 3,
            sample.dripstone,
            forall|a: int| 0 <= a < axis ==> drip_axis_ok(sample, pred, a),
        decreases 3 - axis,
    {
        let nib_mask = axis_nibble(sample.mask, axis);
        if nib_mask != 0 {
            let predicted = axis_nibble(pred, axis);
            let expected = axis_nibble(sample.expected, axis);
            if axis == 1 {
                if predicted != expected {
                    return false;
                }
            } else if !dripstone_nibble_matches(expected, predicted) {
                return false;
            }
        }
        axis = axis + 1;
    }
    true
}

// ---------------------------------------------------------------------------
// Scoring.

/// The distance between predicted and observed nibble `axis`.
pub open spec fn axis_distance(s: Sample, pred: u16, axis: int) -> int {
    if s.dripstone && axis != 1 {
        drip_distance(nibble(s.expected, axis), nibble(pred, axis))
    } else {
        abs_diff(nibble(pred, axis), nibble(s.expected, axis))
    }
}

/// Nibble `axis`'s contribution to the score: the distance within the
/// tolerance, its square beyond it, nothing for an unconstrained nibble.
pub open spec fn axis_score(s: Sample, pred: u16, tol: int, axis: int) -> int {
    if !axis_counted(s, axis) {
        0
    } else if axis_distance(s, pred, axis) <= tol {
        axis_distance(s, pred, axis)
    } else {
        axis_distance(s, pred, axis) * axis_distance(s, pred, axis)
    }
}

/// The score of nibbles `0..k`.
pub open spec fn score_upto(s: Sample, pred: u16, tol: int, k: int) -> int
    decreases k,
{
    if k <= 0 {
        0
    } else {
        score_upto(s, pred, tol, k - 1) + axis_score(s, pred, tol, k - 1)
    }
}

/// The score of a sample against a predicted offset.
pub open spec fn sample_score(s: Sample, pred: u16, tol: int) -> int {
    score_upto(s, pred, tol, 3)
}

/// Whether the sample constrains any nibble.
pub open spec fn sample_counted(s: Sample) -> bool {
    axis_counted(s, 0) || axis_counted(s, 1) || axis_counted(s, 2)
}

/// Whether the running score passes `max_score` at nibble `axis`.
pub open spec fn exceeds_at(s: Sample, pred: u16, tol: int, start: int, max_score: int, axis: int) -> bool {
    axis_counted(s, axis) && start + score_upto(s, pred, tol, axis + 1) > max_score
}

/// The nibble at which the running score first passes `max_score`.
pub open spec fn first_exceeding_axis(s: Sample, pred: u16, tol: int, start: int, max_score: int) -> int {
    if exceeds_at(s, pred, tol, start, max_score, 0) {
        0
    } else if exceeds_at(s, pred, tol, start, max_score, 1) {
        1
    } else {
        2
    }
}

pub proof fn lemma_axis_score_bounds(s: Sample, pred: u16, tol: int, axis: int)
    requires
        0 <= tol,
    ensures
        0 <= axis_score(s, pred, tol, axis) <= 225,
        0 <= axis_distance(s, pred, axis) <= 15,
{
    let d = axis_distance(s, pred, axis);
    assert(0 <= nibble(pred, axis) < 16);
    assert(0 <= nibble(s.expected, axis) < 16);
    assert(0 <= d <= 15);
    if axis_counted(s, axis) && d > tol {
        assert(d * d <= 15 * 15) by (nonlinear_arith)
            requires
                0 <= d <= 15,
        ;
        assert(d * d >= 0) by (nonlinear_arith);
    }
}

pub proof fn lemma_score_upto_bounds(s: Sample, pred: u16, tol: int, k: int)
    requires
        0 <= tol,
        0 <= k <= 3,
    ensures
        0 <= score_upto(s, pred, tol, k) <= 225 * k,
    decreases k,
{
    if k > 0 {
        lemma_score_upto_bounds(s, pred, tol, k - 1);
        lemma_axis_score_bounds(s, pred, tol, k - 1);
    }
}

pub proof fn lemma_score_upto_monotone(s: Sample, pred: u16, tol: int, j: int, k: int)
    requires
        0 <= tol,
        j <= k,
    ensures
        score_upto(s, pred, tol, j) <= score_upto(s, pred, tol, k),
    decreases k - j,
{
    if j < k {
        lemma_score_upto_monotone(s, pred, tol, j, k - 1);
        lemma_axis_score_bounds(s, pred, tol, k - 1);
    }
}

/// Adds sample `s`'s nibble scores to `score`, stopping as soon as the running
/// score passes `max_score`; returns whether it stayed within it.
pub fn add_sample_score(sample: Sample, pred: u16, tol: i32, score: &mut i32, max_score: i32) -> (r: bool)
    requires
        0 <= tol,
        0 <= *old(score),
        *old(score) == 0 || *old(score) <= max_score,
    ensures
        r == !(sample_counted(sample) && *old(score) + sample_score(sample, pred, tol as int)
            > max_score),
        r ==> *final(score) == *old(score) + sample_score(sample, pred, tol as int),
        !r ==> *final(score) == (*old(score) + score_upto(
            sample,
            pred,
            tol as int,
            first_exceeding_axis(sample, pred, tol as int, *old(score) as int, max_score as int) + 1,
        )) as i32,
{
    let ghost start: int = *score as int;
    let ghost t = tol as int;
    let mut axis: u32 = 0;
    proof {
        lemma_score_upto_bounds(sample, pred, t, 3);
    }
    while axis < 3
        invariant
            axis <= 3,
            0 <= tol,
            t == tol,
            start == *old(score) as int,
            *score == start + score_upto(sample, pred, t, axis as int),
            0 <= *score,
            *score == 0 || *score <= max_score,
            forall|a: int| 0 <= a < axis ==> !#[trigger] exceeds_at(sample, pred, t, start, max_score as int, a),
        decreases 3 - axis,
    {
        proof {
            lemma_score_upto_monotone(sample, pred, t, axis + 1, 3);
            lemma_axis_score_bounds(sample, pred, t, axis as int);
            assert(score_upto(sample, pred, t, axis + 1) == score_upto(sample, pred, t, axis as int)
                + axis_score(sample, pred, t, axis as int));
        }
        let nib_mask = axis_nibble(sample.mask, axis);
        if nib_mask != 0 {
            let predicted = axis_nibble(pred, axis);
            let expected = axis_nibble(sample.expected, axis);
            let d = if sample.dripstone && axis != 1 {
                dripstone_nibble_distance(expected, predicted)
            } else {
                let e = predicted as i32 - expected as i32;
                if e < 0 {
                    -e
                } else {
                    e
                }
            };
            assert(d == axis_distance(sample, pred, axis as int));
            let c = if d <= tol {
                d
            } else {
                d * d
            };
            assert(c == axis_score(sample, pred, t, axis as int));
            if c > max_score - *score {
                // The running score with this nibble added, in 32-bit two's
                // complement.
                let total: i64 = *score as i64 + c as i64;
                *score = total as i32;
                proof {
                    assert(exceeds_at(sample, pred, t, start, max_score as int, axis as int));
                    if axis == 0 {
                    } else if axis == 1 {
                        assert(!exceeds_at(sample, pred, t, start, max_score as int, 0));
                    } else {
                        assert(!exceeds_at(sample, pred, t, start, max_score as int, 0));
                        assert(!exceeds_at(sample, pred, t, start, max_score as int, 1));
                    }
                }
                return false;
            }
            *score = *score + c;
        }
        axis = axis + 1;
    }
    proof {
        if sample_counted(sample) {
            assert(score_upto(sample, pred, t, 3) == score_upto(sample, pred, t, 2) + axis_score(
                sample,
                pred,
                t,
                2,
            ));
            assert(score_upto(sample, pred, t, 2) == score_upto(sample, pred, t, 1) + axis_score(
                sample,
                pred,
                t,
                1,
            ));
            if axis_counted(sample, 2) {
                assert(!exceeds_at(sample, pred, t, start, max_score as int, 2));
            } else if axis_counted(sample, 1) {
                assert(!exceeds_at(sample, pred, t, start, max_score as int, 1));
            } else {
                assert(!exceeds_at(sample, pred, t, start, max_score as int, 0));
            }
        }
    }
    true
}

} // verus!
