//! Checking and scoring one candidate position against all samples.
use vstd::prelude::*;
use crate::mix::{MIX_INPUT_MASK, wrap32};
use crate::sample::Sample;
use crate::seed::{SEED_B1_6_TB3, SeedMode, code_mode};
use crate::matching::{
    STRICT_FULL_MASK, STRICT_MIXED, STRICT_SIMPLE_MASK, add_sample_score, packed_from_parts_for_code,
    parts_offset, sample_counted, sample_score, strict_ok, strict_sample_matches, axis_score,
    axis_counted, score_upto, lemma_axis_score_bounds, lemma_score_upto_bounds,
};

verus! {

/// Every sample agrees with the candidate given by its seed parts.
pub open spec fn all_strict(mode: SeedMode, samples: Seq<Sample>, x_seed: u32, y: int, z_seed: u32) -> bool {
    forall|i: int|
        0 <= i < samples.len() ==> strict_ok(
            #[trigger] samples[i],
            parts_offset(mode, samples[i], x_seed, y, z_seed),
        )
}

/// Every sample but the one at `skip` agrees with the candidate.
pub open spec fn all_strict_except(
    mode: SeedMode,
    samples: Seq<Sample>,
    skip: int,
    x_seed: u32,
    y: int,
    z_seed: u32,
) -> bool {
    forall|i: int|
        0 <= i < samples.len() && i != skip ==> strict_ok(
            #[trigger] samples[i],
            parts_offset(mode, samples[i], x_seed, y, z_seed),
        )
}

/// Every sample is well formed for `mode`.
pub open spec fn samples_wf(samples: Seq<Sample>, mode: SeedMode) -> bool {
    forall|i: int| 0 <= i < samples.len() ==> (#[trigger] samples[i]).wf(mode)
}

/// A sample observed on a full block with all twelve bits.
pub open spec fn is_full_exact(s: Sample) -> bool {
    !s.dripstone && s.mask == 0x0fff
}

/// Which check suffices for a sample set: the full-mask comparison when every
/// sample is a full-mask non-dripstone sample, the masked comparison when none
/// is dripstone, the general check otherwise.
pub open spec fn strict_kind(samples: Seq<Sample>) -> u8 {
    if exists|i: int| 0 <= i < samples.len() && (#[trigger] samples[i]).dripstone {
        STRICT_MIXED
    } else if forall|i: int| 0 <= i < samples.len() ==> (#[trigger] samples[i]).mask == 0x0fff {
        STRICT_FULL_MASK
    } else {
        STRICT_SIMPLE_MASK
    }
}

/// The shortcut check `kind` agrees with the general check on `samples`.
pub open spec fn kind_valid(kind: u8, samples: Seq<Sample>) -> bool {
    &&& kind == STRICT_FULL_MASK ==> forall|i: int|
        0 <= i < samples.len() ==> is_full_exact(#[trigger] samples[i])
    &&& kind == STRICT_SIMPLE_MASK ==> forall|i: int|
        0 <= i < samples.len() ==> !(#[trigger] samples[i]).dripstone
}

pub fn strict_check_kind(samples: &[Sample]) -> (r: u8)
    ensures
        r == strict_kind(samples@),
        kind_valid(r, samples@),
{
    let mut all_simple = true;
    let mut all_full_mask = true;
    let mut i: usize = 0;
    while i < samples.len()
        invariant
            i <= samples@.len(),
            all_simple,
            all_full_mask == forall|k: int| 0 <= k < i ==> (#[trigger] samples@[k]).mask == 0x0fff,
            forall|k: int| 0 <= k < i ==> !(#[trigger] samples@[k]).dripstone,
        decreases samples@.len() - i,
    {
        let sample = samples[i];
        if sample.dripstone {
            return STRICT_MIXED;
        }
        if sample.mask != 0x0fff {
            all_full_mask = false;
        }
        i = i + 1;
    }
    if all_full_mask {
        STRICT_FULL_MASK
    } else if all_simple {
        STRICT_SIMPLE_MASK
    } else {
        STRICT_MIXED
    }
}

/// The index of the first full-mask, non-dripstone sample.
pub open spec fn first_full_exact(samples: Seq<Sample>) -> Option<int> {
    if exists|i: int| 0 <= i < samples.len() && is_full_exact(#[trigger] samples[i]) {
        Some(
            choose|i: int|
                0 <= i < samples.len() && is_full_exact(#[trigger] samples[i]) && forall|k: int|
                    0 <= k < i ==> !is_full_exact(#[trigger] samples[k]),
        )
    } else {
        None
    }
}

pub fn choose_strict_y_pivot(samples: &[Sample]) -> (r: Option<usize>)
    ensures
        match r {
            Some(i) => {
                &&& i < samples@.len()
                &&& is_full_exact(samples@[i as int])
                &&& forall|k: int| 0 <= k < i ==> !is_full_exact(#[trigger] samples@[k])
            },
            None => forall|k: int| 0 <= k < samples@.len() ==> !is_full_exact(#[trigger] samples@[k]),
        },
        r matches Some(i) ==> first_full_exact(samples@) == Some(i as int),
        r is None ==> first_full_exact(samples@) is None,
{
    let mut i: usize = 0;
    while i < samples.len()
        invariant
            i <= samples@.len(),
            forall|k: int| 0 <= k < i ==> !is_full_exact(#[trigger] samples@[k]),
        decreases samples@.len() - i,
    {
        if !samples[i].dripstone && samples[i].mask == 0x0fff {
            proof {
                let j = first_full_exact(samples@)->0;
                assert(is_full_exact(samples@[i as int]));
                if j < i {
                    assert(!is_full_exact(samples@[j]));
                } else if j > i {
                }
            }
            return Some(i);
        }
        i = i + 1;
    }
    None
}

/// The check `kind` selects, on one sample: the whole predicted offset
/// (full-mask samples), the masked offset (non-dripstone samples), or the
/// general check.
pub open spec fn kind_ok(kind: u8, s: Sample, pred: u16) -> bool {
    if kind == STRICT_FULL_MASK {
        pred == s.expected
    } else if kind == STRICT_SIMPLE_MASK {
        pred & s.mask == s.expected
    } else {
        strict_ok(s, pred)
    }
}

/// Every sample but the one at `skip` passes the check `kind` selects.
pub open spec fn all_kind_ok_except(
    kind: u8,
    mode: SeedMode,
    samples: Seq<Sample>,
    skip: int,
    x_seed: u32,
    y: int,
    z_seed: u32,
) -> bool {
    forall|i: int|
        0 <= i < samples.len() && i != skip ==> kind_ok(
            kind,
            #[trigger] samples[i],
            parts_offset(mode, samples[i], x_seed, y, z_seed),
        )
}

/// Where `kind` is valid for the samples, its check is the general one.
pub proof fn lemma_kind_check_is_strict(
    kind: u8,
    mode: SeedMode,
    samples: Seq<Sample>,
    skip: int,
    x_seed: u32,
    y: int,
    z_seed: u32,
)
    requires
        kind_valid(kind, samples),
    ensures
        all_kind_ok_except(kind, mode, samples, skip, x_seed, y, z_seed) == all_strict_except(
            mode,
            samples,
            skip,
            x_seed,
            y,
            z_seed,
        ),
        skip < 0 || skip >= samples.len() ==> all_strict_except(mode, samples, skip, x_seed, y, z_seed)
            == all_strict(mode, samples, x_seed, y, z_seed),
{
    assert forall|i: int| 0 <= i < samples.len() implies kind_ok(
        kind,
        #[trigger] samples[i],
        parts_offset(mode, samples[i], x_seed, y, z_seed),
    ) == strict_ok(samples[i], parts_offset(mode, samples[i], x_seed, y, z_seed)) by {
        let pred = parts_offset(mode, samples[i], x_seed, y, z_seed);
        crate::mix::lemma_mix_of_range(
            crate::seed::combine_parts(
                mode,
                wrap32(x_seed + samples[i].dx_seed),
                wrap32(y + samples[i].dy),
                wrap32(z_seed + samples[i].dz_seed),
            ) as int,
        );
        if kind == STRICT_FULL_MASK {
            assert(is_full_exact(samples[i]));
            assert(pred < 4096u16 ==> pred & 0x0fffu16 == pred) by (bit_vector);
        }
    }
}

/// Whether every sample passes the check `KIND` selects; where `KIND` is
/// valid for the samples, whether every sample agrees with the candidate.
pub fn candidate_strict_for_code<const MODE: u8, const KIND: u8>(
    samples: &[Sample],
    x_seed: u32,
    y: i32,
    z_seed: u32,
) -> (r: bool)
    ensures
        r == all_kind_ok_except(KIND, code_mode(MODE), samples@, samples@.len() as int, x_seed, y as int, z_seed),
        kind_valid(KIND, samples@) ==> r == all_strict(code_mode(MODE), samples@, x_seed, y as int, z_seed),
{
    candidate_strict_for_code_skip::<MODE, KIND>(samples, samples.len(), x_seed, y, z_seed)
}

/// Whether every sample but the one at `skip_index` passes the check `KIND`
/// selects; where `KIND` is valid for the samples, whether every such sample
/// agrees with the candidate.
pub fn candidate_strict_for_code_skip<const MODE: u8, const KIND: u8>(
    samples: &[Sample],
    skip_index: usize,
    x_seed: u32,
    y: i32,
    z_seed: u32,
) -> (r: bool)
    ensures
        r == all_kind_ok_except(KIND, code_mode(MODE), samples@, skip_index as int, x_seed, y as int, z_seed),
        kind_valid(KIND, samples@) ==> r == all_strict_except(
            code_mode(MODE),
            samples@,
            skip_index as int,
            x_seed,
            y as int,
            z_seed,
        ),
        kind_valid(KIND, samples@) && skip_index >= samples@.len() ==> r == all_strict(
            code_mode(MODE),
            samples@,
            x_seed,
            y as int,
            z_seed,
        ),
{
    let ghost mode = code_mode(MODE);
    let mut index: usize = 0;
    while index < samples.len()
        invariant
            index <= samples@.len(),
            mode == code_mode(MODE),
            forall|i: int|
                0 <= i < index && i != skip_index ==> kind_ok(
                    KIND,
                    #[trigger] samples@[i],
                    parts_offset(mode, samples@[i], x_seed, y as int, z_seed),
                ),
        decreases samples@.len() - index,
    {
        if index != skip_index {
            let sample = samples[index];
            let pred = packed_from_parts_for_code::<MODE>(sample, x_seed, y, z_seed);
            let ok = if KIND == STRICT_FULL_MASK {
                pred == sample.expected
            } else if KIND == STRICT_SIMPLE_MASK {
                (pred & sample.mask) == sample.expected
            } else {
                strict_sample_matches(sample, pred)
            };
            if !ok {
                proof {
                    assert(!kind_ok(KIND, samples@[index as int], parts_offset(mode, samples@[index as int], x_seed, y as int, z_seed)));
                    if kind_valid(KIND, samples@) {
                        lemma_kind_check_is_strict(KIND, mode, samples@, skip_index as int, x_seed, y as int, z_seed);
                    }
                }
                return false;
            }
        }
        index = index + 1;
    }
    proof {
        if kind_valid(KIND, samples@) {
            lemma_kind_check_is_strict(KIND, mode, samples@, skip_index as int, x_seed, y as int, z_seed);
        }
    }
    true
}

/// The x/z part of the pivot's seed, reduced to the 28 bits the hash uses.
pub open spec fn pivot_base_spec(mode: SeedMode, xp: u32, zp: u32) -> u32 {
    if mode == SeedMode::Beta16Tb3 {
        wrap32(xp + zp) & 0x0fff_ffff
    } else {
        (xp ^ zp) & 0x0fff_ffff
    }
}

pub fn pivot_base_for_code<const MODE: u8>(pivot: Sample, x_seed: u32, z_seed: u32) -> (r: u32)
    ensures
        r == pivot_base_spec(
            code_mode(MODE),
            wrap32(x_seed + pivot.dx_seed),
            wrap32(z_seed + pivot.dz_seed),
        ),
{
    let x_part = x_seed.wrapping_add(pivot.dx_seed);
    let z_part = z_seed.wrapping_add(pivot.dz_seed);
    proof {
        crate::seed::lemma_wrapping_add_u32_is_wrap(x_seed, pivot.dx_seed);
        crate::seed::lemma_wrapping_add_u32_is_wrap(z_seed, pivot.dz_seed);
        crate::seed::lemma_wrapping_add_u32_is_wrap(x_part, z_part);
    }
    if MODE == SEED_B1_6_TB3 {
        x_part.wrapping_add(z_part) & MIX_INPUT_MASK
    } else {
        (x_part ^ z_part) & MIX_INPUT_MASK
    }
}

// ---------------------------------------------------------------------------
// Scoring a candidate.

/// The summed score of all samples against the candidate.
pub open spec fn total_score(
    mode: SeedMode,
    samples: Seq<Sample>,
    x_seed: u32,
    y: int,
    z_seed: u32,
    tol: int,
) -> int
    decreases samples.len(),
{
    if samples.len() == 0 {
        0
    } else {
        total_score(mode, samples.drop_last(), x_seed, y, z_seed, tol) + sample_score(
            samples.last(),
            parts_offset(mode, samples.last(), x_seed, y, z_seed),
            tol,
        )
    }
}

/// Whether any sample constrains any nibble.
pub open spec fn any_counted(samples: Seq<Sample>) -> bool {
    exists|i: int| 0 <= i < samples.len() && sample_counted(#[trigger] samples[i])
}

/// The scored verdict on a candidate: its total score, or nothing when the
/// score, accumulated sample by sample and nibble by nibble, passes
/// `max_score`.
pub open spec fn score_verdict(
    mode: SeedMode,
    samples: Seq<Sample>,
    x_seed: u32,
    y: int,
    z_seed: u32,
    tol: int,
    max_score: int,
) -> Option<int> {
    if any_counted(samples) && total_score(mode, samples, x_seed, y, z_seed, tol) > max_score {
        None
    } else {
        Some(total_score(mode, samples, x_seed, y, z_seed, tol))
    }
}

pub open spec fn opt_int(r: Option<i32>) -> Option<int> {
    match r {
        Some(v) => Some(v as int),
        None => None,
    }
}

pub proof fn lemma_uncounted_scores_zero(s: Sample, pred: u16, tol: int)
    requires
        !sample_counted(s),
    ensures
        sample_score(s, pred, tol) == 0,
{
    assert(score_upto(s, pred, tol, 0) == 0);
    assert(score_upto(s, pred, tol, 1) == axis_score(s, pred, tol, 0));
    assert(score_upto(s, pred, tol, 2) == score_upto(s, pred, tol, 1) + axis_score(s, pred, tol, 1));
}

pub proof fn lemma_total_score_prefix(
    mode: SeedMode,
    samples: Seq<Sample>,
    x_seed: u32,
    y: int,
    z_seed: u32,
    tol: int,
    k: int,
)
    requires
        0 <= tol,
        0 <= k <= samples.len(),
    ensures
        0 <= total_score(mode, samples.take(k), x_seed, y, z_seed, tol) <= total_score(
            mode,
            samples,
            x_seed,
            y,
            z_seed,
            tol,
        ),
    decreases samples.len(),
{
    let n = samples.len();
    if n > 0 {
        let last = samples.last();
        lemma_score_upto_bounds(last, parts_offset(mode, last, x_seed, y, z_seed), tol, 3);
        if k == n {
            assert(samples.take(k) =~= samples);
            lemma_total_score_prefix(mode, samples.drop_last(), x_seed, y, z_seed, tol, n - 1);
            assert(samples.drop_last().take(n - 1) =~= samples.drop_last());
        } else {
            lemma_total_score_prefix(mode, samples.drop_last(), x_seed, y, z_seed, tol, k);
            assert(samples.drop_last().take(k) =~= samples.take(k));
        }
    }
}

/// The candidate's total score, or `None` when the running score passes
/// `max_score`.
pub fn candidate_score_for_code<const MODE: u8>(
    samples: &[Sample],
    x_seed: u32,
    y: i32,
    z_seed: u32,
    tol: i32,
    max_score: i32,
) -> (r: Option<i32>)
    requires
        0 <= tol,
    ensures
        opt_int(r) == score_verdict(
            code_mode(MODE),
            samples@,
            x_seed,
            y as int,
            z_seed,
            tol as int,
            max_score as int,
        ),
{
    let ghost mode = code_mode(MODE);
    let ghost t = tol as int;
    let mut score: i32 = 0;
    let mut i: usize = 0;
    while i < samples.len()
        invariant
            i <= samples@.len(),
            0 <= tol,
            t == tol,
            mode == code_mode(MODE),
            score as int == total_score(mode, samples@.take(i as int), x_seed, y as int, z_seed, t),
            0 <= score,
            score == 0 || score <= max_score,
            any_counted(samples@.take(i as int)) ==> score <= max_score,
        decreases samples@.len() - i,
    {
        let sample = samples[i];
        let pred = packed_from_parts_for_code::<MODE>(sample, x_seed, y, z_seed);
        let ghost before = score;
        let ghost prefix = samples@.take(i as int);
        let ghost next = samples@.take(i + 1);
        proof {
            assert(next.drop_last() =~= prefix);
            assert(next.last() == sample);
        }
        if !add_sample_score(sample, pred, tol, &mut score, max_score) {
            proof {
                lemma_total_score_prefix(mode, samples@, x_seed, y as int, z_seed, t, i + 1);
                assert(samples@[i as int] == sample);
                assert(any_counted(samples@));
            }
            return None;
        }
        proof {
            lemma_score_upto_bounds(sample, pred, t, 3);
            if !sample_counted(sample) {
                lemma_uncounted_scores_zero(sample, pred, t);
            }
            if any_counted(next) {
                if !any_counted(prefix) {
                    let w = choose|w: int| 0 <= w < next.len() && sample_counted(#[trigger] next[w]);
                    if w < i {
                        assert(prefix[w] == next[w]);
                    }
                }
            }
            assert forall|w: int| 0 <= w < prefix.len() && sample_counted(#[trigger] prefix[w])
                implies any_counted(next) by {
                assert(next[w] == prefix[w]);
            }
        }
        i = i + 1;
    }
    proof {
        assert(samples@.take(i as int) =~= samples@);
    }
    Some(score)
}

} // verus!
