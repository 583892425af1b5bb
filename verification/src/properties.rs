//! What the scans mean, stated over the block offsets of the world, and how
//! the different ways of scanning relate.
use vstd::prelude::*;
use crate::seed::{SeedMode, ScanError, block_offset};
use crate::sample::{Sample, bounds_ok, raw_samples, same_lengths, law_stable_sort_unique};
use crate::candidate::{samples_wf, total_score};
use crate::matching::{
    axis_counted, axis_distance, axis_score, lemma_axis_score_bounds, lemma_parts_offset, nibble,
    parts_offset, sample_offset, sample_score, score_upto, strict_ok,
};
use crate::scan::{
    lemma_score_at, lemma_strict_at, score_at, scored_box_result, strict_at, strict_box_result,
    strict_box_result_zxy, strict_record, strict_record_zxy, strict_scan_result,
};
use crate::order::{
    cube, lemma_cube_contains, lemma_cube_no_duplicates, lemma_flat_len, lemma_flat_prefix, lemma_take_upto_prefix,
    prefix_of, records_distinct, reports, take_upto,
};
use crate::api::{prepared_samples, scored_scan_spec, strict_scan_spec};

verus! {

/// In the 1.8+ mode a block's offset is the same at every height.
pub proof fn law_post_1_8_offset_ignores_y(x: int, y1: int, y2: int, z: int)
    ensures
        block_offset(SeedMode::Post1_8, x, y1, z) == block_offset(SeedMode::Post1_8, x, y2, z),
{
}

/// A candidate passes the strict check exactly when every sample's observed
/// nibbles agree with the offset of the block it was taken from, relative to
/// the candidate.
pub proof fn law_strict_match_is_observed_offsets(
    mode: SeedMode,
    samples: Seq<Sample>,
    x: int,
    y: int,
    z: int,
)
    requires
        samples_wf(samples, mode),
    ensures
        strict_at(mode, samples, x, y, z) <==> forall|i: int|
            0 <= i < samples.len() ==> strict_ok(
                #[trigger] samples[i],
                sample_offset(mode, samples[i], x, y, z),
            ),
{
    lemma_strict_at(mode, samples, x, y, z);
    assert forall|i: int| 0 <= i < samples.len() implies parts_offset(
        mode,
        #[trigger] samples[i],
        crate::seed::x_seed_of(x),
        y,
        crate::seed::z_seed_of(mode, z),
    ) == sample_offset(mode, samples[i], x, y, z) by {
        lemma_parts_offset(mode, samples[i], x, y, z);
    }
}

proof fn lemma_post_total_score_ignores_y(
    samples: Seq<Sample>,
    x_seed: u32,
    y1: int,
    y2: int,
    z_seed: u32,
    tol: int,
)
    ensures
        total_score(SeedMode::Post1_8, samples, x_seed, y1, z_seed, tol) == total_score(
            SeedMode::Post1_8,
            samples,
            x_seed,
            y2,
            z_seed,
            tol,
        ),
    decreases samples.len(),
{
    if samples.len() > 0 {
        lemma_post_total_score_ignores_y(samples.drop_last(), x_seed, y1, y2, z_seed, tol);
    }
}

/// In the 1.8+ mode the strict and the scored verdicts on a candidate do not
/// depend on its height, which is why such scans visit one height only.
pub proof fn law_post_1_8_verdicts_ignore_y(
    samples: Seq<Sample>,
    x: int,
    y1: int,
    y2: int,
    z: int,
    tol: int,
    max_score: int,
)
    ensures
        strict_at(SeedMode::Post1_8, samples, x, y1, z) == strict_at(SeedMode::Post1_8, samples, x, y2, z),
        score_at(SeedMode::Post1_8, samples, x, y1, z, tol, max_score) == score_at(
            SeedMode::Post1_8,
            samples,
            x,
            y2,
            z,
            tol,
            max_score,
        ),
{
    lemma_strict_at(SeedMode::Post1_8, samples, x, y1, z);
    lemma_strict_at(SeedMode::Post1_8, samples, x, y2, z);
    lemma_score_at(SeedMode::Post1_8, samples, x, y1, z, tol, max_score);
    lemma_score_at(SeedMode::Post1_8, samples, x, y2, z, tol, max_score);
    let xs = crate::seed::x_seed_of(x);
    let zs = crate::seed::z_seed_of(SeedMode::Post1_8, z);
    lemma_post_total_score_ignores_y(samples, xs, y1, y2, zs, tol);
}

/// A strict walk of a box (y, then z, then x) lists the position `(x, y, z)`
/// exactly when it lies in the box and passes the strict check.
pub proof fn law_strict_walk_lists_exactly_the_matches(
    mode: SeedMode,
    samples: Seq<Sample>,
    x0: i32,
    x1: i32,
    y0: i32,
    y1: i32,
    z0: i32,
    z1: i32,
    x: i32,
    y: i32,
    z: i32,
)
    ensures
        cube(strict_record(mode, samples), y0 as int, y1 as int, z0 as int, z1 as int, x0 as int, x1 as int).contains(
            seq![x, y, z],
        ) <==> (x0 <= x <= x1 && y0 <= y <= y1 && z0 <= z <= z1 && strict_at(mode, samples, x as int, y as int, z as int)),
{
    let f = strict_record(mode, samples);
    let r = seq![x, y, z];
    lemma_cube_contains(f, y0 as int, y1 as int, z0 as int, z1 as int, x0 as int, x1 as int, r);
    if cube(f, y0 as int, y1 as int, z0 as int, z1 as int, x0 as int, x1 as int).contains(r) {
        let (o, m, i) = choose|o: int, m: int, i: int|
            y0 <= o <= y1 && z0 <= m <= z1 && x0 <= i <= x1 && #[trigger] reports(f, o, m, i, r);
        assert(strict_at(mode, samples, i, o, m));
        assert(seq![i as i32, o as i32, m as i32] == r);
        assert(seq![i as i32, o as i32, m as i32][0] == r[0]);
        assert(seq![i as i32, o as i32, m as i32][1] == r[1]);
        assert(seq![i as i32, o as i32, m as i32][2] == r[2]);
    }
    if x0 <= x <= x1 && y0 <= y <= y1 && z0 <= z <= z1 && strict_at(mode, samples, x as int, y as int, z as int) {
        assert(reports(f, y as int, z as int, x as int, r));
    }
}

/// The walk used with the y prefilter (z, then x, then y) lists the position
/// `(x, y, z)` exactly when it lies in the box and passes the strict check.
pub proof fn law_prefilter_walk_lists_exactly_the_matches(
    mode: SeedMode,
    samples: Seq<Sample>,
    x0: i32,
    x1: i32,
    y0: i32,
    y1: i32,
    z0: i32,
    z1: i32,
    x: i32,
    y: i32,
    z: i32,
)
    ensures
        cube(strict_record_zxy(mode, samples), z0 as int, z1 as int, x0 as int, x1 as int, y0 as int, y1 as int).contains(
            seq![x, y, z],
        ) <==> (x0 <= x <= x1 && y0 <= y <= y1 && z0 <= z <= z1 && strict_at(mode, samples, x as int, y as int, z as int)),
{
    let f = strict_record_zxy(mode, samples);
    let r = seq![x, y, z];
    lemma_cube_contains(f, z0 as int, z1 as int, x0 as int, x1 as int, y0 as int, y1 as int, r);
    if cube(f, z0 as int, z1 as int, x0 as int, x1 as int, y0 as int, y1 as int).contains(r) {
        let (o, m, i) = choose|o: int, m: int, i: int|
            z0 <= o <= z1 && x0 <= m <= x1 && y0 <= i <= y1 && #[trigger] reports(f, o, m, i, r);
        assert(strict_at(mode, samples, m, i, o));
        assert(seq![m as i32, i as i32, o as i32] == r);
        assert(seq![m as i32, i as i32, o as i32][0] == r[0]);
        assert(seq![m as i32, i as i32, o as i32][1] == r[1]);
        assert(seq![m as i32, i as i32, o as i32][2] == r[2]);
    }
    if x0 <= x <= x1 && y0 <= y <= y1 && z0 <= z <= z1 && strict_at(mode, samples, x as int, y as int, z as int) {
        assert(reports(f, z as int, x as int, y as int, r));
    }
}

/// The y prefilter changes only the order of the matches a strict scan lists:
/// both walks of a box list the same positions.
pub proof fn law_prefilter_finds_the_same_positions(
    mode: SeedMode,
    samples: Seq<Sample>,
    x0: i32,
    x1: i32,
    y0: i32,
    y1: i32,
    z0: i32,
    z1: i32,
    x: i32,
    y: i32,
    z: i32,
)
    ensures
        cube(strict_record_zxy(mode, samples), z0 as int, z1 as int, x0 as int, x1 as int, y0 as int, y1 as int).contains(
            seq![x, y, z],
        ) <==> cube(strict_record(mode, samples), y0 as int, y1 as int, z0 as int, z1 as int, x0 as int, x1 as int).contains(
            seq![x, y, z],
        ),
{
    law_strict_walk_lists_exactly_the_matches(mode, samples, x0, x1, y0, y1, z0, z1, x, y, z);
    law_prefilter_walk_lists_exactly_the_matches(mode, samples, x0, x1, y0, y1, z0, z1, x, y, z);
}

/// The prepared samples of a set of input arrays are determined by them.
pub proof fn law_prepared_samples_unique(
    rel_dx: Seq<i32>,
    rel_dy: Seq<i32>,
    rel_dz: Seq<i32>,
    rel_packed: Seq<u16>,
    rel_mask: Seq<u16>,
    rel_drip: Seq<u8>,
    mode: SeedMode,
    a: Seq<Sample>,
    b: Seq<Sample>,
)
    requires
        prepared_samples(rel_dx, rel_dy, rel_dz, rel_packed, rel_mask, rel_drip, mode, a),
        prepared_samples(rel_dx, rel_dy, rel_dz, rel_packed, rel_mask, rel_drip, mode, b),
    ensures
        a == b,
{
    law_stable_sort_unique(raw_samples(rel_dx, rel_dy, rel_dz, rel_packed, rel_mask, rel_drip, mode), a, b);
}

/// A prepared plan's strict scan answers as the one-shot strict scan of the
/// same input arrays does.
pub proof fn law_plan_strict_scan_agrees_with_one_shot(
    rel_dx: Seq<i32>,
    rel_dy: Seq<i32>,
    rel_dz: Seq<i32>,
    rel_packed: Seq<u16>,
    rel_mask: Seq<u16>,
    rel_drip: Seq<u8>,
    mode: SeedMode,
    plan_samples: Seq<Sample>,
    x0: i32,
    x1: i32,
    y0: i32,
    y1: i32,
    z0: i32,
    z1: i32,
    max_matches: u32,
    one_shot: Result<Seq<i32>, ScanError>,
)
    requires
        same_lengths(rel_dx, rel_dy, rel_dz, rel_packed, rel_mask, rel_drip),
        prepared_samples(rel_dx, rel_dy, rel_dz, rel_packed, rel_mask, rel_drip, mode, plan_samples),
        strict_scan_spec(
            rel_dx,
            rel_dy,
            rel_dz,
            rel_packed,
            rel_mask,
            rel_drip,
            mode,
            x0,
            x1,
            y0,
            y1,
            z0,
            z1,
            max_matches,
            one_shot,
        ),
    ensures
        one_shot == strict_scan_result(mode, plan_samples, x0, x1, y0, y1, z0, z1, max_matches),
{
    if bounds_ok(x0, x1, y0, y1, z0, z1) && max_matches != 0 {
        let s = choose|s: Seq<Sample>|
            prepared_samples(rel_dx, rel_dy, rel_dz, rel_packed, rel_mask, rel_drip, mode, s)
                && one_shot == strict_scan_result(mode, s, x0, x1, y0, y1, z0, z1, max_matches);
        law_prepared_samples_unique(rel_dx, rel_dy, rel_dz, rel_packed, rel_mask, rel_drip, mode, s, plan_samples);
    } else {
        assert(strict_box_result(mode, plan_samples, x0, x1, y0, y1, z0, z1, max_matches) == one_shot);
        assert(strict_box_result_zxy(mode, plan_samples, x0, x1, y0, y1, z0, z1, max_matches) == one_shot);
    }
}

/// A prepared plan's scored scan answers as the one-shot scored scan of the
/// same input arrays does.
pub proof fn law_plan_scored_scan_agrees_with_one_shot(
    rel_dx: Seq<i32>,
    rel_dy: Seq<i32>,
    rel_dz: Seq<i32>,
    rel_packed: Seq<u16>,
    rel_mask: Seq<u16>,
    rel_drip: Seq<u8>,
    mode: SeedMode,
    plan_samples: Seq<Sample>,
    x0: i32,
    x1: i32,
    y0: i32,
    y1: i32,
    z0: i32,
    z1: i32,
    max_matches: u32,
    tol: u8,
    max_score: i32,
    one_shot: Result<Seq<i32>, ScanError>,
)
    requires
        same_lengths(rel_dx, rel_dy, rel_dz, rel_packed, rel_mask, rel_drip),
        prepared_samples(rel_dx, rel_dy, rel_dz, rel_packed, rel_mask, rel_drip, mode, plan_samples),
        scored_scan_spec(
            rel_dx,
            rel_dy,
            rel_dz,
            rel_packed,
            rel_mask,
            rel_drip,
            mode,
            x0,
            x1,
            y0,
            y1,
            z0,
            z1,
            max_matches,
            tol,
            max_score,
            one_shot,
        ),
    ensures
        one_shot == scored_box_result(mode, plan_samples, x0, x1, y0, y1, z0, z1, max_matches, tol, max_score),
{
    let s = choose|s: Seq<Sample>|
        prepared_samples(rel_dx, rel_dy, rel_dz, rel_packed, rel_mask, rel_drip, mode, s) && one_shot
            == scored_box_result(mode, s, x0, x1, y0, y1, z0, z1, max_matches, tol, max_score);
    law_prepared_samples_unique(rel_dx, rel_dy, rel_dz, rel_packed, rel_mask, rel_drip, mode, s, plan_samples);
}

/// The list of a successful scan result; empty for an error.
pub open spec fn ok_list(r: Result<Seq<i32>, ScanError>) -> Seq<i32> {
    match r {
        Ok(v) => v,
        Err(_) => Seq::empty(),
    }
}

/// Allowing more matches only extends a strict scan's result: the result
/// for a smaller `max_matches` is a prefix of the one for a larger.
pub proof fn law_more_matches_extend_strict_result(
    mode: SeedMode,
    samples: Seq<Sample>,
    x0: i32,
    x1: i32,
    y0: i32,
    y1: i32,
    z0: i32,
    z1: i32,
    m1: u32,
    m2: u32,
)
    requires
        bounds_ok(x0, x1, y0, y1, z0, z1),
        m1 <= m2,
    ensures
        strict_scan_result(mode, samples, x0, x1, y0, y1, z0, z1, m1) is Ok,
        strict_scan_result(mode, samples, x0, x1, y0, y1, z0, z1, m2) is Ok,
        prefix_of(
            ok_list(strict_scan_result(mode, samples, x0, x1, y0, y1, z0, z1, m1)),
            ok_list(strict_scan_result(mode, samples, x0, x1, y0, y1, z0, z1, m2)),
        ),
{
    let r1 = ok_list(strict_scan_result(mode, samples, x0, x1, y0, y1, z0, z1, m1));
    let r2 = ok_list(strict_scan_result(mode, samples, x0, x1, y0, y1, z0, z1, m2));
    if m1 == 0 {
        assert(r2.take(0) =~= r1);
    } else {
        let c = if crate::ycache::y_cache_applies(mode, samples, y0, y1) {
            cube(strict_record_zxy(mode, samples), z0 as int, z1 as int, x0 as int, x1 as int, y0 as int, y1 as int)
        } else {
            cube(
                strict_record(mode, samples),
                y0 as int,
                crate::scan::y_last(mode, y0, y1),
                z0 as int,
                z1 as int,
                x0 as int,
                x1 as int,
            )
        };
        lemma_take_upto_prefix(c, m1 as int, m2 as int);
        lemma_flat_prefix(crate::order::take_upto(c, m1 as int), crate::order::take_upto(c, m2 as int));
    }
}

/// Allowing more matches only extends a scored scan's result.
pub proof fn law_more_matches_extend_scored_result(
    mode: SeedMode,
    samples: Seq<Sample>,
    x0: i32,
    x1: i32,
    y0: i32,
    y1: i32,
    z0: i32,
    z1: i32,
    m1: u32,
    m2: u32,
    tol: u8,
    max_score: i32,
)
    requires
        bounds_ok(x0, x1, y0, y1, z0, z1),
        m1 <= m2,
    ensures
        scored_box_result(mode, samples, x0, x1, y0, y1, z0, z1, m1, tol, max_score) is Ok,
        scored_box_result(mode, samples, x0, x1, y0, y1, z0, z1, m2, tol, max_score) is Ok,
        prefix_of(
            ok_list(scored_box_result(mode, samples, x0, x1, y0, y1, z0, z1, m1, tol, max_score)),
            ok_list(scored_box_result(mode, samples, x0, x1, y0, y1, z0, z1, m2, tol, max_score)),
        ),
{
    let r1 = ok_list(scored_box_result(mode, samples, x0, x1, y0, y1, z0, z1, m1, tol, max_score));
    let r2 = ok_list(scored_box_result(mode, samples, x0, x1, y0, y1, z0, z1, m2, tol, max_score));
    if m1 == 0 {
        assert(r2.take(0) =~= r1);
    } else {
        let c = cube(
            crate::scan::scored_record(mode, samples, tol as int, max_score as int),
            y0 as int,
            crate::scan::y_last(mode, y0, y1),
            z0 as int,
            z1 as int,
            x0 as int,
            x1 as int,
        );
        lemma_take_upto_prefix(c, m1 as int, m2 as int);
        lemma_flat_prefix(crate::order::take_upto(c, m1 as int), crate::order::take_upto(c, m2 as int));
    }
}

/// Each nibble of the sample's mask is either fully observed or not at all.
pub open spec fn whole_nibbles(s: Sample) -> bool {
    forall|axis: int| 0 <= axis < 3 ==> #[trigger] nibble(s.mask, axis) == 0 || nibble(s.mask, axis) == 15
}

/// Nibbles of a 16-bit value as shifts and masks.
proof fn lemma_nibbles_as_bits(v: u16)
    ensures
        nibble(v, 0) == (v & 0xfu16) as int,
        nibble(v, 1) == ((v >> 4u16) & 0xfu16) as int,
        nibble(v, 2) == ((v >> 8u16) & 0xfu16) as int,
{
    assert(v & 0xfu16 == v % 16 && (v >> 4u16) & 0xfu16 == (v / 16) % 16 && (v >> 8u16) & 0xfu16 == (v
        / 256) % 16) by (bit_vector);
}

/// A nibble scores nothing exactly when it is unconstrained or predicted at
/// distance 0.
proof fn lemma_axis_score_zero(s: Sample, pred: u16, tol: int, axis: int)
    requires
        0 <= tol,
    ensures
        axis_score(s, pred, tol, axis) >= 0,
        axis_score(s, pred, tol, axis) == 0 <==> (!axis_counted(s, axis) || axis_distance(s, pred, axis) == 0),
{
    lemma_axis_score_bounds(s, pred, tol, axis);
    let d = axis_distance(s, pred, axis);
    if axis_counted(s, axis) && d > tol {
        assert(d * d >= d) by (nonlinear_arith)
            requires
                d >= 1,
        ;
    }
}

/// With whole-nibble masks (or for dripstone), a sample's strict check passes
/// exactly when it scores 0.
proof fn lemma_sample_strict_iff_zero_score(s: Sample, pred: u16, tol: int)
    requires
        0 <= tol,
        s.mask < 4096,
        s.expected & s.mask == s.expected,
        s.dripstone || whole_nibbles(s),
    ensures
        sample_score(s, pred, tol) >= 0,
        strict_ok(s, pred) <==> sample_score(s, pred, tol) == 0,
{
    lemma_axis_score_zero(s, pred, tol, 0);
    lemma_axis_score_zero(s, pred, tol, 1);
    lemma_axis_score_zero(s, pred, tol, 2);
    assert(score_upto(s, pred, tol, 0) == 0);
    assert(score_upto(s, pred, tol, 1) == axis_score(s, pred, tol, 0));
    assert(score_upto(s, pred, tol, 2) == score_upto(s, pred, tol, 1) + axis_score(s, pred, tol, 1));
    assert(sample_score(s, pred, tol) == score_upto(s, pred, tol, 2) + axis_score(s, pred, tol, 2));
    if !s.dripstone {
        let m = s.mask;
        let e = s.expected;
        lemma_nibbles_as_bits(m);
        lemma_nibbles_as_bits(e);
        lemma_nibbles_as_bits(pred);
        assert(nibble(m, 0) == 0 || nibble(m, 0) == 15);
        assert(nibble(m, 1) == 0 || nibble(m, 1) == 15);
        assert(nibble(m, 2) == 0 || nibble(m, 2) == 15);
        assert((pred & m == e) <==> ((m & 0xfu16 == 0 || pred & 0xfu16 == e & 0xfu16) && ((m >> 4u16)
            & 0xfu16 == 0 || (pred >> 4u16) & 0xfu16 == (e >> 4u16) & 0xfu16) && ((m >> 8u16) & 0xfu16
            == 0 || (pred >> 8u16) & 0xfu16 == (e >> 8u16) & 0xfu16))) by (bit_vector)
            requires
                e & m == e,
                m < 4096u16,
                m & 0xfu16 == 0 || m & 0xfu16 == 0xfu16,
                (m >> 4u16) & 0xfu16 == 0 || (m >> 4u16) & 0xfu16 == 0xfu16,
                (m >> 8u16) & 0xfu16 == 0 || (m >> 8u16) & 0xfu16 == 0xfu16,
        ;
    }
}

/// With whole-nibble masks (or dripstone), a candidate passes the strict
/// check exactly when its total score is 0.
proof fn lemma_strict_iff_zero_total(
    mode: SeedMode,
    samples: Seq<Sample>,
    x_seed: u32,
    y: int,
    z_seed: u32,
    tol: int,
)
    requires
        0 <= tol,
        samples_wf(samples, mode),
        forall|i: int| 0 <= i < samples.len() ==> (#[trigger] samples[i]).dripstone || whole_nibbles(samples[i]),
    ensures
        total_score(mode, samples, x_seed, y, z_seed, tol) >= 0,
        total_score(mode, samples, x_seed, y, z_seed, tol) == 0 <==> crate::candidate::all_strict(
            mode,
            samples,
            x_seed,
            y,
            z_seed,
        ),
    decreases samples.len(),
{
    let n = samples.len();
    if n > 0 {
        let front = samples.drop_last();
        let last = samples.last();
        assert(samples_wf(front, mode)) by {
            assert forall|i: int| 0 <= i < front.len() implies (#[trigger] front[i]).wf(mode) by {
                assert(front[i] == samples[i]);
            }
        }
        assert forall|i: int| 0 <= i < front.len() implies (#[trigger] front[i]).dripstone
            || whole_nibbles(front[i]) by {
            assert(front[i] == samples[i]);
        }
        lemma_strict_iff_zero_total(mode, front, x_seed, y, z_seed, tol);
        assert(last == samples[n - 1]);
        let pred = parts_offset(mode, last, x_seed, y, z_seed);
        lemma_sample_strict_iff_zero_score(last, pred, tol);
        if crate::candidate::all_strict(mode, samples, x_seed, y, z_seed) {
            assert forall|i: int| 0 <= i < front.len() implies strict_ok(
                #[trigger] front[i],
                parts_offset(mode, front[i], x_seed, y, z_seed),
            ) by {
                assert(front[i] == samples[i]);
            }
            assert(strict_ok(samples[n - 1], parts_offset(mode, samples[n - 1], x_seed, y, z_seed)));
        }
        if total_score(mode, samples, x_seed, y, z_seed, tol) == 0 {
            assert forall|i: int| 0 <= i < n implies strict_ok(
                #[trigger] samples[i],
                parts_offset(mode, samples[i], x_seed, y, z_seed),
            ) by {
                if i < n - 1 {
                    assert(front[i] == samples[i]);
                }
            }
        }
    }
}

/// When every sample's mask covers whole nibbles (or the sample is a
/// dripstone sample), the scored check with a non-negative `max_score`
/// reports a candidate with score 0 exactly when the strict check passes it.
pub proof fn law_strict_match_is_zero_score(
    mode: SeedMode,
    samples: Seq<Sample>,
    x: int,
    y: int,
    z: int,
    tol: int,
    max_score: int,
)
    requires
        0 <= tol,
        0 <= max_score,
        samples_wf(samples, mode),
        forall|i: int| 0 <= i < samples.len() ==> (#[trigger] samples[i]).dripstone || whole_nibbles(samples[i]),
    ensures
        strict_at(mode, samples, x, y, z) <==> score_at(mode, samples, x, y, z, tol, max_score) == Some(0int),
{
    let xs = crate::seed::x_seed_of(x);
    let zs = crate::seed::z_seed_of(mode, z);
    lemma_strict_at(mode, samples, x, y, z);
    lemma_score_at(mode, samples, x, y, z, tol, max_score);
    lemma_strict_iff_zero_total(mode, samples, xs, y, zs, tol);
}

// ---------------------------------------------------------------------------
// The hash and its seeds.

/// The 64-bit form of the game's hash, for every `i64` input `l`: bits 16..27
/// of `LCG_MULT * l * l + LCG_ADDEND * l`, wrapped to 64 bits, are the 32-bit
/// hash of the low 32 bits of `l`.
pub proof fn law_i64_hash_bits_are_mix_of_low_32_bits(l: i64)
    ensures
        (((crate::mix::LCG_MULT * l * l + crate::mix::LCG_ADDEND * l) % 0x1_0000_0000_0000_0000int)
            / 0x1_0000) % 0x1000 == crate::mix::mix_spec(l as u32) as int,
{
    let v = l as int;
    let m64 = 0x1_0000_0000_0000_0000int;
    reveal(crate::mix::mix_poly);
    reveal(crate::mix::mix_of);
    assert(m64 % crate::mix::pow28() == 0);
    crate::mix::lemma_bits_16_28_of_reduced(crate::mix::mix_poly(v), m64);
    crate::mix::lemma_mix_depends_on_low_28_bits(v);
    // `l as u32` is `l` modulo 2^32.
    let u = l as u64;
    assert((u as u32) as u64 == u % 0x1_0000_0000u64 && (l as u32) == (u as u32) && (l >= 0i64 ==> u == l)
        && (l < 0i64 ==> u as int == l as int + 0x1_0000_0000_0000_0000int)) by (bit_vector)
        requires
            u == l as u64,
    ;
    if l < 0 {
        vstd::arithmetic::div_mod::lemma_mod_add_multiples_vanish(v, 0x1_0000_0000);
        assert(0x1_0000_0000_0000_0000int == 0x1_0000_0000int * 0x1_0000_0000int);
        vstd::arithmetic::div_mod::lemma_mod_multiples_vanish(0x1_0000_0000int, v, 0x1_0000_0000int);
    }
    assert((l as u32) == crate::mix::wrap32(v));
}

/// The seed of the block a sample observed, for a candidate at `(x, y, z)`,
/// in closed form per mode: `X ^ Z` (1.8+, the same at every height),
/// `X ^ Z ^ Y` (1.7.10) and `X + Z + Y` modulo 2^32 (b1.6-tb3), where `X` and
/// `Z` are the wrapped products of the shifted coordinates with their
/// multipliers and `Y` is the wrapped shifted height.
pub proof fn law_sample_seed_closed_form(mode: SeedMode, s: Sample, x: int, y: int, z: int)
    requires
        s.wf(mode),
    ensures
        ({
            let xx = crate::mix::wrap32(crate::mix::wrap32(x + s.dx) * crate::mix::X_MULT);
            let zz = crate::mix::wrap32(crate::mix::wrap32(z + s.dz) * crate::seed::z_mult(mode));
            let yy = crate::mix::wrap32(y + s.dy);
            crate::seed::combine_parts(
                mode,
                crate::mix::wrap32(crate::seed::x_seed_of(x) + s.dx_seed),
                crate::mix::wrap32(y + s.dy),
                crate::mix::wrap32(crate::seed::z_seed_of(mode, z) + s.dz_seed),
            ) == match mode {
                SeedMode::Post1_8 => xx ^ zz,
                SeedMode::Pre1_8 => xx ^ zz ^ yy,
                SeedMode::Beta16Tb3 => crate::mix::wrap32(xx + zz + yy),
            }
        }),
{
    crate::seed::lemma_parts_are_block_seed(mode, x, s.dx as int, y, s.dy as int, z, s.dz as int);
    crate::seed::lemma_wrap32_mul(x + s.dx, crate::mix::X_MULT as int);
    crate::seed::lemma_wrap32_mul(z + s.dz, crate::seed::z_mult(mode) as int);
}

/// The pivot's seed, reduced to the 28 bits the hash reads, is fixed by the
/// pivot base and the height: the base XOR the masked pivot height (1.7.10),
/// or the masked sum of the two (b1.6-tb3). So is the pivot's offset.
pub proof fn law_pivot_base_and_height_give_pivot_seed(
    mode: SeedMode,
    pivot: Sample,
    x_seed: u32,
    z_seed: u32,
    y: int,
)
    requires
        mode != SeedMode::Post1_8,
    ensures
        ({
            let xp = crate::mix::wrap32(x_seed + pivot.dx_seed);
            let zp = crate::mix::wrap32(z_seed + pivot.dz_seed);
            let yp = crate::mix::wrap32(y + pivot.dy);
            let base = crate::candidate::pivot_base_spec(mode, xp, zp);
            let seed = crate::seed::combine_parts(mode, xp, yp, zp);
            let reduced = if mode == SeedMode::Pre1_8 {
                base ^ (yp & 0x0fff_ffff)
            } else {
                crate::mix::wrap32(base + yp) & 0x0fff_ffff
            };
            &&& base <= 0x0fff_ffff
            &&& seed & 0x0fff_ffff == reduced
            &&& crate::mix::mix_spec(seed) == crate::mix::mix_spec(reduced)
        }),
{
    let xp = crate::mix::wrap32(x_seed + pivot.dx_seed);
    let zp = crate::mix::wrap32(z_seed + pivot.dz_seed);
    let yp = crate::mix::wrap32(y + pivot.dy);
    let base = crate::candidate::pivot_base_spec(mode, xp, zp);
    let seed = crate::seed::combine_parts(mode, xp, yp, zp);
    let k = 0x0fff_ffffu32;
    if mode == SeedMode::Pre1_8 {
        assert((xp ^ zp) & k <= k && (xp ^ zp ^ yp) & k == ((xp ^ zp) & k) ^ (yp & k)) by (bit_vector);
    } else {
        let t = crate::mix::wrap32(xp + zp);
        crate::seed::lemma_wrap32_add3(xp as int, zp as int, yp as int);
        vstd::arithmetic::div_mod::lemma_small_mod(xp as nat, 0x1_0000_0000);
        vstd::arithmetic::div_mod::lemma_small_mod(zp as nat, 0x1_0000_0000);
        vstd::arithmetic::div_mod::lemma_small_mod(yp as nat, 0x1_0000_0000);
        crate::seed::lemma_wrap32_add(xp + zp, yp as int);
        vstd::arithmetic::div_mod::lemma_small_mod(yp as nat, 0x1_0000_0000);
        assert(seed == crate::mix::wrap32(t + yp));
        let a = t as u64;
        let b = yp as u64;
        assert(((a + b) as u64 % 0x1_0000_0000u64) & 0x0fff_ffffu64 == (((a & 0x0fff_ffffu64) + b) as u64
            % 0x1_0000_0000u64) & 0x0fff_ffffu64) by (bit_vector)
            requires
                a < 0x1_0000_0000u64,
                b < 0x1_0000_0000u64,
        ;
        let w1 = crate::mix::wrap32(t + yp);
        let w2 = crate::mix::wrap32(base + yp);
        assert(t & 0x0fff_ffffu32 <= 0x0fff_ffffu32 && a & 0x0fff_ffffu64 == (t & 0x0fff_ffffu32) as u64
            && (w1 as u64) & 0x0fff_ffffu64 == ((w1 & 0x0fff_ffffu32) as u64) && (w2 as u64) & 0x0fff_ffffu64
            == ((w2 & 0x0fff_ffffu32) as u64)) by (bit_vector)
            requires
                a == t as u64,
        ;
        assert(w1 as u64 == (a + b) as u64 % 0x1_0000_0000u64);
        assert(w2 as u64 == ((a & 0x0fff_ffffu64) + b) as u64 % 0x1_0000_0000u64);
    }
    let reduced = if mode == SeedMode::Pre1_8 {
        base ^ (yp & 0x0fff_ffff)
    } else {
        crate::mix::wrap32(base + yp) & 0x0fff_ffff
    };
    crate::mix::lemma_u32_shr16_mask12(seed);
    crate::mix::lemma_u32_shr16_mask12(reduced);
    crate::mix::lemma_mix_depends_on_low_28_bits(seed as int);
    crate::mix::lemma_mix_depends_on_low_28_bits(reduced as int);
    assert(reduced & k == reduced) by (bit_vector)
        requires
            reduced == seed & k,
    ;
}

// ---------------------------------------------------------------------------
// Plans over many calls.

/// `states` are the successive states of one plan: each call on a plan keeps
/// its mode and its samples (what `ScanPlan::scan_strict_box` and
/// `ScanPlan::scan_scored_box` ensure), whatever it returned.
pub open spec fn plan_history(states: Seq<crate::plan::ScanPlan>) -> bool {
    forall|i: int|
        0 < i < states.len() ==> (#[trigger] states[i]).mode() == states[i - 1].mode() && states[i].samples()
            == states[i - 1].samples()
}

proof fn lemma_plan_history_keeps(states: Seq<crate::plan::ScanPlan>, k: int)
    requires
        plan_history(states),
        0 <= k < states.len(),
    ensures
        states[k].mode() == states[0].mode(),
        states[k].samples() == states[0].samples(),
    decreases k,
{
    if k > 0 {
        lemma_plan_history_keeps(states, k - 1);
        assert(states[k].mode() == states[k - 1].mode());
    }
}

/// After any sequence of calls, a plan built from a set of input arrays
/// answers each strict and scored scan exactly as the one-shot scans of those
/// arrays do: reusing or rebuilding its y-prefilter cache never shows.
pub proof fn law_plan_answers_after_any_calls(
    rel_dx: Seq<i32>,
    rel_dy: Seq<i32>,
    rel_dz: Seq<i32>,
    rel_packed: Seq<u16>,
    rel_mask: Seq<u16>,
    rel_drip: Seq<u8>,
    mode: SeedMode,
    states: Seq<crate::plan::ScanPlan>,
    k: int,
    x0: i32,
    x1: i32,
    y0: i32,
    y1: i32,
    z0: i32,
    z1: i32,
    max_matches: u32,
    tol: u8,
    max_score: i32,
    strict_one_shot: Result<Seq<i32>, ScanError>,
    scored_one_shot: Result<Seq<i32>, ScanError>,
)
    requires
        same_lengths(rel_dx, rel_dy, rel_dz, rel_packed, rel_mask, rel_drip),
        states.len() > 0,
        states[0].mode() == mode,
        prepared_samples(rel_dx, rel_dy, rel_dz, rel_packed, rel_mask, rel_drip, mode, states[0].samples()),
        plan_history(states),
        0 <= k < states.len(),
        strict_scan_spec(
            rel_dx,
            rel_dy,
            rel_dz,
            rel_packed,
            rel_mask,
            rel_drip,
            mode,
            x0,
            x1,
            y0,
            y1,
            z0,
            z1,
            max_matches,
            strict_one_shot,
        ),
        scored_scan_spec(
            rel_dx,
            rel_dy,
            rel_dz,
            rel_packed,
            rel_mask,
            rel_drip,
            mode,
            x0,
            x1,
            y0,
            y1,
            z0,
            z1,
            max_matches,
            tol,
            max_score,
            scored_one_shot,
        ),
    ensures
        strict_scan_result(states[k].mode(), states[k].samples(), x0, x1, y0, y1, z0, z1, max_matches)
            == strict_one_shot,
        scored_box_result(
            states[k].mode(),
            states[k].samples(),
            x0,
            x1,
            y0,
            y1,
            z0,
            z1,
            max_matches,
            tol,
            max_score,
        ) == scored_one_shot,
{
    lemma_plan_history_keeps(states, k);
    law_plan_strict_scan_agrees_with_one_shot(
        rel_dx,
        rel_dy,
        rel_dz,
        rel_packed,
        rel_mask,
        rel_drip,
        mode,
        states[0].samples(),
        x0,
        x1,
        y0,
        y1,
        z0,
        z1,
        max_matches,
        strict_one_shot,
    );
    law_plan_scored_scan_agrees_with_one_shot(
        rel_dx,
        rel_dy,
        rel_dz,
        rel_packed,
        rel_mask,
        rel_drip,
        mode,
        states[0].samples(),
        x0,
        x1,
        y0,
        y1,
        z0,
        z1,
        max_matches,
        tol,
        max_score,
        scored_one_shot,
    );
}

// ---------------------------------------------------------------------------
// Looser scoring.

/// A larger tolerance never raises a nibble's cost.
proof fn lemma_axis_score_tol_monotone(s: Sample, pred: u16, tol1: int, tol2: int, axis: int)
    requires
        0 <= tol1 <= tol2,
    ensures
        axis_score(s, pred, tol2, axis) <= axis_score(s, pred, tol1, axis),
{
    lemma_axis_score_bounds(s, pred, tol1, axis);
    let d = axis_distance(s, pred, axis);
    if axis_counted(s, axis) && tol1 < d && d <= tol2 {
        assert(d <= d * d) by (nonlinear_arith)
            requires
                d >= 1,
        ;
    }
}

/// A larger tolerance never raises a candidate's total score, which is never
/// negative, and is 0 when no sample constrains anything.
proof fn lemma_total_score_tol_monotone(
    mode: SeedMode,
    samples: Seq<Sample>,
    x_seed: u32,
    y: int,
    z_seed: u32,
    tol1: int,
    tol2: int,
)
    requires
        0 <= tol1 <= tol2,
    ensures
        0 <= total_score(mode, samples, x_seed, y, z_seed, tol2) <= total_score(
            mode,
            samples,
            x_seed,
            y,
            z_seed,
            tol1,
        ),
        !crate::candidate::any_counted(samples) ==> total_score(mode, samples, x_seed, y, z_seed, tol1) == 0,
    decreases samples.len(),
{
    let n = samples.len();
    if n > 0 {
        let front = samples.drop_last();
        let last = samples.last();
        lemma_total_score_tol_monotone(mode, front, x_seed, y, z_seed, tol1, tol2);
        let pred = parts_offset(mode, last, x_seed, y, z_seed);
        lemma_axis_score_tol_monotone(last, pred, tol1, tol2, 0);
        lemma_axis_score_tol_monotone(last, pred, tol1, tol2, 1);
        lemma_axis_score_tol_monotone(last, pred, tol1, tol2, 2);
        lemma_axis_score_zero(last, pred, tol2, 0);
        lemma_axis_score_zero(last, pred, tol2, 1);
        lemma_axis_score_zero(last, pred, tol2, 2);
        lemma_axis_score_zero(last, pred, tol1, 0);
        lemma_axis_score_zero(last, pred, tol1, 1);
        lemma_axis_score_zero(last, pred, tol1, 2);
        assert(score_upto(last, pred, tol1, 0) == 0);
        assert(score_upto(last, pred, tol2, 0) == 0);
        assert(score_upto(last, pred, tol1, 1) == axis_score(last, pred, tol1, 0));
        assert(score_upto(last, pred, tol2, 1) == axis_score(last, pred, tol2, 0));
        assert(score_upto(last, pred, tol1, 2) == score_upto(last, pred, tol1, 1) + axis_score(last, pred, tol1, 1));
        assert(score_upto(last, pred, tol2, 2) == score_upto(last, pred, tol2, 1) + axis_score(last, pred, tol2, 1));
        if !crate::candidate::any_counted(samples) {
            assert(!crate::matching::sample_counted(samples[n - 1]));
            assert(!crate::candidate::any_counted(front)) by {
                if crate::candidate::any_counted(front) {
                    let i = choose|i: int| 0 <= i < front.len() && crate::matching::sample_counted(#[trigger] front[i]);
                    assert(front[i] == samples[i]);
                }
            }
        }
    }
}

/// A larger tolerance and a larger score budget keep every candidate the
/// scored check reported, and never raise its score.
pub proof fn law_looser_scoring_keeps_candidates(
    mode: SeedMode,
    samples: Seq<Sample>,
    x: int,
    y: int,
    z: int,
    tol1: int,
    tol2: int,
    max_score1: int,
    max_score2: int,
)
    requires
        0 <= tol1 <= tol2,
        max_score1 <= max_score2,
        score_at(mode, samples, x, y, z, tol1, max_score1) is Some,
    ensures
        score_at(mode, samples, x, y, z, tol2, max_score2) is Some,
        score_at(mode, samples, x, y, z, tol2, max_score2)->0 <= score_at(mode, samples, x, y, z, tol1, max_score1)->0,
{
    lemma_score_at(mode, samples, x, y, z, tol1, max_score1);
    lemma_score_at(mode, samples, x, y, z, tol2, max_score2);
    lemma_total_score_tol_monotone(
        mode,
        samples,
        crate::seed::x_seed_of(x),
        y,
        crate::seed::z_seed_of(mode, z),
        tol1,
        tol2,
    );
}

/// The same for a scored walk of a box (y, then z, then x), with no cut: a
/// record `[x, y, z, s1]` it lists under the stricter settings is listed
/// under the looser ones as `[x, y, z, s2]` with `s2 <= s1`.
pub proof fn law_looser_scoring_keeps_records(
    mode: SeedMode,
    samples: Seq<Sample>,
    x0: i32,
    x1: i32,
    y0: i32,
    y1: i32,
    z0: i32,
    z1: i32,
    tol1: u8,
    tol2: u8,
    max_score1: i32,
    max_score2: i32,
    x: i32,
    y: i32,
    z: i32,
    s1: i32,
)
    requires
        tol1 <= tol2,
        max_score1 <= max_score2,
        cube(
            crate::scan::scored_record(mode, samples, tol1 as int, max_score1 as int),
            y0 as int,
            y1 as int,
            z0 as int,
            z1 as int,
            x0 as int,
            x1 as int,
        ).contains(seq![x, y, z, s1]),
    ensures
        exists|s2: i32|
            s2 <= s1 && cube(
                crate::scan::scored_record(mode, samples, tol2 as int, max_score2 as int),
                y0 as int,
                y1 as int,
                z0 as int,
                z1 as int,
                x0 as int,
                x1 as int,
            ).contains(#[trigger] seq![x, y, z, s2]),
{
    let f1 = crate::scan::scored_record(mode, samples, tol1 as int, max_score1 as int);
    let f2 = crate::scan::scored_record(mode, samples, tol2 as int, max_score2 as int);
    let r1 = seq![x, y, z, s1];
    lemma_cube_contains(f1, y0 as int, y1 as int, z0 as int, z1 as int, x0 as int, x1 as int, r1);
    let (o, m, i) = choose|o: int, m: int, i: int|
        y0 <= o <= y1 && z0 <= m <= z1 && x0 <= i <= x1 && #[trigger] reports(f1, o, m, i, r1);
    let v1 = score_at(mode, samples, i, o, m, tol1 as int, max_score1 as int);
    assert(v1 is Some);
    let t1 = v1->0;
    assert(seq![i as i32, o as i32, m as i32, t1 as i32] == r1);
    assert(seq![i as i32, o as i32, m as i32, t1 as i32][0] == r1[0]);
    assert(seq![i as i32, o as i32, m as i32, t1 as i32][1] == r1[1]);
    assert(seq![i as i32, o as i32, m as i32, t1 as i32][2] == r1[2]);
    assert(seq![i as i32, o as i32, m as i32, t1 as i32][3] == r1[3]);
    law_looser_scoring_keeps_candidates(mode, samples, i, o, m, tol1 as int, tol2 as int, max_score1 as int, max_score2 as int);
    lemma_score_at(mode, samples, i, o, m, tol1 as int, max_score1 as int);
    lemma_score_at(mode, samples, i, o, m, tol2 as int, max_score2 as int);
    lemma_total_score_tol_monotone(
        mode,
        samples,
        crate::seed::x_seed_of(i),
        o,
        crate::seed::z_seed_of(mode, m),
        tol1 as int,
        tol2 as int,
    );
    let t2 = score_at(mode, samples, i, o, m, tol2 as int, max_score2 as int)->0;
    // Both scores are in `0..=max_score1`, or 0 when nothing is constrained.
    assert(0 <= t2 <= t1);
    assert(t1 <= i32::MAX);
    let s2 = t2 as i32;
    let r2 = seq![x, y, z, s2];
    assert(r2 == seq![i as i32, o as i32, m as i32, t2 as i32]);
    assert(reports(f2, o, m, i, r2));
    lemma_cube_contains(f2, y0 as int, y1 as int, z0 as int, z1 as int, x0 as int, x1 as int, r2);
    assert(s2 <= s1);
}

// ---------------------------------------------------------------------------
// Input order.

/// `a` and `b` list the same samples.
pub open spec fn same_elements(a: Seq<Sample>, b: Seq<Sample>) -> bool {
    forall|s: Sample| a.contains(s) <==> b.contains(s)
}

proof fn lemma_all_strict_by_elements(
    mode: SeedMode,
    a: Seq<Sample>,
    b: Seq<Sample>,
    x_seed: u32,
    y: int,
    z_seed: u32,
)
    requires
        same_elements(a, b),
        crate::candidate::all_strict(mode, a, x_seed, y, z_seed),
    ensures
        crate::candidate::all_strict(mode, b, x_seed, y, z_seed),
{
    assert forall|j: int| 0 <= j < b.len() implies strict_ok(
        #[trigger] b[j],
        parts_offset(mode, b[j], x_seed, y, z_seed),
    ) by {
        assert(b.contains(b[j]));
        assert(a.contains(b[j]));
        let i = choose|i: int| 0 <= i < a.len() && a[i] == b[j];
        assert(strict_ok(a[i], parts_offset(mode, a[i], x_seed, y, z_seed)));
    }
}

proof fn lemma_full_exact_by_elements(a: Seq<Sample>, b: Seq<Sample>)
    requires
        same_elements(a, b),
        crate::candidate::first_full_exact(a) is Some,
    ensures
        crate::candidate::first_full_exact(b) is Some,
{
    let i = choose|i: int| 0 <= i < a.len() && crate::candidate::is_full_exact(#[trigger] a[i]);
    assert(a.contains(a[i]));
    assert(b.contains(a[i]));
    let j = choose|j: int| 0 <= j < b.len() && b[j] == a[i];
    assert(crate::candidate::is_full_exact(b[j]));
}

/// The strict scan over prepared samples depends only on which samples there
/// are, not on their order.
pub proof fn law_strict_scan_depends_only_on_the_samples(
    mode: SeedMode,
    a: Seq<Sample>,
    b: Seq<Sample>,
    x0: i32,
    x1: i32,
    y0: i32,
    y1: i32,
    z0: i32,
    z1: i32,
    max_matches: u32,
)
    requires
        same_elements(a, b),
    ensures
        strict_scan_result(mode, a, x0, x1, y0, y1, z0, z1, max_matches) == strict_scan_result(
            mode,
            b,
            x0,
            x1,
            y0,
            y1,
            z0,
            z1,
            max_matches,
        ),
{
    assert forall|x: int, y: int, z: int| strict_at(mode, a, x, y, z) == strict_at(mode, b, x, y, z) by {
        lemma_strict_at(mode, a, x, y, z);
        lemma_strict_at(mode, b, x, y, z);
        let xs = crate::seed::x_seed_of(x);
        let zs = crate::seed::z_seed_of(mode, z);
        if crate::candidate::all_strict(mode, a, xs, y, zs) {
            lemma_all_strict_by_elements(mode, a, b, xs, y, zs);
        }
        if crate::candidate::all_strict(mode, b, xs, y, zs) {
            lemma_all_strict_by_elements(mode, b, a, xs, y, zs);
        }
    }
    if crate::candidate::first_full_exact(a) is Some {
        lemma_full_exact_by_elements(a, b);
    }
    if crate::candidate::first_full_exact(b) is Some {
        lemma_full_exact_by_elements(b, a);
    }
    assert(strict_record(mode, a) =~= strict_record(mode, b));
    assert(strict_record_zxy(mode, a) =~= strict_record_zxy(mode, b));
}

/// Permuting the six input arrays alike leaves the one-shot strict scan's
/// result unchanged: ordering the samples only speeds the scan up.
pub proof fn law_strict_scan_ignores_input_order(
    rel_dx: Seq<i32>,
    rel_dy: Seq<i32>,
    rel_dz: Seq<i32>,
    rel_packed: Seq<u16>,
    rel_mask: Seq<u16>,
    rel_drip: Seq<u8>,
    perm: Seq<int>,
    rel_dx2: Seq<i32>,
    rel_dy2: Seq<i32>,
    rel_dz2: Seq<i32>,
    rel_packed2: Seq<u16>,
    rel_mask2: Seq<u16>,
    rel_drip2: Seq<u8>,
    mode: SeedMode,
    x0: i32,
    x1: i32,
    y0: i32,
    y1: i32,
    z0: i32,
    z1: i32,
    max_matches: u32,
    r1: Result<Seq<i32>, ScanError>,
    r2: Result<Seq<i32>, ScanError>,
)
    requires
        same_lengths(rel_dx, rel_dy, rel_dz, rel_packed, rel_mask, rel_drip),
        crate::sample::is_index_permutation(perm, rel_dx.len()),
        rel_dx2.len() == rel_dx.len(),
        same_lengths(rel_dx2, rel_dy2, rel_dz2, rel_packed2, rel_mask2, rel_drip2),
        forall|i: int|
            0 <= i < rel_dx.len() ==> {
                &&& rel_dx2[i] == rel_dx[#[trigger] perm[i]]
                &&& rel_dy2[i] == rel_dy[perm[i]]
                &&& rel_dz2[i] == rel_dz[perm[i]]
                &&& rel_packed2[i] == rel_packed[perm[i]]
                &&& rel_mask2[i] == rel_mask[perm[i]]
                &&& rel_drip2[i] == rel_drip[perm[i]]
            },
        strict_scan_spec(
            rel_dx,
            rel_dy,
            rel_dz,
            rel_packed,
            rel_mask,
            rel_drip,
            mode,
            x0,
            x1,
            y0,
            y1,
            z0,
            z1,
            max_matches,
            r1,
        ),
        strict_scan_spec(
            rel_dx2,
            rel_dy2,
            rel_dz2,
            rel_packed2,
            rel_mask2,
            rel_drip2,
            mode,
            x0,
            x1,
            y0,
            y1,
            z0,
            z1,
            max_matches,
            r2,
        ),
    ensures
        r1 == r2,
{
    if bounds_ok(x0, x1, y0, y1, z0, z1) && max_matches != 0 {
        let raw1 = raw_samples(rel_dx, rel_dy, rel_dz, rel_packed, rel_mask, rel_drip, mode);
        let raw2 = raw_samples(rel_dx2, rel_dy2, rel_dz2, rel_packed2, rel_mask2, rel_drip2, mode);
        let a = choose|s: Seq<Sample>|
            prepared_samples(rel_dx, rel_dy, rel_dz, rel_packed, rel_mask, rel_drip, mode, s) && r1
                == strict_scan_result(mode, s, x0, x1, y0, y1, z0, z1, max_matches);
        let b = choose|s: Seq<Sample>|
            prepared_samples(rel_dx2, rel_dy2, rel_dz2, rel_packed2, rel_mask2, rel_drip2, mode, s) && r2
                == strict_scan_result(mode, s, x0, x1, y0, y1, z0, z1, max_matches);
        crate::sample::lemma_stable_sort_same_elements(raw1, a);
        crate::sample::lemma_stable_sort_same_elements(raw2, b);
        assert forall|s: Sample| raw1.contains(s) <==> raw2.contains(s) by {
            if raw2.contains(s) {
                let i = choose|i: int| 0 <= i < raw2.len() && raw2[i] == s;
                assert(raw1[perm[i]] == s);
            }
            if raw1.contains(s) {
                let j = choose|j: int| 0 <= j < raw1.len() && raw1[j] == s;
                crate::sample::lemma_index_permutation_onto(perm, rel_dx.len(), j);
                let i = choose|i: int| 0 <= i < rel_dx.len() && perm[i] == j;
                assert(raw2[i] == s);
            }
        }
        law_strict_scan_depends_only_on_the_samples(mode, a, b, x0, x1, y0, y1, z0, z1, max_matches);
    }
}

// ---------------------------------------------------------------------------
// Lengths of the two strict walks.

proof fn lemma_strict_walks_distinct(mode: SeedMode, samples: Seq<Sample>, x0: i32, x1: i32, y0: i32, y1: i32, z0: i32, z1: i32)
    ensures
        records_distinct(strict_record(mode, samples), y0 as int, y1 as int, z0 as int, z1 as int, x0 as int, x1 as int),
        records_distinct(strict_record_zxy(mode, samples), z0 as int, z1 as int, x0 as int, x1 as int, y0 as int, y1 as int),
{
    let f = strict_record(mode, samples);
    let g = strict_record_zxy(mode, samples);
    assert forall|o1: int, m1: int, i1: int, o2: int, m2: int, i2: int, r: Seq<i32>|
        y0 <= o1 <= y1 && z0 <= m1 <= z1 && x0 <= i1 <= x1 && y0 <= o2 <= y1 && z0 <= m2 <= z1 && x0 <= i2 <= x1
            && #[trigger] reports(f, o1, m1, i1, r) && #[trigger] reports(f, o2, m2, i2, r) implies o1 == o2 && m1
        == m2 && i1 == i2 by {
        assert(r == seq![i1 as i32, o1 as i32, m1 as i32]);
        assert(r == seq![i2 as i32, o2 as i32, m2 as i32]);
        assert(r[0] == i1 as i32 && r[0] == i2 as i32);
        assert(r[1] == o1 as i32 && r[1] == o2 as i32);
        assert(r[2] == m1 as i32 && r[2] == m2 as i32);
    }
    assert forall|o1: int, m1: int, i1: int, o2: int, m2: int, i2: int, r: Seq<i32>|
        z0 <= o1 <= z1 && x0 <= m1 <= x1 && y0 <= i1 <= y1 && z0 <= o2 <= z1 && x0 <= m2 <= x1 && y0 <= i2 <= y1
            && #[trigger] reports(g, o1, m1, i1, r) && #[trigger] reports(g, o2, m2, i2, r) implies o1 == o2 && m1
        == m2 && i1 == i2 by {
        assert(r == seq![m1 as i32, i1 as i32, o1 as i32]);
        assert(r == seq![m2 as i32, i2 as i32, o2 as i32]);
        assert(r[0] == m1 as i32 && r[0] == m2 as i32);
        assert(r[1] == i1 as i32 && r[1] == i2 as i32);
        assert(r[2] == o1 as i32 && r[2] == o2 as i32);
    }
}

/// The strict scan with the y prefilter returns as many values as the plain
/// strict scan of the same box: `3 * min(max_matches, matches)`. (With no
/// cut, law_prefilter_finds_the_same_positions shows they list the same
/// positions.)
pub proof fn law_prefilter_result_has_plain_length(
    mode: SeedMode,
    samples: Seq<Sample>,
    x0: i32,
    x1: i32,
    y0: i32,
    y1: i32,
    z0: i32,
    z1: i32,
    max_matches: u32,
)
    requires
        bounds_ok(x0, x1, y0, y1, z0, z1),
        mode != SeedMode::Post1_8,
    ensures
        cube(strict_record_zxy(mode, samples), z0 as int, z1 as int, x0 as int, x1 as int, y0 as int, y1 as int).len()
            == cube(strict_record(mode, samples), y0 as int, y1 as int, z0 as int, z1 as int, x0 as int, x1 as int).len(),
        ok_list(strict_box_result_zxy(mode, samples, x0, x1, y0, y1, z0, z1, max_matches)).len() == ok_list(
            strict_box_result(mode, samples, x0, x1, y0, y1, z0, z1, max_matches),
        ).len(),
        ok_list(strict_box_result(mode, samples, x0, x1, y0, y1, z0, z1, max_matches)).len() == 3 * (if max_matches
            < cube(strict_record(mode, samples), y0 as int, y1 as int, z0 as int, z1 as int, x0 as int, x1 as int).len() {
            max_matches as int
        } else {
            cube(strict_record(mode, samples), y0 as int, y1 as int, z0 as int, z1 as int, x0 as int, x1 as int).len() as int
        }),
{
    let f = strict_record(mode, samples);
    let g = strict_record_zxy(mode, samples);
    let cy = cube(f, y0 as int, y1 as int, z0 as int, z1 as int, x0 as int, x1 as int);
    let cz = cube(g, z0 as int, z1 as int, x0 as int, x1 as int, y0 as int, y1 as int);
    lemma_strict_walks_distinct(mode, samples, x0, x1, y0, y1, z0, z1);
    lemma_cube_no_duplicates(f, y0 as int, y1 as int, z0 as int, z1 as int, x0 as int, x1 as int, y0 as int, y1 as int);
    lemma_cube_no_duplicates(g, z0 as int, z1 as int, x0 as int, x1 as int, y0 as int, y1 as int, z0 as int, z1 as int);
    assert forall|r: Seq<i32>| cy.contains(r) <==> cz.contains(r) by {
        lemma_cube_contains(f, y0 as int, y1 as int, z0 as int, z1 as int, x0 as int, x1 as int, r);
        lemma_cube_contains(g, z0 as int, z1 as int, x0 as int, x1 as int, y0 as int, y1 as int, r);
        if cy.contains(r) {
            let (o, m, i) = choose|o: int, m: int, i: int|
                y0 <= o <= y1 && z0 <= m <= z1 && x0 <= i <= x1 && #[trigger] reports(f, o, m, i, r);
            assert(reports(g, m, i, o, r));
        }
        if cz.contains(r) {
            let (o, m, i) = choose|o: int, m: int, i: int|
                z0 <= o <= z1 && x0 <= m <= x1 && y0 <= i <= y1 && #[trigger] reports(g, o, m, i, r);
            assert(reports(f, i, o, m, r));
        }
    }
    assert(cy.to_set() =~= cz.to_set());
    cy.unique_seq_to_set();
    cz.unique_seq_to_set();
    assert forall|k: int| 0 <= k < cy.len() implies (#[trigger] cy[k]).len() == 3 by {
        lemma_cube_contains(f, y0 as int, y1 as int, z0 as int, z1 as int, x0 as int, x1 as int, cy[k]);
        assert(cy.contains(cy[k]));
    }
    assert forall|k: int| 0 <= k < cz.len() implies (#[trigger] cz[k]).len() == 3 by {
        lemma_cube_contains(g, z0 as int, z1 as int, x0 as int, x1 as int, y0 as int, y1 as int, cz[k]);
        assert(cz.contains(cz[k]));
    }
    if max_matches != 0 {
        let ty = take_upto(cy, max_matches as int);
        let tz = take_upto(cz, max_matches as int);
        assert forall|k: int| 0 <= k < ty.len() implies (#[trigger] ty[k]).len() == 3 by {
            assert(ty[k] == cy[k]);
        }
        assert forall|k: int| 0 <= k < tz.len() implies (#[trigger] tz[k]).len() == 3 by {
            assert(tz[k] == cz[k]);
        }
        lemma_flat_len(ty, 3);
        lemma_flat_len(tz, 3);
    }
}

// ---------------------------------------------------------------------------
// What one observation costs, and how costs add up, in terms of bit fields.

/// Bits `4a..4a+4` of a packed offset (`a` = 0 for x, 1 for y, 2 for z).
pub open spec fn bit_field(v: u16, a: int) -> int {
    if a == 0 {
        (v & 0xfu16) as int
    } else if a == 1 {
        ((v >> 4u16) & 0xfu16) as int
    } else {
        ((v >> 8u16) & 0xfu16) as int
    }
}

/// How far the predicted field is from the observed one: for the x and z
/// fields of a dripstone observation, only by which third of the block it
/// lies in (low `0..=3`, middle `4..=11` compared exactly, high `12..=15`);
/// otherwise the absolute difference.
pub open spec fn field_distance(s: Sample, pred: u16, a: int) -> int {
    let e = bit_field(s.expected, a);
    let p = bit_field(pred, a);
    if s.dripstone && a != 1 && e <= 3 {
        if p <= 3 { 0 } else { p - 3 }
    } else if s.dripstone && a != 1 && e >= 12 {
        if p >= 12 { 0 } else { 12 - p }
    } else if p >= e {
        p - e
    } else {
        e - p
    }
}

/// What a field costs: nothing when the mask leaves it out, its distance
/// within the tolerance, the square of its distance beyond it.
pub open spec fn field_cost(s: Sample, pred: u16, tol: int, a: int) -> int {
    let d = field_distance(s, pred, a);
    if bit_field(s.mask, a) == 0 {
        0
    } else if d <= tol {
        d
    } else {
        d * d
    }
}

/// Nibbles of a packed offset are its 4-bit fields.
pub proof fn law_nibbles_are_bit_fields(v: u16)
    ensures
        nibble(v, 0) == bit_field(v, 0),
        nibble(v, 1) == bit_field(v, 1),
        nibble(v, 2) == bit_field(v, 2),
{
    lemma_nibbles_as_bits(v);
}

/// One observation's score is the sum of its three field costs; a
/// constrained field within the tolerance costs exactly its distance, and
/// one beyond it the square of its distance.
pub proof fn law_sample_score_is_sum_of_field_costs(s: Sample, pred: u16, tol: int)
    ensures
        sample_score(s, pred, tol) == field_cost(s, pred, tol, 0) + field_cost(s, pred, tol, 1) + field_cost(
            s,
            pred,
            tol,
            2,
        ),
        forall|a: int|
            0 <= a < 3 ==> (#[trigger] axis_score(s, pred, tol, a)) == field_cost(s, pred, tol, a),
        forall|a: int|
            0 <= a < 3 && bit_field(s.mask, a) != 0 && field_distance(s, pred, a) <= tol ==> #[trigger] axis_score(
                s,
                pred,
                tol,
                a,
            ) == field_distance(s, pred, a),
{
    lemma_nibbles_as_bits(s.mask);
    lemma_nibbles_as_bits(s.expected);
    lemma_nibbles_as_bits(pred);
    assert forall|a: int| 0 <= a < 3 implies (#[trigger] axis_score(s, pred, tol, a)) == field_cost(s, pred, tol, a) by {
        assert(axis_distance(s, pred, a) == field_distance(s, pred, a));
    }
    assert(score_upto(s, pred, tol, 0) == 0);
    assert(score_upto(s, pred, tol, 1) == axis_score(s, pred, tol, 0));
    assert(score_upto(s, pred, tol, 2) == score_upto(s, pred, tol, 1) + axis_score(s, pred, tol, 1));
    assert(score_upto(s, pred, tol, 3) == score_upto(s, pred, tol, 2) + axis_score(s, pred, tol, 2));
    assert(axis_score(s, pred, tol, 0) == field_cost(s, pred, tol, 0));
    assert(axis_score(s, pred, tol, 1) == field_cost(s, pred, tol, 1));
    assert(axis_score(s, pred, tol, 2) == field_cost(s, pred, tol, 2));
}

/// A candidate's total score adds up over its observations: the total for
/// two lists of observations is the sum of their totals, no observation
/// scores 0, and one observation scores its own score.
pub proof fn law_total_score_adds_up(
    mode: SeedMode,
    a: Seq<Sample>,
    b: Seq<Sample>,
    x_seed: u32,
    y: int,
    z_seed: u32,
    tol: int,
)
    ensures
        total_score(mode, a + b, x_seed, y, z_seed, tol) == total_score(mode, a, x_seed, y, z_seed, tol) + total_score(
            mode,
            b,
            x_seed,
            y,
            z_seed,
            tol,
        ),
        total_score(mode, Seq::<Sample>::empty(), x_seed, y, z_seed, tol) == 0,
        forall|s: Sample|
            #[trigger] total_score(mode, seq![s], x_seed, y, z_seed, tol) == sample_score(
                s,
                parts_offset(mode, s, x_seed, y, z_seed),
                tol,
            ),
    decreases b.len(),
{
    assert forall|s: Sample| #[trigger] total_score(mode, seq![s], x_seed, y, z_seed, tol) == sample_score(
        s,
        parts_offset(mode, s, x_seed, y, z_seed),
        tol,
    ) by {
        assert(seq![s].drop_last() =~= Seq::<Sample>::empty());
        assert(total_score(mode, Seq::<Sample>::empty(), x_seed, y, z_seed, tol) == 0);
        assert(seq![s].last() == s);
        assert(seq![s].len() == 1);
    }
    if b.len() == 0 {
        assert(a + b =~= a);
    } else {
        law_total_score_adds_up(mode, a, b.drop_last(), x_seed, y, z_seed, tol);
        assert((a + b).drop_last() =~= a + b.drop_last());
        assert((a + b).last() == b.last());
    }
}

/// A dripstone observation's strict check: its y field must be predicted
/// exactly; its x and z fields only in the same third of the block (both in
/// `0..=3`, both in `12..=15`, or equal in between); fields the mask leaves
/// out are not checked. Other observations must match on every masked bit.
pub proof fn law_strict_check_of_one_observation(s: Sample, pred: u16)
    ensures
        s.dripstone ==> (strict_ok(s, pred) <==> {
            &&& bit_field(s.mask, 1) != 0 ==> bit_field(pred, 1) == bit_field(s.expected, 1)
            &&& bit_field(s.mask, 0) != 0 ==> {
                ||| bit_field(s.expected, 0) <= 3 && bit_field(pred, 0) <= 3
                ||| bit_field(s.expected, 0) >= 12 && bit_field(pred, 0) >= 12
                ||| 4 <= bit_field(s.expected, 0) <= 11 && bit_field(pred, 0) == bit_field(s.expected, 0)
            }
            &&& bit_field(s.mask, 2) != 0 ==> {
                ||| bit_field(s.expected, 2) <= 3 && bit_field(pred, 2) <= 3
                ||| bit_field(s.expected, 2) >= 12 && bit_field(pred, 2) >= 12
                ||| 4 <= bit_field(s.expected, 2) <= 11 && bit_field(pred, 2) == bit_field(s.expected, 2)
            }
        }),
        !s.dripstone ==> (strict_ok(s, pred) <==> pred & s.mask == s.expected),
{
    lemma_nibbles_as_bits(s.mask);
    lemma_nibbles_as_bits(s.expected);
    lemma_nibbles_as_bits(pred);
}

/// The scored verdict on a candidate: it is reported with its total score
/// when that total is within `max_score`, or when no observation constrains
/// any field; otherwise it is not reported.
pub proof fn law_scored_verdict(
    mode: SeedMode,
    samples: Seq<Sample>,
    x: int,
    y: int,
    z: int,
    tol: int,
    max_score: int,
)
    ensures
        ({
            let total = total_score(
                mode,
                samples,
                crate::seed::x_seed_of(x),
                y,
                crate::seed::z_seed_of(mode, z),
                tol,
            );
            let constrained = exists|i: int, a: int|
                0 <= i < samples.len() && 0 <= a < 3 && #[trigger] bit_field(samples[i].mask, a) != 0;
            score_at(mode, samples, x, y, z, tol, max_score) == if constrained && total > max_score {
                None
            } else {
                Some(total)
            }
        }),
{
    lemma_score_at(mode, samples, x, y, z, tol, max_score);
    let constrained = exists|i: int, a: int|
        0 <= i < samples.len() && 0 <= a < 3 && #[trigger] bit_field(samples[i].mask, a) != 0;
    if crate::candidate::any_counted(samples) {
        let i = choose|i: int| 0 <= i < samples.len() && crate::matching::sample_counted(#[trigger] samples[i]);
        lemma_nibbles_as_bits(samples[i].mask);
        if axis_counted(samples[i], 0) {
            assert(bit_field(samples[i].mask, 0) != 0);
        } else if axis_counted(samples[i], 1) {
            assert(bit_field(samples[i].mask, 1) != 0);
        } else {
            assert(bit_field(samples[i].mask, 2) != 0);
        }
    }
    if constrained {
        let (i, a) = choose|i: int, a: int|
            0 <= i < samples.len() && 0 <= a < 3 && #[trigger] bit_field(samples[i].mask, a) != 0;
        lemma_nibbles_as_bits(samples[i].mask);
        assert(crate::matching::sample_counted(samples[i]));
    }
}

} // verus!
