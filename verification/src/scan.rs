//! Box scans: every candidate position of a box, tested against all samples.
use vstd::prelude::*;
use crate::mix::{X_MULT, pow28};
use crate::sample::{Sample, bounds_ok, validate_bounds};
use crate::seed::{SEED_B1_6_TB3, SEED_POST_1_8, SEED_PRE_1_8, SeedMode, ScanError, code_mode, x_seed_of, z_mult, z_seed_of, lemma_seed_of_i32, lemma_seed_step};
use crate::candidate::{
    all_strict, all_strict_except, candidate_score_for_code, candidate_strict_for_code,
    candidate_strict_for_code_skip, kind_valid, strict_check_kind, opt_int, pivot_base_for_code, samples_wf,
    score_verdict,
};
use crate::ycache::{StrictYCache, bit64, strict_y_cache_y_mask, y_cache_applies};
use crate::matching::{STRICT_FULL_MASK, STRICT_MIXED, STRICT_SIMPLE_MASK};
use crate::matching::{parts_offset, strict_ok};
use crate::mix::{mix_spec, wrap32};
use crate::candidate::pivot_base_spec;
use crate::order::{RecordFn, cube, flat, line, plane, take_upto, prefix_of, lemma_flat_push, lemma_prefix_take, lemma_walk_prefix, lemma_line_skip, lemma_line_prefix, lemma_prefix_append};

verus! {

/// Whether every sample agrees with a candidate at `(x, y, z)`.
#[verifier::opaque]
pub open spec fn strict_at(mode: SeedMode, samples: Seq<Sample>, x: int, y: int, z: int) -> bool {
    all_strict(mode, samples, x_seed_of(x), y, z_seed_of(mode, z))
}

/// The scored verdict on a candidate at `(x, y, z)`.
#[verifier::opaque]
pub open spec fn score_at(
    mode: SeedMode,
    samples: Seq<Sample>,
    x: int,
    y: int,
    z: int,
    tol: int,
    max_score: int,
) -> Option<int> {
    score_verdict(mode, samples, x_seed_of(x), y, z_seed_of(mode, z), tol, max_score)
}

pub proof fn lemma_strict_at(mode: SeedMode, samples: Seq<Sample>, x: int, y: int, z: int)
    ensures
        strict_at(mode, samples, x, y, z) == all_strict(mode, samples, x_seed_of(x), y, z_seed_of(mode, z)),
{
    reveal(strict_at);
}

pub proof fn lemma_score_at(
    mode: SeedMode,
    samples: Seq<Sample>,
    x: int,
    y: int,
    z: int,
    tol: int,
    max_score: int,
)
    ensures
        score_at(mode, samples, x, y, z, tol, max_score) == score_verdict(
            mode,
            samples,
            x_seed_of(x),
            y,
            z_seed_of(mode, z),
            tol,
            max_score,
        ),
{
    reveal(score_at);
}

/// A strict match reported as `[x, y, z]`, walking y, then z, then x.
pub open spec fn strict_record(mode: SeedMode, samples: Seq<Sample>) -> RecordFn {
    |y: int, z: int, x: int|
        if strict_at(mode, samples, x, y, z) {
            Some(seq![x as i32, y as i32, z as i32])
        } else {
            None
        }
}

/// A strict match reported as `[x, y, z]`, walking z, then x, then y.
pub open spec fn strict_record_zxy(mode: SeedMode, samples: Seq<Sample>) -> RecordFn {
    |z: int, x: int, y: int|
        if strict_at(mode, samples, x, y, z) {
            Some(seq![x as i32, y as i32, z as i32])
        } else {
            None
        }
}

/// A scored match reported as `[x, y, z, score]`, walking y, then z, then x.
pub open spec fn scored_record(mode: SeedMode, samples: Seq<Sample>, tol: int, max_score: int) -> RecordFn {
    |y: int, z: int, x: int|
        match score_at(mode, samples, x, y, z, tol, max_score) {
            Some(s) => Some(seq![x as i32, y as i32, z as i32, s as i32]),
            None => None,
        }
}

/// The last height a scan visits: the 1.8+ hash ignores y, so only `y0`.
pub open spec fn y_last(mode: SeedMode, y0: i32, y1: i32) -> int {
    if mode == SeedMode::Post1_8 {
        y0 as int
    } else {
        y1 as int
    }
}

/// The strict scan of a box: `[x, y, z, ...]` of the first `max_matches`
/// matches, walking y, then z, then x.
pub open spec fn strict_box_result(
    mode: SeedMode,
    samples: Seq<Sample>,
    x0: i32,
    x1: i32,
    y0: i32,
    y1: i32,
    z0: i32,
    z1: i32,
    max_matches: u32,
) -> Result<Seq<i32>, ScanError> {
    if !bounds_ok(x0, x1, y0, y1, z0, z1) {
        Err(ScanError::InvalidBounds)
    } else if max_matches == 0 {
        Ok(Seq::empty())
    } else {
        Ok(
            flat(
                take_upto(
                    cube(strict_record(mode, samples), y0 as int, y_last(mode, y0, y1), z0 as int, z1 as int, x0 as int, x1 as int),
                    max_matches as int,
                ),
            ),
        )
    }
}

/// The strict scan of a box with the y prefilter: the same matches, walking
/// z, then x, then y.
pub open spec fn strict_box_result_zxy(
    mode: SeedMode,
    samples: Seq<Sample>,
    x0: i32,
    x1: i32,
    y0: i32,
    y1: i32,
    z0: i32,
    z1: i32,
    max_matches: u32,
) -> Result<Seq<i32>, ScanError> {
    if !bounds_ok(x0, x1, y0, y1, z0, z1) {
        Err(ScanError::InvalidBounds)
    } else if max_matches == 0 {
        Ok(Seq::empty())
    } else {
        Ok(
            flat(
                take_upto(
                    cube(strict_record_zxy(mode, samples), z0 as int, z1 as int, x0 as int, x1 as int, y0 as int, y1 as int),
                    max_matches as int,
                ),
            ),
        )
    }
}

/// The scored scan of a box: `[x, y, z, score, ...]` of the first
/// `max_matches` candidates within `max_score`, walking y, then z, then x.
pub open spec fn scored_box_result(
    mode: SeedMode,
    samples: Seq<Sample>,
    x0: i32,
    x1: i32,
    y0: i32,
    y1: i32,
    z0: i32,
    z1: i32,
    max_matches: u32,
    tol: u8,
    max_score: i32,
) -> Result<Seq<i32>, ScanError> {
    if !bounds_ok(x0, x1, y0, y1, z0, z1) {
        Err(ScanError::InvalidBounds)
    } else if max_matches == 0 {
        Ok(Seq::empty())
    } else {
        Ok(
            flat(
                take_upto(
                    cube(
                        scored_record(mode, samples, tol as int, max_score as int),
                        y0 as int,
                        y_last(mode, y0, y1),
                        z0 as int,
                        z1 as int,
                        x0 as int,
                        x1 as int,
                    ),
                    max_matches as int,
                ),
            ),
        )
    }
}

/// A scan's result as plain values.
pub open spec fn res_view(r: Result<Vec<i32>, ScanError>) -> Result<Seq<i32>, ScanError> {
    match r {
        Ok(v) => Ok(v@),
        Err(e) => Err(e),
    }
}

/// The room reserved for a scan's output: `per_match` values for each of
/// `max_matches` matches, capped at 4096 values.
fn out_capacity(max_matches: u32, per_match: usize) -> (r: usize)
    requires
        per_match <= 4,
    ensures
        r == (if max_matches * per_match < 4096 { max_matches * per_match } else { 4096 }),
{
    if max_matches as usize >= 4096 {
        if per_match == 0 {
            0
        } else {
            assert(max_matches * per_match >= 4096) by (nonlinear_arith)
                requires
                    max_matches >= 4096,
                    per_match >= 1,
            ;
            4096
        }
    } else {
        assert((max_matches as usize) * per_match <= 4 * 4096) by (nonlinear_arith)
            requires
                max_matches < 4096,
                per_match <= 4,
        ;
        let c = (max_matches as usize) * per_match;
        if c < 4096 {
            c
        } else {
            4096
        }
    }
}

#[verifier::rlimit(40)]
pub fn scan_strict_loop<const MODE: u8, const KIND: u8>(
    samples: &[Sample],
    x0: i32,
    x1: i32,
    y0: i32,
    y1: i32,
    z0: i32,
    z1: i32,
    max_matches: u32,
) -> (r: Result<Vec<i32>, ScanError>)
    requires
        kind_valid(KIND, samples@),
    ensures
        res_view(r) == strict_box_result(code_mode(MODE), samples@, x0, x1, y0, y1, z0, z1, max_matches),
{
    validate_bounds(x0, x1, y0, y1, z0, z1)?;
    if max_matches == 0 {
        return Ok(Vec::new());
    }
    let ghost mode = code_mode(MODE);
    let ghost f = strict_record(mode, samples@);
    let z_multiplier = crate::matching::z_multiplier_for_code::<MODE>();
    let mut out: Vec<i32> = Vec::with_capacity(out_capacity(max_matches, 3));
    let ghost mut recs: Seq<Seq<i32>> = Seq::empty();
    let y_start = y0;
    let y_end = if MODE == SEED_POST_1_8 { y0 } else { y1 };
    let ghost full = cube(f, y0 as int, y_end as int, z0 as int, z1 as int, x0 as int, x1 as int);
    assert(y_end == y_last(mode, y0, y1));
    let mut y = y_start;
    loop
        invariant_except_break
            y0 <= y <= y_end,
            recs == cube(f, y0 as int, y - 1, z0 as int, z1 as int, x0 as int, x1 as int),
        invariant
            bounds_ok(x0, x1, y0, y1, z0, z1),
            y0 <= y_end <= y1,
            0 < max_matches,
            mode == code_mode(MODE),
            f == strict_record(mode, samples@),
            full == cube(f, y0 as int, y_end as int, z0 as int, z1 as int, x0 as int, x1 as int),
            y_end == y_last(mode, y0, y1),
            kind_valid(KIND, samples@),
            z_multiplier == z_mult(mode),
            out@ == flat(recs),
            out@.len() == 3 * recs.len(),
            recs.len() < max_matches,
        ensures
            recs == full,
        decreases y_end - y,
    {
        let mut z = z0;
        let mut z_seed = (z as u32).wrapping_mul(z_multiplier);
        proof {
            lemma_seed_of_i32(z, z_multiplier);
        }
        loop
            invariant_except_break
                z0 <= z <= z1,
                z_seed == z_seed_of(mode, z as int),
                recs == cube(f, y0 as int, y - 1, z0 as int, z1 as int, x0 as int, x1 as int) + plane(
                    f,
                    y as int,
                    z0 as int,
                    z - 1,
                    x0 as int,
                    x1 as int,
                ),
            invariant
                bounds_ok(x0, x1, y0, y1, z0, z1),
                y0 <= y <= y_end <= y1,
                0 < max_matches,
                mode == code_mode(MODE),
                f == strict_record(mode, samples@),
                full == cube(f, y0 as int, y_end as int, z0 as int, z1 as int, x0 as int, x1 as int),
                y_end == y_last(mode, y0, y1),
                kind_valid(KIND, samples@),
                z_multiplier == z_mult(mode),
                out@ == flat(recs),
                out@.len() == 3 * recs.len(),
                recs.len() < max_matches,
            ensures
                recs == cube(f, y0 as int, y as int, z0 as int, z1 as int, x0 as int, x1 as int),
            decreases z1 - z,
        {
            let mut x = x0;
            let mut x_seed = (x as u32).wrapping_mul(X_MULT);
            proof {
                lemma_seed_of_i32(x, X_MULT);
            }
            loop
                invariant_except_break
                    x0 <= x <= x1,
                    x_seed == x_seed_of(x as int),
                    recs == cube(f, y0 as int, y - 1, z0 as int, z1 as int, x0 as int, x1 as int) + plane(
                        f,
                        y as int,
                        z0 as int,
                        z - 1,
                        x0 as int,
                        x1 as int,
                    ) + line(f, y as int, z as int, x0 as int, x - 1),
                invariant
                    bounds_ok(x0, x1, y0, y1, z0, z1),
                    y0 <= y <= y_end <= y1,
                    z0 <= z <= z1,
                    z_seed == z_seed_of(mode, z as int),
                    0 < max_matches,
                    mode == code_mode(MODE),
                    f == strict_record(mode, samples@),
                    full == cube(f, y0 as int, y_end as int, z0 as int, z1 as int, x0 as int, x1 as int),
                    y_end == y_last(mode, y0, y1),
                y_end == y_last(mode, y0, y1),
                    kind_valid(KIND, samples@),
                    out@ == flat(recs),
                    out@.len() == 3 * recs.len(),
                    recs.len() < max_matches,
                ensures
                    recs == cube(f, y0 as int, y - 1, z0 as int, z1 as int, x0 as int, x1 as int) + plane(
                        f,
                        y as int,
                        z0 as int,
                        z as int,
                        x0 as int,
                        x1 as int,
                    ),
                decreases x1 - x,
            {
                let ghost before = recs;
                proof {
                    assert(line(f, y as int, z as int, x0 as int, x as int) =~= line(f, y as int, z as int, x0 as int, x - 1) + match f(y as int, z as int, x as int) {
                        Some(r) => seq![r],
                        None => Seq::empty(),
                    });
                }
                proof {
                    lemma_strict_at(mode, samples@, x as int, y as int, z as int);
                }
                if candidate_strict_for_code::<MODE, KIND>(samples, x_seed, y, z_seed) {
                    out.push(x);
                    out.push(y);
                    out.push(z);
                    proof {
                        let r = seq![x as i32, y as i32, z as i32];
                        lemma_flat_push(recs, r);
                        recs = recs.push(r);
                        assert(out@ =~= flat(before) + r);
                        assert(out@.len() / 3 == recs.len());
                    }
                    if (out.len() / 3) as u32 >= max_matches {
                        proof {
                            assert(recs =~= before + seq![seq![x as i32, y as i32, z as i32]]);
                            lemma_walk_prefix(f, y0 as int, y_end as int, z0 as int, z1 as int, x0 as int, x1 as int, y as int, z as int, x as int);
                            lemma_prefix_take(recs, full, max_matches as int);
                            assert(recs.take(max_matches as int) =~= recs);
                            assert(take_upto(full, max_matches as int) == recs);
                        }
                        return Ok(out);
                    }
                }
                if x == x1 {
                    proof {
                        assert(plane(f, y as int, z0 as int, z as int, x0 as int, x1 as int) =~= plane(f, y as int, z0 as int, z - 1, x0 as int, x1 as int) + line(f, y as int, z as int, x0 as int, x as int));
                    }
                    break;
                }
                proof {
                    lemma_seed_step(x as int, X_MULT, x_seed);
                }
                x = x + 1;
                x_seed = x_seed.wrapping_add(X_MULT);
            }
            if z == z1 {
                proof {
                    assert(cube(f, y0 as int, y as int, z0 as int, z1 as int, x0 as int, x1 as int) =~= cube(f, y0 as int, y - 1, z0 as int, z1 as int, x0 as int, x1 as int) + plane(f, y as int, z0 as int, z1 as int, x0 as int, x1 as int));
                }
                break;
            }
            proof {
                lemma_seed_step(z as int, z_multiplier, z_seed);
            }
            z = z + 1;
            z_seed = z_seed.wrapping_add(z_multiplier);
        }
        if y == y_end {
            break;
        }
        y = y + 1;
    }
    proof {
        assert(take_upto(full, max_matches as int) == full);
    }
    Ok(out)
}

#[verifier::rlimit(40)]
pub fn scan_scored_loop<const MODE: u8>(
    samples: &[Sample],
    x0: i32,
    x1: i32,
    y0: i32,
    y1: i32,
    z0: i32,
    z1: i32,
    max_matches: u32,
    tol: u8,
    max_score: i32,
) -> (r: Result<Vec<i32>, ScanError>)
    ensures
        res_view(r) == scored_box_result(
            code_mode(MODE),
            samples@,
            x0,
            x1,
            y0,
            y1,
            z0,
            z1,
            max_matches,
            tol,
            max_score,
        ),
{
    validate_bounds(x0, x1, y0, y1, z0, z1)?;
    if max_matches == 0 {
        return Ok(Vec::new());
    }
    let ghost mode = code_mode(MODE);
    let ghost f = scored_record(mode, samples@, tol as int, max_score as int);
    let tol_i = tol as i32;
    let z_multiplier = crate::matching::z_multiplier_for_code::<MODE>();
    let mut out: Vec<i32> = Vec::with_capacity(out_capacity(max_matches, 4));
    let ghost mut recs: Seq<Seq<i32>> = Seq::empty();
    let y_start = y0;
    let y_end = if MODE == SEED_POST_1_8 { y0 } else { y1 };
    let ghost full = cube(f, y0 as int, y_end as int, z0 as int, z1 as int, x0 as int, x1 as int);
    assert(y_end == y_last(mode, y0, y1));
    let mut y = y_start;
    loop
        invariant_except_break
            y0 <= y <= y_end,
            recs == cube(f, y0 as int, y - 1, z0 as int, z1 as int, x0 as int, x1 as int),
        invariant
            bounds_ok(x0, x1, y0, y1, z0, z1),
            y0 <= y_end <= y1,
            0 < max_matches,
            mode == code_mode(MODE),
            f == scored_record(mode, samples@, tol as int, max_score as int),
                0 <= tol_i,
                tol_i == tol,
            full == cube(f, y0 as int, y_end as int, z0 as int, z1 as int, x0 as int, x1 as int),
            y_end == y_last(mode, y0, y1),
                        z_multiplier == z_mult(mode),
            out@ == flat(recs),
            out@.len() == 4 * recs.len(),
            recs.len() < max_matches,
        ensures
            recs == full,
        decreases y_end - y,
    {
        let mut z = z0;
        let mut z_seed = (z as u32).wrapping_mul(z_multiplier);
        proof {
            lemma_seed_of_i32(z, z_multiplier);
        }
        loop
            invariant_except_break
                z0 <= z <= z1,
                z_seed == z_seed_of(mode, z as int),
                recs == cube(f, y0 as int, y - 1, z0 as int, z1 as int, x0 as int, x1 as int) + plane(
                    f,
                    y as int,
                    z0 as int,
                    z - 1,
                    x0 as int,
                    x1 as int,
                ),
            invariant
                bounds_ok(x0, x1, y0, y1, z0, z1),
                y0 <= y <= y_end <= y1,
                0 < max_matches,
                mode == code_mode(MODE),
                f == scored_record(mode, samples@, tol as int, max_score as int),
                0 <= tol_i,
                tol_i == tol,
                full == cube(f, y0 as int, y_end as int, z0 as int, z1 as int, x0 as int, x1 as int),
                y_end == y_last(mode, y0, y1),
                                z_multiplier == z_mult(mode),
                out@ == flat(recs),
                out@.len() == 4 * recs.len(),
                recs.len() < max_matches,
            ensures
                recs == cube(f, y0 as int, y as int, z0 as int, z1 as int, x0 as int, x1 as int),
            decreases z1 - z,
        {
            let mut x = x0;
            let mut x_seed = (x as u32).wrapping_mul(X_MULT);
            proof {
                lemma_seed_of_i32(x, X_MULT);
            }
            loop
                invariant_except_break
                    x0 <= x <= x1,
                    x_seed == x_seed_of(x as int),
                    recs == cube(f, y0 as int, y - 1, z0 as int, z1 as int, x0 as int, x1 as int) + plane(
                        f,
                        y as int,
                        z0 as int,
                        z - 1,
                        x0 as int,
                        x1 as int,
                    ) + line(f, y as int, z as int, x0 as int, x - 1),
                invariant
                    bounds_ok(x0, x1, y0, y1, z0, z1),
                    y0 <= y <= y_end <= y1,
                    z0 <= z <= z1,
                    z_seed == z_seed_of(mode, z as int),
                    0 < max_matches,
                    mode == code_mode(MODE),
                    f == scored_record(mode, samples@, tol as int, max_score as int),
                0 <= tol_i,
                tol_i == tol,
                    full == cube(f, y0 as int, y_end as int, z0 as int, z1 as int, x0 as int, x1 as int),
                    y_end == y_last(mode, y0, y1),
                y_end == y_last(mode, y0, y1),
                                        out@ == flat(recs),
                    out@.len() == 4 * recs.len(),
                    recs.len() < max_matches,
                ensures
                    recs == cube(f, y0 as int, y - 1, z0 as int, z1 as int, x0 as int, x1 as int) + plane(
                        f,
                        y as int,
                        z0 as int,
                        z as int,
                        x0 as int,
                        x1 as int,
                    ),
                decreases x1 - x,
            {
                let ghost before = recs;
                proof {
                    assert(line(f, y as int, z as int, x0 as int, x as int) =~= line(f, y as int, z as int, x0 as int, x - 1) + match f(y as int, z as int, x as int) {
                        Some(r) => seq![r],
                        None => Seq::empty(),
                    });
                }
                proof {
                    lemma_score_at(mode, samples@, x as int, y as int, z as int, tol as int, max_score as int);
                }
                let verdict = candidate_score_for_code::<MODE>(samples, x_seed, y, z_seed, tol_i, max_score);
                if let Some(score) = verdict {
                    out.push(x);
                    out.push(y);
                    out.push(z);
                    out.push(score);
                    proof {
                        let r = seq![x as i32, y as i32, z as i32, score];
                        lemma_flat_push(recs, r);
                        recs = recs.push(r);
                        assert(out@ =~= flat(before) + r);
                        assert(out@.len() / 4 == recs.len());
                    }
                    if (out.len() / 4) as u32 >= max_matches {
                        proof {
                            assert(recs =~= before + seq![seq![x as i32, y as i32, z as i32, score]]);
                            lemma_walk_prefix(f, y0 as int, y_end as int, z0 as int, z1 as int, x0 as int, x1 as int, y as int, z as int, x as int);
                            lemma_prefix_take(recs, full, max_matches as int);
                            assert(recs.take(max_matches as int) =~= recs);
                            assert(take_upto(full, max_matches as int) == recs);
                        }
                        return Ok(out);
                    }
                }
                if x == x1 {
                    proof {
                        assert(plane(f, y as int, z0 as int, z as int, x0 as int, x1 as int) =~= plane(f, y as int, z0 as int, z - 1, x0 as int, x1 as int) + line(f, y as int, z as int, x0 as int, x as int));
                    }
                    break;
                }
                proof {
                    lemma_seed_step(x as int, X_MULT, x_seed);
                }
                x = x + 1;
                x_seed = x_seed.wrapping_add(X_MULT);
            }
            if z == z1 {
                proof {
                    assert(cube(f, y0 as int, y as int, z0 as int, z1 as int, x0 as int, x1 as int) =~= cube(f, y0 as int, y - 1, z0 as int, z1 as int, x0 as int, x1 as int) + plane(f, y as int, z0 as int, z1 as int, x0 as int, x1 as int));
                }
                break;
            }
            proof {
                lemma_seed_step(z as int, z_multiplier, z_seed);
            }
            z = z + 1;
            z_seed = z_seed.wrapping_add(z_multiplier);
        }
        if y == y_end {
            break;
        }
        y = y + 1;
    }
    proof {
        assert(take_upto(full, max_matches as int) == full);
    }
    Ok(out)
}

// ---------------------------------------------------------------------------
// The y-prefiltered strict scan.

/// Clearing the lowest set bit of `m` keeps every other bit.
proof fn lemma_clear_lowest_bit(m: u64, tz: u64, b: u64)
    requires
        m != 0,
        tz < 64,
        b < 64,
        (m >> tz) & 1u64 == 1u64,
        m << ((64 - tz) as u64) == 0,
    ensures
        bit64(m & ((m - 1) as u64), b as int) <==> (bit64(m, b as int) && b != tz),
{
    assert((((m & ((m - 1) as u64)) >> b) & 1u64 == 1u64) <==> (((m >> b) & 1u64 == 1u64) && b != tz))
        by (bit_vector)
        requires
            m != 0u64,
            tz < 64u64,
            b < 64u64,
            (m >> tz) & 1u64 == 1u64,
            m << ((64 - tz) as u64) == 0u64,
    ;
}

/// With the cache's pivot, the y mask at a candidate's x/z position holds
/// exactly the heights at which the pivot sample agrees.
proof fn lemma_pivot_hit(
    cache: &StrictYCache,
    samples: Seq<Sample>,
    x_seed: u32,
    z_seed: u32,
    base: u32,
    b: int,
)
    requires
        cache.wf(),
        samples_wf(samples, SeedMode::Pre1_8),
        cache.pivot_index < samples.len(),
        samples[cache.pivot_index as int] == cache.pivot,
        base == pivot_base_spec(
            SeedMode::Pre1_8,
            wrap32(x_seed + cache.pivot.dx_seed),
            wrap32(z_seed + cache.pivot.dz_seed),
        ),
        0 <= b < cache.y_count(),
    ensures
        base < pow28(),
        cache.hit(base as int, b) <==> strict_ok(
            cache.pivot,
            parts_offset(SeedMode::Pre1_8, cache.pivot, x_seed, cache.y0 + b, z_seed),
        ),
{
    crate::ycache::lemma_cache_basics(cache);
    let p = cache.pivot;
    let xp = wrap32(x_seed + p.dx_seed);
    let zp = wrap32(z_seed + p.dz_seed);
    let yp = wrap32(cache.y0 + b + p.dy);
    let v = xp ^ zp ^ yp;
    assert(base < 0x1000_0000u32) by (bit_vector)
        requires
            base == (xp ^ zp) & 0x0fff_ffffu32,
    ;
    assert(v & 0x0fff_ffffu32 == base ^ (yp & 0x0fff_ffffu32)) by (bit_vector)
        requires
            base == (xp ^ zp) & 0x0fff_ffffu32,
            v == xp ^ zp ^ yp,
    ;
    crate::mix::lemma_mix_depends_on_low_28_bits(v as int);
    crate::mix::lemma_u32_shr16_mask12(v);
    crate::mix::lemma_mix_of_range(v as int);
    crate::mix::lemma_mix_of_range((v as int) % pow28());
    let pred = parts_offset(SeedMode::Pre1_8, p, x_seed, cache.y0 + b, z_seed);
    assert(pred == mix_spec(v));
    assert(samples[cache.pivot_index as int].wf(SeedMode::Pre1_8));
    let e = p.expected;
    assert(pred < 4096u16 ==> pred & 0x0fffu16 == pred) by (bit_vector);
}

/// The prefiltered walk's record at height `y0 + b` is decided by the pivot's
/// cache bit and the other samples.
proof fn lemma_prefilter_record(
    cache: &StrictYCache,
    samples: Seq<Sample>,
    x: int,
    z: int,
    x_seed: u32,
    z_seed: u32,
    base: u32,
    b: int,
)
    requires
        cache.wf(),
        samples_wf(samples, SeedMode::Pre1_8),
        cache.pivot_index < samples.len(),
        samples[cache.pivot_index as int] == cache.pivot,
        x_seed == x_seed_of(x),
        z_seed == z_seed_of(SeedMode::Pre1_8, z),
        base == pivot_base_spec(
            SeedMode::Pre1_8,
            wrap32(x_seed + cache.pivot.dx_seed),
            wrap32(z_seed + cache.pivot.dz_seed),
        ),
        0 <= b < cache.y_count(),
    ensures
        !cache.hit(base as int, b) ==> strict_record_zxy(SeedMode::Pre1_8, samples)(z, x, cache.y0 + b) is None,
        cache.hit(base as int, b) ==> strict_record_zxy(SeedMode::Pre1_8, samples)(z, x, cache.y0 + b) == (
        if all_strict_except(SeedMode::Pre1_8, samples, cache.pivot_index as int, x_seed, cache.y0 + b, z_seed) {
            Some(seq![x as i32, (cache.y0 + b) as i32, z as i32])
        } else {
            None
        }),
{
    lemma_pivot_hit(cache, samples, x_seed, z_seed, base, b);
    lemma_strict_at(SeedMode::Pre1_8, samples, x, cache.y0 + b, z);
}

/// Heights whose cache bit is clear add no record to the line.
proof fn lemma_prefilter_skip(
    cache: &StrictYCache,
    samples: Seq<Sample>,
    x: int,
    z: int,
    x_seed: u32,
    z_seed: u32,
    base: u32,
    lo: int,
    hi: int,
)
    requires
        cache.wf(),
        samples_wf(samples, SeedMode::Pre1_8),
        cache.pivot_index < samples.len(),
        samples[cache.pivot_index as int] == cache.pivot,
        x_seed == x_seed_of(x),
        z_seed == z_seed_of(SeedMode::Pre1_8, z),
        base == pivot_base_spec(
            SeedMode::Pre1_8,
            wrap32(x_seed + cache.pivot.dx_seed),
            wrap32(z_seed + cache.pivot.dz_seed),
        ),
        0 <= lo <= hi <= cache.y_count(),
        forall|b: int| lo <= b < hi ==> !#[trigger] cache.hit(base as int, b),
    ensures
        line(strict_record_zxy(SeedMode::Pre1_8, samples), z, x, cache.y0 as int, cache.y0 + hi - 1)
            == line(strict_record_zxy(SeedMode::Pre1_8, samples), z, x, cache.y0 as int, cache.y0 + lo - 1),
{
    let f = strict_record_zxy(SeedMode::Pre1_8, samples);
    assert forall|yy: int| cache.y0 + lo - 1 < yy <= cache.y0 + hi - 1 implies #[trigger] f(z, x, yy) is None by {
        let b = yy - cache.y0;
        assert(!cache.hit(base as int, b));
        lemma_prefilter_record(cache, samples, x, z, x_seed, z_seed, base, b);
    }
    lemma_line_skip(f, z, x, cache.y0 as int, cache.y0 + lo - 1, cache.y0 + hi - 1);
}

/// Taking the lowest set bit `t` of the remaining mask: it is a hit at or
/// above `c`, the bits from `c` up to `t` are not, and the rest of the mask is
/// the bits above `t`.
proof fn lemma_mask_lowest_bit(orig: u64, before_mask: u64, after_mask: u64, c: int, tz: u32)
    requires
        0 <= c,
        before_mask != 0,
        after_mask == before_mask & ((before_mask - 1) as u64),
        tz == vstd::std_specs::bits::u64_trailing_zeros(before_mask),
        forall|b: int| 0 <= b < 64 ==> (bit64(before_mask, b) <==> (c <= b && #[trigger] bit64(orig, b))),
    ensures
        c <= tz < 64,
        bit64(orig, tz as int),
        forall|b: int| c <= b < tz ==> !#[trigger] bit64(orig, b),
        forall|b: int| 0 <= b < 64 ==> (#[trigger] bit64(after_mask, b) <==> (tz < b && bit64(orig, b))),
{
    vstd::std_specs::bits::axiom_u64_trailing_zeros(before_mask);
    let t = tz as int;
    assert(tz < 64);
    assert(bit64(before_mask, t));
    assert(bit64(orig, t));
    assert(before_mask << ((64 - tz) as u64) == 0);
    assert forall|b: int| c <= b < t implies !#[trigger] bit64(orig, b) by {
        assert((before_mask >> (b as u64)) & 1u64 == 0u64);
        assert(!bit64(before_mask, b));
    }
    assert forall|b: int| 0 <= b < 64 implies (#[trigger] bit64(after_mask, b) <==> (tz < b && bit64(orig, b))) by {
        lemma_clear_lowest_bit(before_mask, tz as u64, b as u64);
        if c <= b < t {
            assert((before_mask >> (b as u64)) & 1u64 == 0u64);
        }
    }
}

/// The context a prefiltered scan keeps for one `(x, z)` column.
pub open spec fn column_ctx(
    cache: &StrictYCache,
    samples: Seq<Sample>,
    x: int,
    z: int,
    x_seed: u32,
    z_seed: u32,
    base: u32,
) -> bool {
    &&& cache.wf()
    &&& samples_wf(samples, SeedMode::Pre1_8)
    &&& cache.pivot_index < samples.len()
    &&& samples[cache.pivot_index as int] == cache.pivot
    &&& x_seed == x_seed_of(x)
    &&& z_seed == z_seed_of(SeedMode::Pre1_8, z)
    &&& base == pivot_base_spec(
        SeedMode::Pre1_8,
        wrap32(x_seed + cache.pivot.dx_seed),
        wrap32(z_seed + cache.pivot.dz_seed),
    )
}

/// Scans the heights of column `(x, z)` whose cache bit is set, appending
/// matches to `out` until `max_matches` records are reached; returns whether
/// they were, and the records gathered.
#[verifier::rlimit(60)]
fn prefilter_column<const MODE: u8, const KIND: u8>(
    samples: &[Sample],
    cache: &StrictYCache,
    x: i32,
    x_seed: u32,
    z: i32,
    z_seed: u32,
    max_matches: u32,
    out: &mut Vec<i32>,
    Ghost(recs_in): Ghost<Seq<Seq<i32>>>,
) -> (r: (bool, Ghost<Seq<Seq<i32>>>))
    requires
        code_mode(MODE) == SeedMode::Pre1_8,
        kind_valid(KIND, samples@),
        column_ctx(cache, samples@, x as int, z as int, x_seed, z_seed, pivot_base_spec(
            SeedMode::Pre1_8,
            wrap32(x_seed + cache.pivot.dx_seed),
            wrap32(z_seed + cache.pivot.dz_seed),
        )),
        old(out)@ == flat(recs_in),
        old(out)@.len() == 3 * recs_in.len(),
        recs_in.len() < max_matches,
    ensures
        final(out)@ == flat(r.1@),
        final(out)@.len() == 3 * r.1@.len(),
        !r.0 ==> r.1@ == recs_in + line(
            strict_record_zxy(SeedMode::Pre1_8, samples@),
            z as int,
            x as int,
            cache.y0 as int,
            cache.y1 as int,
        ) && r.1@.len() < max_matches,
        r.0 ==> r.1@.len() == max_matches && prefix_of(
            r.1@,
            recs_in + line(
                strict_record_zxy(SeedMode::Pre1_8, samples@),
                z as int,
                x as int,
                cache.y0 as int,
                cache.y1 as int,
            ),
        ),
{
    let ghost f = strict_record_zxy(SeedMode::Pre1_8, samples@);
    let ghost y0 = cache.y0 as int;
    let ghost y1 = cache.y1 as int;
    let base = pivot_base_for_code::<MODE>(cache.pivot, x_seed, z_seed);
    proof {
        crate::ycache::lemma_cache_basics(cache);
        lemma_pivot_hit(cache, samples@, x_seed, z_seed, base, 0);
    }
    let mut y_mask = strict_y_cache_y_mask(cache, base);
    let ghost orig = y_mask;
    let ghost yc = cache.y_count();
    let ghost mut c: int = 0;
    let ghost mut recs = recs_in;
    proof {
        assert(line(f, z as int, x as int, y0, y0 - 1) =~= Seq::<Seq<i32>>::empty());
        assert(recs =~= recs_in + line(f, z as int, x as int, y0, y0 + c - 1));
    }
    while y_mask != 0
        invariant
            0 <= c <= yc,
            yc == cache.y_count(),
            yc == y1 - y0 + 1,
            yc <= 64,
            y0 == cache.y0,
            y1 == cache.y1,
            f == strict_record_zxy(SeedMode::Pre1_8, samples@),
            code_mode(MODE) == SeedMode::Pre1_8,
            kind_valid(KIND, samples@),
            column_ctx(cache, samples@, x as int, z as int, x_seed, z_seed, base),
            forall|b: int|
                #![trigger bit64(y_mask, b)]
                #![trigger bit64(orig, b)]
                0 <= b < 64 ==> (bit64(y_mask, b) <==> (c <= b && bit64(orig, b))),
            forall|b: int| 0 <= b < 64 ==> (#[trigger] bit64(orig, b) <==> cache.hit(base as int, b)),
            recs == recs_in + line(f, z as int, x as int, y0, y0 + c - 1),
            out@ == flat(recs),
            out@.len() == 3 * recs.len(),
            recs.len() < max_matches,
        decreases 64 - c,
    {
        let tz = y_mask.trailing_zeros();
        let ghost before_mask = y_mask;
        let after = y_mask & (y_mask - 1);
        proof {
            lemma_mask_lowest_bit(orig, before_mask, after, c, tz);
            assert forall|b: int| c <= b < tz implies !#[trigger] cache.hit(base as int, b) by {
                assert(!bit64(orig, b));
            }
            lemma_prefilter_skip(cache, samples@, x as int, z as int, x_seed, z_seed, base, c, tz as int);
            lemma_prefilter_record(cache, samples@, x as int, z as int, x_seed, z_seed, base, tz as int);
            assert(line(f, z as int, x as int, y0, y0 + tz) =~= line(f, z as int, x as int, y0, y0 + tz - 1) + match f(z as int, x as int, y0 + tz) {
                Some(rec) => seq![rec],
                None => Seq::empty(),
            });
        }
        y_mask = after;
        let y_offset = tz as i32;
        let y = cache.y0 + y_offset;
        let ghost before = recs;
        if candidate_strict_for_code_skip::<MODE, KIND>(samples, cache.pivot_index, x_seed, y, z_seed) {
            out.push(x);
            out.push(y);
            out.push(z);
            proof {
                let rec = seq![x as i32, y as i32, z as i32];
                lemma_flat_push(recs, rec);
                recs = recs.push(rec);
                assert(out@ =~= flat(before) + rec);
                assert(out@.len() / 3 == recs.len());
            }
            if (out.len() / 3) as u32 >= max_matches {
                proof {
                    assert(recs =~= recs_in + line(f, z as int, x as int, y0, y as int));
                    lemma_line_prefix(f, z as int, x as int, y0, y as int, y1);
                    lemma_prefix_append(recs_in, line(f, z as int, x as int, y0, y as int), line(f, z as int, x as int, y0, y1));
                }
                return (true, Ghost(recs));
            }
        } else {
            proof {
                assert(recs =~= recs_in + line(f, z as int, x as int, y0, y0 + tz));
            }
        }
        proof {
            c = tz + 1;
        }
    }
    proof {
        assert forall|b: int| c <= b < yc implies !#[trigger] cache.hit(base as int, b) by {
            crate::ycache::lemma_bit64_or_single(0, 0, b as u64);
            assert(!bit64(y_mask, b));
        }
        lemma_prefilter_skip(cache, samples@, x as int, z as int, x_seed, z_seed, base, c, yc);
    }
    (false, Ghost(recs))
}

pub fn scan_strict_loop_y_prefilter<const MODE: u8, const KIND: u8>(
    samples: &[Sample],
    cache: &StrictYCache,
    x0: i32,
    x1: i32,
    y0: i32,
    y1: i32,
    z0: i32,
    z1: i32,
    max_matches: u32,
) -> (r: Result<Vec<i32>, ScanError>)
    requires
        kind_valid(KIND, samples@),
        samples_wf(samples@, code_mode(MODE)),
        cache.wf(),
        cache.mode == code_mode(MODE),
        cache.y0 == y0,
        cache.y1 == y1,
        cache.pivot_index < samples@.len(),
        samples@[cache.pivot_index as int] == cache.pivot,
    ensures
        res_view(r) == strict_box_result_zxy(code_mode(MODE), samples@, x0, x1, y0, y1, z0, z1, max_matches),
{
    validate_bounds(x0, x1, y0, y1, z0, z1)?;
    if max_matches == 0 {
        return Ok(Vec::new());
    }
    proof {
        crate::ycache::lemma_cache_basics(cache);
    }
    let ghost mode = code_mode(MODE);
    let ghost f = strict_record_zxy(mode, samples@);
    let ghost full = cube(f, z0 as int, z1 as int, x0 as int, x1 as int, y0 as int, y1 as int);
    let z_multiplier = crate::matching::z_multiplier_for_code::<MODE>();
    let mut out: Vec<i32> = Vec::with_capacity(out_capacity(max_matches, 3));
    let ghost mut recs: Seq<Seq<i32>> = Seq::empty();
    let mut z = z0;
    let mut z_seed = (z as u32).wrapping_mul(z_multiplier);
    proof {
        lemma_seed_of_i32(z, z_multiplier);
    }
    loop
        invariant_except_break
            z0 <= z <= z1,
            z_seed == z_seed_of(mode, z as int),
            recs == cube(f, z0 as int, z - 1, x0 as int, x1 as int, y0 as int, y1 as int),
        invariant
            bounds_ok(x0, x1, y0, y1, z0, z1),
            0 < max_matches,
            mode == code_mode(MODE),
            mode == SeedMode::Pre1_8,
            f == strict_record_zxy(mode, samples@),
            full == cube(f, z0 as int, z1 as int, x0 as int, x1 as int, y0 as int, y1 as int),
            kind_valid(KIND, samples@),
            samples_wf(samples@, mode),
            cache.wf(),
            cache.y0 == y0,
            cache.y1 == y1,
            cache.pivot_index < samples@.len(),
            samples@[cache.pivot_index as int] == cache.pivot,
            z_multiplier == z_mult(mode),
            out@ == flat(recs),
            out@.len() == 3 * recs.len(),
            recs.len() < max_matches,
        ensures
            recs == full,
        decreases z1 - z,
    {
        let mut x = x0;
        let mut x_seed = (x as u32).wrapping_mul(X_MULT);
        proof {
            lemma_seed_of_i32(x, X_MULT);
        }
        loop
            invariant_except_break
                x0 <= x <= x1,
                x_seed == x_seed_of(x as int),
                recs == cube(f, z0 as int, z - 1, x0 as int, x1 as int, y0 as int, y1 as int) + plane(
                    f,
                    z as int,
                    x0 as int,
                    x - 1,
                    y0 as int,
                    y1 as int,
                ),
            invariant
                bounds_ok(x0, x1, y0, y1, z0, z1),
                z0 <= z <= z1,
                z_seed == z_seed_of(mode, z as int),
                0 < max_matches,
                mode == code_mode(MODE),
                mode == SeedMode::Pre1_8,
                f == strict_record_zxy(mode, samples@),
                full == cube(f, z0 as int, z1 as int, x0 as int, x1 as int, y0 as int, y1 as int),
                kind_valid(KIND, samples@),
                samples_wf(samples@, mode),
                cache.wf(),
                cache.y0 == y0,
                cache.y1 == y1,
                cache.pivot_index < samples@.len(),
                samples@[cache.pivot_index as int] == cache.pivot,
                out@ == flat(recs),
                out@.len() == 3 * recs.len(),
                recs.len() < max_matches,
            ensures
                recs == cube(f, z0 as int, z as int, x0 as int, x1 as int, y0 as int, y1 as int),
            decreases x1 - x,
        {
            let ghost pre = recs;
            let (reached, Ghost(nr)) = prefilter_column::<MODE, KIND>(
                samples,
                cache,
                x,
                x_seed,
                z,
                z_seed,
                max_matches,
                &mut out,
                Ghost(recs),
            );
            proof {
                recs = nr;
                assert(plane(f, z as int, x0 as int, x as int, y0 as int, y1 as int) =~= plane(f, z as int, x0 as int, x - 1, y0 as int, y1 as int) + line(f, z as int, x as int, y0 as int, y1 as int));
                assert(pre + line(f, z as int, x as int, y0 as int, y1 as int) =~= cube(f, z0 as int, z - 1, x0 as int, x1 as int, y0 as int, y1 as int) + plane(f, z as int, x0 as int, x as int, y0 as int, y1 as int));
            }
            if reached {
                proof {
                    lemma_walk_prefix(f, z0 as int, z1 as int, x0 as int, x1 as int, y0 as int, y1 as int, z as int, x as int, y1 as int);
                    assert(cube(f, z0 as int, z - 1, x0 as int, x1 as int, y0 as int, y1 as int) + plane(f, z as int, x0 as int, x - 1, y0 as int, y1 as int) + line(f, z as int, x as int, y0 as int, y1 as int) =~= pre + line(f, z as int, x as int, y0 as int, y1 as int));
                    crate::order::lemma_prefix_trans(recs, pre + line(f, z as int, x as int, y0 as int, y1 as int), full);
                    lemma_prefix_take(recs, full, max_matches as int);
                    assert(recs.take(max_matches as int) =~= recs);
                }
                return Ok(out);
            }
            if x == x1 {
                proof {
                    assert(cube(f, z0 as int, z as int, x0 as int, x1 as int, y0 as int, y1 as int) =~= cube(f, z0 as int, z - 1, x0 as int, x1 as int, y0 as int, y1 as int) + plane(f, z as int, x0 as int, x1 as int, y0 as int, y1 as int));
                }
                break;
            }
            proof {
                lemma_seed_step(x as int, X_MULT, x_seed);
            }
            x = x + 1;
            x_seed = x_seed.wrapping_add(X_MULT);
        }
        if z == z1 {
            break;
        }
        proof {
            lemma_seed_step(z as int, z_multiplier, z_seed);
        }
        z = z + 1;
        z_seed = z_seed.wrapping_add(z_multiplier);
    }
    proof {
        assert(take_upto(full, max_matches as int) == full);
    }
    Ok(out)
}

// ---------------------------------------------------------------------------
// Dispatch to the specialised loops.

/// The strict scan over prepared samples: with the y prefilter where it
/// applies, without it otherwise.
pub open spec fn strict_scan_result(
    mode: SeedMode,
    samples: Seq<Sample>,
    x0: i32,
    x1: i32,
    y0: i32,
    y1: i32,
    z0: i32,
    z1: i32,
    max_matches: u32,
) -> Result<Seq<i32>, ScanError> {
    if y_cache_applies(mode, samples, y0, y1) {
        strict_box_result_zxy(mode, samples, x0, x1, y0, y1, z0, z1, max_matches)
    } else {
        strict_box_result(mode, samples, x0, x1, y0, y1, z0, z1, max_matches)
    }
}

pub fn scan_strict_prepared_with_y_cache(
    mode: SeedMode,
    samples: &[Sample],
    cache: &StrictYCache,
    x0: i32,
    x1: i32,
    y0: i32,
    y1: i32,
    z0: i32,
    z1: i32,
    max_matches: u32,
) -> (r: Result<Vec<i32>, ScanError>)
    requires
        samples_wf(samples@, mode),
        cache.wf(),
        cache.mode == mode,
        kind_valid(cache.kind, samples@),
        cache.y0 == y0,
        cache.y1 == y1,
        cache.pivot_index < samples@.len(),
        samples@[cache.pivot_index as int] == cache.pivot,
    ensures
        res_view(r) == strict_box_result_zxy(mode, samples@, x0, x1, y0, y1, z0, z1, max_matches),
{
    proof {
        crate::ycache::lemma_cache_basics(cache);
    }
    match mode {
        SeedMode::Pre1_8 => if cache.kind == STRICT_FULL_MASK {
            scan_strict_loop_y_prefilter::<SEED_PRE_1_8, STRICT_FULL_MASK>(
                samples,
                cache,
                x0,
                x1,
                y0,
                y1,
                z0,
                z1,
                max_matches,
            )
        } else if cache.kind == STRICT_SIMPLE_MASK {
            scan_strict_loop_y_prefilter::<SEED_PRE_1_8, STRICT_SIMPLE_MASK>(
                samples,
                cache,
                x0,
                x1,
                y0,
                y1,
                z0,
                z1,
                max_matches,
            )
        } else {
            scan_strict_loop_y_prefilter::<SEED_PRE_1_8, STRICT_MIXED>(
                samples,
                cache,
                x0,
                x1,
                y0,
                y1,
                z0,
                z1,
                max_matches,
            )
        },
        SeedMode::Beta16Tb3 => if cache.kind == STRICT_FULL_MASK {
            scan_strict_loop_y_prefilter::<SEED_B1_6_TB3, STRICT_FULL_MASK>(
                samples,
                cache,
                x0,
                x1,
                y0,
                y1,
                z0,
                z1,
                max_matches,
            )
        } else if cache.kind == STRICT_SIMPLE_MASK {
            scan_strict_loop_y_prefilter::<SEED_B1_6_TB3, STRICT_SIMPLE_MASK>(
                samples,
                cache,
                x0,
                x1,
                y0,
                y1,
                z0,
                z1,
                max_matches,
            )
        } else {
            scan_strict_loop_y_prefilter::<SEED_B1_6_TB3, STRICT_MIXED>(
                samples,
                cache,
                x0,
                x1,
                y0,
                y1,
                z0,
                z1,
                max_matches,
            )
        },
        SeedMode::Post1_8 => scan_strict_prepared(mode, samples, x0, x1, y0, y1, z0, z1, max_matches),
    }
}

pub fn scan_strict_prepared(
    mode: SeedMode,
    samples: &[Sample],
    x0: i32,
    x1: i32,
    y0: i32,
    y1: i32,
    z0: i32,
    z1: i32,
    max_matches: u32,
) -> (r: Result<Vec<i32>, ScanError>)
    ensures
        res_view(r) == strict_box_result(mode, samples@, x0, x1, y0, y1, z0, z1, max_matches),
{
    let kind = strict_check_kind(samples);
    match mode {
        SeedMode::Post1_8 => if kind == STRICT_FULL_MASK {
            scan_strict_loop::<SEED_POST_1_8, STRICT_FULL_MASK>(samples, x0, x1, y0, y1, z0, z1, max_matches)
        } else if kind == STRICT_SIMPLE_MASK {
            scan_strict_loop::<SEED_POST_1_8, STRICT_SIMPLE_MASK>(samples, x0, x1, y0, y1, z0, z1, max_matches)
        } else {
            scan_strict_loop::<SEED_POST_1_8, STRICT_MIXED>(samples, x0, x1, y0, y1, z0, z1, max_matches)
        },
        SeedMode::Pre1_8 => if kind == STRICT_FULL_MASK {
            scan_strict_loop::<SEED_PRE_1_8, STRICT_FULL_MASK>(samples, x0, x1, y0, y1, z0, z1, max_matches)
        } else if kind == STRICT_SIMPLE_MASK {
            scan_strict_loop::<SEED_PRE_1_8, STRICT_SIMPLE_MASK>(samples, x0, x1, y0, y1, z0, z1, max_matches)
        } else {
            scan_strict_loop::<SEED_PRE_1_8, STRICT_MIXED>(samples, x0, x1, y0, y1, z0, z1, max_matches)
        },
        SeedMode::Beta16Tb3 => if kind == STRICT_FULL_MASK {
            scan_strict_loop::<SEED_B1_6_TB3, STRICT_FULL_MASK>(samples, x0, x1, y0, y1, z0, z1, max_matches)
        } else if kind == STRICT_SIMPLE_MASK {
            scan_strict_loop::<SEED_B1_6_TB3, STRICT_SIMPLE_MASK>(samples, x0, x1, y0, y1, z0, z1, max_matches)
        } else {
            scan_strict_loop::<SEED_B1_6_TB3, STRICT_MIXED>(samples, x0, x1, y0, y1, z0, z1, max_matches)
        },
    }
}

pub fn scan_scored_prepared(
    mode: SeedMode,
    samples: &[Sample],
    x0: i32,
    x1: i32,
    y0: i32,
    y1: i32,
    z0: i32,
    z1: i32,
    max_matches: u32,
    tol: u8,
    max_score: i32,
) -> (r: Result<Vec<i32>, ScanError>)
    ensures
        res_view(r) == scored_box_result(mode, samples@, x0, x1, y0, y1, z0, z1, max_matches, tol, max_score),
{
    match mode {
        SeedMode::Post1_8 => scan_scored_loop::<SEED_POST_1_8>(
            samples,
            x0,
            x1,
            y0,
            y1,
            z0,
            z1,
            max_matches,
            tol,
            max_score,
        ),
        SeedMode::Pre1_8 => scan_scored_loop::<SEED_PRE_1_8>(
            samples,
            x0,
            x1,
            y0,
            y1,
            z0,
            z1,
            max_matches,
            tol,
            max_score,
        ),
        SeedMode::Beta16Tb3 => scan_scored_loop::<SEED_B1_6_TB3>(
            samples,
            x0,
            x1,
            y0,
            y1,
            z0,
            z1,
            max_matches,
            tol,
            max_score,
        ),
    }
}

} // verus!
