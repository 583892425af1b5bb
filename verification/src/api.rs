//! One-shot scans over raw sample arrays.
use vstd::prelude::*;
use crate::sample::{Sample, bounds_ok, is_stable_sort, make_samples, raw_samples, same_lengths, validate_bounds};
use crate::seed::{SeedMode, ScanError, mode_of_code};
use crate::candidate::{samples_wf, strict_check_kind};
use crate::ycache::build_strict_y_cache;
use crate::scan::{
    res_view, scored_box_result, scan_scored_prepared, scan_strict_prepared,
    scan_strict_prepared_with_y_cache, strict_scan_result,
};

verus! {

/// `samples` are the samples built from the input arrays for `mode`, in the
/// order the scans check them.
pub open spec fn prepared_samples(
    rel_dx: Seq<i32>,
    rel_dy: Seq<i32>,
    rel_dz: Seq<i32>,
    rel_packed: Seq<u16>,
    rel_mask: Seq<u16>,
    rel_drip: Seq<u8>,
    mode: SeedMode,
    samples: Seq<Sample>,
) -> bool {
    &&& is_stable_sort(raw_samples(rel_dx, rel_dy, rel_dz, rel_packed, rel_mask, rel_drip, mode), samples)
    &&& samples_wf(samples, mode)
}

/// The strict one-shot scan: bounds are checked first, then an empty result
/// for `max_matches == 0`, then the input arrays' lengths.
pub open spec fn strict_scan_spec(
    rel_dx: Seq<i32>,
    rel_dy: Seq<i32>,
    rel_dz: Seq<i32>,
    rel_packed: Seq<u16>,
    rel_mask: Seq<u16>,
    rel_drip: Seq<u8>,
    mode: SeedMode,
    x0: i32,
    x1: i32,
    y0: i32,
    y1: i32,
    z0: i32,
    z1: i32,
    max_matches: u32,
    res: Result<Seq<i32>, ScanError>,
) -> bool {
    if !bounds_ok(x0, x1, y0, y1, z0, z1) {
        res == Err::<Seq<i32>, ScanError>(ScanError::InvalidBounds)
    } else if max_matches == 0 {
        res == Ok::<Seq<i32>, ScanError>(Seq::empty())
    } else if !same_lengths(rel_dx, rel_dy, rel_dz, rel_packed, rel_mask, rel_drip) {
        res == Err::<Seq<i32>, ScanError>(ScanError::LengthMismatch)
    } else {
        exists|samples: Seq<Sample>|
            prepared_samples(rel_dx, rel_dy, rel_dz, rel_packed, rel_mask, rel_drip, mode, samples)
                && res == strict_scan_result(mode, samples, x0, x1, y0, y1, z0, z1, max_matches)
    }
}

/// The scored one-shot scan: the input arrays' lengths are checked first,
/// then the bounds.
pub open spec fn scored_scan_spec(
    rel_dx: Seq<i32>,
    rel_dy: Seq<i32>,
    rel_dz: Seq<i32>,
    rel_packed: Seq<u16>,
    rel_mask: Seq<u16>,
    rel_drip: Seq<u8>,
    mode: SeedMode,
    x0: i32,
    x1: i32,
    y0: i32,
    y1: i32,
    z0: i32,
    z1: i32,
    max_matches: u32,
    tol: u8,
    max_score: i32,
    res: Result<Seq<i32>, ScanError>,
) -> bool {
    if !same_lengths(rel_dx, rel_dy, rel_dz, rel_packed, rel_mask, rel_drip) {
        res == Err::<Seq<i32>, ScanError>(ScanError::LengthMismatch)
    } else {
        exists|samples: Seq<Sample>|
            prepared_samples(rel_dx, rel_dy, rel_dz, rel_packed, rel_mask, rel_drip, mode, samples)
                && res == scored_box_result(
                mode,
                samples,
                x0,
                x1,
                y0,
                y1,
                z0,
                z1,
                max_matches,
                tol,
                max_score,
            )
    }
}

pub fn scan_strict_impl(
    rel_dx: &[i32],
    rel_dy: &[i32],
    rel_dz: &[i32],
    rel_packed: &[u16],
    rel_mask: &[u16],
    rel_drip: &[u8],
    mode: SeedMode,
    x0: i32,
    x1: i32,
    y0: i32,
    y1: i32,
    z0: i32,
    z1: i32,
    max_matches: u32,
) -> (r: Result<Vec<i32>, ScanError>)
    ensures
        strict_scan_spec(
            rel_dx@,
            rel_dy@,
            rel_dz@,
            rel_packed@,
            rel_mask@,
            rel_drip@,
            mode,
            x0,
            x1,
            y0,
            y1,
            z0,
            z1,
            max_matches,
            res_view(r),
        ),
{
    validate_bounds(x0, x1, y0, y1, z0, z1)?;
    if max_matches == 0 {
        return Ok(Vec::new());
    }
    let samples = make_samples(rel_dx, rel_dy, rel_dz, rel_packed, rel_mask, rel_drip, mode)?;
    let kind = strict_check_kind(samples.as_slice());
    let cache = build_strict_y_cache(mode, kind, samples.as_slice(), y0, y1);
    let r = match cache {
        Some(cache) => scan_strict_prepared_with_y_cache(
            mode,
            samples.as_slice(),
            &cache,
            x0,
            x1,
            y0,
            y1,
            z0,
            z1,
            max_matches,
        ),
        None => scan_strict_prepared(mode, samples.as_slice(), x0, x1, y0, y1, z0, z1, max_matches),
    };
    proof {
        assert(prepared_samples(
            rel_dx@,
            rel_dy@,
            rel_dz@,
            rel_packed@,
            rel_mask@,
            rel_drip@,
            mode,
            samples@,
        ));
    }
    r
}

pub fn scan_scored_impl(
    rel_dx: &[i32],
    rel_dy: &[i32],
    rel_dz: &[i32],
    rel_packed: &[u16],
    rel_mask: &[u16],
    rel_drip: &[u8],
    mode: SeedMode,
    x0: i32,
    x1: i32,
    y0: i32,
    y1: i32,
    z0: i32,
    z1: i32,
    max_matches: u32,
    tol: u8,
    max_score: i32,
) -> (r: Result<Vec<i32>, ScanError>)
    ensures
        scored_scan_spec(
            rel_dx@,
            rel_dy@,
            rel_dz@,
            rel_packed@,
            rel_mask@,
            rel_drip@,
            mode,
            x0,
            x1,
            y0,
            y1,
            z0,
            z1,
            max_matches,
            tol,
            max_score,
            res_view(r),
        ),
{
    let samples = make_samples(rel_dx, rel_dy, rel_dz, rel_packed, rel_mask, rel_drip, mode)?;
    let r = scan_scored_prepared(
        mode,
        samples.as_slice(),
        x0,
        x1,
        y0,
        y1,
        z0,
        z1,
        max_matches,
        tol,
        max_score,
    );
    proof {
        assert(prepared_samples(
            rel_dx@,
            rel_dy@,
            rel_dz@,
            rel_packed@,
            rel_mask@,
            rel_drip@,
            mode,
            samples@,
        ));
    }
    r
}

/// Strict scan with explicit seed mode.
///
/// seed_mode:
/// 0 = 1.8+ (Y ignored)
/// 1 = 1.7.10 / vanilla XOR with Y
/// 2 = b1.6-tb3 additive seed with Y
///
/// Returns `[x,y,z, x,y,z, ...]`.
pub fn scan_strict_box_seed(
    rel_dx: &[i32],
    rel_dy: &[i32],
    rel_dz: &[i32],
    rel_packed: &[u16],
    rel_mask: &[u16],
    rel_drip: &[u8],
    seed_mode: u8,
    x0: i32,
    x1: i32,
    y0: i32,
    y1: i32,
    z0: i32,
    z1: i32,
    max_matches: u32,
) -> (r: Result<Vec<i32>, ScanError>)
    ensures
        match mode_of_code(seed_mode) {
            None => r == Err::<Vec<i32>, ScanError>(ScanError::UnknownSeedMode),
            Some(mode) => strict_scan_spec(
                rel_dx@,
                rel_dy@,
                rel_dz@,
                rel_packed@,
                rel_mask@,
                rel_drip@,
                mode,
                x0,
                x1,
                y0,
                y1,
                z0,
                z1,
                max_matches,
                res_view(r),
            ),
        },
{
    let mode = SeedMode::from_code(seed_mode)?;
    scan_strict_impl(
        rel_dx,
        rel_dy,
        rel_dz,
        rel_packed,
        rel_mask,
        rel_drip,
        mode,
        x0,
        x1,
        y0,
        y1,
        z0,
        z1,
        max_matches,
    )
}

/// Scored scan with explicit seed mode.
///
/// Returns `[x,y,z,score, x,y,z,score, ...]`.
pub fn scan_scored_box_seed(
    rel_dx: &[i32],
    rel_dy: &[i32],
    rel_dz: &[i32],
    rel_packed: &[u16],
    rel_mask: &[u16],
    rel_drip: &[u8],
    seed_mode: u8,
    x0: i32,
    x1: i32,
    y0: i32,
    y1: i32,
    z0: i32,
    z1: i32,
    max_matches: u32,
    tol: u8,
    max_score: i32,
) -> (r: Result<Vec<i32>, ScanError>)
    ensures
        match mode_of_code(seed_mode) {
            None => r == Err::<Vec<i32>, ScanError>(ScanError::UnknownSeedMode),
            Some(mode) => scored_scan_spec(
                rel_dx@,
                rel_dy@,
                rel_dz@,
                rel_packed@,
                rel_mask@,
                rel_drip@,
                mode,
                x0,
                x1,
                y0,
                y1,
                z0,
                z1,
                max_matches,
                tol,
                max_score,
                res_view(r),
            ),
        },
{
    let mode = SeedMode::from_code(seed_mode)?;
    scan_scored_impl(
        rel_dx,
        rel_dy,
        rel_dz,
        rel_packed,
        rel_mask,
        rel_drip,
        mode,
        x0,
        x1,
        y0,
        y1,
        z0,
        z1,
        max_matches,
        tol,
        max_score,
    )
}

/// Legacy strict scan kept for existing callers.
///
/// post1_12_any_y=true maps to the 1.8+ Y-independent hash.
/// false maps to the 1.7.10-style Y-dependent vanilla hash.
pub fn scan_strict_box(
    rel_dx: &[i32],
    rel_dy: &[i32],
    rel_dz: &[i32],
    rel_packed: &[u16],
    rel_mask: &[u16],
    rel_drip: &[u8],
    post1_12_any_y: bool,
    x0: i32,
    x1: i32,
    y0: i32,
    y1: i32,
    z0: i32,
    z1: i32,
    max_matches: u32,
) -> (r: Result<Vec<i32>, ScanError>)
    ensures
        strict_scan_spec(
            rel_dx@,
            rel_dy@,
            rel_dz@,
            rel_packed@,
            rel_mask@,
            rel_drip@,
            if post1_12_any_y { SeedMode::Post1_8 } else { SeedMode::Pre1_8 },
            x0,
            x1,
            y0,
            y1,
            z0,
            z1,
            max_matches,
            res_view(r),
        ),
{
    scan_strict_impl(
        rel_dx,
        rel_dy,
        rel_dz,
        rel_packed,
        rel_mask,
        rel_drip,
        SeedMode::from_legacy_post_flag(post1_12_any_y),
        x0,
        x1,
        y0,
        y1,
        z0,
        z1,
        max_matches,
    )
}

/// Legacy scored scan kept for existing callers.
pub fn scan_scored_box(
    rel_dx: &[i32],
    rel_dy: &[i32],
    rel_dz: &[i32],
    rel_packed: &[u16],
    rel_mask: &[u16],
    rel_drip: &[u8],
    post1_12_any_y: bool,
    x0: i32,
    x1: i32,
    y0: i32,
    y1: i32,
    z0: i32,
    z1: i32,
    max_matches: u32,
    tol: u8,
    max_score: i32,
) -> (r: Result<Vec<i32>, ScanError>)
    ensures
        scored_scan_spec(
            rel_dx@,
            rel_dy@,
            rel_dz@,
            rel_packed@,
            rel_mask@,
            rel_drip@,
            if post1_12_any_y { SeedMode::Post1_8 } else { SeedMode::Pre1_8 },
            x0,
            x1,
            y0,
            y1,
            z0,
            z1,
            max_matches,
            tol,
            max_score,
            res_view(r),
        ),
{
    scan_scored_impl(
        rel_dx,
        rel_dy,
        rel_dz,
        rel_packed,
        rel_mask,
        rel_drip,
        SeedMode::from_legacy_post_flag(post1_12_any_y),
        x0,
        x1,
        y0,
        y1,
        z0,
        z1,
        max_matches,
        tol,
        max_score,
    )
}

} // verus!
