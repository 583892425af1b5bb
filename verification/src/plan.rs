//! A prepared scan: samples built once, scanned over many boxes, with the
//! y-prefilter cache kept between strict scans of the same y range.
use vstd::prelude::*;
use crate::sample::{Sample, make_samples, same_lengths};
use crate::seed::{SeedMode, ScanError, mode_of_code};
use crate::candidate::{first_full_exact, samples_wf, strict_check_kind, strict_kind};
use crate::ycache::{StrictYCache, build_strict_y_cache, strict_y_cache_matches, y_cache_applies};
use crate::scan::{
    res_view, scored_box_result, scan_scored_prepared, scan_strict_prepared,
    scan_strict_prepared_with_y_cache, strict_scan_result,
};
use crate::api::prepared_samples;

verus! {

pub struct ScanPlan {
    mode: SeedMode,
    samples: Vec<Sample>,
    strict_y_cache: Option<StrictYCache>,
}

impl ScanPlan {
    /// The seed mode the plan scans with.
    pub closed spec fn mode(&self) -> SeedMode {
        self.mode
    }

    /// The prepared samples, in the order they are checked.
    pub closed spec fn samples(&self) -> Seq<Sample> {
        self.samples@
    }

    /// The samples are well formed for the mode, and a kept cache was built
    /// for them.
    #[verifier::type_invariant]
    spec fn inv(&self) -> bool {
        &&& samples_wf(self.samples@, self.mode)
        &&& self.strict_y_cache matches Some(c) ==> {
            &&& c.wf()
            &&& c.mode == self.mode
            &&& c.kind == strict_kind(self.samples@)
            &&& y_cache_applies(self.mode, self.samples@, c.y0, c.y1)
            &&& c.pivot_index < self.samples@.len()
            &&& self.samples@[c.pivot_index as int] == c.pivot
        }
    }

    pub fn new(
        rel_dx: &[i32],
        rel_dy: &[i32],
        rel_dz: &[i32],
        rel_packed: &[u16],
        rel_mask: &[u16],
        rel_drip: &[u8],
        seed_mode: u8,
    ) -> (r: Result<ScanPlan, ScanError>)
        ensures
            match mode_of_code(seed_mode) {
                None => r matches Err(e) && e == ScanError::UnknownSeedMode,
                Some(mode) => if !same_lengths(
                    rel_dx@,
                    rel_dy@,
                    rel_dz@,
                    rel_packed@,
                    rel_mask@,
                    rel_drip@,
                ) {
                    r matches Err(e) && e == ScanError::LengthMismatch
                } else {
                    r matches Ok(p) && p.mode() == mode && prepared_samples(
                        rel_dx@,
                        rel_dy@,
                        rel_dz@,
                        rel_packed@,
                        rel_mask@,
                        rel_drip@,
                        mode,
                        p.samples(),
                    )
                },
            },
    {
        let mode = SeedMode::from_code(seed_mode)?;
        let samples = make_samples(rel_dx, rel_dy, rel_dz, rel_packed, rel_mask, rel_drip, mode)?;
        Ok(ScanPlan { mode, samples, strict_y_cache: None })
    }

    /// Strict scan of a box; reuses the y-prefilter cache when the mode, check
    /// kind and y range are those it was built for, and rebuilds it otherwise.
    pub fn scan_strict_box(
        &mut self,
        x0: i32,
        x1: i32,
        y0: i32,
        y1: i32,
        z0: i32,
        z1: i32,
        max_matches: u32,
    ) -> (r: Result<Vec<i32>, ScanError>)
        ensures
            final(self).mode() == old(self).mode(),
            final(self).samples() == old(self).samples(),
            res_view(r) == strict_scan_result(
                old(self).mode(),
                old(self).samples(),
                x0,
                x1,
                y0,
                y1,
                z0,
                z1,
                max_matches,
            ),
    {
        proof {
            use_type_invariant(&*self);
        }
        let kind = strict_check_kind(self.samples.as_slice());
        let needs_rebuild = match &self.strict_y_cache {
            Some(cache) => !strict_y_cache_matches(cache, self.mode, kind, y0, y1),
            None => true,
        };
        if needs_rebuild {
            let rebuilt = build_strict_y_cache(self.mode, kind, self.samples.as_slice(), y0, y1);
            self.strict_y_cache = rebuilt;
        }
        proof {
            use_type_invariant(&*self);
        }
        match &self.strict_y_cache {
            Some(cache) => scan_strict_prepared_with_y_cache(
                self.mode,
                self.samples.as_slice(),
                cache,
                x0,
                x1,
                y0,
                y1,
                z0,
                z1,
                max_matches,
            ),
            None => scan_strict_prepared(
                self.mode,
                self.samples.as_slice(),
                x0,
                x1,
                y0,
                y1,
                z0,
                z1,
                max_matches,
            ),
        }
    }

    pub fn scan_scored_box(
        &self,
        x0: i32,
        x1: i32,
        y0: i32,
        y1: i32,
        z0: i32,
        z1: i32,
        max_matches: u32,
        tol: u8,
        max_score: i32,
    ) -> (r: Result<Vec<i32>, ScanError>)
        ensures
            res_view(r) == scored_box_result(
                self.mode(),
                self.samples(),
                x0,
                x1,
                y0,
                y1,
                z0,
                z1,
                max_matches,
                tol,
                max_score,
            ),
    {
        scan_scored_prepared(
            self.mode,
            self.samples.as_slice(),
            x0,
            x1,
            y0,
            y1,
            z0,
            z1,
            max_matches,
            tol,
            max_score,
        )
    }
}

} // verus!
