use grassfinder_wasm::candidate::{
    candidate_strict_for_code, candidate_strict_for_code_skip, choose_strict_y_pivot, pivot_base_for_code,
    strict_check_kind,
};
use grassfinder_wasm::matching::{packed_from_parts, STRICT_FULL_MASK, STRICT_MIXED, STRICT_SIMPLE_MASK};
use grassfinder_wasm::mix::{X_MULT, Z_MULT_VANILLA};
use grassfinder_wasm::sample::{make_samples, Sample};
use grassfinder_wasm::seed::{SeedMode, SEED_PRE_1_8};
use grassfinder_wasm::ycache::{build_strict_y_cache, strict_y_cache_matches, strict_y_cache_y_mask};

fn packed_direct(mode: SeedMode, x: i32, y: i32, z: i32) -> u16 {
    let sample = Sample::new(0, 0, 0, 0, 0x0fff, false, mode);
    packed_from_parts(
        mode,
        sample,
        (x as u32).wrapping_mul(X_MULT),
        y,
        (z as u32).wrapping_mul(mode.z_multiplier()),
    )
}

#[test]
fn pre_1_8_y_prefilter_matches_bruteforce_candidates() {
    let mode = SeedMode::Pre1_8;
    let rel_dx = [0, -5];
    let rel_dy = [0, 0];
    let rel_dz = [0, -3];
    let rel_packed = [
        packed_direct(mode, 10, 64, -7),
        packed_direct(mode, 5, 64, -10),
    ];
    let rel_mask = [0x0fffu16, 0x0fffu16];
    let rel_drip = [0u8, 0u8];
    let samples = make_samples(
        &rel_dx,
        &rel_dy,
        &rel_dz,
        &rel_packed,
        &rel_mask,
        &rel_drip,
        mode,
    )
    .unwrap();
    let kind = strict_check_kind(&samples);
    let cache = build_strict_y_cache(mode, kind, &samples, 60, 70).unwrap();

    let mut brute = Vec::new();
    for y in 60..=70 {
        for z in -15..=0 {
            let z_seed = (z as u32).wrapping_mul(Z_MULT_VANILLA);
            for x in 0..=20 {
                let x_seed = (x as u32).wrapping_mul(X_MULT);
                if candidate_strict_for_code::<SEED_PRE_1_8, STRICT_FULL_MASK>(
                    &samples, x_seed, y, z_seed,
                ) {
                    brute.push((x, y, z));
                }
            }
        }
    }

    let mut fast = Vec::new();
    for z in -15..=0 {
        let z_seed = (z as u32).wrapping_mul(Z_MULT_VANILLA);
        for x in 0..=20 {
            let x_seed = (x as u32).wrapping_mul(X_MULT);
            let base = pivot_base_for_code::<SEED_PRE_1_8>(cache.pivot, x_seed, z_seed);
            let mut y_mask = strict_y_cache_y_mask(&cache, base);
            while y_mask != 0 {
                let y_offset = y_mask.trailing_zeros() as i32;
                y_mask &= y_mask - 1;
                let y = cache.y0 + y_offset;

                if candidate_strict_for_code_skip::<SEED_PRE_1_8, STRICT_FULL_MASK>(
                    &samples,
                    cache.pivot_index,
                    x_seed,
                    y,
                    z_seed,
                ) {
                    fast.push((x, y, z));
                }
            }
        }
    }

    brute.sort_unstable();
    fast.sort_unstable();
    assert!(brute.contains(&(10, 64, -7)));
    assert_eq!(fast, brute);
}

#[test]
fn y_mask_marks_exactly_the_heights_where_the_pivot_matches() {
    let mode = SeedMode::Pre1_8;
    let expected = packed_direct(mode, 3, 66, 4);
    let samples = make_samples(&[0], &[0], &[0], &[expected], &[0x0fff], &[0], mode).unwrap();
    let cache = build_strict_y_cache(mode, strict_check_kind(&samples), &samples, 60, 75).unwrap();
    for z in -2..=6 {
        let z_seed = (z as u32).wrapping_mul(Z_MULT_VANILLA);
        for x in -2..=6 {
            let x_seed = (x as u32).wrapping_mul(X_MULT);
            let base = pivot_base_for_code::<SEED_PRE_1_8>(cache.pivot, x_seed, z_seed);
            let mask = strict_y_cache_y_mask(&cache, base);
            for b in 0..16 {
                let y = 60 + b;
                let hit = (mask >> b) & 1 == 1;
                let direct = packed_direct(mode, x, y, z) == expected;
                assert_eq!(hit, direct, "x={x} y={y} z={z}");
            }
            assert_eq!(mask >> 16, 0);
        }
    }
}

#[test]
fn y_cache_applies_only_to_modes_with_y_and_short_ranges() {
    let mode = SeedMode::Pre1_8;
    let samples = make_samples(&[0], &[0], &[0], &[0x123], &[0x0fff], &[0], mode).unwrap();
    let kind = strict_check_kind(&samples);
    assert!(build_strict_y_cache(mode, kind, &samples, 0, 63).is_some());
    assert!(build_strict_y_cache(mode, kind, &samples, 0, 64).is_none());
    assert!(build_strict_y_cache(mode, kind, &samples, 5, 4).is_none());
    assert!(build_strict_y_cache(mode, kind, &samples, 7, 7).is_some());

    let post = make_samples(&[0], &[0], &[0], &[0x123], &[0x0fff], &[0], SeedMode::Post1_8).unwrap();
    assert!(build_strict_y_cache(SeedMode::Post1_8, kind, &post, 0, 10).is_none());

    let tb3 = make_samples(&[0], &[0], &[0], &[0x123], &[0x0fff], &[0], SeedMode::Beta16Tb3).unwrap();
    assert!(build_strict_y_cache(SeedMode::Beta16Tb3, kind, &tb3, 0, 10).is_none());
}

#[test]
fn y_cache_needs_a_full_exact_pivot() {
    let mode = SeedMode::Pre1_8;
    let partial = make_samples(&[0], &[0], &[0], &[0x023], &[0x00ff], &[0], mode).unwrap();
    assert_eq!(choose_strict_y_pivot(&partial), None);
    assert!(build_strict_y_cache(mode, strict_check_kind(&partial), &partial, 0, 10).is_none());

    let drip = make_samples(&[0], &[0], &[0], &[0x123], &[0x0fff], &[1], mode).unwrap();
    assert_eq!(choose_strict_y_pivot(&drip), None);

    let mixed = make_samples(&[0, 1], &[0, 0], &[0, 0], &[0x023, 0x456], &[0x00ff, 0x0fff], &[0, 0], mode)
        .unwrap();
    let pivot = choose_strict_y_pivot(&mixed).unwrap();
    assert_eq!(mixed[pivot].mask, 0x0fff);
    let cache = build_strict_y_cache(mode, strict_check_kind(&mixed), &mixed, 0, 10).unwrap();
    assert_eq!(cache.pivot_index, pivot);
    assert!(strict_y_cache_matches(&cache, mode, strict_check_kind(&mixed), 0, 10));
    assert!(!strict_y_cache_matches(&cache, mode, strict_check_kind(&mixed), 0, 11));
}

#[test]
fn strict_check_kind_by_samples() {
    let mode = SeedMode::Pre1_8;
    let full = make_samples(&[0, 1], &[0, 0], &[0, 0], &[1, 2], &[0x0fff, 0x0fff], &[0, 0], mode).unwrap();
    assert_eq!(strict_check_kind(&full), STRICT_FULL_MASK);
    let simple = make_samples(&[0, 1], &[0, 0], &[0, 0], &[1, 2], &[0x0fff, 0x00f0], &[0, 0], mode).unwrap();
    assert_eq!(strict_check_kind(&simple), STRICT_SIMPLE_MASK);
    let mixed = make_samples(&[0, 1], &[0, 0], &[0, 0], &[1, 2], &[0x0fff, 0x0fff], &[0, 1], mode).unwrap();
    assert_eq!(strict_check_kind(&mixed), STRICT_MIXED);
    assert_eq!(strict_check_kind(&[]), STRICT_FULL_MASK);
}

#[test]
fn cache_layout() {
    let mode = SeedMode::Pre1_8;
    let samples = make_samples(&[0], &[0], &[0], &[0x5a5], &[0x0fff], &[0], mode).unwrap();
    let cache = build_strict_y_cache(mode, strict_check_kind(&samples), &samples, 10, 14).unwrap();
    assert_eq!(cache.low_offsets.len(), 65537);
    assert_eq!(cache.low_offsets[0], 0);
    assert!(cache.low_offsets.windows(2).all(|w| w[0] <= w[1]));
    assert_eq!(cache.low_offsets[65536] as usize, cache.low_entries.len());
    assert!(cache.low_entries.len() <= 65536 * 5);
    assert!(cache.low_entries.iter().all(|e| e.y_mask != 0 && e.y_mask < (1u64 << 5) && e.high < 4096));
    assert_eq!(cache.fingerprints.len(), 65536 * 32);
}

#[test]
fn y_mask_of_a_wide_base_is_empty() {
    let mode = SeedMode::Pre1_8;
    let samples = make_samples(&[0], &[0], &[0], &[0x5a5], &[0x0fff], &[0], mode).unwrap();
    let cache = build_strict_y_cache(mode, strict_check_kind(&samples), &samples, 10, 14).unwrap();
    for base in [0x1000_0000u32, 0x1234_5678, 0xffff_ffff] {
        assert_eq!(strict_y_cache_y_mask(&cache, base), 0);
    }
}

#[test]
fn strict_check_by_kind_on_any_samples() {
    let mode = SeedMode::Pre1_8;
    // A partial-mask sample: the full-mask check compares the whole offset.
    let samples = make_samples(&[0], &[0], &[0], &[0x005], &[0x000f], &[0], mode).unwrap();
    let mut full_hits = 0;
    let mut simple_hits = 0;
    for x in 0..64 {
        let x_seed = (x as u32).wrapping_mul(X_MULT);
        let f = candidate_strict_for_code::<SEED_PRE_1_8, STRICT_FULL_MASK>(&samples, x_seed, 64, 0);
        let s = candidate_strict_for_code::<SEED_PRE_1_8, STRICT_SIMPLE_MASK>(&samples, x_seed, 64, 0);
        let pred = packed_from_parts(mode, samples[0], x_seed, 64, 0);
        assert_eq!(f, pred == 0x005);
        assert_eq!(s, pred & 0x000f == 0x005);
        full_hits += f as u32;
        simple_hits += s as u32;
    }
    assert!(full_hits <= simple_hits);
}
