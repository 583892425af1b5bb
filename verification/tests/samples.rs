use grassfinder_wasm::candidate::candidate_score_for_code;
use grassfinder_wasm::matching::{
    add_sample_score, axis_nibble, dripstone_nibble_distance, dripstone_nibble_matches, seed_from_parts,
    strict_sample_matches,
};
use grassfinder_wasm::mix::{X_MULT, Z_MULT_TB3, Z_MULT_VANILLA};
use grassfinder_wasm::sample::{make_samples, sorts_before, validate_bounds, validate_lengths, Sample};
use grassfinder_wasm::seed::{ScanError, SeedMode, SEED_PRE_1_8};

#[test]
fn sample_new_masks_and_premultiplies() {
    let s = Sample::new(-3, 2, 5, 0xfabc, 0xf0f0, true, SeedMode::Pre1_8);
    assert_eq!(s.mask, 0x00f0);
    assert_eq!(s.expected, 0x00b0);
    assert_eq!(s.dx_seed, (-3i32 as u32).wrapping_mul(X_MULT));
    assert_eq!(s.dz_seed, 5u32.wrapping_mul(Z_MULT_VANILLA));
    assert!(s.dripstone);
    let t = Sample::new(0, 0, 5, 0, 0x0fff, false, SeedMode::Beta16Tb3);
    assert_eq!(t.dz_seed, 5u32.wrapping_mul(Z_MULT_TB3));
}

#[test]
fn constraint_bits_and_distance_rank() {
    let s = Sample::new(-3, 2, 5, 0, 0x0f0f, false, SeedMode::Pre1_8);
    assert_eq!(s.constraint_bits(), 8);
    assert_eq!(s.distance_rank(), 10);
    let t = Sample::new(i32::MIN, i32::MIN, i32::MIN, 0, 0, false, SeedMode::Pre1_8);
    assert_eq!(t.constraint_bits(), 0);
    assert_eq!(t.distance_rank(), 3 * 0x8000_0000u64);
}

#[test]
fn samples_are_ordered_exact_first_then_far_first() {
    let mode = SeedMode::Pre1_8;
    // Inputs: a near partial sample, a dripstone sample, a far full sample, a near full sample.
    let v = make_samples(
        &[1, 0, 7, 1],
        &[0, 0, 0, 0],
        &[0, 9, 0, 1],
        &[0x001, 0x002, 0x003, 0x004],
        &[0x00ff, 0x0fff, 0x0fff, 0x0fff],
        &[0, 1, 0, 0],
        mode,
    )
    .unwrap();
    let order: Vec<u16> = v.iter().map(|s| s.expected).collect();
    assert_eq!(order, vec![0x003, 0x004, 0x001, 0x002]);
    assert!(sorts_before(v[0], v[1]));
    assert!(!sorts_before(v[1], v[0]));
    assert!(sorts_before(v[2], v[3]));
}

#[test]
fn equal_samples_keep_input_order() {
    let mode = SeedMode::Post1_8;
    let v = make_samples(&[1, -1, 0], &[0, 0, 1], &[0, 0, 0], &[0x111, 0x222, 0x333], &[0x0fff; 3], &[0; 3], mode)
        .unwrap();
    let order: Vec<u16> = v.iter().map(|s| s.expected).collect();
    assert_eq!(order, vec![0x111, 0x222, 0x333]);
    assert!(!sorts_before(v[0], v[1]));
    assert!(!sorts_before(v[1], v[0]));
}

#[test]
fn make_samples_rejects_mismatched_lengths() {
    let r = make_samples(&[0, 1], &[0], &[0, 0], &[0, 0], &[0, 0], &[0, 0], SeedMode::Pre1_8);
    assert!(matches!(r, Err(ScanError::LengthMismatch)));
    let r = make_samples(&[], &[], &[], &[], &[], &[], SeedMode::Pre1_8);
    assert!(r.unwrap().is_empty());
}

#[test]
fn validation_helpers() {
    assert_eq!(validate_lengths(&[1, 2], &[1, 2], &[1, 2], &[1, 2], &[1, 2], &[1, 2]), Ok(2));
    assert_eq!(validate_lengths(&[1, 2], &[1, 2], &[1, 2], &[1, 2], &[1, 2], &[1]), Err(ScanError::LengthMismatch));
    assert_eq!(validate_bounds(0, 0, 0, 0, 0, 0), Ok(()));
    assert_eq!(validate_bounds(0, 1, 2, 1, 0, 1), Err(ScanError::InvalidBounds));
    assert_eq!(validate_bounds(-5, -6, 0, 1, 0, 1), Err(ScanError::InvalidBounds));
    assert_eq!(validate_bounds(0, 1, 0, 1, 3, 2), Err(ScanError::InvalidBounds));
}

#[test]
fn nibbles() {
    assert_eq!(axis_nibble(0x0abc, 0), 0xc);
    assert_eq!(axis_nibble(0x0abc, 1), 0xb);
    assert_eq!(axis_nibble(0x0abc, 2), 0xa);
}

#[test]
fn dripstone_nibbles_compare_by_thirds() {
    assert!(dripstone_nibble_matches(0, 3));
    assert!(dripstone_nibble_matches(2, 0));
    assert!(!dripstone_nibble_matches(3, 4));
    assert!(dripstone_nibble_matches(12, 15));
    assert!(!dripstone_nibble_matches(15, 11));
    assert!(dripstone_nibble_matches(7, 7));
    assert!(!dripstone_nibble_matches(7, 8));
    assert_eq!(dripstone_nibble_distance(1, 3), 0);
    assert_eq!(dripstone_nibble_distance(1, 9), 6);
    assert_eq!(dripstone_nibble_distance(13, 12), 0);
    assert_eq!(dripstone_nibble_distance(13, 4), 8);
    assert_eq!(dripstone_nibble_distance(6, 9), 3);
    assert_eq!(dripstone_nibble_distance(9, 6), 3);
}

#[test]
fn strict_sample_checks() {
    let plain = Sample::new(0, 0, 0, 0x0123, 0x0f0f, false, SeedMode::Pre1_8);
    assert!(strict_sample_matches(plain, 0x01a3));
    assert!(!strict_sample_matches(plain, 0x0124));
    let drip = Sample::new(0, 0, 0, 0x0f50, 0x0fff, true, SeedMode::Pre1_8);
    // x nibble 0 (low third), y nibble 5 (exact), z nibble 15 (high third).
    assert!(strict_sample_matches(drip, 0x0c53));
    assert!(!strict_sample_matches(drip, 0x0c43));
    assert!(!strict_sample_matches(drip, 0x0b53));
    assert!(!strict_sample_matches(drip, 0x0c54));
}

#[test]
fn add_sample_score_sums_nibble_costs() {
    let s = Sample::new(0, 0, 0, 0x0555, 0x0fff, false, SeedMode::Pre1_8);
    // Distances 1, 2, 3 with tolerance 1: 1 + 4 + 9.
    let mut score = 0;
    assert!(add_sample_score(s, 0x0876, 1, &mut score, 100));
    assert_eq!(score, 14);
    // Stops at the nibble that passes the limit, with that nibble counted.
    let mut score = 0;
    assert!(!add_sample_score(s, 0x0876, 1, &mut score, 4));
    assert_eq!(score, 5);
    let mut score = 3;
    assert!(!add_sample_score(s, 0x0876, 1, &mut score, 3));
    assert_eq!(score, 4);
    // Unconstrained nibbles cost nothing.
    let u = Sample::new(0, 0, 0, 0, 0, false, SeedMode::Pre1_8);
    let mut score = 7;
    assert!(add_sample_score(u, 0x0fff, 0, &mut score, 7));
    assert_eq!(score, 7);
}

#[test]
fn candidate_score_totals_all_samples() {
    let mode = SeedMode::Pre1_8;
    let samples = make_samples(&[0], &[0], &[0], &[0x0555], &[0x0fff], &[0], mode).unwrap();
    let s = samples[0];
    // Find a candidate whose predicted offset we know, then score it.
    let (x_seed, y, z_seed) = (7u32.wrapping_mul(X_MULT), 64, 9u32.wrapping_mul(Z_MULT_VANILLA));
    let pred = grassfinder_wasm::mix::mix_low_12(seed_from_parts(mode, s, x_seed, y, z_seed));
    let mut expected_score = 0;
    for axis in 0..3 {
        let d = (axis_nibble(pred, axis) as i32 - 5).abs();
        expected_score += if d <= 2 { d } else { d * d };
    }
    let got = candidate_score_for_code::<SEED_PRE_1_8>(&samples, x_seed, y, z_seed, 2, i32::MAX);
    assert_eq!(got, Some(expected_score));
    if expected_score > 0 {
        let got = candidate_score_for_code::<SEED_PRE_1_8>(&samples, x_seed, y, z_seed, 2, expected_score - 1);
        assert_eq!(got, None);
    }
}
