use grassfinder_wasm::api::{scan_scored_box, scan_scored_box_seed, scan_strict_box, scan_strict_box_seed};
use grassfinder_wasm::matching::packed_from_parts;
use grassfinder_wasm::mix::X_MULT;
use grassfinder_wasm::plan::ScanPlan;
use grassfinder_wasm::sample::Sample;
use grassfinder_wasm::seed::{ScanError, SeedMode, SEED_B1_6_TB3, SEED_POST_1_8, SEED_PRE_1_8};

fn packed_direct(mode: SeedMode, x: i32, y: i32, z: i32) -> u16 {
    let sample = Sample::new(0, 0, 0, 0, 0x0fff, false, mode);
    packed_from_parts(
        mode,
        sample,
        (x as u32).wrapping_mul(X_MULT),
        y,
        (z as u32).wrapping_mul(mode.z_multiplier()),
    )
}

/// Observations of the blocks around `(x, y, z)`: relative offsets and the
/// full packed offset seen at each.
struct Obs {
    dx: Vec<i32>,
    dy: Vec<i32>,
    dz: Vec<i32>,
    packed: Vec<u16>,
    mask: Vec<u16>,
    drip: Vec<u8>,
}

fn observe(mode: SeedMode, x: i32, y: i32, z: i32, rel: &[(i32, i32, i32)]) -> Obs {
    let mut o = Obs { dx: vec![], dy: vec![], dz: vec![], packed: vec![], mask: vec![], drip: vec![] };
    for &(dx, dy, dz) in rel {
        o.dx.push(dx);
        o.dy.push(dy);
        o.dz.push(dz);
        o.packed.push(packed_direct(mode, x + dx, y + dy, z + dz));
        o.mask.push(0x0fff);
        o.drip.push(0);
    }
    o
}

fn triples(v: &[i32]) -> Vec<(i32, i32, i32)> {
    assert_eq!(v.len() % 3, 0);
    v.chunks(3).map(|c| (c[0], c[1], c[2])).collect()
}

/// Every position of the box where all observations agree, found directly.
fn brute_force(mode: SeedMode, o: &Obs, xs: (i32, i32), ys: (i32, i32), zs: (i32, i32)) -> Vec<(i32, i32, i32)> {
    let mut out = Vec::new();
    for y in ys.0..=ys.1 {
        for z in zs.0..=zs.1 {
            for x in xs.0..=xs.1 {
                let ok = (0..o.dx.len()).all(|i| {
                    let p = packed_direct(mode, x + o.dx[i], y + o.dy[i], z + o.dz[i]);
                    p & o.mask[i] == o.packed[i] & o.mask[i] & 0x0fff
                });
                if ok {
                    out.push((x, y, z));
                }
            }
        }
    }
    out
}

const REL: [(i32, i32, i32); 4] = [(0, 0, 0), (-5, 0, -3), (2, 1, 4), (1, -1, 0)];

#[test]
fn strict_scan_finds_the_observed_position_pre_1_8() {
    let mode = SeedMode::Pre1_8;
    let o = observe(mode, 10, 64, -7, &REL);
    let r = scan_strict_box_seed(&o.dx, &o.dy, &o.dz, &o.packed, &o.mask, &o.drip, SEED_PRE_1_8, 0, 20, 60, 70, -15, 0, 100)
        .unwrap();
    let found = triples(&r);
    assert!(found.contains(&(10, 64, -7)));
    let mut expected = brute_force(mode, &o, (0, 20), (60, 70), (-15, 0));
    let mut got = found.clone();
    expected.sort_unstable();
    got.sort_unstable();
    assert_eq!(got, expected);
}

#[test]
fn strict_scan_with_prefilter_lists_z_then_x_then_y() {
    let mode = SeedMode::Pre1_8;
    // One exact sample matches at many positions: the order shows the walk.
    let o = observe(mode, 3, 64, 2, &[(0, 0, 0)]);
    let mut o2 = o;
    o2.mask = vec![0x000f];
    let r = scan_strict_box_seed(&o2.dx, &o2.dy, &o2.dz, &o2.packed, &o2.mask, &o2.drip, SEED_PRE_1_8, 0, 7, 60, 67, 0, 7, 10_000)
        .unwrap();
    let found = triples(&r);
    // Without a full-mask sample the prefilter does not apply: y, then z, then x.
    let mut sorted = found.clone();
    sorted.sort_by_key(|&(x, y, z)| (y, z, x));
    assert_eq!(found, sorted);

    let full = observe(mode, 3, 64, 2, &[(0, 0, 0), (1, 0, 0)]);
    let mut full2 = full;
    full2.mask = vec![0x0fff, 0x0000];
    let r = scan_strict_box_seed(
        &full2.dx, &full2.dy, &full2.dz, &full2.packed, &full2.mask, &full2.drip, SEED_PRE_1_8, -40, 40, 60, 67, -40, 40, 10_000,
    )
    .unwrap();
    let found = triples(&r);
    assert!(found.contains(&(3, 64, 2)));
    let mut sorted = found.clone();
    sorted.sort_by_key(|&(x, y, z)| (z, x, y));
    assert_eq!(found, sorted);
}

#[test]
fn strict_scan_finds_the_observed_position_tb3() {
    let mode = SeedMode::Beta16Tb3;
    let o = observe(mode, -4, 70, 9, &REL);
    let r = scan_strict_box_seed(&o.dx, &o.dy, &o.dz, &o.packed, &o.mask, &o.drip, SEED_B1_6_TB3, -10, 0, 65, 75, 0, 15, 100)
        .unwrap();
    let found = triples(&r);
    assert!(found.contains(&(-4, 70, 9)));
    assert_eq!(found, brute_force(mode, &o, (-10, 0), (65, 75), (0, 15)));
}

#[test]
fn post_1_8_scan_reports_only_the_lowest_height() {
    let mode = SeedMode::Post1_8;
    let o = observe(mode, 5, 64, 5, &REL);
    let r = scan_strict_box_seed(&o.dx, &o.dy, &o.dz, &o.packed, &o.mask, &o.drip, SEED_POST_1_8, 0, 10, 60, 70, 0, 10, 100)
        .unwrap();
    let found = triples(&r);
    assert!(found.contains(&(5, 60, 5)));
    assert!(found.iter().all(|&(_, y, _)| y == 60));
    assert_eq!(found, brute_force(mode, &o, (0, 10), (60, 60), (0, 10)));
}

#[test]
fn legacy_flag_selects_the_mode() {
    let o = observe(SeedMode::Post1_8, 5, 64, 5, &REL);
    let a = scan_strict_box(&o.dx, &o.dy, &o.dz, &o.packed, &o.mask, &o.drip, true, 0, 10, 60, 70, 0, 10, 100);
    let b = scan_strict_box_seed(&o.dx, &o.dy, &o.dz, &o.packed, &o.mask, &o.drip, SEED_POST_1_8, 0, 10, 60, 70, 0, 10, 100);
    assert_eq!(a, b);
    let p = observe(SeedMode::Pre1_8, 5, 64, 5, &REL);
    let a = scan_strict_box(&p.dx, &p.dy, &p.dz, &p.packed, &p.mask, &p.drip, false, 0, 10, 60, 70, 0, 10, 100);
    let b = scan_strict_box_seed(&p.dx, &p.dy, &p.dz, &p.packed, &p.mask, &p.drip, SEED_PRE_1_8, 0, 10, 60, 70, 0, 10, 100);
    assert_eq!(a, b);
    let a = scan_scored_box(&p.dx, &p.dy, &p.dz, &p.packed, &p.mask, &p.drip, false, 0, 10, 60, 70, 0, 10, 100, 0, 0);
    let b = scan_scored_box_seed(&p.dx, &p.dy, &p.dz, &p.packed, &p.mask, &p.drip, SEED_PRE_1_8, 0, 10, 60, 70, 0, 10, 100, 0, 0);
    assert_eq!(a, b);
}

#[test]
fn max_matches_cuts_the_result() {
    let mode = SeedMode::Pre1_8;
    let mut o = observe(mode, 3, 64, 2, &[(0, 0, 0)]);
    o.mask = vec![0x0003];
    let all = scan_strict_box_seed(&o.dx, &o.dy, &o.dz, &o.packed, &o.mask, &o.drip, SEED_PRE_1_8, 0, 9, 60, 61, 0, 9, 1000)
        .unwrap();
    assert!(all.len() > 9);
    for m in [1u32, 2, 3] {
        let part = scan_strict_box_seed(&o.dx, &o.dy, &o.dz, &o.packed, &o.mask, &o.drip, SEED_PRE_1_8, 0, 9, 60, 61, 0, 9, m)
            .unwrap();
        assert_eq!(part.len(), 3 * m as usize);
        assert_eq!(&part[..], &all[..part.len()]);
    }
    let none = scan_strict_box_seed(&o.dx, &o.dy, &o.dz, &o.packed, &o.mask, &o.drip, SEED_PRE_1_8, 0, 9, 60, 61, 0, 9, 0)
        .unwrap();
    assert!(none.is_empty());
}

#[test]
fn strict_errors() {
    let o = observe(SeedMode::Pre1_8, 0, 0, 0, &REL);
    let r = scan_strict_box_seed(&o.dx, &o.dy, &o.dz, &o.packed, &o.mask, &o.drip, 3, 0, 1, 0, 1, 0, 1, 10);
    assert_eq!(r, Err(ScanError::UnknownSeedMode));
    let r = scan_strict_box_seed(&o.dx, &o.dy, &o.dz, &o.packed, &o.mask, &o.drip, SEED_PRE_1_8, 2, 1, 0, 1, 0, 1, 10);
    assert_eq!(r, Err(ScanError::InvalidBounds));
    let r = scan_strict_box_seed(&o.dx, &o.dy, &o.dz, &o.packed, &o.mask, &o.drip[..1], SEED_PRE_1_8, 0, 1, 0, 1, 0, 1, 10);
    assert_eq!(r, Err(ScanError::LengthMismatch));
    // Bounds are checked before lengths, and no matches asked for means no work.
    let r = scan_strict_box_seed(&o.dx, &o.dy, &o.dz, &o.packed, &o.mask, &o.drip[..1], SEED_PRE_1_8, 0, 1, 0, 1, 5, 1, 10);
    assert_eq!(r, Err(ScanError::InvalidBounds));
    let r = scan_strict_box_seed(&o.dx, &o.dy, &o.dz, &o.packed, &o.mask, &o.drip[..1], SEED_PRE_1_8, 0, 1, 0, 1, 0, 1, 0);
    assert_eq!(r, Ok(vec![]));
}

#[test]
fn scored_errors() {
    let o = observe(SeedMode::Pre1_8, 0, 0, 0, &REL);
    let r = scan_scored_box_seed(&o.dx, &o.dy, &o.dz, &o.packed, &o.mask, &o.drip, 9, 0, 1, 0, 1, 0, 1, 10, 0, 0);
    assert_eq!(r, Err(ScanError::UnknownSeedMode));
    let r = scan_scored_box_seed(&o.dx, &o.dy, &o.dz, &o.packed, &o.mask, &o.drip, SEED_PRE_1_8, 0, 1, 0, -1, 0, 1, 10, 0, 0);
    assert_eq!(r, Err(ScanError::InvalidBounds));
    // Lengths are checked before bounds.
    let r = scan_scored_box_seed(&o.dx[..2], &o.dy, &o.dz, &o.packed, &o.mask, &o.drip, SEED_PRE_1_8, 0, 1, 0, -1, 0, 1, 10, 0, 0);
    assert_eq!(r, Err(ScanError::LengthMismatch));
    let r = scan_scored_box_seed(&o.dx[..2], &o.dy, &o.dz, &o.packed, &o.mask, &o.drip, SEED_PRE_1_8, 0, 1, 0, 1, 0, 1, 0, 0, 0);
    assert_eq!(r, Err(ScanError::LengthMismatch));
    let r = scan_scored_box_seed(&o.dx, &o.dy, &o.dz, &o.packed, &o.mask, &o.drip, SEED_PRE_1_8, 0, 1, 0, 1, 0, 1, 0, 0, 0);
    assert_eq!(r, Ok(vec![]));
}

#[test]
fn error_messages() {
    assert_eq!(ScanError::UnknownSeedMode.message(), "Unknown seed mode.");
    assert_eq!(ScanError::LengthMismatch.message(), "Input arrays must have the same length.");
    assert_eq!(ScanError::InvalidBounds.message(), "Invalid bounds (min > max).");
}

#[test]
fn seed_mode_codes() {
    assert_eq!(SeedMode::from_code(0), Ok(SeedMode::Post1_8));
    assert_eq!(SeedMode::from_code(1), Ok(SeedMode::Pre1_8));
    assert_eq!(SeedMode::from_code(2), Ok(SeedMode::Beta16Tb3));
    assert_eq!(SeedMode::from_code(3), Err(ScanError::UnknownSeedMode));
    assert_eq!(SeedMode::from_code(255), Err(ScanError::UnknownSeedMode));
    assert_eq!(SeedMode::from_legacy_post_flag(true), SeedMode::Post1_8);
    assert_eq!(SeedMode::from_legacy_post_flag(false), SeedMode::Pre1_8);
    assert!(SeedMode::Post1_8.ignores_y());
    assert!(!SeedMode::Pre1_8.ignores_y());
    assert!(!SeedMode::Beta16Tb3.ignores_y());
}

#[test]
fn scored_scan_gives_zero_at_the_observed_position() {
    let mode = SeedMode::Pre1_8;
    let o = observe(mode, 10, 64, -7, &REL);
    let r = scan_scored_box_seed(&o.dx, &o.dy, &o.dz, &o.packed, &o.mask, &o.drip, SEED_PRE_1_8, 5, 15, 62, 66, -10, -4, 1000, 0, 0)
        .unwrap();
    assert_eq!(r.len() % 4, 0);
    let recs: Vec<(i32, i32, i32, i32)> = r.chunks(4).map(|c| (c[0], c[1], c[2], c[3])).collect();
    assert!(recs.contains(&(10, 64, -7, 0)));
    // With max_score 0 every reported candidate scores 0, in y, z, x order.
    assert!(recs.iter().all(|&(_, _, _, s)| s == 0));
    let mut sorted = recs.clone();
    sorted.sort_by_key(|&(x, y, z, _)| (y, z, x));
    assert_eq!(recs, sorted);
}

#[test]
fn scored_scan_scores_every_candidate_with_a_high_limit() {
    let mode = SeedMode::Pre1_8;
    let o = observe(mode, 1, 64, 1, &REL);
    let r = scan_scored_box_seed(&o.dx, &o.dy, &o.dz, &o.packed, &o.mask, &o.drip, SEED_PRE_1_8, 0, 2, 63, 65, 0, 2, 1000, 0, i32::MAX)
        .unwrap();
    // 3 x 3 x 3 candidates, each reported with its score.
    assert_eq!(r.len(), 27 * 4);
    let recs: Vec<(i32, i32, i32, i32)> = r.chunks(4).map(|c| (c[0], c[1], c[2], c[3])).collect();
    assert!(recs.contains(&(1, 64, 1, 0)));
    assert!(recs.iter().all(|&(_, _, _, s)| s >= 0));
    assert!(recs.iter().any(|&(_, _, _, s)| s > 0));
}

#[test]
fn plan_scans_agree_with_one_shot_scans() {
    for (code, mode) in [(SEED_POST_1_8, SeedMode::Post1_8), (SEED_PRE_1_8, SeedMode::Pre1_8), (SEED_B1_6_TB3, SeedMode::Beta16Tb3)] {
        let o = observe(mode, 10, 64, -7, &REL);
        let mut plan = ScanPlan::new(&o.dx, &o.dy, &o.dz, &o.packed, &o.mask, &o.drip, code).unwrap();
        for (y0, y1) in [(60, 70), (60, 70), (62, 66), (60, 70)] {
            let a = plan.scan_strict_box(0, 20, y0, y1, -15, 0, 100);
            let b = scan_strict_box_seed(&o.dx, &o.dy, &o.dz, &o.packed, &o.mask, &o.drip, code, 0, 20, y0, y1, -15, 0, 100);
            assert_eq!(a, b);
            assert!(triples(&a.unwrap()).iter().any(|&(x, _, z)| x == 10 && z == -7));
        }
        let a = plan.scan_scored_box(5, 15, 62, 66, -10, -4, 1000, 1, 2);
        let b = scan_scored_box_seed(&o.dx, &o.dy, &o.dz, &o.packed, &o.mask, &o.drip, code, 5, 15, 62, 66, -10, -4, 1000, 1, 2);
        assert_eq!(a, b);
        assert_eq!(plan.scan_strict_box(1, 0, 0, 0, 0, 0, 5), Err(ScanError::InvalidBounds));
    }
}

#[test]
fn plan_errors() {
    let o = observe(SeedMode::Pre1_8, 0, 0, 0, &REL);
    assert!(matches!(
        ScanPlan::new(&o.dx, &o.dy, &o.dz, &o.packed, &o.mask, &o.drip, 4),
        Err(ScanError::UnknownSeedMode)
    ));
    assert!(matches!(
        ScanPlan::new(&o.dx, &o.dy[..1], &o.dz, &o.packed, &o.mask, &o.drip, 1),
        Err(ScanError::LengthMismatch)
    ));
}

#[test]
fn dripstone_samples_match_by_thirds() {
    let mode = SeedMode::Pre1_8;
    let (x, y, z) = (4, 64, 4);
    let truth = packed_direct(mode, x, y, z);
    // A dripstone observation: x and z nibbles only known up to their third.
    let coarse = |n: u16| if n <= 3 { 0 } else if n >= 12 { 15 } else { n };
    let seen = coarse(truth & 0xf) | (truth & 0xf0) | (coarse((truth >> 8) & 0xf) << 8);
    let r = scan_strict_box_seed(&[0], &[0], &[0], &[seen], &[0x0fff], &[1], SEED_PRE_1_8, 0, 8, 60, 68, 0, 8, 1000)
        .unwrap();
    assert!(triples(&r).contains(&(x, y, z)));
}

#[test]
fn strict_matches_are_the_zero_score_positions() {
    for (code, mode) in [(SEED_POST_1_8, SeedMode::Post1_8), (SEED_PRE_1_8, SeedMode::Pre1_8), (SEED_B1_6_TB3, SeedMode::Beta16Tb3)] {
        let mut o = observe(mode, 2, 64, 3, &[(0, 0, 0), (1, 0, 0)]);
        // Whole-nibble masks: the y nibble of the first, x and z of the second.
        o.mask = vec![0x00f0, 0x0f0f];
        let strict = scan_strict_box_seed(&o.dx, &o.dy, &o.dz, &o.packed, &o.mask, &o.drip, code, 0, 6, 62, 66, 0, 6, 10_000)
            .unwrap();
        let scored = scan_scored_box_seed(&o.dx, &o.dy, &o.dz, &o.packed, &o.mask, &o.drip, code, 0, 6, 62, 66, 0, 6, 10_000, 3, 0)
            .unwrap();
        let mut a = triples(&strict);
        let mut b: Vec<(i32, i32, i32)> = scored.chunks(4).map(|c| (c[0], c[1], c[2])).collect();
        assert!(scored.chunks(4).all(|c| c[3] == 0));
        a.sort_unstable();
        b.sort_unstable();
        assert!(a.contains(&(2, if code == SEED_POST_1_8 { 62 } else { 64 }, 3)));
        assert_eq!(a, b);
    }
}

#[test]
fn input_order_does_not_change_strict_scans() {
    for (code, mode) in [(SEED_POST_1_8, SeedMode::Post1_8), (SEED_PRE_1_8, SeedMode::Pre1_8), (SEED_B1_6_TB3, SeedMode::Beta16Tb3)] {
        let o = observe(mode, 10, 64, -7, &REL);
        let a = scan_strict_box_seed(&o.dx, &o.dy, &o.dz, &o.packed, &o.mask, &o.drip, code, 0, 20, 60, 70, -15, 0, 100);
        let perm = [2usize, 0, 3, 1];
        let p = |v: &Vec<i32>| perm.iter().map(|&i| v[i]).collect::<Vec<i32>>();
        let pu = |v: &Vec<u16>| perm.iter().map(|&i| v[i]).collect::<Vec<u16>>();
        let p8 = |v: &Vec<u8>| perm.iter().map(|&i| v[i]).collect::<Vec<u8>>();
        let b = scan_strict_box_seed(&p(&o.dx), &p(&o.dy), &p(&o.dz), &pu(&o.packed), &pu(&o.mask), &p8(&o.drip), code, 0, 20, 60, 70, -15, 0, 100);
        assert_eq!(a, b);
    }
}

#[test]
fn looser_scoring_keeps_every_candidate() {
    let mode = SeedMode::Pre1_8;
    let o = observe(mode, 1, 64, 1, &REL);
    let tight = scan_scored_box_seed(&o.dx, &o.dy, &o.dz, &o.packed, &o.mask, &o.drip, SEED_PRE_1_8, 0, 4, 63, 65, 0, 4, 10_000, 0, 40)
        .unwrap();
    let loose = scan_scored_box_seed(&o.dx, &o.dy, &o.dz, &o.packed, &o.mask, &o.drip, SEED_PRE_1_8, 0, 4, 63, 65, 0, 4, 10_000, 2, 60)
        .unwrap();
    let loose_recs: Vec<(i32, i32, i32, i32)> = loose.chunks(4).map(|c| (c[0], c[1], c[2], c[3])).collect();
    for c in tight.chunks(4) {
        assert!(loose_recs.iter().any(|&(x, y, z, s)| (x, y, z) == (c[0], c[1], c[2]) && s <= c[3]));
    }
    assert!(loose.len() >= tight.len());
}

#[test]
fn prefiltered_scan_cut_has_plain_length() {
    let mode = SeedMode::Pre1_8;
    let mut o = observe(mode, 3, 64, 2, &[(0, 0, 0), (1, 0, 0)]);
    o.mask = vec![0x0fff, 0x0000];
    for m in [1u32, 2, 5, 1000] {
        let r = scan_strict_box_seed(&o.dx, &o.dy, &o.dz, &o.packed, &o.mask, &o.drip, SEED_PRE_1_8, -40, 40, 60, 67, -40, 40, m)
            .unwrap();
        let mut o2 = observe(mode, 3, 64, 2, &[(0, 0, 0), (1, 0, 0)]);
        // The same matches without a full-mask sample, so with no prefilter.
        o2.mask = vec![0x0fff, 0x0000];
        let plain = grassfinder_wasm::scan::scan_strict_prepared(
            mode,
            &grassfinder_wasm::sample::make_samples(&o2.dx, &o2.dy, &o2.dz, &o2.packed, &o2.mask, &o2.drip, mode).unwrap(),
            -40, 40, 60, 67, -40, 40, m,
        )
        .unwrap();
        assert_eq!(r.len(), plain.len());
    }
}
