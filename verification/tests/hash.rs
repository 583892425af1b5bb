use grassfinder_wasm::inverse::{inv_odd_mod_4096, invert_exact_mix_low_12};
use grassfinder_wasm::matching::packed_from_parts;
use grassfinder_wasm::mix::{mix_low_12, MIX_INPUT_MASK, X_MULT, Z_MULT_TB3, Z_MULT_VANILLA};
use grassfinder_wasm::sample::Sample;
use grassfinder_wasm::seed::SeedMode;

fn vanilla_i64_reference(x: i32, y: i32, z: i32, ignore_y: bool) -> u16 {
    let yy = if ignore_y { 0 } else { y };
    let x_term = x.wrapping_mul(3_129_871) as i64;
    let z_term = (z as i64).wrapping_mul(116_129_781);
    let mut l = x_term ^ z_term ^ (yy as i64);
    l = l
        .wrapping_mul(l)
        .wrapping_mul(42_317_861)
        .wrapping_add(l.wrapping_mul(11));
    (((l as u64) >> 16) & 0x0fff) as u16
}

fn packed_direct(mode: SeedMode, x: i32, y: i32, z: i32) -> u16 {
    let sample = Sample::new(0, 0, 0, 0, 0x0fff, false, mode);
    packed_from_parts(
        mode,
        sample,
        (x as u32).wrapping_mul(X_MULT),
        y,
        (z as u32).wrapping_mul(mode.z_multiplier()),
    )
}

#[test]
fn low32_vanilla_matches_i64_reference() {
    let coords = [
        (0, 0, 0),
        (1, 64, 1),
        (-1, 255, -1),
        (30_000_000, -64, -30_000_000),
        (-12_345, 70, 98_765),
    ];

    for (x, y, z) in coords {
        assert_eq!(
            packed_direct(SeedMode::Post1_8, x, y, z),
            vanilla_i64_reference(x, y, z, true)
        );
        assert_eq!(
            packed_direct(SeedMode::Pre1_8, x, y, z),
            vanilla_i64_reference(x, y, z, false)
        );
    }
}

#[test]
fn post_1_8_ignores_y_but_pre_1_8_does_not() {
    let x = 1234;
    let z = -5678;
    assert_eq!(
        packed_direct(SeedMode::Post1_8, x, 10, z),
        packed_direct(SeedMode::Post1_8, x, 200, z)
    );
    assert_ne!(
        packed_direct(SeedMode::Pre1_8, x, 10, z),
        packed_direct(SeedMode::Pre1_8, x, 200, z)
    );
}

#[test]
fn tb3_uses_distinct_additive_z_multiplier() {
    let vanilla = packed_direct(SeedMode::Pre1_8, 12, 64, 34);
    let tb3 = packed_direct(SeedMode::Beta16Tb3, 12, 64, 34);
    assert_ne!(vanilla, tb3);
    assert_eq!(
        tb3,
        mix_low_12(
            (12i32 as u32)
                .wrapping_mul(X_MULT)
                .wrapping_add((34i32 as u32).wrapping_mul(Z_MULT_TB3))
                .wrapping_add(64u32)
        )
    );
}

#[test]
fn exact_mix_inverse_reconstructs_all_low16_values() {
    for target in [0x000, 0x123, 0x777, 0xfff] {
        let residues = invert_exact_mix_low_12(target);
        assert_eq!(residues.len(), 65_536);

        for &seed_low28 in &residues {
            assert_eq!(mix_low_12(seed_low28), target);
            assert_eq!(seed_low28 & !MIX_INPUT_MASK, 0);
        }
    }
}

#[test]
fn mix_low_12_known_values() {
    // 0 hashes to 0; 1 hashes to bits 16..27 of 42317861 + 11 = 42317872.
    assert_eq!(mix_low_12(0), 0);
    assert_eq!(mix_low_12(1), ((42_317_872u32 >> 16) & 0x0fff) as u16);
    assert_eq!(mix_low_12(1), 645);
}

#[test]
fn mix_low_12_ignores_bits_above_28() {
    for s in [0u32, 1, 0x0123_4567, 0x0fff_ffff, 0x00ab_cdef] {
        assert_eq!(mix_low_12(s), mix_low_12(s | 0xf000_0000));
        assert_eq!(mix_low_12(s), mix_low_12(s ^ 0x3000_0000));
    }
}

#[test]
fn mix_low_12_output_is_twelve_bits() {
    let mut s: u32 = 7;
    for _ in 0..1000 {
        s = s.wrapping_mul(1_103_515_245).wrapping_add(12_345);
        assert!(mix_low_12(s) < 4096);
    }
}

#[test]
fn inverse_entry_keeps_its_low_16_bits() {
    let residues = invert_exact_mix_low_12(0x456);
    for (i, &r) in residues.iter().enumerate() {
        assert_eq!((r & 0xffff) as usize, i);
        assert!(r < 0x1000_0000);
    }
}

#[test]
fn inverse_finds_every_seed_with_the_target_hash() {
    // Any 28-bit seed with hash `t` is the entry of its low 16 bits.
    let seeds = [0x0000_0000u32, 0x0012_3456, 0x0abc_def0, 0x0fff_ffff, 0x0800_0001];
    for s in seeds {
        let t = mix_low_12(s);
        let residues = invert_exact_mix_low_12(t);
        assert_eq!(residues[(s & 0xffff) as usize], s);
    }
}

#[test]
fn inverse_target_is_taken_modulo_4096() {
    assert_eq!(invert_exact_mix_low_12(0x1123), invert_exact_mix_low_12(0x123));
}

#[test]
fn inverse_of_odd_numbers_mod_4096() {
    assert_eq!(inv_odd_mod_4096(1), 1);
    assert_eq!(inv_odd_mod_4096(3), 2731);
    assert_eq!(inv_odd_mod_4096(4095), 4095);
    for a in (1u32..4096).step_by(2) {
        assert_eq!(a.wrapping_mul(inv_odd_mod_4096(a)) % 4096, 1);
        assert!(inv_odd_mod_4096(a) < 4096);
    }
}

#[test]
fn z_multipliers_per_mode() {
    assert_eq!(SeedMode::Post1_8.z_multiplier(), Z_MULT_VANILLA);
    assert_eq!(SeedMode::Pre1_8.z_multiplier(), Z_MULT_VANILLA);
    assert_eq!(SeedMode::Beta16Tb3.z_multiplier(), Z_MULT_TB3);
    assert_eq!(Z_MULT_VANILLA, 116_129_781);
    assert_eq!(Z_MULT_TB3, 6_129_781);
}

#[test]
fn post_1_8_offset_is_the_same_at_every_height() {
    for (x, z) in [(0, 0), (17, -3), (-100_000, 250_000)] {
        let at0 = packed_direct(SeedMode::Post1_8, x, 0, z);
        for y in [-64, 1, 63, 64, 319] {
            assert_eq!(packed_direct(SeedMode::Post1_8, x, y, z), at0);
        }
    }
}

#[test]
fn pre_1_8_seed_is_xor_of_parts() {
    let (x, y, z) = (123, 45, -67);
    let seed = (x as u32).wrapping_mul(X_MULT) ^ (z as u32).wrapping_mul(Z_MULT_VANILLA) ^ (y as u32);
    assert_eq!(packed_direct(SeedMode::Pre1_8, x, y, z), mix_low_12(seed));
}
