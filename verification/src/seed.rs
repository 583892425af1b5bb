//! Seed modes and the per-block hash seed.
use vstd::prelude::*;
use vstd::arithmetic::div_mod::*;
use crate::mix::{X_MULT, Z_MULT_VANILLA, Z_MULT_TB3, pow32, wrap32, mix_spec, lemma_wrapping_add_u32};

verus! {

pub const SEED_POST_1_8: u8 = 0;
pub const SEED_PRE_1_8: u8 = 1;
pub const SEED_B1_6_TB3: u8 = 2;

/// The errors the scans report to their callers.
#[derive(Clone, Copy, Debug, PartialEq, Eq, Structural)]
pub enum ScanError {
    /// The seed-mode code is not one of the three known codes.
    UnknownSeedMode,
    /// The six per-sample input arrays differ in length.
    LengthMismatch,
    /// A box bound has its minimum above its maximum.
    InvalidBounds,
}

impl ScanError {
    /// The message text reported to the caller.
    pub fn message(&self) -> (r: &'static str)
        ensures
            *self == ScanError::UnknownSeedMode ==> r@ == "Unknown seed mode."@,
            *self == ScanError::LengthMismatch ==> r@ == "Input arrays must have the same length."@,
            *self == ScanError::InvalidBounds ==> r@ == "Invalid bounds (min > max)."@,
    {
        match self {
            ScanError::UnknownSeedMode => "Unknown seed mode.",
            ScanError::LengthMismatch => "Input arrays must have the same length.",
            ScanError::InvalidBounds => "Invalid bounds (min > max).",
        }
    }
}

#[derive(Clone, Copy, Debug, PartialEq, Eq, Structural)]
pub enum SeedMode {
    /// 1.8+ block-model random offset: X/Z only, same offset at every Y.
    Post1_8,
    /// 1.7.10-style foliage random offset: X/Y/Z all affect the hash.
    Pre1_8,
    /// b1.6-tb3 RenderBlocks seed: x * 3129871 + z * 6129781 + y.
    Beta16Tb3,
}

/// The mode a numeric code stands for.
pub open spec fn mode_of_code(code: u8) -> Option<SeedMode> {
    if code == SEED_POST_1_8 {
        Some(SeedMode::Post1_8)
    } else if code == SEED_PRE_1_8 {
        Some(SeedMode::Pre1_8)
    } else if code == SEED_B1_6_TB3 {
        Some(SeedMode::Beta16Tb3)
    } else {
        None
    }
}

/// The mode that the specialised (`const`-generic) scan code for `code`
/// computes: codes other than the 1.8+ and b1.6-tb3 codes behave as 1.7.10.
pub open spec fn code_mode(code: u8) -> SeedMode {
    if code == SEED_POST_1_8 {
        SeedMode::Post1_8
    } else if code == SEED_B1_6_TB3 {
        SeedMode::Beta16Tb3
    } else {
        SeedMode::Pre1_8
    }
}

/// The z multiplier of a mode.
pub open spec fn z_mult(mode: SeedMode) -> u32 {
    match mode {
        SeedMode::Beta16Tb3 => Z_MULT_TB3,
        _ => Z_MULT_VANILLA,
    }
}

/// The x contribution to the hash seed of a block at `x`.
pub open spec fn x_seed_of(x: int) -> u32 {
    wrap32(x * X_MULT)
}

/// The z contribution to the hash seed of a block at `z`.
pub open spec fn z_seed_of(mode: SeedMode, z: int) -> u32 {
    wrap32(z * z_mult(mode))
}

/// How a mode combines the x, y and z parts of the seed.
pub open spec fn combine_parts(mode: SeedMode, xp: u32, yp: u32, zp: u32) -> u32 {
    match mode {
        SeedMode::Post1_8 => xp ^ zp,
        SeedMode::Pre1_8 => xp ^ zp ^ yp,
        SeedMode::Beta16Tb3 => wrap32(xp + zp + yp),
    }
}

/// The 32-bit hash seed of the block at `(x, y, z)`.
pub open spec fn block_seed(mode: SeedMode, x: int, y: int, z: int) -> u32 {
    combine_parts(mode, x_seed_of(x), wrap32(y), z_seed_of(mode, z))
}

/// The packed 12-bit offset (`x` nibble, `y` nibble, `z` nibble from low to
/// high) of the block at `(x, y, z)`.
pub open spec fn block_offset(mode: SeedMode, x: int, y: int, z: int) -> u16 {
    mix_spec(block_seed(mode, x, y, z))
}

impl SeedMode {
    pub fn from_code(code: u8) -> (r: Result<SeedMode, ScanError>)
        ensures
            r == (match mode_of_code(code) {
                Some(m) => Ok(m),
                None => Err(ScanError::UnknownSeedMode),
            }),
    {
        if code == SEED_POST_1_8 {
            Ok(SeedMode::Post1_8)
        } else if code == SEED_PRE_1_8 {
            Ok(SeedMode::Pre1_8)
        } else if code == SEED_B1_6_TB3 {
            Ok(SeedMode::Beta16Tb3)
        } else {
            Err(ScanError::UnknownSeedMode)
        }
    }

    pub fn from_legacy_post_flag(post1_12_any_y: bool) -> (r: SeedMode)
        ensures
            r == (if post1_12_any_y { SeedMode::Post1_8 } else { SeedMode::Pre1_8 }),
    {
        if post1_12_any_y {
            SeedMode::Post1_8
        } else {
            SeedMode::Pre1_8
        }
    }

    pub fn ignores_y(self) -> (r: bool)
        ensures
            r == (self == SeedMode::Post1_8),
    {
        match self {
            SeedMode::Post1_8 => true,
            _ => false,
        }
    }

    pub fn z_multiplier(self) -> (r: u32)
        ensures
            r == z_mult(self),
    {
        match self {
            SeedMode::Beta16Tb3 => Z_MULT_TB3,
            SeedMode::Post1_8 | SeedMode::Pre1_8 => Z_MULT_VANILLA,
        }
    }
}

/// An `i32` reinterpreted as `u32` is its value modulo `2^32`.
pub proof fn lemma_i32_as_u32(x: i32)
    ensures
        (x as u32) as int == (x as int) % pow32(),
{
    if x >= 0 {
        lemma_small_mod(x as nat, pow32() as nat);
    } else {
        assert((x as u32) as int == x as int + 0x1_0000_0000) by (bit_vector)
            requires
                x < 0i32,
        ;
        lemma_mod_add_multiples_vanish(x as int, pow32());
        lemma_small_mod((x + pow32()) as nat, pow32() as nat);
    }
}

/// The `i32` wrapping sum, reinterpreted as `u32`, is the sum modulo `2^32`.
pub proof fn lemma_i32_wrapping_add_as_u32(x: i32, y: i32)
    ensures
        (vstd::wrapping::i32_specs::wrapping_add(x, y) as u32) as int == (x + y) % pow32(),
{
    let w = vstd::wrapping::i32_specs::wrapping_add(x, y);
    lemma_i32_as_u32(w);
    if x + y > i32::MAX {
        lemma_mod_sub_multiples_vanish(x + y, pow32());
    } else if x + y < i32::MIN {
        lemma_mod_add_multiples_vanish(x + y, pow32());
    }
}

/// The 32-bit wrapping sum is `wrap32` of the sum.
pub proof fn lemma_wrapping_add_u32_is_wrap(x: u32, y: u32)
    ensures
        vstd::wrapping::u32_specs::wrapping_add(x, y) == wrap32(x + y),
{
    lemma_wrapping_add_u32(x, y);
}

/// `wrap32` of a sum only depends on the summands modulo `2^32`.
pub proof fn lemma_wrap32_add(a: int, b: int)
    ensures
        wrap32(wrap32(a) + wrap32(b)) == wrap32(a + b),
{
    lemma_add_mod_noop(a, b, pow32());
}

/// `wrap32` of a multiple of `x` only depends on `x` modulo `2^32`.
pub proof fn lemma_wrap32_mul(x: int, m: int)
    ensures
        wrap32((x % pow32()) * m) == wrap32(x * m),
{
    lemma_mul_mod_noop_left(x, m, pow32());
}

/// The seed of a block at `x` from an `i32` coordinate, as the scans compute it.
pub proof fn lemma_seed_of_i32(x: i32, m: u32)
    ensures
        vstd::wrapping::u32_specs::wrapping_mul(x as u32, m) == wrap32(x * m),
{
    lemma_i32_as_u32(x);
    lemma_wrap32_mul(x as int, m as int);
}

/// Advancing a coordinate by one advances its seed part by the multiplier.
pub proof fn lemma_seed_step(x: int, m: u32, s: u32)
    requires
        s == wrap32(x * m),
    ensures
        vstd::wrapping::u32_specs::wrapping_add(s, m) == wrap32((x + 1) * m),
{
    lemma_wrapping_add_u32(s, m);
    lemma_small_mod(m as nat, pow32() as nat);
    lemma_wrap32_add(x * m, m as int);
    assert((x + 1) * m == x * m + m) by (nonlinear_arith);
}

/// `wrap32` of a three-term sum only depends on the terms modulo `2^32`.
pub proof fn lemma_wrap32_add3(a: int, b: int, c: int)
    ensures
        wrap32(wrap32(a) + wrap32(b) + wrap32(c)) == wrap32(a + b + c),
{
    lemma_add_mod_noop(a, b, pow32());
    lemma_add_mod_noop(a + b, c, pow32());
    lemma_add_mod_noop(wrap32(a) + wrap32(b), c, pow32());
    lemma_small_mod(wrap32(a) as nat, pow32() as nat);
    lemma_small_mod(wrap32(b) as nat, pow32() as nat);
    lemma_small_mod(wrap32(c) as nat, pow32() as nat);
    lemma_add_mod_noop(wrap32(a) + wrap32(b), wrap32(c) as int, pow32());
}

/// Combining parts given modulo `2^32` gives the seed of the block at the
/// summed coordinates.
pub proof fn lemma_parts_are_block_seed(mode: SeedMode, x: int, dx: int, y: int, dy: int, z: int, dz: int)
    ensures
        combine_parts(
            mode,
            wrap32(x_seed_of(x) + x_seed_of(dx)),
            wrap32(y + dy),
            wrap32(z_seed_of(mode, z) + z_seed_of(mode, dz)),
        ) == block_seed(mode, x + dx, y + dy, z + dz),
{
    lemma_wrap32_add(x * X_MULT, dx * X_MULT);
    assert(x * X_MULT + dx * X_MULT == (x + dx) * X_MULT) by (nonlinear_arith);
    lemma_wrap32_add(z * z_mult(mode), dz * z_mult(mode));
    assert(z * z_mult(mode) + dz * z_mult(mode) == (z + dz) * z_mult(mode)) by (nonlinear_arith);
    if mode == SeedMode::Beta16Tb3 {
        let a = (x + dx) * X_MULT;
        let b = (z + dz) * z_mult(mode);
        let c = y + dy;
        lemma_wrap32_add3(a, b, c);
        lemma_wrap32_add3(a, b, c);
        lemma_small_mod(wrap32(a) as nat, pow32() as nat);
        lemma_small_mod(wrap32(b) as nat, pow32() as nat);
        lemma_small_mod(wrap32(c) as nat, pow32() as nat);
        assert(wrap32(wrap32(a) as int) == wrap32(a));
        assert(wrap32(wrap32(b) as int) == wrap32(b));
        assert(wrap32(wrap32(c) as int) == wrap32(c));
        lemma_wrap32_add3(wrap32(a) as int, wrap32(b) as int, wrap32(c) as int);
    }
}

} // verus!
