//! The 12-bit offset hash shared by every seed mode.
//!
//! Minecraft derives a block's random model offset from a 64-bit hash
//! `l = seed * seed * LCG_MULT + seed * LCG_ADDEND`; the offset nibbles are
//! bits 16..27 of `l`.  Those bits depend only on the low 28 bits of `seed`,
//! so the library works on 32-bit values throughout.
use vstd::prelude::*;
use vstd::arithmetic::div_mod::*;

verus! {

pub const X_MULT: u32 = 3129871;
pub const Z_MULT_VANILLA: u32 = 116129781;
pub const Z_MULT_TB3: u32 = 6129781;
pub const LCG_MULT: u32 = 42317861;
pub const LCG_ADDEND: u32 = 11;
pub const MIX_INPUT_MASK: u32 = 0x0fff_ffff;
pub const MIX_OUTPUT_MASK: u32 = 0x0fff;
pub const MIX_LOW_BITS: u32 = 16;
pub const MIX_HIGH_BITS: u32 = 12;
pub const MIX_LOW_COUNT: u32 = 0x1_0000;
pub const MIX_HIGH_MASK: u32 = 0x0fff;

/// `2^32`, the modulus of all seed arithmetic.
pub open spec fn pow32() -> int {
    0x1_0000_0000
}

/// `2^28`: the hash output only depends on the seed modulo this value.
pub open spec fn pow28() -> int {
    0x1000_0000
}

/// The 32-bit value congruent to `v` modulo `2^32`.
pub open spec fn wrap32(v: int) -> u32 {
    (v % pow32()) as u32
}

/// The full-precision polynomial whose bits 16..27 are the offset hash.
#[verifier::opaque]
pub open spec fn mix_poly(v: int) -> int {
    LCG_MULT * v * v + LCG_ADDEND * v
}

/// Bits 16..27 of `mix_poly(v)`, for any integer `v` (two's complement view
/// for negative values).
#[verifier::opaque]
pub open spec fn mix_of(v: int) -> int {
    (mix_poly(v) / 65536) % 4096
}

/// The 12-bit offset hash of a 32-bit seed.
pub open spec fn mix_spec(s: u32) -> u16 {
    mix_of(s as int) as u16
}

pub proof fn lemma_mix_of_range(v: int)
    ensures
        0 <= mix_of(v) < 4096,
{
    reveal(mix_of);
}

/// `u32` masking and shifting in terms of division and remainder.
pub proof fn lemma_u32_shr16_mask12(v: u32)
    ensures
        (v >> 16u32) & 0xfffu32 == (v as int / 65536) % 4096,
        v & 0xfffu32 == v as int % 4096,
        v & 0xffffu32 == v as int % 65536,
        v >> 16u32 == v as int / 65536,
        v & 0x0fff_ffffu32 == v as int % 0x1000_0000,
{
    assert((v >> 16u32) & 0xfffu32 == (v / 65536) % 4096) by (bit_vector);
    assert(v & 0xfffu32 == v % 4096) by (bit_vector);
    assert(v & 0xffffu32 == v % 65536) by (bit_vector);
    assert(v >> 16u32 == v / 65536) by (bit_vector);
    assert(v & 0x0fff_ffffu32 == v % 0x1000_0000) by (bit_vector);
}

/// Bits 16..27 of a value reduced modulo `2^32` are those of the value itself.
pub proof fn lemma_bits_16_28_of_reduced(v: int, m: int)
    requires
        m > 0,
        (m % pow28()) == 0,
    ensures
        ((v % m) / 65536) % 4096 == (v / 65536) % 4096,
{
    let q = v / m;
    let r = v % m;
    lemma_fundamental_div_mod(v, m);
    let k = m / pow28();
    lemma_fundamental_div_mod(m, pow28());
    assert(v == r + (q * k * 4096) * 65536) by (nonlinear_arith)
        requires
            v == m * q + r,
            m == pow28() * k + 0,
            pow28() == 4096 * 65536,
    ;
    lemma_hoist_over_denominator(r, q * k * 4096, 65536);
    assert(v / 65536 == 4096 * (q * k) + r / 65536) by (nonlinear_arith)
        requires
            r / 65536 + q * k * 4096 == (r + q * k * 4096 * 65536) / 65536,
            v == r + (q * k * 4096) * 65536,
    ;
    lemma_mod_multiples_vanish(q * k, r / 65536, 4096);
}

/// `mix_poly` modulo `2^28` only depends on its argument modulo `2^28`.
proof fn lemma_mix_poly_mod28(v: int)
    ensures
        mix_poly(v) % pow28() == mix_poly(v % pow28()) % pow28(),
{
    let a = v / pow28();
    let w = v % pow28();
    lemma_fundamental_div_mod(v, pow28());
    let k = LCG_MULT * (pow28() * a * a + 2 * a * w) + LCG_ADDEND * a;
    reveal(mix_poly);
    assert(mix_poly(v) == pow28() * k + mix_poly(w)) by (nonlinear_arith)
        requires
            v == pow28() * a + w,
            k == LCG_MULT * (pow28() * a * a + 2 * a * w) + LCG_ADDEND * a,
            mix_poly(v) == LCG_MULT * v * v + LCG_ADDEND * v,
            mix_poly(w) == LCG_MULT * w * w + LCG_ADDEND * w,
    ;
    lemma_mod_multiples_vanish(k, mix_poly(w), pow28());
}

/// The offset hash depends only on the low 28 bits of its argument: the
/// result for a full 64-bit (or any integer) hash input equals the result
/// for its low 32 bits, and for its low 28 bits.
pub proof fn lemma_mix_depends_on_low_28_bits(v: int)
    ensures
        mix_of(v) == mix_of(v % pow28()),
        mix_of(v) == mix_of(v % pow32()),
        mix_of(v) == mix_spec(wrap32(v)) as int,
{
    reveal(mix_of);
    lemma_bits_16_28_of_reduced(mix_poly(v), pow28());
    lemma_bits_16_28_of_reduced(mix_poly(v % pow28()), pow28());
    lemma_mix_poly_mod28(v);
    let w = v % pow32();
    lemma_mix_poly_mod28(w);
    lemma_mod_mod(v, pow28(), 16);
    assert(w % pow28() == v % pow28());
    lemma_mix_of_range(w);
}

/// Exact value of the 32-bit wrapping subtraction.
pub proof fn lemma_wrapping_sub_u32(x: u32, y: u32)
    ensures
        vstd::wrapping::u32_specs::wrapping_sub(x, y) as int == (x - y) % pow32(),
{
    if x - y < 0 {
        lemma_mod_add_multiples_vanish(x - y, pow32());
        lemma_small_mod((x - y + pow32()) as nat, pow32() as nat);
    } else {
        lemma_small_mod((x - y) as nat, pow32() as nat);
    }
}

/// Exact value of the 32-bit wrapping addition.
pub proof fn lemma_wrapping_add_u32(x: u32, y: u32)
    ensures
        vstd::wrapping::u32_specs::wrapping_add(x, y) as int == (x + y) % pow32(),
{
    if x + y > u32::MAX {
        lemma_mod_sub_multiples_vanish(x + y, pow32());
        lemma_small_mod((x + y - pow32()) as nat, pow32() as nat);
    } else {
        lemma_small_mod((x + y) as nat, pow32() as nat);
    }
}

/// Bits 16..27 of Minecraft's hash, computed with 32-bit wrapping arithmetic.
pub fn mix_low_12(seed_low: u32) -> (r: u16)
    ensures
        r == mix_spec(seed_low),
        r < 4096,
{
    let sq = seed_low.wrapping_mul(seed_low);
    let scaled = sq.wrapping_mul(LCG_MULT);
    let lin = seed_low.wrapping_mul(LCG_ADDEND);
    let mixed = scaled.wrapping_add(lin);
    proof {
        let s = seed_low as int;
        let p = pow32();
        lemma_mul_mod_noop_left(s * s, LCG_MULT as int, p);
        assert(scaled as int == (s * s * LCG_MULT) % p);
        assert(lin as int == (s * LCG_ADDEND) % p);
        lemma_wrapping_add_u32(scaled, lin);
        lemma_add_mod_noop(s * s * LCG_MULT, s * LCG_ADDEND, p);
        assert(s * s * LCG_MULT + s * LCG_ADDEND == mix_poly(s)) by {
            reveal(mix_poly);
            assert(s * s * LCG_MULT + s * LCG_ADDEND == LCG_MULT * s * s + LCG_ADDEND * s)
                by (nonlinear_arith);
        }
        assert(mixed as int == mix_poly(s) % p);
        lemma_bits_16_28_of_reduced(mix_poly(s), p);
        lemma_u32_shr16_mask12(mixed);
        reveal(mix_of);
    }
    ((mixed >> 16) & 0x0fff) as u16
}

} // verus!
