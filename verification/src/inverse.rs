//! Exact inversion of the offset hash.
//!
//! For `s = low16 + (high12 << 16)`, bits 16..27 of
//! `LCG_MULT*s*s + LCG_ADDEND*s` are linear in `high12` once `low16` is fixed:
//! `out = base(low16) + high12 * (LCG_ADDEND + 2*LCG_MULT*low16) (mod 4096)`.
//! The coefficient is always odd, so every `low16` has exactly one `high12`.
use vstd::prelude::*;
use vstd::arithmetic::div_mod::*;
use crate::mix::{
    LCG_ADDEND, LCG_MULT, MIX_HIGH_MASK, MIX_LOW_BITS, MIX_LOW_COUNT, MIX_OUTPUT_MASK, mix_of,
    mix_poly, mix_spec, pow28, pow32, lemma_u32_shr16_mask12, lemma_wrapping_sub_u32,
    lemma_mix_of_range,
};

verus! {

/// One Newton step towards the inverse of `a` modulo 4096.
pub open spec fn newton_next(a: int, x: int) -> int {
    (x * (2 - a * x)) % 4096
}

/// Four Newton steps from 1: the inverse of an odd `a` modulo 4096.
pub open spec fn newton_inv(a: int) -> int {
    newton_next(a, newton_next(a, newton_next(a, newton_next(a, 1))))
}

/// The modulus to which the Newton iterate is exact after `i` steps.
pub open spec fn newton_modulus(i: int) -> int {
    if i <= 0 {
        2
    } else if i == 1 {
        4
    } else if i == 2 {
        16
    } else if i == 3 {
        256
    } else {
        4096
    }
}

/// A Newton step doubles the number of exact low bits (capped at 12).
pub proof fn lemma_newton_step(a: int, x: int, m: int, n: int)
    requires
        m > 0,
        n > 1,
        (a * x) % m == 1,
        (m * m) % n == 0,
        4096int % n == 0,
    ensures
        (a * newton_next(a, x)) % n == 1,
        0 <= newton_next(a, x) < 4096,
{
    let u = a * x;
    let y = x * (2 - u);
    let x2 = newton_next(a, x);
    let k = 4096int / n;
    lemma_fundamental_div_mod(4096int, n);
    assert(n * k == 4096);
    lemma_mod_mod(y, n, k);
    assert(y % (n * k) == y % 4096);
    assert(x2 % n == y % n);
    lemma_mul_mod_noop_right(a, x2, n);
    lemma_mul_mod_noop_right(a, y, n);
    assert((a * x2) % n == (a * y) % n);
    let q = u / m;
    lemma_fundamental_div_mod(u, m);
    let k2 = (m * m) / n;
    lemma_fundamental_div_mod(m * m, n);
    assert(a * y == n * (-(k2 * q * q)) + 1) by (nonlinear_arith)
        requires
            y == x * (2 - u),
            u == a * x,
            u == m * q + 1,
            m * m == n * k2 + 0,
    ;
    lemma_mod_multiples_vanish(-(k2 * q * q), 1, n);
    lemma_small_mod(1, n as nat);
    assert((a * y) % n == 1);
}

/// Newton's iteration from 1 yields the inverse of an odd number modulo 4096.
pub proof fn lemma_newton_inv(a: int)
    requires
        a % 2 == 1,
    ensures
        (a * newton_inv(a)) % 4096 == 1,
        0 <= newton_inv(a) < 4096,
{
    let x1 = newton_next(a, 1);
    let x2 = newton_next(a, x1);
    let x3 = newton_next(a, x2);
    lemma_newton_step(a, 1, 2, 4);
    lemma_newton_step(a, x1, 4, 16);
    lemma_newton_step(a, x2, 16, 256);
    lemma_newton_step(a, x3, 256, 4096);
}

/// The inverse of an odd `a` modulo 4096, by Newton's iteration.
pub fn inv_odd_mod_4096(a: u32) -> (r: u32)
    requires
        a % 2 == 1,
    ensures
        (a * r) % 4096 == 1,
        r < 4096,
{
    let mut x = 1u32;
    let mut i: u32 = 0;
    while i < 4
        invariant
            i <= 4,
            a % 2 == 1,
            x < 4096,
            (a * x) % newton_modulus(i as int) == 1,
        decreases 4 - i,
    {
        let w = a.wrapping_mul(x);
        let d = 2u32.wrapping_sub(w);
        let p = x.wrapping_mul(d);
        proof {
            let u = a * x;
            let big = pow32();
            lemma_wrapping_sub_u32(2, w);
            lemma_sub_mod_noop(2, u, big);
            lemma_small_mod(2, big as nat);
            assert(d as int == (2 - u) % big);
            lemma_mul_mod_noop_right(x as int, 2 - u, big);
            assert(p as int == (x * (2 - u)) % big);
            lemma_mod_mod(x * (2 - u), 4096, 0x10_0000);
            lemma_u32_shr16_mask12(p);
            let m = newton_modulus(i as int);
            let n = newton_modulus(i + 1);
            lemma_newton_step(a as int, x as int, m, n);
        }
        x = p & MIX_HIGH_MASK;
        i = i + 1;
    }
    x
}

/// The low-16-bit part of the hash: bits 16..27 of `mix_poly(low)`, before
/// the contribution of the high bits.
pub open spec fn mix_base(low: int) -> int {
    mix_poly(low) / 65536
}

/// The coefficient of the high 12 bits in the linear form of the hash.
pub open spec fn mix_coeff(low: int) -> int {
    2 * LCG_MULT * low + LCG_ADDEND
}

/// With `low` fixed, the hash is linear in the high part `h`.
pub proof fn lemma_mix_linear_in_high(low: int, h: int)
    ensures
        mix_of(low + 65536 * h) == (mix_base(low) + h * mix_coeff(low)) % 4096,
{
    let k = 65536int;
    let j = h * mix_coeff(low) + k * LCG_MULT * h * h;
    reveal(mix_poly);
    reveal(mix_of);
    assert(mix_poly(low + k * h) == mix_poly(low) + j * k) by (nonlinear_arith)
        requires
            j == h * mix_coeff(low) + k * LCG_MULT * h * h,
            mix_coeff(low) == 2 * LCG_MULT * low + LCG_ADDEND,
            mix_poly(low + k * h) == LCG_MULT * (low + k * h) * (low + k * h) + LCG_ADDEND * (low + k * h),
            mix_poly(low) == LCG_MULT * low * low + LCG_ADDEND * low,
    ;
    lemma_hoist_over_denominator(mix_poly(low), j, 65536);
    assert(mix_poly(low + k * h) / k == mix_base(low) + h * mix_coeff(low) + 4096 * (16 * LCG_MULT * h * h)) by (nonlinear_arith)
        requires
            mix_poly(low) / k + j == (mix_poly(low) + j * k) / k,
            mix_poly(low + k * h) == mix_poly(low) + j * k,
            j == h * mix_coeff(low) + k * LCG_MULT * h * h,
            mix_base(low) == mix_poly(low) / k,
            k == 65536,
    ;
    lemma_mod_multiples_vanish(16 * LCG_MULT * h * h, mix_base(low) + h * mix_coeff(low), 4096);
}

/// The linear form's coefficient is odd.
pub proof fn lemma_mix_coeff_odd(low: int)
    ensures
        mix_coeff(low) % 2 == 1,
        (mix_coeff(low) % 4096) % 2 == 1,
{
    let k = LCG_MULT * low + 5;
    assert(mix_coeff(low) == 2 * k + 1) by (nonlinear_arith)
        requires
            k == LCG_MULT * low + 5,
            mix_coeff(low) == 2 * LCG_MULT * low + LCG_ADDEND,
            LCG_ADDEND == 11,
    ;
    lemma_mod_multiples_vanish(k, 1, 2);
    lemma_mod_mod(mix_coeff(low), 2, 2048);
}

/// Solving `base + high * coeff == t (mod 4096)` with the inverse of `coeff`.
pub proof fn lemma_linear_solution(base: int, coeff: int, inv: int, t: int)
    requires
        0 <= t < 4096,
        (coeff * inv) % 4096 == 1,
    ensures
        (base + (((t - base) * inv) % 4096) * coeff) % 4096 == t,
{
    let m = 4096int;
    let x = (t - base) * inv;
    let high = x % m;
    lemma_mul_mod_noop_left(x, coeff, m);
    assert(x * coeff == (t - base) * (coeff * inv)) by (nonlinear_arith)
        requires
            x == (t - base) * inv,
    ;
    lemma_mul_mod_noop_right(t - base, coeff * inv, m);
    assert((t - base) * ((coeff * inv) % m) == t - base);
    lemma_add_mod_noop_right(base, high * coeff, m);
    lemma_add_mod_noop_right(base, t - base, m);
    lemma_small_mod(t as nat, m as nat);
}

/// Two 28-bit values with the same low 16 bits and the same hash are equal.
pub proof fn lemma_mix_injective_on_high(s1: int, s2: int)
    requires
        0 <= s1 < pow28(),
        0 <= s2 < pow28(),
        s1 % 65536 == s2 % 65536,
        mix_of(s1) == mix_of(s2),
    ensures
        s1 == s2,
{
    let low = s1 % 65536;
    let h1 = s1 / 65536;
    let h2 = s2 / 65536;
    lemma_fundamental_div_mod(s1, 65536);
    lemma_fundamental_div_mod(s2, 65536);
    lemma_mix_linear_in_high(low, h1);
    lemma_mix_linear_in_high(low, h2);
    let b = mix_base(low);
    let c = mix_coeff(low);
    lemma_mix_coeff_odd(low);
    lemma_newton_inv(c);
    let v = newton_inv(c);
    // (b + h1 c) == (b + h2 c) (mod 4096), so (h1 - h2) c == 0 (mod 4096).
    lemma_mod_equivalence(b + h1 * c, b + h2 * c, 4096);
    assert((b + h1 * c) - (b + h2 * c) == (h1 - h2) * c) by (nonlinear_arith);
    lemma_mul_mod_noop_left((h1 - h2) * c, v, 4096);
    lemma_mod_self_0(4096);
    assert(((h1 - h2) * c) % 4096 == 0);
    assert(0 * v == 0);
    assert(((h1 - h2) * c * v) % 4096 == 0) by {
        lemma_mul_mod_noop_left((h1 - h2) * c, v, 4096);
        lemma_small_mod(0, 4096);
    }
    assert((h1 - h2) * c * v == (h1 - h2) * (c * v)) by (nonlinear_arith);
    lemma_mul_mod_noop_right(h1 - h2, c * v, 4096);
    assert((h1 - h2) * ((c * v) % 4096) == h1 - h2);
    assert((h1 - h2) % 4096 == 0);
    assert(0 <= h1 < 4096) by {
        lemma_div_is_ordered(s1, pow28() - 1, 65536);
    }
    assert(0 <= h2 < 4096) by {
        lemma_div_is_ordered(s2, pow28() - 1, 65536);
    }
    if h1 != h2 {
        if h1 > h2 {
            lemma_small_mod((h1 - h2) as nat, 4096);
        } else {
            lemma_mod_add_multiples_vanish(h1 - h2, 4096);
            lemma_small_mod((h1 - h2 + 4096) as nat, 4096);
        }
    }
}

/// One entry of the inverse: `low` plus the solved high part hashes to `target`.
proof fn lemma_invert_entry(low: int, target: int, base: int, coeff: int, inv: int, high: int)
    requires
        0 <= low < 65536,
        0 <= target < 4096,
        base == mix_base(low) % 4096,
        coeff == mix_coeff(low) % 4096,
        (coeff * inv) % 4096 == 1,
        high == ((target - base) * inv) % 4096,
    ensures
        mix_of(low + 65536 * high) == target,
        0 <= high < 4096,
{
    lemma_mix_linear_in_high(low, high);
    let b = mix_base(low);
    let c = mix_coeff(low);
    lemma_add_mod_noop(b, high * c, 4096);
    lemma_mul_mod_noop_right(high, c, 4096);
    lemma_add_mod_noop(b % 4096, high * (c % 4096), 4096);
    lemma_mod_twice(b, 4096);
    lemma_linear_solution(base, coeff, inv, target);
}

/// The base term as computed in 64-bit arithmetic.
proof fn lemma_exec_base(low64: u64, poly: u64)
    requires
        low64 < 65536,
        poly == low64 * low64 * 42317861 + low64 * 11,
    ensures
        (poly >> 16u64) & 0xfffu64 == mix_base(low64 as int) % 4096,
{
    assert((poly >> 16u64) & 0xfffu64 == (poly / 65536) % 4096) by (bit_vector);
    reveal(mix_poly);
    let l = low64 as int;
    assert(mix_poly(l) == 42317861 * l * l + 11 * l);
    assert(poly as int == 42317861 * l * l + 11 * l) by (nonlinear_arith)
        requires
            poly == low64 * low64 * 42317861 + low64 * 11,
            l == low64,
    ;
}

/// The coefficient as computed in 32-bit arithmetic.
proof fn lemma_exec_coeff(low: u32, c: u32)
    requires
        low < 65536,
        c == 11 + 4170 * low,
    ensures
        c & 0xfffu32 == mix_coeff(low as int) % 4096,
        (mix_coeff(low as int) % 4096) % 2 == 1,
{
    lemma_u32_shr16_mask12(c);
    assert(mix_coeff(low as int) == c + 4096 * (2 * 10331 * low)) by (nonlinear_arith)
        requires
            c == 11 + 4170 * low,
    ;
    lemma_mod_multiples_vanish(2 * 10331 * low, c as int, 4096);
    lemma_mix_coeff_odd(low as int);
}

/// The solved high part as computed in 32-bit wrapping arithmetic.
proof fn lemma_exec_high(target: u32, base: u32, inv: u32, prod: u32)
    requires
        prod == vstd::wrapping::u32_specs::wrapping_mul(
            vstd::wrapping::u32_specs::wrapping_sub(target, base),
            inv,
        ),
    ensures
        prod & 0xfffu32 == ((target - base) * inv) % 4096,
{
    let big = pow32();
    lemma_wrapping_sub_u32(target, base);
    lemma_mul_mod_noop_left(target - base, inv as int, big);
    lemma_u32_shr16_mask12(prod);
    lemma_mod_mod((target - base) * inv, 4096, 0x10_0000);
}

/// Every 28-bit seed whose hash is `target`, indexed by its low 16 bits.
///
/// Entry `low` is the unique `s < 2^28` with `s % 65536 == low` and
/// `mix_low_12(s) == target & 0xfff`.
pub fn invert_exact_mix_low_12(target_in: u16) -> (out: Vec<u32>)
    ensures
        out.len() == 65536,
        forall|i: int|
            0 <= i < 65536 ==> {
                &&& (#[trigger] out@[i]) as int % 65536 == i
                &&& out@[i] < pow28()
                &&& mix_spec(out@[i]) as int == target_in as int % 4096
            },
        forall|s: u32|
            s < pow28() && mix_spec(s) as int == target_in as int % 4096 ==> out@[s as int % 65536]
                == s,
{
    let target = (target_in as u32) & MIX_OUTPUT_MASK;
    proof {
        lemma_u32_shr16_mask12(target_in as u32);
    }
    let mut out: Vec<u32> = Vec::with_capacity(MIX_LOW_COUNT as usize);
    let mut low: u32 = 0;
    while low < MIX_LOW_COUNT
        invariant
            low <= MIX_LOW_COUNT,
            out.len() == low,
            target < 4096,
            forall|i: int|
                0 <= i < low ==> {
                    &&& (#[trigger] out@[i]) as int % 65536 == i
                    &&& out@[i] < pow28()
                    &&& mix_spec(out@[i]) as int == target as int
                },
        decreases MIX_LOW_COUNT - low,
    {
        let low64 = low as u64;
        assert(low64 * low64 * 42317861 + low64 * 11 <= 65535 * 65535 * 42317861 + 65535 * 11)
            by (nonlinear_arith)
            requires
                low64 < 65536,
        ;
        let poly = low64 * low64 * (LCG_MULT as u64) + low64 * (LCG_ADDEND as u64);
        let base = ((poly >> (MIX_LOW_BITS as u64)) & (MIX_OUTPUT_MASK as u64)) as u32;
        proof {
            lemma_exec_base(low64, poly);
        }
        let lm = LCG_MULT & MIX_OUTPUT_MASK;
        assert(lm == 2085) by {
            assert(42317861u32 & 0xfffu32 == 2085u32) by (bit_vector);
        }
        let step = 2u32.wrapping_mul(lm).wrapping_mul(low);
        assert(step == 4170 * low) by {
            assert(4170 * low < pow32()) by (nonlinear_arith)
                requires
                    low < 65536,
            ;
            lemma_small_mod((4170 * low) as nat, pow32() as nat);
        }
        let coeff = (LCG_ADDEND.wrapping_add(step)) & MIX_OUTPUT_MASK;
        proof {
            lemma_small_mod((11 + 4170 * low) as nat, pow32() as nat);
            lemma_exec_coeff(low, (11 + 4170 * low) as u32);
        }
        let inv = inv_odd_mod_4096(coeff);
        let diff = target.wrapping_sub(base);
        let prod = diff.wrapping_mul(inv);
        let high = prod & MIX_HIGH_MASK;
        proof {
            lemma_exec_high(target, base, inv, prod);
            lemma_mul_mod_noop_left(coeff as int, inv as int, 4096);
            lemma_invert_entry(low as int, target as int, base as int, coeff as int, inv as int, high as int);
        }
        let entry = low | (high << MIX_LOW_BITS);
        proof {
            assert(entry == low + high * 65536) by (bit_vector)
                requires
                    low < 65536u32,
                    high < 4096u32,
                    entry == low | (high << 16u32),
            ;
            lemma_mix_of_range(entry as int);
            lemma_fundamental_div_mod_converse(entry as int, 65536, high as int, low as int);
        }
        out.push(entry);
        low = low + 1;
    }
    proof {
        assert forall|s: u32|
            s < pow28() && mix_spec(s) as int == target_in as int % 4096 implies out@[s as int % 65536]
                == s by {
            let i = s as int % 65536;
            lemma_mix_of_range(s as int);
            lemma_mix_of_range(out@[i] as int);
            lemma_small_mod(target as nat, 4096);
            lemma_mix_injective_on_high(s as int, out@[i] as int);
        }
    }
    out
}

} // verus!
