//! The 1.7.10 y-prefilter cache.
//!
//! For a small y range, the pivot sample (a full-mask, non-dripstone sample)
//! matches at height `y` exactly when `base ^ (y_part & MIX_INPUT_MASK)` is one
//! of the 65536 preimages of its offset, where `base` is the x/z part of its
//! seed.  The cache maps every 28-bit `base` to the mask of heights in the
//! range at which the pivot matches: a fingerprint bitmap rules most bases out
//! at once, and per low-16-bit bucket a list of `(high12, y_mask)` entries,
//! sorted by `high12`, holds the rest.
use vstd::prelude::*;
use crate::mix::{MIX_HIGH_MASK, MIX_INPUT_MASK, mix_spec, pow28, wrap32, lemma_u32_shr16_mask12};
use crate::sample::Sample;
use crate::seed::{SeedMode, lemma_i32_wrapping_add_as_u32};
use crate::candidate::{choose_strict_y_pivot, first_full_exact, is_full_exact, samples_wf};
use crate::inverse::invert_exact_mix_low_12;

verus! {

pub const PREFILTER_MAX_Y_COUNT: i32 = 64;
pub const PREFILTER_FINGERPRINT_BITS: usize = 2048;
pub const PREFILTER_FINGERPRINT_WORDS: usize = 32;
pub const PREFILTER_FINGERPRINT_MASK: u32 = 2047;

#[derive(Clone, Copy, Debug)]
pub struct LowHighYMask {
    pub high: u16,
    pub y_mask: u64,
}

#[derive(Debug)]
pub struct StrictYCache {
    pub y0: i32,
    pub y1: i32,
    pub mode: SeedMode,
    pub kind: u8,
    pub pivot_index: usize,
    pub pivot: Sample,
    pub fingerprints: Vec<u64>,
    pub low_offsets: Vec<u32>,
    pub low_entries: Vec<LowHighYMask>,
}

/// Bit `b` of `m`.
pub open spec fn bit64(m: u64, b: int) -> bool {
    (m >> (b as u64)) & 1u64 == 1u64
}

pub proof fn lemma_bit64_or_single(m: u64, t: u64, b: u64)
    requires
        t < 64,
        b < 64,
    ensures
        bit64(m | (1u64 << t), b as int) == (bit64(m, b as int) || b == t),
        bit64(1u64 << t, b as int) == (b == t),
        !bit64(0u64, b as int),
{
    assert(((m | (1u64 << t)) >> b) & 1u64 == 1u64 <==> (((m >> b) & 1u64 == 1u64) || b == t))
        by (bit_vector)
        requires
            t < 64u64,
            b < 64u64,
    ;
    assert(((1u64 << t) >> b) & 1u64 == 1u64 <==> b == t) by (bit_vector)
        requires
            t < 64u64,
            b < 64u64,
    ;
    assert((0u64 >> b) & 1u64 != 1u64) by (bit_vector);
}

/// Whether the pivot matches at height `y0 + b` for a seed whose x/z part,
/// reduced to 28 bits, is `base` (1.7.10 seeds).
pub open spec fn y_hit(pivot: Sample, y0: int, y_count: int, base: int, b: int) -> bool {
    &&& 0 <= b < y_count
    &&& mix_spec((base as u32) ^ (wrap32(y0 + b + pivot.dy) & 0x0fff_ffff)) == pivot.expected
}

/// `y_hit` for the base with low 16 bits `low` and high 12 bits `high`.
pub open spec fn row_hit(pivot: Sample, y0: int, y_count: int, low: int, high: int, b: int) -> bool {
    y_hit(pivot, y0, y_count, low + 65536 * high, b)
}

/// Whether the fingerprint bit for `(low, high)` is set.
pub open spec fn fp_set(fp: Seq<u64>, low: int, high: int) -> bool {
    bit64(fp[low * 32 + (high % 2048) / 64], (high % 2048) % 64)
}

/// The entry's mask holds exactly the height offsets below `t` at which the
/// pivot hits for its `high`.
pub open spec fn entry_ok(e: LowHighYMask, pivot: Sample, y0: int, y_count: int, low: int, t: int) -> bool {
    forall|b: int|
        #![trigger bit64(e.y_mask, b)]
        #![trigger row_hit(pivot, y0, y_count, low, e.high as int, b)]
        0 <= b < 64 ==> (bit64(e.y_mask, b) <==> (b < t && row_hit(
            pivot,
            y0,
            y_count,
            low,
            e.high as int,
            b,
        )))
}

/// Entries sorted by strictly increasing `high`.
pub open spec fn sorted_highs(bk: Seq<LowHighYMask>) -> bool {
    forall|i: int, j: int| 0 <= i < j < bk.len() ==> #[trigger] bk[i].high < #[trigger] bk[j].high
}

/// The entries of bucket `low`: one per `high` at which the pivot matches at
/// some height, holding exactly the heights at which it matches.
pub open spec fn bucket_exact(bk: Seq<LowHighYMask>, pivot: Sample, y0: int, y_count: int, low: int) -> bool {
    &&& sorted_highs(bk)
    &&& forall|k: int| 0 <= k < bk.len() ==> (#[trigger] bk[k]).high < 4096
    &&& forall|k: int| 0 <= k < bk.len() ==> entry_ok(#[trigger] bk[k], pivot, y0, y_count, low, y_count)
    &&& forall|h: int, b: int|
        0 <= h < 4096 && #[trigger] row_hit(pivot, y0, y_count, low, h, b) ==> exists|k: int|
            0 <= k < bk.len() && (#[trigger] bk[k]).high == h
}

/// Every `high` at which the pivot matches has its fingerprint bit set.
pub open spec fn fingerprints_cover(fp: Seq<u64>, pivot: Sample, y0: int, y_count: int, low: int) -> bool {
    forall|h: int, b: int|
        0 <= h < 4096 && #[trigger] row_hit(pivot, y0, y_count, low, h, b) ==> fp_set(fp, low, h)
}

impl StrictYCache {
    pub open spec fn y_count(&self) -> int {
        self.y1 - self.y0 + 1
    }

    /// Whether the pivot matches at height `y0 + b` for x/z seed part `base`.
    pub open spec fn hit(&self, base: int, b: int) -> bool {
        y_hit(self.pivot, self.y0 as int, self.y_count(), base, b)
    }

    pub open spec fn bucket(&self, low: int) -> Seq<LowHighYMask> {
        self.low_entries@.subrange(self.low_offsets@[low] as int, self.low_offsets@[low + 1] as int)
    }

    pub open spec fn low_ok(&self, low: int) -> bool {
        &&& self.low_offsets@[low] <= self.low_offsets@[low + 1] <= self.low_entries@.len()
        &&& bucket_exact(self.bucket(low), self.pivot, self.y0 as int, self.y_count(), low)
        &&& fingerprints_cover(self.fingerprints@, self.pivot, self.y0 as int, self.y_count(), low)
    }

    /// The cache describes, for every base, the heights at which its pivot
    /// matches in its y range.
    #[verifier::opaque]
    pub open spec fn wf(&self) -> bool {
        &&& self.mode == SeedMode::Pre1_8
        &&& self.y0 <= self.y1
        &&& self.y1 - self.y0 < 64
        &&& is_full_exact(self.pivot)
        &&& self.fingerprints@.len() == 65536 * 32
        &&& self.low_offsets@.len() == 65537
        &&& forall|low: int| 0 <= low < 65536 ==> #[trigger] self.low_ok(low)
    }
}

/// The layout of a cache's tables: the bucket offsets start at 0, never
/// decrease and end at the number of entries, which is at most one per base
/// and height; every entry's height mask is nonzero and has no bit at or
/// above the number of heights.
impl StrictYCache {
    pub open spec fn layout_ok(&self) -> bool {
        &&& self.fingerprints@.len() == 65536 * 32
        &&& self.low_offsets@.len() == 65537
        &&& self.low_offsets@[0] == 0
        &&& forall|l1: int, l2: int|
            0 <= l1 <= l2 <= 65536 ==> #[trigger] self.low_offsets@[l1] <= #[trigger] self.low_offsets@[l2]
        &&& self.low_offsets@[65536] == self.low_entries@.len()
        &&& self.low_entries@.len() <= 65536 * self.y_count()
        &&& forall|k: int|
            0 <= k < self.low_entries@.len() ==> mask_in_range(
                #[trigger] self.low_entries@[k].y_mask,
                self.y_count(),
            )
    }
}

/// A height mask with some bit set and none at or above `n`.
pub open spec fn mask_in_range(m: u64, n: int) -> bool {
    m != 0 && (m as int) < vstd::arithmetic::power2::pow2(n as nat)
}

/// A 64-bit mask with no bit at or above `n` is below `2^n`.
proof fn lemma_high_bits_clear(m: u64, n: nat)
    requires
        n <= 64,
        forall|b: int| n <= b < 64 ==> !#[trigger] bit64(m, b),
    ensures
        (m as int) < vstd::arithmetic::power2::pow2(n),
    decreases 64 - n,
{
    if n == 64 {
        vstd::arithmetic::power2::lemma2_to64();
    } else {
        lemma_high_bits_clear(m, n + 1);
        vstd::arithmetic::power2::lemma_pow2_unfold(n + 1);
        vstd::arithmetic::power2::lemma_pow2_pos(n);
        vstd::bits::lemma_u64_shr_is_div(m, n as u64);
        let q = m >> (n as u64);
        assert(!bit64(m, n as int));
        assert(q as nat == m as nat / vstd::arithmetic::power2::pow2(n));
        let pn = vstd::arithmetic::power2::pow2(n) as int;
        vstd::arithmetic::div_mod::lemma_fundamental_div_mod(m as int, pn);
        vstd::arithmetic::div_mod::lemma_mod_pos_bound(m as int, pn);
        assert(q < 2) by (nonlinear_arith)
            requires
                m as int == pn * (m as int / pn) + m as int % pn,
                0 <= m as int % pn,
                (m as int) < 2 * pn,
                pn > 0,
                q as int == m as int / pn,
        ;
        assert(q & 1u64 != 1u64 && q < 2 ==> q == 0) by (bit_vector);
    }
}

/// What a well-formed cache records about its range and pivot.
pub proof fn lemma_cache_basics(cache: &StrictYCache)
    requires
        cache.wf(),
    ensures
        cache.mode == SeedMode::Pre1_8,
        cache.y0 <= cache.y1,
        cache.y1 - cache.y0 < 64,
        is_full_exact(cache.pivot),
{
    reveal(StrictYCache::wf);
}

pub fn strict_y_cache_matches(cache: &StrictYCache, mode: SeedMode, kind: u8, y0: i32, y1: i32) -> (r: bool)
    ensures
        r == (cache.mode == mode && cache.kind == kind && cache.y0 == y0 && cache.y1 == y1),
{
    cache.mode == mode && cache.kind == kind && cache.y0 == y0 && cache.y1 == y1
}

/// The heights (as a bit mask of offsets from `y0`) at which the cache's
/// pivot matches for x/z seed part `base`; none for a base of more than 28
/// bits, which no x/z seed part reduces to.
pub fn strict_y_cache_y_mask(cache: &StrictYCache, base: u32) -> (r: u64)
    requires
        cache.wf(),
    ensures
        forall|b: int| 0 <= b < 64 ==> (bit64(r, b) <==> (base < pow28() && cache.hit(base as int, b))),
{
    proof {
        reveal(StrictYCache::wf);
    }
    let low = (base & 0xffff) as usize;
    let high = (base >> 16) as u16;
    let bucket = (high as u32) & PREFILTER_FINGERPRINT_MASK;
    proof {
        lemma_u32_shr16_mask12(base);
        lemma_u32_shr16_mask12(high as u32);
        assert(base as int == low + 65536 * high) by {
            vstd::arithmetic::div_mod::lemma_fundamental_div_mod(base as int, 65536);
        }
        if base < pow28() {
            assert(high < 4096) by {
                vstd::arithmetic::div_mod::lemma_div_is_ordered(base as int, pow28() - 1, 65536);
            }
        } else {
            assert(high >= 4096) by {
                vstd::arithmetic::div_mod::lemma_div_is_ordered(pow28(), base as int, 65536);
            }
        }
        assert(cache.low_ok(low as int));
        assert((high as u32) & 2047u32 == (high as int) % 2048) by {
            assert(((high as u32) & 2047u32) == (high as u32) % 2048) by (bit_vector);
        }
        assert(bucket >> 6u32 == bucket / 64 && bucket & 63u32 == bucket % 64) by (bit_vector);
    }
    let fingerprint_index = low * PREFILTER_FINGERPRINT_WORDS + ((bucket >> 6) as usize);
    if (cache.fingerprints[fingerprint_index] & (1u64 << (bucket & 63))) == 0 {
        proof {
            let w = cache.fingerprints@[fingerprint_index as int];
            let t = (bucket & 63u32) as u64;
            assert((w & (1u64 << t)) == 0u64 ==> (w >> t) & 1u64 != 1u64) by (bit_vector)
                requires
                    t < 64u64,
            ;
            assert(!fp_set(cache.fingerprints@, low as int, high as int));
            assert forall|b: int| 0 <= b < 64 implies (bit64(0u64, b) <==> (base < pow28() && cache.hit(
                base as int,
                b,
            ))) by {
                lemma_bit64_or_single(0, 0, b as u64);
                if base < pow28() && cache.hit(base as int, b) {
                    assert(row_hit(cache.pivot, cache.y0 as int, cache.y_count(), low as int, high as int, b));
                }
            }
        }
        return 0;
    }
    let start = cache.low_offsets[low] as usize;
    let end = cache.low_offsets[low + 1] as usize;
    let ghost bk = cache.bucket(low as int);
    let mut k = start;
    while k < end
        invariant
            cache.wf(),
            start <= k <= end,
            start == cache.low_offsets@[low as int],
            end == cache.low_offsets@[low + 1],
            end <= cache.low_entries@.len(),
            low < 65536,
            base as int == low + 65536 * high,
            base < pow28() <==> high < 4096,
            bk == cache.bucket(low as int),
            forall|i: int| start <= i < k ==> (#[trigger] cache.low_entries@[i]).high != high,
        decreases end - k,
    {
        let entry = cache.low_entries[k];
        if entry.high == high {
            proof {
                reveal(StrictYCache::wf);
                assert(cache.low_ok(low as int));
                assert(bk[k - start] == entry);
                assert(entry.high < 4096);
                assert forall|b: int| 0 <= b < 64 implies (bit64(entry.y_mask, b) <==> (base < pow28()
                    && cache.hit(base as int, b))) by {
                    assert(entry_ok(bk[k - start], cache.pivot, cache.y0 as int, cache.y_count(), low as int, cache.y_count()));
                    assert(bit64(bk[k - start].y_mask, b) <==> row_hit(
                        cache.pivot,
                        cache.y0 as int,
                        cache.y_count(),
                        low as int,
                        bk[k - start].high as int,
                        b,
                    ));
                }
            }
            return entry.y_mask;
        }
        k = k + 1;
    }
    proof {
        reveal(StrictYCache::wf);
        assert forall|b: int| 0 <= b < 64 implies (bit64(0u64, b) <==> (base < pow28() && cache.hit(
            base as int,
            b,
        ))) by {
            lemma_bit64_or_single(0, 0, b as u64);
            if base < pow28() && cache.hit(base as int, b) {
                assert(row_hit(cache.pivot, cache.y0 as int, cache.y_count(), low as int, high as int, b));
                let kk = choose|kk: int| 0 <= kk < bk.len() && (#[trigger] bk[kk]).high == high;
                assert(cache.low_entries@[start + kk] == bk[kk]);
            }
        }
    }
    0
}


// ---------------------------------------------------------------------------
// Building the cache.

/// The preimages of `target` under the offset hash, indexed by low 16 bits,
/// as `invert_exact_mix_low_12` returns them.
pub open spec fn residues_law(residues: Seq<u32>, target: u16) -> bool {
    &&& residues.len() == 65536
    &&& forall|i: int|
        0 <= i < 65536 ==> {
            &&& (#[trigger] residues[i]) as int % 65536 == i
            &&& residues[i] < pow28()
            &&& mix_spec(residues[i]) as int == target as int % 4096
        }
    &&& forall|s: u32|
        s < pow28() && mix_spec(s) as int == target as int % 4096 ==> residues[s as int % 65536] == s
}

/// For one bucket `low` and one height offset `b`, exactly one `high` hits:
/// the one read off the preimage with the matching low bits.
proof fn lemma_pivot_row(
    residues: Seq<u32>,
    pivot: Sample,
    y0: int,
    y_count: int,
    low: u32,
    b: int,
    ym: u32,
    idx: u32,
    r: u32,
    base: u32,
    high: u32,
)
    requires
        residues_law(residues, pivot.expected),
        pivot.expected < 4096,
        low < 65536,
        0 <= b < y_count,
        ym == wrap32(y0 + b + pivot.dy) & 0x0fff_ffffu32,
        idx == low ^ (ym & 0xffffu32),
        r == residues[idx as int],
        base == r ^ ym,
        high == base >> 16u32,
    ensures
        high < 4096,
        base as int == low + 65536 * high,
        row_hit(pivot, y0, y_count, low as int, high as int, b),
        forall|h: int|
            0 <= h < 4096 && #[trigger] row_hit(pivot, y0, y_count, low as int, h, b) ==> h == high,
{
    let yw = wrap32(y0 + b + pivot.dy);
    assert(ym < 0x1000_0000u32) by (bit_vector)
        requires
            ym == yw & 0x0fff_ffffu32,
    ;
    assert(idx < 65536u32) by (bit_vector)
        requires
            low < 65536u32,
            idx == low ^ (ym & 0xffffu32),
    ;
    lemma_u32_shr16_mask12(r);
    assert(r & 0xffffu32 == idx);
    assert((r ^ ym) & 0xffffu32 == low && (r ^ ym) < 0x1000_0000u32 && (r ^ ym) ^ ym == r) by (bit_vector)
        requires
            r & 0xffffu32 == low ^ (ym & 0xffffu32),
            r < 0x1000_0000u32,
            ym < 0x1000_0000u32,
            low < 65536u32,
    ;
    lemma_u32_shr16_mask12(base);
    vstd::arithmetic::div_mod::lemma_fundamental_div_mod(base as int, 65536);
    assert(high < 4096) by {
        vstd::arithmetic::div_mod::lemma_div_is_ordered(base as int, pow28() - 1, 65536);
    }
    assert(((low + 65536 * high) as u32) == base);
    assert forall|h: int|
        0 <= h < 4096 && #[trigger] row_hit(pivot, y0, y_count, low as int, h, b) implies h == high by {
        let hh = h as u32;
        let v = (low + 65536 * h) as u32;
        assert(v == low + 65536 * hh);
        let s = v ^ ym;
        assert(s & 0xffffu32 == idx && s < 0x1000_0000u32 && s ^ ym == v) by (bit_vector)
            requires
                v == low + 65536 * hh,
                low < 65536u32,
                hh < 4096u32,
                ym < 0x1000_0000u32,
                idx == low ^ (ym & 0xffffu32),
                s == v ^ ym,
        ;
        lemma_u32_shr16_mask12(s);
        vstd::arithmetic::div_mod::lemma_small_mod(pivot.expected as nat, 4096);
        assert(residues[s as int % 65536] == s);
        assert(s == r);
        assert(v == base);
    }
    vstd::arithmetic::div_mod::lemma_small_mod(pivot.expected as nat, 4096);
}

/// The mask recorded for `h` in a bucket, or 0 when it has no entry for `h`.
pub open spec fn entry_mask(bk: Seq<LowHighYMask>, h: int) -> u64 {
    if exists|k: int| 0 <= k < bk.len() && (#[trigger] bk[k]).high == h {
        bk[choose|k: int| 0 <= k < bk.len() && (#[trigger] bk[k]).high == h].y_mask
    } else {
        0
    }
}

proof fn lemma_entry_mask_at(bk: Seq<LowHighYMask>, k: int)
    requires
        sorted_highs(bk),
        0 <= k < bk.len(),
    ensures
        entry_mask(bk, bk[k].high as int) == bk[k].y_mask,
{
    let h = bk[k].high as int;
    let c = choose|c: int| 0 <= c < bk.len() && (#[trigger] bk[c]).high == h;
    if c < k {
        assert(bk[c].high < bk[k].high);
    } else if c > k {
        assert(bk[k].high < bk[c].high);
    }
}

/// `nb` is `ob` with height bit `bit` recorded for `high`.
pub open spec fn merged(ob: Seq<LowHighYMask>, nb: Seq<LowHighYMask>, high: int, bit: u64) -> bool {
    &&& nb.len() <= ob.len() + 1
    &&& sorted_highs(nb)
    &&& forall|k: int| 0 <= k < nb.len() ==> (#[trigger] nb[k]).high < 4096
    &&& exists|k: int| 0 <= k < nb.len() && (#[trigger] nb[k]).high == high
    &&& forall|k: int|
        0 <= k < nb.len() && (#[trigger] nb[k]).high == high ==> nb[k].y_mask == entry_mask(ob, high)
            | bit
    &&& forall|k: int|
        0 <= k < nb.len() && (#[trigger] nb[k]).high != high ==> exists|k2: int|
            0 <= k2 < ob.len() && ob[k2] == nb[k]
    &&& forall|k2: int|
        0 <= k2 < ob.len() ==> exists|k: int|
            0 <= k < nb.len() && (#[trigger] nb[k]).high == (#[trigger] ob[k2]).high
}

proof fn lemma_merge_update(ob: Seq<LowHighYMask>, j: int, high: u16, bit: u64)
    requires
        sorted_highs(ob),
        0 <= j < ob.len(),
        ob[j].high == high,
        forall|k: int| 0 <= k < ob.len() ==> (#[trigger] ob[k]).high < 4096,
    ensures
        merged(ob, ob.update(j, LowHighYMask { high, y_mask: ob[j].y_mask | bit }), high as int, bit),
{
    let nb = ob.update(j, LowHighYMask { high, y_mask: ob[j].y_mask | bit });
    lemma_entry_mask_at(ob, j);
    assert(nb[j].high == high);
    assert forall|k: int|
        0 <= k < nb.len() && (#[trigger] nb[k]).high != high implies exists|k2: int|
            0 <= k2 < ob.len() && ob[k2] == nb[k] by {
        assert(ob[k] == nb[k]);
    }
    assert forall|k2: int| 0 <= k2 < ob.len() implies exists|k: int|
        0 <= k < nb.len() && (#[trigger] nb[k]).high == (#[trigger] ob[k2]).high by {
        assert(nb[k2].high == ob[k2].high);
    }
    assert forall|k: int|
        0 <= k < nb.len() && (#[trigger] nb[k]).high == high implies nb[k].y_mask == entry_mask(
        ob,
        high as int,
    ) | bit by {
        if k < j {
            assert(ob[k].high < ob[j].high);
        } else if k > j {
            assert(ob[j].high < ob[k].high);
        }
    }
    assert forall|a: int, c: int| 0 <= a < c < nb.len() implies #[trigger] nb[a].high
        < #[trigger] nb[c].high by {
        assert(ob[a].high < ob[c].high);
    }
}

proof fn lemma_insert_sorted(ob: Seq<LowHighYMask>, j: int, e: LowHighYMask)
    requires
        sorted_highs(ob),
        0 <= j <= ob.len(),
        forall|k: int| 0 <= k < j ==> (#[trigger] ob[k]).high < e.high,
        j < ob.len() ==> ob[j].high > e.high,
    ensures
        sorted_highs(ob.insert(j, e)),
{
    let nb = ob.insert(j, e);
    assert forall|a: int, c: int| 0 <= a < c < nb.len() implies #[trigger] nb[a].high
        < #[trigger] nb[c].high by {
        if c < j {
            assert(nb[a] == ob[a] && nb[c] == ob[c]);
        } else if c == j {
            assert(nb[a] == ob[a]);
        } else if a < j {
            assert(nb[a] == ob[a] && nb[c] == ob[c - 1]);
            if c - 1 > j {
                assert(ob[j].high < ob[c - 1].high);
            }
        } else if a == j {
            assert(nb[c] == ob[c - 1]);
            if c - 1 > j {
                assert(ob[j].high < ob[c - 1].high);
            }
        } else {
            assert(nb[a] == ob[a - 1] && nb[c] == ob[c - 1]);
        }
    }
}

proof fn lemma_insert_absent(ob: Seq<LowHighYMask>, j: int, high: u16)
    requires
        sorted_highs(ob),
        0 <= j <= ob.len(),
        forall|k: int| 0 <= k < j ==> (#[trigger] ob[k]).high < high,
        j < ob.len() ==> ob[j].high > high,
    ensures
        entry_mask(ob, high as int) == 0,
        forall|k: int| 0 <= k < ob.len() ==> (#[trigger] ob[k]).high != high,
{
    assert forall|k: int| 0 <= k < ob.len() implies (#[trigger] ob[k]).high != high by {
        if k > j {
            assert(ob[j].high < ob[k].high);
        }
    }
}

/// Where the entries of a bucket stand after an insertion.
proof fn lemma_insert_entries(ob: Seq<LowHighYMask>, j: int, e: LowHighYMask, nb: Seq<LowHighYMask>)
    requires
        0 <= j <= ob.len(),
        nb == ob.insert(j, e),
        e.high < 4096,
        forall|k: int| 0 <= k < ob.len() ==> (#[trigger] ob[k]).high < 4096,
    ensures
        nb.len() == ob.len() + 1,
        nb[j] == e,
        forall|k: int| 0 <= k < j ==> #[trigger] nb[k] == ob[k],
        forall|k: int| j < k < nb.len() ==> #[trigger] nb[k] == ob[k - 1],
        forall|k: int| 0 <= k < nb.len() ==> (#[trigger] nb[k]).high < 4096,
{
    assert forall|k: int| 0 <= k < nb.len() implies (#[trigger] nb[k]).high < 4096 by {
        if k > j {
            assert(nb[k] == ob[k - 1]);
        }
    }
}

#[verifier::rlimit(50)]
#[verifier::spinoff_prover]
proof fn lemma_merge_insert(ob: Seq<LowHighYMask>, j: int, high: u16, bit: u64)
    requires
        sorted_highs(ob),
        0 <= j <= ob.len(),
        forall|k: int| 0 <= k < j ==> (#[trigger] ob[k]).high < high,
        j < ob.len() ==> ob[j].high > high,
        high < 4096,
        forall|k: int| 0 <= k < ob.len() ==> (#[trigger] ob[k]).high < 4096,
    ensures
        merged(ob, ob.insert(j, LowHighYMask { high, y_mask: bit }), high as int, bit),
{
    let e = LowHighYMask { high, y_mask: bit };
    let nb = ob.insert(j, e);
    lemma_insert_sorted(ob, j, e);
    lemma_insert_absent(ob, j, high);
    lemma_insert_entries(ob, j, e, nb);
    assert(0u64 | bit == bit) by (bit_vector);
    assert forall|k: int|
        0 <= k < nb.len() && (#[trigger] nb[k]).high != high implies exists|k2: int|
            0 <= k2 < ob.len() && ob[k2] == nb[k] by {
        if k < j {
            assert(ob[k] == nb[k]);
        } else {
            assert(ob[k - 1] == nb[k]);
        }
    }
    assert forall|k2: int| 0 <= k2 < ob.len() implies exists|k: int|
        0 <= k < nb.len() && (#[trigger] nb[k]).high == (#[trigger] ob[k2]).high by {
        if k2 < j {
            assert(nb[k2].high == ob[k2].high);
        } else {
            assert(nb[k2 + 1].high == ob[k2].high);
        }
    }
    assert forall|k: int|
        0 <= k < nb.len() && (#[trigger] nb[k]).high == high implies nb[k].y_mask == entry_mask(
        ob,
        high as int,
    ) | bit by {
        if k != j {
            if k < j {
                assert(nb[k] == ob[k]);
            } else {
                assert(nb[k] == ob[k - 1]);
            }
        }
    }
}

/// Records the height bit `bit` for `high` in a sorted bucket: ORs it into
/// the entry for `high`, or inserts a new entry in order.
fn merge_y_bit(bucket: &mut Vec<LowHighYMask>, high: u16, bit: u64)
    requires
        sorted_highs(old(bucket)@),
        high < 4096,
        forall|k: int| 0 <= k < old(bucket)@.len() ==> (#[trigger] old(bucket)@[k]).high < 4096,
    ensures
        merged(old(bucket)@, final(bucket)@, high as int, bit),
{
    let ghost ob = bucket@;
    let mut j: usize = 0;
    while j < bucket.len() && bucket[j].high < high
        invariant
            j <= bucket@.len(),
            bucket@ == ob,
            forall|k: int| 0 <= k < j ==> (#[trigger] ob[k]).high < high,
        decreases bucket@.len() - j,
    {
        j = j + 1;
    }
    if j < bucket.len() && bucket[j].high == high {
        let old_entry = bucket[j];
        proof {
            lemma_merge_update(ob, j as int, high, bit);
        }
        bucket.set(j, LowHighYMask { high, y_mask: old_entry.y_mask | bit });
    } else {
        proof {
            lemma_merge_insert(ob, j as int, high, bit);
        }
        bucket.insert(j, LowHighYMask { high, y_mask: bit });
    }
}


/// The entries of bucket `low` after recording height offsets `0..t`.
pub open spec fn bucket_inv_core(
    bk: Seq<LowHighYMask>,
    pivot: Sample,
    y0: int,
    y_count: int,
    low: int,
    t: int,
) -> bool {
    &&& bk.len() <= t
    &&& sorted_highs(bk)
    &&& forall|k: int| 0 <= k < bk.len() ==> (#[trigger] bk[k]).high < 4096
    &&& forall|k: int| 0 <= k < bk.len() ==> entry_ok(#[trigger] bk[k], pivot, y0, y_count, low, t)
    &&& forall|h: int, b: int|
        0 <= h < 4096 && b < t && #[trigger] row_hit(pivot, y0, y_count, low, h, b)
            ==> exists|k: int| 0 <= k < bk.len() && (#[trigger] bk[k]).high == h
}

/// The state of bucket `low` and its fingerprint bits after recording height
/// offsets `0..t`.
pub open spec fn bucket_inv(
    bk: Seq<LowHighYMask>,
    fp: Seq<u64>,
    pivot: Sample,
    y0: int,
    y_count: int,
    low: int,
    t: int,
) -> bool {
    &&& bucket_inv_core(bk, pivot, y0, y_count, low, t)
    &&& forall|h: int, b: int|
        0 <= h < 4096 && b < t && #[trigger] row_hit(pivot, y0, y_count, low, h, b)
            ==> fp_set(fp, low, h)
}

/// Recording height offset `t` (whose single hit is `high`) keeps the bucket
/// state.
proof fn lemma_bucket_step(
    ob: Seq<LowHighYMask>,
    nb: Seq<LowHighYMask>,
    fp_old: Seq<u64>,
    fp_new: Seq<u64>,
    pivot: Sample,
    y0: int,
    y_count: int,
    low: int,
    t: int,
    high: int,
    w: int,
    bi: u64,
)
    requires
        0 <= low < 65536,
        0 <= t < y_count <= 64,
        0 <= high < 4096,
        bucket_inv(ob, fp_old, pivot, y0, y_count, low, t),
        merged(ob, nb, high, 1u64 << (t as u64)),
        row_hit(pivot, y0, y_count, low, high, t),
        forall|h: int|
            0 <= h < 4096 && #[trigger] row_hit(pivot, y0, y_count, low, h, t) ==> h == high,
        fp_old.len() == 65536 * 32,
        w == low * 32 + (high % 2048) / 64,
        bi == (high % 2048) % 64,
        fp_new == fp_old.update(w, fp_old[w] | (1u64 << bi)),
    ensures
        bucket_inv(nb, fp_new, pivot, y0, y_count, low, t + 1),
{
    assert forall|k: int| 0 <= k < nb.len() implies entry_ok(#[trigger] nb[k], pivot, y0, y_count, low, t + 1) by {
        lemma_entry_step(ob, nb, pivot, y0, y_count, low, t, high, k);
    }
    assert forall|h: int, b: int|
        0 <= h < 4096 && b < t + 1 && #[trigger] row_hit(pivot, y0, y_count, low, h, b)
            implies exists|k: int| 0 <= k < nb.len() && (#[trigger] nb[k]).high == h by {
        if b < t {
            let k2 = choose|k2: int| 0 <= k2 < ob.len() && (#[trigger] ob[k2]).high == h;
            assert(exists|k: int| 0 <= k < nb.len() && (#[trigger] nb[k]).high == ob[k2].high);
        } else {
            assert(h == high);
        }
    }
    assert forall|h: int, b: int|
        0 <= h < 4096 && b < t + 1 && #[trigger] row_hit(pivot, y0, y_count, low, h, b)
            implies fp_set(fp_new, low, h) by {
        let wh = low * 32 + (h % 2048) / 64;
        let bh = (h % 2048) % 64;
        lemma_bit64_or_single(fp_old[w], bi, bh as u64);
        if b < t {
            assert(fp_set(fp_old, low, h));
        } else {
            assert(h == high);
        }
    }
}

/// One entry after recording height offset `t`.
proof fn lemma_entry_step(
    ob: Seq<LowHighYMask>,
    nb: Seq<LowHighYMask>,
    pivot: Sample,
    y0: int,
    y_count: int,
    low: int,
    t: int,
    high: int,
    k: int,
)
    requires
        0 <= t < y_count <= 64,
        0 <= high < 4096,
        0 <= k < nb.len(),
        bucket_inv_core(ob, pivot, y0, y_count, low, t),
        merged(ob, nb, high, 1u64 << (t as u64)),
        row_hit(pivot, y0, y_count, low, high, t),
        forall|h: int|
            0 <= h < 4096 && #[trigger] row_hit(pivot, y0, y_count, low, h, t) ==> h == high,
    ensures
        entry_ok(nb[k], pivot, y0, y_count, low, t + 1),
{
    let h = nb[k].high as int;
    if h == high {
        let m = entry_mask(ob, high);
        if exists|k2: int| 0 <= k2 < ob.len() && (#[trigger] ob[k2]).high == high {
            let k2 = choose|k2: int| 0 <= k2 < ob.len() && (#[trigger] ob[k2]).high == high;
            assert(m == ob[k2].y_mask);
            assert(entry_ok(ob[k2], pivot, y0, y_count, low, t));
        } else {
            assert(m == 0);
        }
        assert forall|b: int| 0 <= b < 64 implies (bit64(nb[k].y_mask, b) <==> (b < t + 1 && row_hit(
            pivot,
            y0,
            y_count,
            low,
            h,
            b,
        ))) by {
            lemma_bit64_or_single(m, t as u64, b as u64);
            if m == 0 && b < t && row_hit(pivot, y0, y_count, low, h, b) {
                assert(exists|k2: int| 0 <= k2 < ob.len() && (#[trigger] ob[k2]).high == h);
            }
        }
    } else {
        let k2 = choose|k2: int| 0 <= k2 < ob.len() && ob[k2] == nb[k];
        assert(entry_ok(ob[k2], pivot, y0, y_count, low, t));
        assert forall|b: int| 0 <= b < 64 implies (bit64(nb[k].y_mask, b) <==> (b < t + 1 && row_hit(
            pivot,
            y0,
            y_count,
            low,
            h,
            b,
        ))) by {
            if b == t && row_hit(pivot, y0, y_count, low, h, b) {
                assert(0 <= h < 4096);
            }
        }
    }
}

/// Builds bucket `low` of the cache and sets its fingerprint bits.
fn build_bucket(
    residues: &Vec<u32>,
    low: usize,
    y0: i32,
    y_count: u32,
    pivot: Sample,
    fingerprints: &mut Vec<u64>,
) -> (bucket: Vec<LowHighYMask>)
    requires
        residues_law(residues@, pivot.expected),
        pivot.expected < 4096,
        low < 65536,
        1 <= y_count <= 64,
        y0 + y_count - 1 <= i32::MAX,
        old(fingerprints)@.len() == 65536 * 32,
    ensures
        bucket@.len() <= y_count,
        bucket_exact(bucket@, pivot, y0 as int, y_count as int, low as int),
        forall|k: int| 0 <= k < bucket@.len() ==> mask_in_range(#[trigger] bucket@[k].y_mask, y_count as int),
        fingerprints_cover(final(fingerprints)@, pivot, y0 as int, y_count as int, low as int),
        final(fingerprints)@.len() == 65536 * 32,
        forall|i: int|
            0 <= i < 65536 * 32 && (i < low * 32 || i >= low * 32 + 32) ==> final(fingerprints)@[i]
                == old(fingerprints)@[i],
{
    let ghost yc = y_count as int;
    let mut bucket: Vec<LowHighYMask> = Vec::new();
    let mut y_offset: u32 = 0;
    while y_offset < y_count
        invariant
            residues_law(residues@, pivot.expected),
            pivot.expected < 4096,
            low < 65536,
            1 <= y_count <= 64,
            yc == y_count,
            y0 + y_count - 1 <= i32::MAX,
            y_offset <= y_count,
            fingerprints@.len() == 65536 * 32,
            bucket_inv(bucket@, fingerprints@, pivot, y0 as int, yc, low as int, y_offset as int),
            forall|k: int| 0 <= k < bucket@.len() ==> (#[trigger] bucket@[k]).y_mask != 0,
            forall|i: int|
                0 <= i < 65536 * 32 && (i < low * 32 || i >= low * 32 + 32) ==> fingerprints@[i]
                    == old(fingerprints)@[i],
        decreases y_count - y_offset,
    {
        let y = y0 + y_offset as i32;
        let y_part = y.wrapping_add(pivot.dy) as u32;
        let ym = y_part & MIX_INPUT_MASK;
        let idx = (low as u32) ^ (ym & 0xffff);
        assert(idx < 65536) by {
            let l = low as u32;
            assert(l < 65536u32 ==> (l ^ (ym & 0xffffu32)) < 65536u32) by (bit_vector);
        }
        let seed_low28 = residues[idx as usize];
        let base = seed_low28 ^ ym;
        let high32 = base >> 16;
        proof {
            lemma_i32_wrapping_add_as_u32(y, pivot.dy);
            assert(y_part == wrap32(y0 + y_offset + pivot.dy));
            lemma_pivot_row(
                residues@,
                pivot,
                y0 as int,
                yc,
                low as u32,
                y_offset as int,
                ym,
                idx,
                seed_low28,
                base,
                high32,
            );
        }
        let high = (high32 & MIX_HIGH_MASK) as u16;
        assert(high32 & 2047u32 < 2048u32 && (high32 & 2047u32) >> 6u32 < 32u32) by (bit_vector);
        let bucket_bits = high32 & PREFILTER_FINGERPRINT_MASK;
        let word = low * PREFILTER_FINGERPRINT_WORDS + (bucket_bits >> 6) as usize;
        let bi = (bucket_bits & 63) as u64;
        proof {
            lemma_u32_shr16_mask12(high32);
            assert(high32 & 2047u32 == high32 % 2048 && bucket_bits >> 6u32 == bucket_bits / 64 && bucket_bits
                & 63u32 == bucket_bits % 64) by (bit_vector)
                requires
                    bucket_bits == high32 & 2047u32,
            ;
            vstd::arithmetic::div_mod::lemma_small_mod(high32 as nat, 4096);
        }
        let ghost ob = bucket@;
        let ghost fp_old = fingerprints@;
        let w = fingerprints[word] | (1u64 << bi);
        fingerprints.set(word, w);
        merge_y_bit(&mut bucket, high, 1u64 << (y_offset as u64));
        proof {
            let t = y_offset as u64;
            assert forall|k: int| 0 <= k < bucket@.len() implies (#[trigger] bucket@[k]).y_mask != 0 by {
                if bucket@[k].high == high {
                    let em = entry_mask(ob, high as int);
                    assert((em | (1u64 << t)) != 0u64) by (bit_vector)
                        requires
                            t < 64u64,
                    ;
                } else {
                    let k2 = choose|k2: int| 0 <= k2 < ob.len() && ob[k2] == bucket@[k];
                    assert(ob[k2].y_mask != 0);
                }
            }
        }
        proof {
            lemma_bucket_step(
                ob,
                bucket@,
                fp_old,
                fingerprints@,
                pivot,
                y0 as int,
                yc,
                low as int,
                y_offset as int,
                high as int,
                word as int,
                bi,
            );
        }
        y_offset = y_offset + 1;
    }
    proof {
        assert forall|k: int| 0 <= k < bucket@.len() implies mask_in_range(#[trigger] bucket@[k].y_mask, y_count as int) by {
            assert(entry_ok(bucket@[k], pivot, y0 as int, yc, low as int, yc));
            assert forall|b: int| y_count <= b < 64 implies !#[trigger] bit64(bucket@[k].y_mask, b) by {
                assert(!(b < yc));
            }
            lemma_high_bits_clear(bucket@[k].y_mask, y_count as nat);
        }
    }
    bucket
}

/// Two fingerprint tables that agree on bucket `low`'s words cover the same
/// highs there.
proof fn lemma_cover_frame(fp1: Seq<u64>, fp2: Seq<u64>, pivot: Sample, y0: int, y_count: int, low: int)
    requires
        0 <= low < 65536,
        fingerprints_cover(fp1, pivot, y0, y_count, low),
        fp1.len() == 65536 * 32,
        fp2.len() == 65536 * 32,
        forall|i: int| low * 32 <= i < low * 32 + 32 ==> fp2[i] == fp1[i],
    ensures
        fingerprints_cover(fp2, pivot, y0, y_count, low),
{
    assert forall|h: int, b: int|
        0 <= h < 4096 && #[trigger] row_hit(pivot, y0, y_count, low, h, b) implies fp_set(
        fp2,
        low,
        h,
    ) by {
        assert(fp_set(fp1, low, h));
        assert(fp2[low * 32 + (h % 2048) / 64] == fp1[low * 32 + (h % 2048) / 64]);
    }
}


/// Where bucket `l` ends while buckets are being appended.
pub open spec fn bucket_end(offs: Seq<u32>, n_entries: int, l: int) -> int {
    if l + 1 < offs.len() {
        offs[l + 1] as int
    } else {
        n_entries
    }
}

/// Bucket `l` has been built into `entries` and `fp`.
pub open spec fn low_done(
    offs: Seq<u32>,
    entries: Seq<LowHighYMask>,
    fp: Seq<u64>,
    pivot: Sample,
    y0: int,
    y_count: int,
    l: int,
) -> bool {
    &&& offs[l] <= bucket_end(offs, entries.len() as int, l) <= entries.len()
    &&& bucket_exact(
        entries.subrange(offs[l] as int, bucket_end(offs, entries.len() as int, l)),
        pivot,
        y0,
        y_count,
        l,
    )
    &&& fingerprints_cover(fp, pivot, y0, y_count, l)
}

/// Whether a y-prefilter cache applies: 1.7.10 seeds, a range of at most 64
/// heights, and a full-mask, non-dripstone sample to pivot on.
pub open spec fn y_cache_applies(mode: SeedMode, samples: Seq<Sample>, y0: i32, y1: i32) -> bool {
    &&& mode == SeedMode::Pre1_8
    &&& y0 <= y1
    &&& y1 - y0 < 64
    &&& first_full_exact(samples) is Some
}

/// The `i32` computation of the range length, checked against `1..=64`.
proof fn lemma_y_count(y0: i32, y1: i32)
    requires
        y0 <= y1,
    ensures
        ({
            let c = vstd::wrapping::i32_specs::wrapping_add(
                vstd::wrapping::i32_specs::wrapping_sub(y1, y0),
                1,
            );
            (1 <= c <= 64) == (y1 - y0 < 64) && (y1 - y0 < 64 ==> c == y1 - y0 + 1)
        }),
{
}

/// Builds the y-prefilter cache for the range `y0..=y1`, or `None` when it
/// does not apply.
pub fn build_strict_y_cache(
    mode: SeedMode,
    kind: u8,
    samples: &[Sample],
    y0: i32,
    y1: i32,
) -> (r: Option<StrictYCache>)
    requires
        samples_wf(samples@, mode),
    ensures
        r is Some == y_cache_applies(mode, samples@, y0, y1),
        r matches Some(c) ==> {
            &&& c.wf()
            &&& c.layout_ok()
            &&& c.mode == mode
            &&& c.kind == kind
            &&& c.y0 == y0
            &&& c.y1 == y1
            &&& first_full_exact(samples@) == Some(c.pivot_index as int)
            &&& c.pivot_index < samples@.len()
            &&& c.pivot == samples@[c.pivot_index as int]
        },
{
    match mode {
        SeedMode::Pre1_8 => {},
        _ => {
            return None;
        },
    }
    if y0 > y1 {
        return None;
    }
    let y_count = y1.wrapping_sub(y0).wrapping_add(1);
    proof {
        lemma_y_count(y0, y1);
    }
    if !(y_count >= 1 && y_count <= PREFILTER_MAX_Y_COUNT) {
        return None;
    }
    let pivot_index = match choose_strict_y_pivot(samples) {
        Some(i) => i,
        None => {
            return None;
        },
    };
    let pivot = samples[pivot_index];
    proof {
        let e = pivot.expected;
        assert(e & 0x0fffu16 == e ==> e < 4096) by (bit_vector);
    }
    let residues = invert_exact_mix_low_12(pivot.expected);
    let yc = y_count as u32;
    let ghost ycount = yc as int;
    let mut fingerprints = vec![0u64; 65536 * PREFILTER_FINGERPRINT_WORDS];
    let mut low_offsets: Vec<u32> = Vec::with_capacity(65537);
    let mut low_entries: Vec<LowHighYMask> = Vec::new();
    let mut low: usize = 0;
    while low < 65536
        invariant
            residues_law(residues@, pivot.expected),
            pivot.expected < 4096,
            1 <= yc <= 64,
            ycount == yc,
            y0 + yc - 1 <= i32::MAX,
            low <= 65536,
            fingerprints@.len() == 65536 * 32,
            low_offsets@.len() == low,
            low_entries@.len() <= low * yc,
            low > 0 ==> low_offsets@[0] == 0,
            forall|l: int| 0 <= l < low ==> #[trigger] low_offsets@[l] <= low_entries@.len(),
            forall|l1: int, l2: int|
                0 <= l1 <= l2 < low ==> #[trigger] low_offsets@[l1] <= #[trigger] low_offsets@[l2],
            forall|k: int| 0 <= k < low_entries@.len() ==> mask_in_range(#[trigger] low_entries@[k].y_mask, ycount),
            forall|l: int|
                0 <= l < low ==> #[trigger] low_done(
                    low_offsets@,
                    low_entries@,
                    fingerprints@,
                    pivot,
                    y0 as int,
                    ycount,
                    l,
                ),
        decreases 65536 - low,
    {
        let ghost old_offs = low_offsets@;
        let ghost old_entries = low_entries@;
        let ghost old_fp = fingerprints@;
        assert(low_entries@.len() <= 65536 * 64) by (nonlinear_arith)
            requires
                low_entries@.len() <= low * yc,
                low < 65536,
                yc <= 64,
        ;
        low_offsets.push(low_entries.len() as u32);
        let mut bucket = build_bucket(&residues, low, y0, yc, pivot, &mut fingerprints);
        let ghost bk = bucket@;
        low_entries.append(&mut bucket);
        proof {
            assert forall|k: int| 0 <= k < low_entries@.len() implies mask_in_range(
                #[trigger] low_entries@[k].y_mask,
                ycount,
            ) by {
                if k >= old_entries.len() {
                    assert(low_entries@[k] == bk[k - old_entries.len()]);
                } else {
                    assert(low_entries@[k] == old_entries[k]);
                }
            }
            assert(low_entries@.len() <= (low + 1) * yc) by (nonlinear_arith)
                requires
                    low_entries@.len() == old_entries.len() + bk.len(),
                    old_entries.len() <= low * yc,
                    bk.len() <= yc,
            ;
            assert forall|l1: int, l2: int| 0 <= l1 <= l2 < low + 1 implies #[trigger] low_offsets@[l1]
                <= #[trigger] low_offsets@[l2] by {
                if l2 == low {
                    assert(low_offsets@[l2] == old_entries.len());
                    if l1 < low {
                        assert(old_offs[l1] <= old_entries.len());
                    }
                } else {
                    assert(old_offs[l1] <= old_offs[l2]);
                }
            }
            assert forall|l: int| 0 <= l < low + 1 implies #[trigger] low_offsets@[l] <= low_entries@.len() by {
                if l < low {
                    assert(old_offs[l] <= old_entries.len());
                }
            }
            let offs = low_offsets@;
            let entries = low_entries@;
            let fp = fingerprints@;
            assert forall|l: int| 0 <= l < low + 1 implies #[trigger] low_done(
                offs,
                entries,
                fp,
                pivot,
                y0 as int,
                ycount,
                l,
            ) by {
                if l < low {
                    assert(low_done(old_offs, old_entries, old_fp, pivot, y0 as int, ycount, l));
                    assert(offs[l] == old_offs[l]);
                    let e_old = bucket_end(old_offs, old_entries.len() as int, l);
                    assert(bucket_end(offs, entries.len() as int, l) == e_old);
                    assert(entries.subrange(offs[l] as int, e_old) =~= old_entries.subrange(
                        old_offs[l] as int,
                        e_old,
                    ));
                    assert forall|i: int| l * 32 <= i < l * 32 + 32 implies fp[i] == old_fp[i] by {}
                    lemma_cover_frame(old_fp, fp, pivot, y0 as int, ycount, l);
                } else {
                    assert(offs[l] == old_entries.len());
                    assert(entries.subrange(offs[l] as int, entries.len() as int) =~= bk);
                }
            }
        }
        low = low + 1;
    }
    let ghost offs_before = low_offsets@;
    low_offsets.push(low_entries.len() as u32);
    let cache = StrictYCache {
        y0,
        y1,
        mode,
        kind,
        pivot_index,
        pivot,
        fingerprints,
        low_offsets,
        low_entries,
    };
    proof {
        assert forall|l1: int, l2: int| 0 <= l1 <= l2 <= 65536 implies #[trigger] cache.low_offsets@[l1]
            <= #[trigger] cache.low_offsets@[l2] by {
            if l2 == 65536 {
                if l1 < 65536 {
                    assert(offs_before[l1] <= cache.low_entries@.len());
                }
            } else {
                assert(offs_before[l1] <= offs_before[l2]);
            }
        }
        assert(cache.y_count() == ycount);
        assert(cache.low_offsets@[0] == offs_before[0]);
        assert(cache.layout_ok());
        reveal(StrictYCache::wf);
        assert forall|l: int| 0 <= l < 65536 implies #[trigger] cache.low_ok(l) by {
            assert(low_done(
                offs_before,
                cache.low_entries@,
                cache.fingerprints@,
                pivot,
                y0 as int,
                ycount,
                l,
            ));
            assert(cache.low_offsets@[l] == offs_before[l]);
            assert(cache.low_offsets@[l + 1] == bucket_end(
                offs_before,
                cache.low_entries@.len() as int,
                l,
            ));
            assert(cache.y_count() == ycount);
        }
    }
    Some(cache)
}

} // verus!
