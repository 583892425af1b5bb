//! Observed samples: where a block sits relative to the searched position and
//! which offset nibbles were seen there.
use vstd::prelude::*;
use crate::seed::{SeedMode, ScanError, x_seed_of, z_seed_of, lemma_seed_of_i32};
use crate::mix::X_MULT;

verus! {

#[derive(Clone, Copy, Debug)]
pub struct Sample {
    pub dx: i32,
    pub dy: i32,
    pub dz: i32,
    pub dx_seed: u32,
    pub dz_seed: u32,
    pub expected: u16,
    pub mask: u16,
    pub dripstone: bool,
}

/// The number of set bits of `v`.
pub open spec fn popcount(v: nat) -> nat
    decreases v,
{
    if v == 0 {
        0
    } else {
        v % 2 + popcount(v / 2)
    }
}

pub proof fn lemma_popcount_bound(v: nat, k: nat)
    requires
        v < vstd::arithmetic::power2::pow2(k),
    ensures
        popcount(v) <= k,
    decreases k,
{
    if v != 0 {
        if k == 0 {
            vstd::arithmetic::power2::lemma2_to64();
        } else {
            vstd::arithmetic::power2::lemma_pow2_unfold(k);
            lemma_popcount_bound(v / 2, (k - 1) as nat);
        }
    }
}

pub open spec fn abs_int(v: int) -> int {
    if v < 0 {
        -v
    } else {
        v
    }
}

/// The sample that `Sample::new` builds from raw observation values.
pub open spec fn new_sample(
    dx: i32,
    dy: i32,
    dz: i32,
    expected: u16,
    mask: u16,
    dripstone: bool,
    mode: SeedMode,
) -> Sample {
    Sample {
        dx,
        dy,
        dz,
        dx_seed: x_seed_of(dx as int),
        dz_seed: z_seed_of(mode, dz as int),
        expected: expected & (mask & 0x0fff),
        mask: mask & 0x0fff,
        dripstone,
    }
}

impl Sample {
    /// A sample as `new` builds it for `mode`: seed parts that match its
    /// offsets, a 12-bit mask and an expected value inside the mask.
    pub open spec fn wf(self, mode: SeedMode) -> bool {
        &&& self.dx_seed == x_seed_of(self.dx as int)
        &&& self.dz_seed == z_seed_of(mode, self.dz as int)
        &&& self.mask < 4096
        &&& self.expected & self.mask == self.expected
    }

    /// The number of nibble bits the sample constrains.
    pub open spec fn bits(self) -> nat {
        popcount(self.mask as nat)
    }

    /// The taxicab distance of the sample from the searched position.
    pub open spec fn rank(self) -> int {
        abs_int(self.dx as int) + abs_int(self.dy as int) + abs_int(self.dz as int)
    }

    /// The sort key: dripstone samples last, then more constrained bits
    /// first, then farther samples first.
    pub open spec fn sort_key(self) -> int {
        (if self.dripstone { 1int } else { 0int }) * 0x200_0000_0000 + (16 - self.bits())
            * 0x10_0000_0000 + (0x8_0000_0000 - self.rank())
    }

    pub fn new(
        dx: i32,
        dy: i32,
        dz: i32,
        expected: u16,
        mask: u16,
        dripstone: bool,
        mode: SeedMode,
    ) -> (r: Self)
        ensures
            r == new_sample(dx, dy, dz, expected, mask, dripstone, mode),
            r.wf(mode),
    {
        proof {
            lemma_seed_of_i32(dx, X_MULT);
            lemma_seed_of_i32(dz, crate::seed::z_mult(mode));
            lemma_mask_bits(expected, mask);
        }
        let mask = mask & 0x0fff;
        let dx_seed = (dx as u32).wrapping_mul(X_MULT);
        let dz_seed = (dz as u32).wrapping_mul(mode.z_multiplier());
        let expected = expected & mask;
        Self { dx, dy, dz, dx_seed, dz_seed, expected, mask, dripstone }
    }

    /// The number of constrained nibble bits.
    pub fn constraint_bits(self) -> (r: u32)
        ensures
            r == self.bits(),
            r <= 16,
    {
        let mut v = self.mask;
        let mut count: u32 = 0;
        proof {
            vstd::arithmetic::power2::lemma2_to64();
            lemma_popcount_bound(self.mask as nat, 16);
        }
        while v != 0
            invariant
                count + popcount(v as nat) == popcount(self.mask as nat),
                popcount(self.mask as nat) <= 16,
            decreases v,
        {
            assert(v & 1 == v % 2) by (bit_vector);
            assert(v >> 1 == v / 2) by (bit_vector);
            count = count + (v & 1) as u32;
            v = v >> 1;
        }
        count
    }

    /// The taxicab distance of the sample from the searched position.
    pub fn distance_rank(self) -> (r: u64)
        ensures
            r == self.rank(),
            r <= 0x1_8000_0000,
    {
        abs_i32(self.dx) + abs_i32(self.dy) + abs_i32(self.dz)
    }
}

proof fn lemma_mask_bits(expected: u16, mask: u16)
    ensures
        mask & 0x0fffu16 < 4096,
        (expected & (mask & 0x0fffu16)) & (mask & 0x0fffu16) == expected & (mask & 0x0fffu16),
{
    assert(mask & 0x0fffu16 < 4096) by (bit_vector);
    assert((expected & (mask & 0x0fffu16)) & (mask & 0x0fffu16) == expected & (mask
        & 0x0fffu16)) by (bit_vector);
}

fn abs_i32(v: i32) -> (r: u64)
    ensures
        r == abs_int(v as int),
        r <= 0x8000_0000,
{
    if v < 0 {
        (-(v as i64)) as u64
    } else {
        v as u64
    }
}

proof fn lemma_key_bounds(s: Sample)
    ensures
        s.bits() <= 16,
        0 <= s.rank() <= 0x1_8000_0000,
{
    vstd::arithmetic::power2::lemma2_to64();
    lemma_popcount_bound(s.mask as nat, 16);
}

/// The sort key orders samples field by field.
pub proof fn lemma_key_order(a: Sample, b: Sample)
    ensures
        a.sort_key() < b.sort_key() <==> ((!a.dripstone && b.dripstone) || (a.dripstone
            == b.dripstone && (a.bits() > b.bits() || (a.bits() == b.bits() && a.rank()
            > b.rank())))),
{
    lemma_key_bounds(a);
    lemma_key_bounds(b);
    let da: int = if a.dripstone { 1 } else { 0 };
    let db: int = if b.dripstone { 1 } else { 0 };
    let ra = (16 - a.bits()) * 0x10_0000_0000 + (0x8_0000_0000 - a.rank());
    let rb = (16 - b.bits()) * 0x10_0000_0000 + (0x8_0000_0000 - b.rank());
    assert(0 <= ra < 0x200_0000_0000);
    assert(0 <= rb < 0x200_0000_0000);
    assert(a.sort_key() == da * 0x200_0000_0000 + ra);
    assert(b.sort_key() == db * 0x200_0000_0000 + rb);
}

/// Exec comparison of sort keys, field by field.
pub fn sorts_before(a: Sample, b: Sample) -> (r: bool)
    ensures
        r == (a.sort_key() < b.sort_key()),
{
    proof {
        lemma_key_order(a, b);
    }
    let ab = a.constraint_bits();
    let bb = b.constraint_bits();
    let ar = a.distance_rank();
    let br = b.distance_rank();
    if a.dripstone != b.dripstone {
        b.dripstone
    } else if ab != bb {
        ab > bb
    } else {
        ar > br
    }
}

/// The six input arrays have one common length.
pub open spec fn same_lengths(
    rel_dx: Seq<i32>,
    rel_dy: Seq<i32>,
    rel_dz: Seq<i32>,
    rel_packed: Seq<u16>,
    rel_mask: Seq<u16>,
    rel_drip: Seq<u8>,
) -> bool {
    &&& rel_dy.len() == rel_dx.len()
    &&& rel_dz.len() == rel_dx.len()
    &&& rel_packed.len() == rel_dx.len()
    &&& rel_mask.len() == rel_dx.len()
    &&& rel_drip.len() == rel_dx.len()
}

/// The length of the input arrays, checked to be common.
pub fn validate_lengths(
    rel_dx: &[i32],
    rel_dy: &[i32],
    rel_dz: &[i32],
    rel_packed: &[u16],
    rel_mask: &[u16],
    rel_drip: &[u8],
) -> (r: Result<usize, ScanError>)
    ensures
        match r {
            Ok(n) => {
                &&& n == rel_dx@.len()
                &&& same_lengths(rel_dx@, rel_dy@, rel_dz@, rel_packed@, rel_mask@, rel_drip@)
            },
            Err(e) => {
                &&& e == ScanError::LengthMismatch
                &&& !same_lengths(rel_dx@, rel_dy@, rel_dz@, rel_packed@, rel_mask@, rel_drip@)
            },
        },
{
    let n = rel_dx.len();
    if rel_dy.len() != n || rel_dz.len() != n || rel_packed.len() != n || rel_mask.len() != n
        || rel_drip.len() != n {
        return Err(ScanError::LengthMismatch);
    }
    Ok(n)
}

/// Whether a box's bounds are ordered.
pub open spec fn bounds_ok(x0: i32, x1: i32, y0: i32, y1: i32, z0: i32, z1: i32) -> bool {
    x0 <= x1 && y0 <= y1 && z0 <= z1
}

pub fn validate_bounds(x0: i32, x1: i32, y0: i32, y1: i32, z0: i32, z1: i32) -> (r: Result<
    (),
    ScanError,
>)
    ensures
        r == (if bounds_ok(x0, x1, y0, y1, z0, z1) {
            Ok(())
        } else {
            Err(ScanError::InvalidBounds)
        }),
{
    if x0 > x1 || y0 > y1 || z0 > z1 {
        Err(ScanError::InvalidBounds)
    } else {
        Ok(())
    }
}

/// The samples built from the input arrays, in input order.
pub open spec fn raw_samples(
    rel_dx: Seq<i32>,
    rel_dy: Seq<i32>,
    rel_dz: Seq<i32>,
    rel_packed: Seq<u16>,
    rel_mask: Seq<u16>,
    rel_drip: Seq<u8>,
    mode: SeedMode,
) -> Seq<Sample> {
    Seq::new(
        rel_dx.len(),
        |i: int|
            new_sample(
                rel_dx[i],
                rel_dy[i],
                rel_dz[i],
                rel_packed[i],
                rel_mask[i],
                rel_drip[i] != 0,
                mode,
            ),
    )
}

/// `p` lists each of `0..n` exactly once.
pub open spec fn is_index_permutation(p: Seq<int>, n: nat) -> bool {
    &&& p.len() == n
    &&& forall|k: int| 0 <= k < n ==> 0 <= #[trigger] p[k] < n
    &&& forall|a: int, b: int| 0 <= a < b < n ==> #[trigger] p[a] != #[trigger] p[b]
}

/// `sorted` is `raw` sorted by `sort_key`, with samples of equal key kept in
/// input order (a stable sort).
pub open spec fn is_stable_sort(raw: Seq<Sample>, sorted: Seq<Sample>) -> bool {
    exists|p: Seq<int>| #[trigger] sorted_prefix(raw, sorted, p, raw.len() as int)
}

/// `samples` are the first `i` raw samples, listed by `p` (`samples[k]` is
/// `raw[p[k]]`) in order of sort key, and of input position among equal keys.
pub open spec fn sorted_prefix(raw: Seq<Sample>, samples: Seq<Sample>, p: Seq<int>, i: int) -> bool {
    &&& samples.len() == i
    &&& is_index_permutation(p, i as nat)
    &&& forall|k: int| 0 <= k < i ==> #[trigger] samples[k] == raw[p[k]]
    &&& forall|a: int, b: int|
        0 <= a < b < i ==> #[trigger] samples[a].sort_key() < #[trigger] samples[b].sort_key() || (
        samples[a].sort_key() == samples[b].sort_key() && p[a] < p[b])
}

/// Inserting the next raw sample after every sample of key not greater keeps
/// the prefix stably sorted.
proof fn lemma_stable_insert(
    raw: Seq<Sample>,
    samples: Seq<Sample>,
    p: Seq<int>,
    s: Sample,
    i: int,
    j: int,
    mode: SeedMode,
)
    requires
        0 <= i < raw.len(),
        sorted_prefix(raw, samples, p, i),
        s == raw[i],
        0 <= j <= samples.len(),
        forall|k: int| 0 <= k < j ==> samples[k].sort_key() <= s.sort_key(),
        j < samples.len() ==> s.sort_key() < samples[j].sort_key(),
        forall|k: int| 0 <= k < i ==> (#[trigger] samples[k]).wf(mode),
        s.wf(mode),
    ensures
        sorted_prefix(raw, samples.insert(j, s), p.insert(j, i), i + 1),
        forall|k: int| 0 <= k < i + 1 ==> (#[trigger] samples.insert(j, s)[k]).wf(mode),
{
    let ns = samples.insert(j, s);
    let np = p.insert(j, i);
    assert forall|a: int, b: int|
        0 <= a < b < i + 1 implies #[trigger] ns[a].sort_key() < #[trigger] ns[b].sort_key() || (
        ns[a].sort_key() == ns[b].sort_key() && np[a] < np[b]) by {
        if b < j {
        } else if b == j {
            assert(ns[a] == samples[a]);
            assert(np[a] == p[a]);
        } else if a < j {
            assert(ns[b] == samples[b - 1]);
            assert(np[b] == p[b - 1]);
        } else if a == j {
            assert(ns[b] == samples[b - 1]);
            if b - 1 > j {
                assert(samples[j].sort_key() <= samples[b - 1].sort_key());
            }
        } else {
            assert(ns[a] == samples[a - 1]);
            assert(ns[b] == samples[b - 1]);
            assert(np[a] == p[a - 1]);
            assert(np[b] == p[b - 1]);
        }
    }
    assert forall|k: int| 0 <= k < i + 1 implies #[trigger] ns[k] == raw[np[k]] by {
        if k > j {
            assert(ns[k] == samples[k - 1]);
            assert(np[k] == p[k - 1]);
        }
    }
    assert forall|k: int| 0 <= k < i + 1 implies 0 <= #[trigger] np[k] < i + 1 by {
        if k > j {
            assert(np[k] == p[k - 1]);
        }
    }
    assert forall|a: int, b: int| 0 <= a < b < i + 1 implies #[trigger] np[a] != #[trigger] np[b] by {
        if a < j && b > j {
            assert(np[b] == p[b - 1]);
        } else if a > j {
            assert(np[a] == p[a - 1]);
            assert(np[b] == p[b - 1]);
        } else if a == j {
            assert(np[b] == p[b - 1]);
        } else if b == j {
        }
    }
    assert forall|k: int| 0 <= k < i + 1 implies (#[trigger] ns[k]).wf(mode) by {
        if k > j {
            assert(ns[k] == samples[k - 1]);
        }
    }
}

/// Builds the samples for `mode` and orders them so that exact,
/// high-information samples are checked first.
pub fn make_samples(
    rel_dx: &[i32],
    rel_dy: &[i32],
    rel_dz: &[i32],
    rel_packed: &[u16],
    rel_mask: &[u16],
    rel_drip: &[u8],
    mode: SeedMode,
) -> (r: Result<Vec<Sample>, ScanError>)
    ensures
        match r {
            Ok(v) => {
                &&& same_lengths(rel_dx@, rel_dy@, rel_dz@, rel_packed@, rel_mask@, rel_drip@)
                &&& is_stable_sort(
                    raw_samples(
                        rel_dx@,
                        rel_dy@,
                        rel_dz@,
                        rel_packed@,
                        rel_mask@,
                        rel_drip@,
                        mode,
                    ),
                    v@,
                )
                &&& forall|i: int| 0 <= i < v@.len() ==> (#[trigger] v@[i]).wf(mode)
            },
            Err(e) => {
                &&& e == ScanError::LengthMismatch
                &&& !same_lengths(rel_dx@, rel_dy@, rel_dz@, rel_packed@, rel_mask@, rel_drip@)
            },
        },
{
    let n = validate_lengths(rel_dx, rel_dy, rel_dz, rel_packed, rel_mask, rel_drip)?;
    let ghost raw = raw_samples(
        rel_dx@,
        rel_dy@,
        rel_dz@,
        rel_packed@,
        rel_mask@,
        rel_drip@,
        mode,
    );
    let mut samples: Vec<Sample> = Vec::with_capacity(n);
    let ghost mut p: Seq<int> = Seq::empty();
    let mut i: usize = 0;
    while i < n
        invariant
            n == rel_dx@.len(),
            n == rel_dy@.len(),
            n == rel_dz@.len(),
            n == rel_packed@.len(),
            n == rel_mask@.len(),
            n == rel_drip@.len(),
            raw == raw_samples(rel_dx@, rel_dy@, rel_dz@, rel_packed@, rel_mask@, rel_drip@, mode),
            i <= n,
            sorted_prefix(raw, samples@, p, i as int),
            forall|k: int| 0 <= k < i ==> (#[trigger] samples@[k]).wf(mode),
        decreases n - i,
    {
        let s = Sample::new(
            rel_dx[i],
            rel_dy[i],
            rel_dz[i],
            rel_packed[i],
            rel_mask[i],
            rel_drip[i] != 0,
            mode,
        );
        assert(s == raw[i as int]);
        // Stable insertion: after every sample whose key is not greater.
        let mut j: usize = 0;
        while j < samples.len() && !sorts_before(s, samples[j])
            invariant
                j <= samples@.len(),
                forall|k: int| 0 <= k < j ==> samples@[k].sort_key() <= s.sort_key(),
            decreases samples@.len() - j,
        {
            j = j + 1;
        }
        let ghost old_samples = samples@;
        let ghost old_p = p;
        samples.insert(j, s);
        proof {
            lemma_stable_insert(raw, old_samples, old_p, s, i as int, j as int, mode);
            p = old_p.insert(j as int, i as int);
        }
        i = i + 1;
    }
    proof {
        assert(raw.len() == i);
        assert(sorted_prefix(raw, samples@, p, raw.len() as int));
    }
    Ok(samples)
}

/// The position at which `raw[u]` stands before `raw[v]` in a stable sort.
pub open spec fn stably_before(raw: Seq<Sample>, u: int, v: int) -> bool {
    raw[u].sort_key() < raw[v].sort_key() || (raw[u].sort_key() == raw[v].sort_key() && u < v)
}

/// An index permutation of `0..n` takes every value of `0..n`.
pub proof fn lemma_index_permutation_onto(p: Seq<int>, n: nat, j: int)
    requires
        is_index_permutation(p, n),
        0 <= j < n,
    ensures
        exists|k: int| 0 <= k < n && p[k] == j,
{
    assert(p.no_duplicates()) by {
        assert forall|a: int, b: int| 0 <= a < p.len() && 0 <= b < p.len() && a != b implies p[a]
            != p[b] by {
            if a < b {
                assert(p[a] != p[b]);
            } else {
                assert(p[b] != p[a]);
            }
        }
    }
    p.unique_seq_to_set();
    let range = vstd::set_lib::set_int_range(0, n as int);
    vstd::set_lib::lemma_int_range(0, n as int);
    assert(p.to_set().subset_of(range)) by {
        assert forall|v: int| p.to_set().contains(v) implies range.contains(v) by {
            let k = choose|k: int| 0 <= k < p.len() && p[k] == v;
            assert(0 <= p[k] < n);
        }
    }
    vstd::seq_lib::seq_to_set_is_finite(p);
    vstd::set_lib::lemma_subset_equality(p.to_set(), range);
    assert(range.contains(j));
    assert(p.to_set().contains(j));
}

/// Two stable sorts of the same samples list them by the same permutation.
proof fn lemma_stable_sort_same_index(
    raw: Seq<Sample>,
    a: Seq<Sample>,
    p: Seq<int>,
    b: Seq<Sample>,
    q: Seq<int>,
    k: int,
)
    requires
        sorted_prefix(raw, a, p, raw.len() as int),
        sorted_prefix(raw, b, q, raw.len() as int),
        0 <= k < raw.len(),
    ensures
        p[k] == q[k],
    decreases k,
{
    let n = raw.len();
    let u = p[k];
    let v = q[k];
    if u != v {
        if stably_before(raw, u, v) {
            lemma_index_permutation_onto(q, n, u);
            let m = choose|m: int| 0 <= m < n && q[m] == u;
            if m < k {
                lemma_stable_sort_same_index(raw, a, p, b, q, m);
                assert(p[m] == p[k]);
            } else {
                assert(b[k] == raw[v] && b[m] == raw[u]);
                assert(b[k].sort_key() < b[m].sort_key() || (b[k].sort_key() == b[m].sort_key()
                    && q[k] < q[m]));
            }
        } else {
            lemma_index_permutation_onto(p, n, v);
            let m = choose|m: int| 0 <= m < n && p[m] == v;
            if m < k {
                lemma_stable_sort_same_index(raw, a, p, b, q, m);
                assert(q[m] == q[k]);
            } else {
                assert(a[k] == raw[u] && a[m] == raw[v]);
                assert(a[k].sort_key() < a[m].sort_key() || (a[k].sort_key() == a[m].sort_key()
                    && p[k] < p[m]));
            }
        }
    }
}

/// A stable sort has one outcome: two stable sorts of the same samples are
/// equal.
pub proof fn law_stable_sort_unique(raw: Seq<Sample>, a: Seq<Sample>, b: Seq<Sample>)
    requires
        is_stable_sort(raw, a),
        is_stable_sort(raw, b),
    ensures
        a == b,
{
    let n = raw.len() as int;
    let p = choose|p: Seq<int>| sorted_prefix(raw, a, p, n);
    let q = choose|q: Seq<int>| sorted_prefix(raw, b, q, n);
    assert forall|k: int| 0 <= k < n implies a[k] == b[k] by {
        lemma_stable_sort_same_index(raw, a, p, b, q, k);
    }
    assert(a =~= b);
}

/// A stable sort lists exactly the samples it sorts.
pub proof fn lemma_stable_sort_same_elements(raw: Seq<Sample>, sorted: Seq<Sample>)
    requires
        is_stable_sort(raw, sorted),
    ensures
        forall|s: Sample| sorted.contains(s) <==> raw.contains(s),
{
    let n = raw.len() as int;
    let p = choose|p: Seq<int>| sorted_prefix(raw, sorted, p, n);
    assert forall|s: Sample| sorted.contains(s) <==> raw.contains(s) by {
        if sorted.contains(s) {
            let k = choose|k: int| 0 <= k < sorted.len() && sorted[k] == s;
            assert(raw[p[k]] == s);
        }
        if raw.contains(s) {
            let j = choose|j: int| 0 <= j < raw.len() && raw[j] == s;
            lemma_index_permutation_onto(p, raw.len(), j);
            let k = choose|k: int| 0 <= k < raw.len() && p[k] == j;
            assert(sorted[k] == s);
        }
    }
}

} // verus!
