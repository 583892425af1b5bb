//! The order in which a box scan reports matches.
//!
//! A scan walks a box with three nested loops (an outer, a middle and an
//! inner coordinate, each ascending) and reports a record for every point at
//! which the candidate test succeeds.  `cube` lists those records in walk
//! order; the result is that list, cut after `max_matches` records and
//! flattened.
use vstd::prelude::*;

verus! {

/// The record a scan reports at `(outer, middle, inner)`, if any.
pub type RecordFn = spec_fn(int, int, int) -> Option<Seq<i32>>;

/// The records along one inner line `ia..=ib`.
pub open spec fn line(f: RecordFn, o: int, m: int, ia: int, ib: int) -> Seq<Seq<i32>>
    decreases ib - ia + 1,
{
    if ib < ia {
        Seq::empty()
    } else {
        line(f, o, m, ia, ib - 1) + match f(o, m, ib) {
            Some(r) => seq![r],
            None => Seq::empty(),
        }
    }
}

/// The records of middle lines `ma..=mb` at outer coordinate `o`.
pub open spec fn plane(f: RecordFn, o: int, ma: int, mb: int, ia: int, ib: int) -> Seq<Seq<i32>>
    decreases mb - ma + 1,
{
    if mb < ma {
        Seq::empty()
    } else {
        plane(f, o, ma, mb - 1, ia, ib) + line(f, o, mb, ia, ib)
    }
}

/// The records of outer planes `oa..=ob`.
pub open spec fn cube(f: RecordFn, oa: int, ob: int, ma: int, mb: int, ia: int, ib: int) -> Seq<Seq<i32>>
    decreases ob - oa + 1,
{
    if ob < oa {
        Seq::empty()
    } else {
        cube(f, oa, ob - 1, ma, mb, ia, ib) + plane(f, ob, ma, mb, ia, ib)
    }
}

/// The records concatenated into one flat sequence.
pub open spec fn flat(s: Seq<Seq<i32>>) -> Seq<i32>
    decreases s.len(),
{
    if s.len() == 0 {
        Seq::empty()
    } else {
        flat(s.drop_last()) + s.last()
    }
}

/// At most the first `n` elements.
pub open spec fn take_upto<A>(s: Seq<A>, n: int) -> Seq<A> {
    if n < s.len() {
        s.take(n)
    } else {
        s
    }
}

pub open spec fn prefix_of<A>(a: Seq<A>, b: Seq<A>) -> bool {
    a.len() <= b.len() && b.take(a.len() as int) =~= a
}

pub proof fn lemma_prefix_trans<A>(a: Seq<A>, b: Seq<A>, c: Seq<A>)
    requires
        prefix_of(a, b),
        prefix_of(b, c),
    ensures
        prefix_of(a, c),
{
    assert(c.take(a.len() as int) =~= b.take(a.len() as int));
}

pub proof fn lemma_prefix_append<A>(p: Seq<A>, a: Seq<A>, b: Seq<A>)
    requires
        prefix_of(a, b),
    ensures
        prefix_of(p + a, p + b),
{
    assert((p + b).take((p + a).len() as int) =~= p + a);
}

pub proof fn lemma_prefix_concat<A>(a: Seq<A>, b: Seq<A>)
    ensures
        prefix_of(a, a + b),
{
    assert((a + b).take(a.len() as int) =~= a);
}

/// A prefix with at least `n` elements has the same first `n` elements.
pub proof fn lemma_prefix_take<A>(a: Seq<A>, b: Seq<A>, n: int)
    requires
        prefix_of(a, b),
        0 <= n <= a.len(),
    ensures
        take_upto(b, n) =~= a.take(n),
{
}

pub proof fn lemma_line_prefix(f: RecordFn, o: int, m: int, ia: int, ib1: int, ib2: int)
    requires
        ib1 <= ib2,
    ensures
        prefix_of(line(f, o, m, ia, ib1), line(f, o, m, ia, ib2)),
    decreases ib2 - ib1,
{
    if ib1 < ib2 {
        lemma_line_prefix(f, o, m, ia, ib1, ib2 - 1);
        if ib2 >= ia {
            lemma_prefix_concat(
                line(f, o, m, ia, ib2 - 1),
                match f(o, m, ib2) {
                    Some(r) => seq![r],
                    None => Seq::empty(),
                },
            );
            lemma_prefix_trans(line(f, o, m, ia, ib1), line(f, o, m, ia, ib2 - 1), line(f, o, m, ia, ib2));
        } else {
            assert(line(f, o, m, ia, ib2) =~= Seq::<Seq<i32>>::empty());
            assert(line(f, o, m, ia, ib1) =~= Seq::<Seq<i32>>::empty());
        }
    }
}

pub proof fn lemma_plane_prefix(f: RecordFn, o: int, ma: int, mb1: int, mb2: int, ia: int, ib: int)
    requires
        mb1 <= mb2,
    ensures
        prefix_of(plane(f, o, ma, mb1, ia, ib), plane(f, o, ma, mb2, ia, ib)),
    decreases mb2 - mb1,
{
    if mb1 < mb2 {
        lemma_plane_prefix(f, o, ma, mb1, mb2 - 1, ia, ib);
        if mb2 >= ma {
            lemma_prefix_concat(plane(f, o, ma, mb2 - 1, ia, ib), line(f, o, mb2, ia, ib));
            lemma_prefix_trans(
                plane(f, o, ma, mb1, ia, ib),
                plane(f, o, ma, mb2 - 1, ia, ib),
                plane(f, o, ma, mb2, ia, ib),
            );
        } else {
            assert(plane(f, o, ma, mb2, ia, ib) =~= Seq::<Seq<i32>>::empty());
            assert(plane(f, o, ma, mb1, ia, ib) =~= Seq::<Seq<i32>>::empty());
        }
    }
}

pub proof fn lemma_cube_prefix(f: RecordFn, oa: int, ob1: int, ob2: int, ma: int, mb: int, ia: int, ib: int)
    requires
        ob1 <= ob2,
    ensures
        prefix_of(cube(f, oa, ob1, ma, mb, ia, ib), cube(f, oa, ob2, ma, mb, ia, ib)),
    decreases ob2 - ob1,
{
    if ob1 < ob2 {
        lemma_cube_prefix(f, oa, ob1, ob2 - 1, ma, mb, ia, ib);
        if ob2 >= oa {
            lemma_prefix_concat(cube(f, oa, ob2 - 1, ma, mb, ia, ib), plane(f, ob2, ma, mb, ia, ib));
            lemma_prefix_trans(
                cube(f, oa, ob1, ma, mb, ia, ib),
                cube(f, oa, ob2 - 1, ma, mb, ia, ib),
                cube(f, oa, ob2, ma, mb, ia, ib),
            );
        } else {
            assert(cube(f, oa, ob2, ma, mb, ia, ib) =~= Seq::<Seq<i32>>::empty());
            assert(cube(f, oa, ob1, ma, mb, ia, ib) =~= Seq::<Seq<i32>>::empty());
        }
    }
}

/// The records gathered up to inner coordinate `i` of the walk are a prefix
/// of all the records of the box.
pub proof fn lemma_walk_prefix(
    f: RecordFn,
    oa: int,
    ob: int,
    ma: int,
    mb: int,
    ia: int,
    ib: int,
    o: int,
    m: int,
    i: int,
)
    requires
        oa <= o <= ob,
        ma <= m <= mb,
        i <= ib,
    ensures
        prefix_of(
            cube(f, oa, o - 1, ma, mb, ia, ib) + plane(f, o, ma, m - 1, ia, ib) + line(f, o, m, ia, i),
            cube(f, oa, ob, ma, mb, ia, ib),
        ),
{
    let c = cube(f, oa, o - 1, ma, mb, ia, ib);
    let p = plane(f, o, ma, m - 1, ia, ib);
    lemma_line_prefix(f, o, m, ia, i, ib);
    lemma_prefix_append(c + p, line(f, o, m, ia, i), line(f, o, m, ia, ib));
    assert(c + p + line(f, o, m, ia, ib) =~= c + plane(f, o, ma, m, ia, ib));
    lemma_plane_prefix(f, o, ma, m, mb, ia, ib);
    lemma_prefix_append(c, plane(f, o, ma, m, ia, ib), plane(f, o, ma, mb, ia, ib));
    lemma_prefix_trans(
        c + p + line(f, o, m, ia, i),
        c + p + line(f, o, m, ia, ib),
        c + plane(f, o, ma, mb, ia, ib),
    );
    assert(c + plane(f, o, ma, mb, ia, ib) =~= cube(f, oa, o, ma, mb, ia, ib));
    lemma_cube_prefix(f, oa, o, ob, ma, mb, ia, ib);
    lemma_prefix_trans(
        c + p + line(f, o, m, ia, i),
        cube(f, oa, o, ma, mb, ia, ib),
        cube(f, oa, ob, ma, mb, ia, ib),
    );
}

/// Skipping inner coordinates that report nothing leaves the line unchanged.
pub proof fn lemma_line_skip(f: RecordFn, o: int, m: int, ia: int, ib1: int, ib2: int)
    requires
        ia - 1 <= ib1 <= ib2,
        forall|i: int| ib1 < i <= ib2 ==> #[trigger] f(o, m, i) is None,
    ensures
        line(f, o, m, ia, ib2) == line(f, o, m, ia, ib1),
    decreases ib2 - ib1,
{
    if ib1 < ib2 {
        lemma_line_skip(f, o, m, ia, ib1, ib2 - 1);
        assert(f(o, m, ib2) is None);
        assert(line(f, o, m, ia, ib2) =~= line(f, o, m, ia, ib2 - 1));
    }
}

pub proof fn lemma_flat_push(s: Seq<Seq<i32>>, r: Seq<i32>)
    ensures
        flat(s.push(r)) == flat(s) + r,
{
    assert(s.push(r).drop_last() =~= s);
}

/// The walk reports record `r` at `(o, m, i)`.
pub open spec fn reports(f: RecordFn, o: int, m: int, i: int, r: Seq<i32>) -> bool {
    f(o, m, i) == Some(r)
}

pub proof fn lemma_concat_contains<A>(a: Seq<A>, b: Seq<A>, r: A)
    ensures
        (a + b).contains(r) <==> (a.contains(r) || b.contains(r)),
{
    if (a + b).contains(r) {
        let k = choose|k: int| 0 <= k < (a + b).len() && (a + b)[k] == r;
        if k < a.len() {
            assert(a[k] == r);
        } else {
            assert(b[k - a.len()] == r);
        }
    }
    if a.contains(r) {
        let k = choose|k: int| 0 <= k < a.len() && a[k] == r;
        assert((a + b)[k] == r);
    }
    if b.contains(r) {
        let k = choose|k: int| 0 <= k < b.len() && b[k] == r;
        assert((a + b)[k + a.len()] == r);
    }
}

/// A line holds exactly the records reported along it.
pub proof fn lemma_line_contains(f: RecordFn, o: int, m: int, ia: int, ib: int, r: Seq<i32>)
    ensures
        line(f, o, m, ia, ib).contains(r) <==> exists|i: int| ia <= i <= ib && #[trigger] reports(f, o, m, i, r),
    decreases ib - ia + 1,
{
    if ib >= ia {
        lemma_line_contains(f, o, m, ia, ib - 1, r);
        let last = match f(o, m, ib) {
            Some(x) => seq![x],
            None => Seq::<Seq<i32>>::empty(),
        };
        lemma_concat_contains(line(f, o, m, ia, ib - 1), last, r);
        if last.contains(r) {
            assert(last[0] == r);
            assert(reports(f, o, m, ib, r));
        }
        if reports(f, o, m, ib, r) {
            assert(last[0] == r);
        }
    }
}

/// A plane holds exactly the records reported in it.
pub proof fn lemma_plane_contains(f: RecordFn, o: int, ma: int, mb: int, ia: int, ib: int, r: Seq<i32>)
    ensures
        plane(f, o, ma, mb, ia, ib).contains(r) <==> exists|m: int, i: int|
            ma <= m <= mb && ia <= i <= ib && #[trigger] reports(f, o, m, i, r),
    decreases mb - ma + 1,
{
    if mb >= ma {
        lemma_plane_contains(f, o, ma, mb - 1, ia, ib, r);
        lemma_line_contains(f, o, mb, ia, ib, r);
        lemma_concat_contains(plane(f, o, ma, mb - 1, ia, ib), line(f, o, mb, ia, ib), r);
    }
}

/// A box walk holds exactly the records reported in the box.
pub proof fn lemma_cube_contains(
    f: RecordFn,
    oa: int,
    ob: int,
    ma: int,
    mb: int,
    ia: int,
    ib: int,
    r: Seq<i32>,
)
    ensures
        cube(f, oa, ob, ma, mb, ia, ib).contains(r) <==> exists|o: int, m: int, i: int|
            oa <= o <= ob && ma <= m <= mb && ia <= i <= ib && #[trigger] reports(f, o, m, i, r),
    decreases ob - oa + 1,
{
    if ob >= oa {
        lemma_cube_contains(f, oa, ob - 1, ma, mb, ia, ib, r);
        lemma_plane_contains(f, ob, ma, mb, ia, ib, r);
        lemma_concat_contains(cube(f, oa, ob - 1, ma, mb, ia, ib), plane(f, ob, ma, mb, ia, ib), r);
    }
}

/// Allowing more records keeps the records already allowed.
pub proof fn lemma_take_upto_prefix<A>(s: Seq<A>, n1: int, n2: int)
    requires
        0 <= n1 <= n2,
    ensures
        prefix_of(take_upto(s, n1), take_upto(s, n2)),
{
    assert(take_upto(s, n2).take(take_upto(s, n1).len() as int) =~= take_upto(s, n1));
}

/// Flattening keeps prefixes.
pub proof fn lemma_flat_prefix(a: Seq<Seq<i32>>, b: Seq<Seq<i32>>)
    requires
        prefix_of(a, b),
    ensures
        prefix_of(flat(a), flat(b)),
    decreases b.len(),
{
    if a.len() == b.len() {
        assert(a =~= b);
        assert(flat(b).take(flat(a).len() as int) =~= flat(a));
    } else {
        assert(prefix_of(a, b.drop_last())) by {
            assert(b.drop_last().take(a.len() as int) =~= b.take(a.len() as int));
        }
        lemma_flat_prefix(a, b.drop_last());
        lemma_prefix_concat(flat(b.drop_last()), b.last());
        lemma_prefix_trans(flat(a), flat(b.drop_last()), flat(b));
    }
}

/// Different points of the box never report the same record.
pub open spec fn records_distinct(f: RecordFn, oa: int, ob: int, ma: int, mb: int, ia: int, ib: int) -> bool {
    forall|o1: int, m1: int, i1: int, o2: int, m2: int, i2: int, r: Seq<i32>|
        #![trigger reports(f, o1, m1, i1, r), reports(f, o2, m2, i2, r)]
        oa <= o1 <= ob && ma <= m1 <= mb && ia <= i1 <= ib && oa <= o2 <= ob && ma <= m2 <= mb && ia <= i2
            <= ib && reports(f, o1, m1, i1, r) && reports(f, o2, m2, i2, r) ==> o1 == o2 && m1 == m2 && i1
            == i2
}

pub proof fn lemma_line_no_duplicates(f: RecordFn, o: int, m: int, ia: int, ib: int, oa: int, ob: int, ma: int, mb: int)
    requires
        records_distinct(f, oa, ob, ma, mb, ia, ib),
        oa <= o <= ob,
        ma <= m <= mb,
    ensures
        line(f, o, m, ia, ib).no_duplicates(),
    decreases ib - ia + 1,
{
    if ib >= ia {
        assert(records_distinct(f, oa, ob, ma, mb, ia, ib - 1));
        lemma_line_no_duplicates(f, o, m, ia, ib - 1, oa, ob, ma, mb);
        let front = line(f, o, m, ia, ib - 1);
        let last = match f(o, m, ib) {
            Some(x) => seq![x],
            None => Seq::<Seq<i32>>::empty(),
        };
        assert forall|r: Seq<i32>| front.contains(r) implies !last.contains(r) by {
            lemma_line_contains(f, o, m, ia, ib - 1, r);
            let i = choose|i: int| ia <= i <= ib - 1 && #[trigger] reports(f, o, m, i, r);
            if last.contains(r) {
                assert(last[0] == r);
                assert(reports(f, o, m, ib, r));
            }
        }
        assert forall|i: int, j: int| 0 <= i < front.len() && 0 <= j < last.len() implies front[i]
            != last[j] by {
            assert(front.contains(front[i]));
            assert(last.contains(last[j]));
        }
        vstd::seq_lib::lemma_no_dup_in_concat(front, last);
    }
}

pub proof fn lemma_plane_no_duplicates(f: RecordFn, o: int, ma: int, mb: int, ia: int, ib: int, oa: int, ob: int, mlo: int, mhi: int)
    requires
        records_distinct(f, oa, ob, mlo, mhi, ia, ib),
        oa <= o <= ob,
        mlo <= ma,
        mb <= mhi,
    ensures
        plane(f, o, ma, mb, ia, ib).no_duplicates(),
    decreases mb - ma + 1,
{
    if mb >= ma {
        lemma_plane_no_duplicates(f, o, ma, mb - 1, ia, ib, oa, ob, mlo, mhi);
        lemma_line_no_duplicates(f, o, mb, ia, ib, oa, ob, mlo, mhi);
        let front = plane(f, o, ma, mb - 1, ia, ib);
        let last = line(f, o, mb, ia, ib);
        assert forall|r: Seq<i32>| front.contains(r) implies !last.contains(r) by {
            lemma_plane_contains(f, o, ma, mb - 1, ia, ib, r);
            lemma_line_contains(f, o, mb, ia, ib, r);
            let (m1, i1) = choose|m1: int, i1: int| ma <= m1 <= mb - 1 && ia <= i1 <= ib && #[trigger] reports(f, o, m1, i1, r);
            if last.contains(r) {
                let i2 = choose|i2: int| ia <= i2 <= ib && #[trigger] reports(f, o, mb, i2, r);
                assert(reports(f, o, m1, i1, r) && reports(f, o, mb, i2, r));
            }
        }
        assert forall|i: int, j: int| 0 <= i < front.len() && 0 <= j < last.len() implies front[i]
            != last[j] by {
            assert(front.contains(front[i]));
            assert(last.contains(last[j]));
        }
        vstd::seq_lib::lemma_no_dup_in_concat(front, last);
    }
}

/// A walk of a box in which different points report different records lists
/// no record twice.
pub proof fn lemma_cube_no_duplicates(f: RecordFn, oa: int, ob: int, ma: int, mb: int, ia: int, ib: int, olo: int, ohi: int)
    requires
        records_distinct(f, olo, ohi, ma, mb, ia, ib),
        olo <= oa,
        ob <= ohi,
    ensures
        cube(f, oa, ob, ma, mb, ia, ib).no_duplicates(),
    decreases ob - oa + 1,
{
    if ob >= oa {
        lemma_cube_no_duplicates(f, oa, ob - 1, ma, mb, ia, ib, olo, ohi);
        lemma_plane_no_duplicates(f, ob, ma, mb, ia, ib, olo, ohi, ma, mb);
        let front = cube(f, oa, ob - 1, ma, mb, ia, ib);
        let last = plane(f, ob, ma, mb, ia, ib);
        assert forall|r: Seq<i32>| front.contains(r) implies !last.contains(r) by {
            lemma_cube_contains(f, oa, ob - 1, ma, mb, ia, ib, r);
            lemma_plane_contains(f, ob, ma, mb, ia, ib, r);
            let (o1, m1, i1) = choose|o1: int, m1: int, i1: int|
                oa <= o1 <= ob - 1 && ma <= m1 <= mb && ia <= i1 <= ib && #[trigger] reports(f, o1, m1, i1, r);
            if last.contains(r) {
                let (m2, i2) = choose|m2: int, i2: int| ma <= m2 <= mb && ia <= i2 <= ib && #[trigger] reports(f, ob, m2, i2, r);
                assert(reports(f, o1, m1, i1, r) && reports(f, ob, m2, i2, r));
            }
        }
        assert forall|i: int, j: int| 0 <= i < front.len() && 0 <= j < last.len() implies front[i]
            != last[j] by {
            assert(front.contains(front[i]));
            assert(last.contains(last[j]));
        }
        vstd::seq_lib::lemma_no_dup_in_concat(front, last);
    }
}

/// Flattening records of length `k` gives `k` values per record.
pub proof fn lemma_flat_len(s: Seq<Seq<i32>>, k: int)
    requires
        forall|j: int| 0 <= j < s.len() ==> (#[trigger] s[j]).len() == k,
    ensures
        flat(s).len() == k * s.len(),
    decreases s.len(),
{
    if s.len() > 0 {
        lemma_flat_len(s.drop_last(), k);
        assert(s.last() == s[s.len() - 1]);
        assert(k * s.len() == k * (s.len() - 1) + k) by (nonlinear_arith);
    }
}

} // verus!
