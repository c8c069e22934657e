use vstd::prelude::*;
use crate::point::{
    box_volume, dominated_in, dominates_spec, ints, lemma_maximal_dominator, limit_spec,
    nd_pred, nd_spec, pmin, sum_volumes, valid_point, valid_points, widths_product,
};

verus! {

// ---------------------------------------------------------------------------
// Sums over a lattice grid
// ---------------------------------------------------------------------------

/// `c` lies in the half-open cube `[a, b)`: `a[k] <= c[k] < b[k]` in every coordinate.
pub open spec fn in_cube(c: Seq<int>, a: Seq<int>, b: Seq<int>) -> bool {
    &&& c.len() == a.len()
    &&& forall|k: int| 0 <= k < c.len() ==> a[k] <= #[trigger] c[k] < b[k]
}

/// `f` with its last argument coordinate fixed to `x`.
pub open spec fn fix_last(f: spec_fn(Seq<int>) -> int, x: int) -> spec_fn(Seq<int>) -> int {
    |t: Seq<int>| f(t.push(x))
}

/// Sum of `f` over the lattice cells `c` with `lo <= c < hi`.
pub open spec fn grid_sum(f: spec_fn(Seq<int>) -> int, lo: Seq<int>, hi: Seq<int>) -> int
    decreases lo.len(), hi.last() - lo.last(),
{
    if lo.len() == 0 {
        f(Seq::empty())
    } else if hi.last() <= lo.last() {
        0
    } else {
        grid_sum(fix_last(f, lo.last()), lo.drop_last(), hi.drop_last()) + grid_sum(
            f,
            lo.update(lo.len() - 1, lo.last() + 1),
            hi,
        )
    }
}

/// Indicator of the cube `[a, b)`.
pub open spec fn cube_ind(a: Seq<int>, b: Seq<int>) -> spec_fn(Seq<int>) -> int {
    |c: Seq<int>| if in_cube(c, a, b) { 1int } else { 0int }
}

/// The zero function.
pub open spec fn zero_fn() -> spec_fn(Seq<int>) -> int {
    |c: Seq<int>| 0int
}

/// `lo <= a <= b <= hi` coordinatewise, all of one length.
pub open spec fn nested(lo: Seq<int>, a: Seq<int>, b: Seq<int>, hi: Seq<int>) -> bool {
    &&& lo.len() == a.len()
    &&& a.len() == b.len()
    &&& b.len() == hi.len()
    &&& forall|k: int| 0 <= k < lo.len() ==> lo[k] <= #[trigger] a[k] <= b[k] <= hi[k]
}

/// Number of integers `x` with `max(from, a) <= x < b`.
pub open spec fn row_count(from: int, a: int, b: int) -> int {
    if from >= b {
        0
    } else if from >= a {
        b - from
    } else {
        b - a
    }
}

proof fn lemma_cube_push(t: Seq<int>, x: int, lo: Seq<int>, hi: Seq<int>)
    requires
        lo.len() == hi.len(),
        lo.len() >= 1,
        in_cube(t, lo.drop_last(), hi.drop_last()),
        lo.last() <= x < hi.last(),
    ensures
        in_cube(t.push(x), lo, hi),
{
    assert forall|k: int| 0 <= k < t.push(x).len() implies lo[k] <= #[trigger] t.push(x)[k] < hi[k] by {
        if k < t.len() {
            assert(t.push(x)[k] == t[k]);
            assert(lo.drop_last()[k] <= t[k] < hi.drop_last()[k]);
        }
    }
}

proof fn lemma_cube_shrink(c: Seq<int>, lo: Seq<int>, hi: Seq<int>)
    requires
        lo.len() == hi.len(),
        lo.len() >= 1,
        in_cube(c, lo.update(lo.len() - 1, lo.last() + 1), hi),
    ensures
        in_cube(c, lo, hi),
{
    let lo2 = lo.update(lo.len() - 1, lo.last() + 1);
    assert forall|k: int| 0 <= k < c.len() implies lo[k] <= #[trigger] c[k] < hi[k] by {
        assert(lo2[k] <= c[k] < hi[k]);
    }
}

/// A function bounded pointwise by another on the grid has the smaller grid sum.
pub proof fn lemma_grid_mono(
    f: spec_fn(Seq<int>) -> int,
    g: spec_fn(Seq<int>) -> int,
    lo: Seq<int>,
    hi: Seq<int>,
)
    requires
        lo.len() == hi.len(),
        forall|c: Seq<int>| #[trigger] in_cube(c, lo, hi) ==> f(c) <= g(c),
    ensures
        grid_sum(f, lo, hi) <= grid_sum(g, lo, hi),
    decreases lo.len(), hi.last() - lo.last(),
{
    if lo.len() == 0 {
        assert(in_cube(Seq::empty(), lo, hi));
    } else if hi.last() <= lo.last() {
    } else {
        let x = lo.last();
        assert forall|t: Seq<int>| #[trigger] in_cube(t, lo.drop_last(), hi.drop_last()) implies fix_last(
            f,
            x,
        )(t) <= fix_last(g, x)(t) by {
            lemma_cube_push(t, x, lo, hi);
        }
        lemma_grid_mono(fix_last(f, x), fix_last(g, x), lo.drop_last(), hi.drop_last());
        let lo2 = lo.update(lo.len() - 1, x + 1);
        assert forall|c: Seq<int>| #[trigger] in_cube(c, lo2, hi) implies f(c) <= g(c) by {
            lemma_cube_shrink(c, lo, hi);
        }
        lemma_grid_mono(f, g, lo2, hi);
    }
}

/// Grid sums are additive.
pub proof fn lemma_grid_add(
    f: spec_fn(Seq<int>) -> int,
    g: spec_fn(Seq<int>) -> int,
    h: spec_fn(Seq<int>) -> int,
    lo: Seq<int>,
    hi: Seq<int>,
)
    requires
        lo.len() == hi.len(),
        forall|c: Seq<int>| #[trigger] in_cube(c, lo, hi) ==> h(c) == f(c) + g(c),
    ensures
        grid_sum(h, lo, hi) == grid_sum(f, lo, hi) + grid_sum(g, lo, hi),
    decreases lo.len(), hi.last() - lo.last(),
{
    if lo.len() == 0 {
        assert(in_cube(Seq::empty(), lo, hi));
    } else if hi.last() <= lo.last() {
    } else {
        let x = lo.last();
        assert forall|t: Seq<int>| #[trigger] in_cube(t, lo.drop_last(), hi.drop_last()) implies fix_last(
            h,
            x,
        )(t) == fix_last(f, x)(t) + fix_last(g, x)(t) by {
            lemma_cube_push(t, x, lo, hi);
        }
        lemma_grid_add(fix_last(f, x), fix_last(g, x), fix_last(h, x), lo.drop_last(), hi.drop_last());
        let lo2 = lo.update(lo.len() - 1, x + 1);
        assert forall|c: Seq<int>| #[trigger] in_cube(c, lo2, hi) implies h(c) == f(c) + g(c) by {
            lemma_cube_shrink(c, lo, hi);
        }
        lemma_grid_add(f, g, h, lo2, hi);
    }
}

/// The zero function sums to zero.
pub proof fn lemma_grid_zero(lo: Seq<int>, hi: Seq<int>)
    requires
        lo.len() == hi.len(),
    ensures
        grid_sum(zero_fn(), lo, hi) == 0,
{
    lemma_grid_add(zero_fn(), zero_fn(), zero_fn(), lo, hi);
}

/// Functions equal on the grid have equal grid sums.
pub proof fn lemma_grid_eq(
    f: spec_fn(Seq<int>) -> int,
    g: spec_fn(Seq<int>) -> int,
    lo: Seq<int>,
    hi: Seq<int>,
)
    requires
        lo.len() == hi.len(),
        forall|c: Seq<int>| #[trigger] in_cube(c, lo, hi) ==> f(c) == g(c),
    ensures
        grid_sum(f, lo, hi) == grid_sum(g, lo, hi),
{
    lemma_grid_mono(f, g, lo, hi);
    lemma_grid_mono(g, f, lo, hi);
}

/// A function that is non-negative on the grid has a non-negative grid sum.
pub proof fn lemma_grid_nonneg(f: spec_fn(Seq<int>) -> int, lo: Seq<int>, hi: Seq<int>)
    requires
        lo.len() == hi.len(),
        forall|c: Seq<int>| #[trigger] in_cube(c, lo, hi) ==> f(c) >= 0,
    ensures
        grid_sum(f, lo, hi) >= 0,
{
    lemma_grid_zero(lo, hi);
    lemma_grid_mono(zero_fn(), f, lo, hi);
}

/// The cube `[a, b)` inside the grid `[lo, hi)` holds the product of its widths in cells.
pub proof fn lemma_cube_count(a: Seq<int>, b: Seq<int>, lo: Seq<int>, hi: Seq<int>)
    requires
        nested(lo, a, b, hi),
    ensures
        grid_sum(cube_ind(a, b), lo, hi) == widths_product(a, b),
    decreases lo.len(), 1int, 0int,
{
    if lo.len() == 0 {
        assert(in_cube(Seq::empty(), a, b));
    } else {
        let n = lo.len() - 1;
        assert(lo[n] <= a[n] <= b[n] <= hi[n]);
        lemma_cube_row(a, b, lo, hi);
        let w = widths_product(a.drop_last(), b.drop_last());
        assert(row_count(lo.last(), a.last(), b.last()) == b.last() - a.last());
        assert(row_count(lo.last(), a.last(), b.last()) * w == w * (b.last() - a.last()))
            by (nonlinear_arith)
            requires
                row_count(lo.last(), a.last(), b.last()) == b.last() - a.last(),
        ;
    }
}

proof fn lemma_cube_row(a: Seq<int>, b: Seq<int>, lo: Seq<int>, hi: Seq<int>)
    requires
        lo.len() >= 1,
        lo.len() == a.len(),
        a.len() == b.len(),
        b.len() == hi.len(),
        nested(lo.drop_last(), a.drop_last(), b.drop_last(), hi.drop_last()),
        a.last() <= b.last() <= hi.last(),
    ensures
        grid_sum(cube_ind(a, b), lo, hi) == row_count(lo.last(), a.last(), b.last())
            * widths_product(a.drop_last(), b.drop_last()),
    decreases lo.len(), 0int, hi.last() - lo.last(),
{
    let w = widths_product(a.drop_last(), b.drop_last());
    let x = lo.last();
    if hi.last() <= x {
        assert(row_count(x, a.last(), b.last()) == 0);
        assert(0 * w == 0) by (nonlinear_arith);
    } else {
        let f = cube_ind(a, b);
        let lo2 = lo.update(lo.len() - 1, x + 1);
        assert(lo2.drop_last() =~= lo.drop_last());
        lemma_cube_row(a, b, lo2, hi);
        let s1 = grid_sum(fix_last(f, x), lo.drop_last(), hi.drop_last());
        let inside = a.last() <= x < b.last();
        if inside {
            assert forall|t: Seq<int>| #[trigger] in_cube(t, lo.drop_last(), hi.drop_last()) implies fix_last(
                f,
                x,
            )(t) == cube_ind(a.drop_last(), b.drop_last())(t) by {
                if in_cube(t, a.drop_last(), b.drop_last()) {
                    assert forall|k: int| 0 <= k < t.push(x).len() implies a[k] <= #[trigger] t.push(
                        x,
                    )[k] < b[k] by {
                        if k < t.len() {
                            assert(t.push(x)[k] == t[k]);
                            assert(a.drop_last()[k] <= t[k] < b.drop_last()[k]);
                        }
                    }
                    assert(in_cube(t.push(x), a, b));
                } else {
                    if in_cube(t.push(x), a, b) {
                        assert forall|k: int| 0 <= k < t.len() implies a.drop_last()[k]
                            <= #[trigger] t[k] < b.drop_last()[k] by {
                            assert(t.push(x)[k] == t[k]);
                            assert(a[k] <= t.push(x)[k] < b[k]);
                        }
                    }
                }
            }
            lemma_grid_eq(fix_last(f, x), cube_ind(a.drop_last(), b.drop_last()), lo.drop_last(), hi.drop_last());
            lemma_cube_count(a.drop_last(), b.drop_last(), lo.drop_last(), hi.drop_last());
            assert(s1 == w);
        } else {
            assert forall|t: Seq<int>| #[trigger] in_cube(t, lo.drop_last(), hi.drop_last()) implies fix_last(
                f,
                x,
            )(t) == zero_fn()(t) by {
                if in_cube(t.push(x), a, b) {
                    assert(a[t.len() as int] <= t.push(x)[t.len() as int] < b[t.len() as int]);
                }
            }
            lemma_grid_eq(fix_last(f, x), zero_fn(), lo.drop_last(), hi.drop_last());
            lemma_grid_zero(lo.drop_last(), hi.drop_last());
            assert(s1 == 0);
        }
        let rc = row_count(x, a.last(), b.last());
        let rc2 = row_count(x + 1, a.last(), b.last());
        let ind: int = if inside { 1 } else { 0 };
        assert(rc == ind + rc2);
        assert(s1 == ind * w) by (nonlinear_arith)
            requires
                ind == 1 ==> s1 == w,
                ind == 0 ==> s1 == 0,
                ind == 0 || ind == 1,
        ;
        assert(rc * w == ind * w + rc2 * w) by (nonlinear_arith)
            requires
                rc == ind + rc2,
        ;
    }
}


// ---------------------------------------------------------------------------
// The measure of a union of boxes
// ---------------------------------------------------------------------------

/// Cell `c` lies in the box spanned by the reference point `r` and the point `p`.
pub open spec fn in_box(c: Seq<int>, p: Seq<i64>, r: Seq<i64>) -> bool {
    in_cube(c, ints(r), ints(p))
}

/// Cell `c` lies in the box of some point of `ps`.
pub open spec fn covered(c: Seq<int>, ps: Seq<Seq<i64>>, r: Seq<i64>) -> bool {
    exists|i: int| 0 <= i < ps.len() && #[trigger] in_box(c, ps[i], r)
}

/// Indicator of the union of the boxes of `ps`.
pub open spec fn cover_ind(ps: Seq<Seq<i64>>, r: Seq<i64>) -> spec_fn(Seq<int>) -> int {
    |c: Seq<int>| if covered(c, ps, r) { 1int } else { 0int }
}

/// Indicator of the part of the box of `p` that no box of `rest` covers.
pub open spec fn excl_ind(p: Seq<i64>, rest: Seq<Seq<i64>>, r: Seq<i64>) -> spec_fn(Seq<int>) -> int {
    |c: Seq<int>| if in_box(c, p, r) && !covered(c, rest, r) { 1int } else { 0int }
}

/// The corner beyond every `i64` point: each coordinate is `2^63`.
pub open spec fn lattice_top(d: nat) -> Seq<int> {
    Seq::new(d, |k: int| 0x8000_0000_0000_0000int)
}

/// Number of cells `c` with `r <= c < 2^63` (coordinatewise) counted by the indicator `f`.
pub open spec fn cells(f: spec_fn(Seq<int>) -> int, r: Seq<i64>) -> int {
    grid_sum(f, ints(r), lattice_top(r.len()))
}

/// The hypervolume of `ps` with respect to `r`: the number of unit lattice cells that lie in
/// the box `[r, p)` of at least one point `p` of `ps`.
pub open spec fn hv_measure(ps: Seq<Seq<i64>>, r: Seq<i64>) -> int {
    cells(cover_ind(ps, r), r)
}

pub proof fn lemma_box_cells(p: Seq<i64>, r: Seq<i64>)
    requires
        valid_point(p, r),
    ensures
        cells(cube_ind(ints(r), ints(p)), r) == box_volume(p, r),
{
    let top = lattice_top(r.len());
    assert forall|k: int| 0 <= k < r.len() implies ints(r)[k] <= #[trigger] ints(r)[k] <= ints(p)[k] <= top[k] by {
        assert(p[k] <= i64::MAX);
    }
    lemma_cube_count(ints(r), ints(p), ints(r), top);
}

pub proof fn lemma_measure_empty(r: Seq<i64>)
    ensures
        hv_measure(Seq::empty(), r) == 0,
{
    let top = lattice_top(r.len());
    lemma_grid_eq(cover_ind(Seq::empty(), r), zero_fn(), ints(r), top);
    lemma_grid_zero(ints(r), top);
}

pub proof fn lemma_cells_nonneg_ind(f: spec_fn(Seq<int>) -> int, r: Seq<i64>)
    requires
        forall|c: Seq<int>| #[trigger] f(c) == 0 || f(c) == 1,
    ensures
        cells(f, r) >= 0,
{
    lemma_grid_nonneg(f, ints(r), lattice_top(r.len()));
}

pub proof fn lemma_measure_nonneg(ps: Seq<Seq<i64>>, r: Seq<i64>)
    ensures
        hv_measure(ps, r) >= 0,
{
    lemma_cells_nonneg_ind(cover_ind(ps, r), r);
}

proof fn lemma_covered_first(c: Seq<int>, ps: Seq<Seq<i64>>, r: Seq<i64>)
    requires
        ps.len() >= 1,
    ensures
        covered(c, ps, r) == (in_box(c, ps[0], r) || covered(c, ps.drop_first(), r)),
{
    if covered(c, ps, r) {
        let i = choose|i: int| 0 <= i < ps.len() && #[trigger] in_box(c, ps[i], r);
        if i > 0 {
            assert(in_box(c, ps.drop_first()[i - 1], r));
        }
    }
    if covered(c, ps.drop_first(), r) {
        let i = choose|i: int| 0 <= i < ps.drop_first().len() && #[trigger] in_box(c, ps.drop_first()[i], r);
        assert(in_box(c, ps[i + 1], r));
    }
    if in_box(c, ps[0], r) {
        assert(covered(c, ps, r));
    }
}

proof fn lemma_covered_last(c: Seq<int>, ps: Seq<Seq<i64>>, r: Seq<i64>)
    requires
        ps.len() >= 1,
    ensures
        covered(c, ps, r) == (in_box(c, ps.last(), r) || covered(c, ps.drop_last(), r)),
{
    if covered(c, ps, r) {
        let i = choose|i: int| 0 <= i < ps.len() && #[trigger] in_box(c, ps[i], r);
        if i < ps.len() - 1 {
            assert(in_box(c, ps.drop_last()[i], r));
        }
    }
    if covered(c, ps.drop_last(), r) {
        let i = choose|i: int| 0 <= i < ps.drop_last().len() && #[trigger] in_box(c, ps.drop_last()[i], r);
        assert(in_box(c, ps[i], r));
    }
    if in_box(c, ps.last(), r) {
        assert(in_box(c, ps[ps.len() - 1], r));
    }
}

/// Splitting off the first point: the union is the part of its box outside the other boxes
/// together with the union of the other boxes.
pub proof fn lemma_measure_split_first(ps: Seq<Seq<i64>>, r: Seq<i64>)
    requires
        ps.len() >= 1,
    ensures
        hv_measure(ps, r) == cells(excl_ind(ps[0], ps.drop_first(), r), r) + hv_measure(ps.drop_first(), r),
{
    assert forall|c: Seq<int>| #[trigger] in_cube(c, ints(r), lattice_top(r.len())) implies cover_ind(ps, r)(c)
        == excl_ind(ps[0], ps.drop_first(), r)(c) + cover_ind(ps.drop_first(), r)(c) by {
        lemma_covered_first(c, ps, r);
    }
    lemma_grid_add(
        excl_ind(ps[0], ps.drop_first(), r),
        cover_ind(ps.drop_first(), r),
        cover_ind(ps, r),
        ints(r),
        lattice_top(r.len()),
    );
}

/// Splitting off the last point.
pub proof fn lemma_measure_split_last(ps: Seq<Seq<i64>>, r: Seq<i64>)
    requires
        ps.len() >= 1,
    ensures
        hv_measure(ps, r) == hv_measure(ps.drop_last(), r) + cells(excl_ind(ps.last(), ps.drop_last(), r), r),
{
    assert forall|c: Seq<int>| #[trigger] in_cube(c, ints(r), lattice_top(r.len())) implies cover_ind(ps, r)(c)
        == cover_ind(ps.drop_last(), r)(c) + excl_ind(ps.last(), ps.drop_last(), r)(c) by {
        lemma_covered_last(c, ps, r);
    }
    lemma_grid_add(
        cover_ind(ps.drop_last(), r),
        excl_ind(ps.last(), ps.drop_last(), r),
        cover_ind(ps, r),
        ints(r),
        lattice_top(r.len()),
    );
}

/// A cell of the reference grid lies in the box of the limited point exactly when it lies
/// in both boxes.
proof fn lemma_in_box_pmin(c: Seq<int>, q: Seq<i64>, p: Seq<i64>, r: Seq<i64>)
    requires
        valid_point(q, r),
        valid_point(p, r),
        c.len() == r.len(),
    ensures
        in_box(c, pmin(q, p), r) == (in_box(c, q, r) && in_box(c, p, r)),
{
    let m = pmin(q, p);
    if in_box(c, m, r) {
        assert forall|k: int| 0 <= k < c.len() implies ints(r)[k] <= #[trigger] c[k] < ints(q)[k] by {
            assert(ints(r)[k] <= c[k] < ints(m)[k]);
        }
        assert forall|k: int| 0 <= k < c.len() implies ints(r)[k] <= #[trigger] c[k] < ints(p)[k] by {
            assert(ints(r)[k] <= c[k] < ints(m)[k]);
        }
    }
    if in_box(c, q, r) && in_box(c, p, r) {
        assert forall|k: int| 0 <= k < c.len() implies ints(r)[k] <= #[trigger] c[k] < ints(m)[k] by {
            assert(ints(r)[k] <= c[k] < ints(q)[k]);
            assert(ints(r)[k] <= c[k] < ints(p)[k]);
        }
    }
}

/// The part of the box of `p` outside the boxes of `rest` holds the box volume of `p`
/// less the hypervolume of `rest` limited by `p`.
pub proof fn lemma_excl_cells(p: Seq<i64>, rest: Seq<Seq<i64>>, r: Seq<i64>)
    requires
        valid_point(p, r),
        valid_points(rest, r),
    ensures
        cells(excl_ind(p, rest, r), r) == box_volume(p, r) - hv_measure(limit_spec(rest, p), r),
        0 <= cells(excl_ind(p, rest, r), r),
        0 <= hv_measure(limit_spec(rest, p), r) <= box_volume(p, r),
{
    let l = limit_spec(rest, p);
    let top = lattice_top(r.len());
    assert forall|c: Seq<int>| #[trigger] in_cube(c, ints(r), top) implies cube_ind(ints(r), ints(p))(c)
        == excl_ind(p, rest, r)(c) + cover_ind(l, r)(c) by {
        if covered(c, l, r) {
            let i = choose|i: int| 0 <= i < l.len() && #[trigger] in_box(c, l[i], r);
            assert(valid_point(rest[i], r));
            lemma_in_box_pmin(c, rest[i], p, r);
            assert(in_box(c, rest[i], r));
        }
        if in_box(c, p, r) && covered(c, rest, r) {
            let i = choose|i: int| 0 <= i < rest.len() && #[trigger] in_box(c, rest[i], r);
            assert(valid_point(rest[i], r));
            lemma_in_box_pmin(c, rest[i], p, r);
            assert(in_box(c, l[i], r));
        }
    }
    lemma_grid_add(excl_ind(p, rest, r), cover_ind(l, r), cube_ind(ints(r), ints(p)), ints(r), top);
    lemma_box_cells(p, r);
    lemma_cells_nonneg_ind(excl_ind(p, rest, r), r);
    lemma_measure_nonneg(l, r);
}

/// Dropping the dominated points does not change the hypervolume.
pub proof fn lemma_measure_nd(ps: Seq<Seq<i64>>, r: Seq<i64>)
    requires
        valid_points(ps, r),
    ensures
        hv_measure(nd_spec(ps), r) == hv_measure(ps, r),
{
    let nd = nd_spec(ps);
    let pred = nd_pred(ps);
    let top = lattice_top(r.len());
    assert forall|i: int| 0 <= i < ps.len() implies (#[trigger] ps[i]).len() == r.len() by {
        assert(valid_point(ps[i], r));
    }
    assert forall|c: Seq<int>| #[trigger] in_cube(c, ints(r), top) implies cover_ind(nd, r)(c) == cover_ind(
        ps,
        r,
    )(c) by {
        if covered(c, nd, r) {
            let i = choose|i: int| 0 <= i < nd.len() && #[trigger] in_box(c, nd[i], r);
            assert(nd.contains(nd[i]));
            ps.lemma_filter_contains_rev(pred, nd[i]);
            let j = choose|j: int| 0 <= j < ps.len() && ps[j] == nd[i];
            assert(in_box(c, ps[j], r));
        }
        if covered(c, ps, r) {
            let i = choose|i: int| 0 <= i < ps.len() && #[trigger] in_box(c, ps[i], r);
            let k = if !dominated_in(ps[i], ps) {
                i
            } else {
                lemma_maximal_dominator(ps, r.len() as int, i);
                choose|k: int|
                    0 <= k < ps.len() && dominates_spec(ps[k], ps[i]) && !dominated_in(#[trigger] ps[k], ps)
            };
            assert(!dominated_in(ps[k], ps));
            assert(valid_point(ps[k], r));
            assert(valid_point(ps[i], r));
            assert(in_box(c, ps[k], r)) by {
                assert forall|m: int| 0 <= m < c.len() implies ints(r)[m] <= #[trigger] c[m] < ints(ps[k])[m] by {
                    assert(ints(r)[m] <= c[m] < ints(ps[i])[m]);
                    if k != i {
                        assert(ps[k][m] >= ps[i][m]);
                    }
                }
            }
            ps.lemma_filter_contains(pred, k);
            let j = choose|j: int| 0 <= j < nd.len() && nd[j] == ps[k];
            assert(in_box(c, nd[j], r));
        }
    }
    lemma_grid_eq(cover_ind(nd, r), cover_ind(ps, r), ints(r), top);
}

/// Point sets with the same points have the same hypervolume.
pub proof fn lemma_measure_same_points(a: Seq<Seq<i64>>, b: Seq<Seq<i64>>, r: Seq<i64>)
    requires
        forall|q: Seq<i64>| a.contains(q) <==> b.contains(q),
    ensures
        hv_measure(a, r) == hv_measure(b, r),
{
    let top = lattice_top(r.len());
    assert forall|c: Seq<int>| #[trigger] in_cube(c, ints(r), top) implies cover_ind(a, r)(c) == cover_ind(
        b,
        r,
    )(c) by {
        if covered(c, a, r) {
            let i = choose|i: int| 0 <= i < a.len() && #[trigger] in_box(c, a[i], r);
            assert(a.contains(a[i]));
            let j = choose|j: int| 0 <= j < b.len() && b[j] == a[i];
            assert(in_box(c, b[j], r));
        }
        if covered(c, b, r) {
            let i = choose|i: int| 0 <= i < b.len() && #[trigger] in_box(c, b[i], r);
            assert(b.contains(b[i]));
            let j = choose|j: int| 0 <= j < a.len() && a[j] == b[i];
            assert(in_box(c, a[j], r));
        }
    }
    lemma_grid_eq(cover_ind(a, r), cover_ind(b, r), ints(r), top);
}

/// Adding a point that some point of the set weakly dominates (is at least as large in
/// every coordinate) leaves the hypervolume unchanged, wherever it is inserted.
pub proof fn lemma_measure_insert_dominated(ps: Seq<Seq<i64>>, i: int, q: Seq<i64>, j: int, r: Seq<i64>)
    requires
        0 <= i <= ps.len(),
        0 <= j < ps.len(),
        q.len() == r.len(),
        ps[j].len() == r.len(),
        forall|k: int| 0 <= k < q.len() ==> q[k] <= #[trigger] ps[j][k],
    ensures
        hv_measure(ps.insert(i, q), r) == hv_measure(ps, r),
{
    let big = ps.insert(i, q);
    let top = lattice_top(r.len());
    assert forall|c: Seq<int>| #[trigger] in_cube(c, ints(r), top) implies cover_ind(big, r)(c) == cover_ind(
        ps,
        r,
    )(c) by {
        if covered(c, big, r) {
            let m = choose|m: int| 0 <= m < big.len() && #[trigger] in_box(c, big[m], r);
            if m == i {
                assert(in_box(c, ps[j], r)) by {
                    assert forall|k: int| 0 <= k < c.len() implies ints(r)[k] <= #[trigger] c[k] < ints(ps[j])[k] by {
                        assert(ints(r)[k] <= c[k] < ints(q)[k]);
                    }
                }
            } else if m < i {
                assert(big[m] == ps[m]);
                assert(in_box(c, ps[m], r));
            } else {
                assert(big[m] == ps[m - 1]);
                assert(in_box(c, ps[m - 1], r));
            }
        }
        if covered(c, ps, r) {
            let m = choose|m: int| 0 <= m < ps.len() && #[trigger] in_box(c, ps[m], r);
            if m < i {
                assert(big[m] == ps[m]);
                assert(in_box(c, big[m], r));
            } else {
                assert(big[m + 1] == ps[m]);
                assert(in_box(c, big[m + 1], r));
            }
        }
    }
    lemma_grid_eq(cover_ind(big, r), cover_ind(ps, r), ints(r), top);
}

/// The hypervolume is at most the sum of the box volumes.
pub proof fn lemma_measure_le_sum(ps: Seq<Seq<i64>>, r: Seq<i64>)
    requires
        valid_points(ps, r),
    ensures
        0 <= hv_measure(ps, r) <= sum_volumes(ps, r),
    decreases ps.len(),
{
    lemma_measure_nonneg(ps, r);
    if ps.len() == 0 {
        lemma_measure_empty(r);
        assert(ps =~= Seq::<Seq<i64>>::empty());
    } else {
        let last = ps.last();
        assert(valid_point(ps[ps.len() - 1], r));
        lemma_measure_le_sum(ps.drop_last(), r);
        lemma_measure_split_last(ps, r);
        lemma_grid_mono(excl_ind(last, ps.drop_last(), r), cube_ind(ints(r), ints(last)), ints(r), lattice_top(r.len()));
        lemma_box_cells(last, r);
    }
}

} // verus!
