use vstd::prelude::*;
use crate::measure::{
    cells, cover_ind, covered, cube_ind, excl_ind, hv_measure, in_box, in_cube, lattice_top,
    lemma_box_cells, lemma_cube_count, lemma_excl_cells, lemma_grid_eq, lemma_measure_empty,
    lemma_measure_insert_dominated,
    lemma_measure_le_sum, lemma_measure_nd, lemma_measure_same_points, lemma_measure_split_first,
    lemma_measure_split_last,
};
use crate::point::{
    box_volume, box_volume_exec, copy_point, dominates_spec, fits_i128, get_non_dominated, ints,
    lemma_box_volume_nonneg, lemma_limit_dim, lemma_limit_valid, lemma_nd_dim, lemma_nd_props,
    lemma_sum_volumes_nonneg, lemma_sum_volumes_subrange, limit_set, limit_spec, min_dim,
    mutually_nondominated, nd_pred, nd_spec, pts, same_dim, sum_volumes, valid_point,
    valid_points, widths_product,
};
use vstd::slice::slice_subrange;

verus! {

// ---------------------------------------------------------------------------
// The WFG recurrence
// ---------------------------------------------------------------------------

/// One-dimensional case: the first point's excess over the reference, or zero.
pub open spec fn hv1d_spec(ps: Seq<Seq<i64>>, r: Seq<i64>) -> int {
    let v = ps[0][0] - r[0];
    if v > 0 {
        v
    } else {
        0
    }
}

/// `q` inserted into `s` after every point whose first coordinate is at most `q[0]`
/// that sits at the end of `s` (a stable insertion step).
pub open spec fn insert_by_first(s: Seq<Seq<i64>>, q: Seq<i64>) -> Seq<Seq<i64>>
    decreases s.len(),
{
    if s.len() == 0 {
        seq![q]
    } else if s.last()[0] > q[0] {
        insert_by_first(s.drop_last(), q).push(s.last())
    } else {
        s.push(q)
    }
}

/// `ps` stably sorted by first coordinate.
pub open spec fn sort_by_first(ps: Seq<Seq<i64>>) -> Seq<Seq<i64>>
    decreases ps.len(),
{
    if ps.len() == 0 {
        ps
    } else {
        insert_by_first(sort_by_first(ps.drop_last()), ps.last())
    }
}

/// First coordinates never decrease along `s`.
pub open spec fn sorted_by_first(s: Seq<Seq<i64>>) -> bool {
    forall|i: int, j: int| 0 <= i < j < s.len() ==> (#[trigger] s[i])[0] <= (#[trigger] s[j])[0]
}

/// The first coordinate of the last point of `s`, or of the reference point when `s` is empty.
pub open spec fn prev_x(s: Seq<Seq<i64>>, r: Seq<i64>) -> int {
    if s.len() == 0 {
        r[0] as int
    } else {
        s.last()[0] as int
    }
}

/// The two-dimensional sweep: the sum of `(x_i - x_{i-1}) * (y_i - r_y)` along `s`, with
/// `x_{-1} = r_x`.
pub open spec fn sweep_2d(s: Seq<Seq<i64>>, r: Seq<i64>) -> int
    decreases s.len(),
{
    if s.len() == 0 {
        0
    } else {
        sweep_2d(s.drop_last(), r) + (s.last()[0] - prev_x(s.drop_last(), r)) * (s.last()[1] - r[1])
    }
}

/// Two-dimensional case: the sweep over the points sorted by first coordinate.
pub open spec fn hv2d_spec(ps: Seq<Seq<i64>>, r: Seq<i64>) -> int {
    sweep_2d(sort_by_first(ps), r)
}

/// The value the WFG recursion computes for `ps` with respect to `r`.
pub open spec fn wfg_spec(ps: Seq<Seq<i64>>, r: Seq<i64>) -> int
    decreases ps.len(), 2int,
{
    if ps.len() == 0 {
        0
    } else if r.len() == 1 {
        hv1d_spec(ps, r)
    } else if r.len() == 2 {
        hv2d_spec(ps, r)
    } else {
        excl_chain(ps, r)
    }
}

/// The sum, over the points of `ps`, of each point's exclusive contribution with respect to
/// the points after it.
pub open spec fn excl_chain(ps: Seq<Seq<i64>>, r: Seq<i64>) -> int
    decreases ps.len(), 1int,
{
    if ps.len() == 0 {
        0
    } else {
        excl_spec(ps[0], ps.drop_first(), r) + excl_chain(ps.drop_first(), r)
    }
}

/// The exclusive contribution of `p` with respect to `rest`: its box volume less the
/// WFG value of the non-dominated part of `rest` limited by `p`.
pub open spec fn excl_spec(p: Seq<i64>, rest: Seq<Seq<i64>>, r: Seq<i64>) -> int
    decreases rest.len() + 1, 0int,
{
    let incl = box_volume(p, r);
    if rest.len() == 0 {
        incl
    } else {
        let l = limit_spec(rest, p);
        let nd = nd_spec(l);
        if nd.len() == 0 {
            incl
        } else {
            proof {
                l.lemma_filter_len(nd_pred(l));
            }
            incl - wfg_spec(nd, r)
        }
    }
}

// ---------------------------------------------------------------------------
// Machine range of the recursion
// ---------------------------------------------------------------------------

/// The term the sweep adds for the last point of `s`.
pub open spec fn sweep_term(s: Seq<Seq<i64>>, r: Seq<i64>) -> int {
    (s.last()[0] - prev_x(s.drop_last(), r)) * (s.last()[1] - r[1])
}

/// Every term and every partial sum of the sweep along `s` fits an `i128`.
pub open spec fn sweep_fits(s: Seq<Seq<i64>>, r: Seq<i64>) -> bool
    decreases s.len(),
{
    s.len() == 0 || (sweep_fits(s.drop_last(), r) && fits_i128(sweep_term(s, r)) && fits_i128(
        sweep_2d(s, r),
    ))
}

/// Every value the serial recursion forms for `ps` fits an `i128`.
pub open spec fn wfg_fits(ps: Seq<Seq<i64>>, r: Seq<i64>) -> bool
    decreases ps.len(), 2int,
{
    if ps.len() == 0 {
        true
    } else if r.len() == 1 {
        true
    } else if r.len() == 2 {
        sweep_fits(sort_by_first(ps), r)
    } else {
        chain_fits(ps, r)
    }
}

/// Every contribution and every sum of the contributions of a suffix of `ps` fits an `i128`,
/// and so does every value formed on the way to each contribution.
pub open spec fn chain_fits(ps: Seq<Seq<i64>>, r: Seq<i64>) -> bool
    decreases ps.len(), 1int,
{
    ps.len() == 0 || (excl_fits(ps[0], ps.drop_first(), r) && chain_fits(ps.drop_first(), r)
        && fits_i128(excl_chain(ps, r)))
}

/// Every value formed on the way to the exclusive contribution of `p` fits an `i128`.
pub open spec fn excl_fits(p: Seq<i64>, rest: Seq<Seq<i64>>, r: Seq<i64>) -> bool
    decreases rest.len() + 1, 0int,
{
    fits_i128(box_volume(p, r)) && (rest.len() == 0 || {
        let l = limit_spec(rest, p);
        let nd = nd_spec(l);
        nd.len() == 0 || {
            proof {
                l.lemma_filter_len(nd_pred(l));
            }
            wfg_fits(nd, r) && fits_i128(excl_spec(p, rest, r))
        }
    })
}

// ---------------------------------------------------------------------------
// Sorting by first coordinate
// ---------------------------------------------------------------------------

pub proof fn lemma_insert_props(s: Seq<Seq<i64>>, q: Seq<i64>, r: Seq<i64>)
    ensures
        insert_by_first(s, q).len() == s.len() + 1,
        forall|x: Seq<i64>| #[trigger] insert_by_first(s, q).contains(x) <==> (s.contains(x) || x == q),
        sum_volumes(insert_by_first(s, q), r) == sum_volumes(s, r) + box_volume(q, r),
        sorted_by_first(s) ==> sorted_by_first(insert_by_first(s, q)),
    decreases s.len(),
{
    let ins = insert_by_first(s, q);
    if s.len() == 0 {
        assert(ins =~= seq![q]);
        assert(seq![q].drop_last() =~= Seq::<Seq<i64>>::empty());
        assert(s =~= Seq::<Seq<i64>>::empty());
        assert(sum_volumes(ins, r) == sum_volumes(ins.drop_last(), r) + box_volume(ins.last(), r));
        assert forall|x: Seq<i64>| #[trigger] ins.contains(x) <==> (s.contains(x) || x == q) by {
            if ins.contains(x) {
                let k = choose|k: int| 0 <= k < ins.len() && ins[k] == x;
            }
            if x == q {
                assert(ins[0] == q);
            }
        }
    } else if s.last()[0] > q[0] {
        let s2 = s.drop_last();
        let i2 = insert_by_first(s2, q);
        lemma_insert_props(s2, q, r);
        assert(ins.drop_last() =~= i2);
        assert(sum_volumes(ins, r) == sum_volumes(i2, r) + box_volume(s.last(), r));
        assert(sum_volumes(s, r) == sum_volumes(s2, r) + box_volume(s.last(), r));
        assert forall|x: Seq<i64>| #[trigger] ins.contains(x) <==> (s.contains(x) || x == q) by {
            if ins.contains(x) {
                let k = choose|k: int| 0 <= k < ins.len() && ins[k] == x;
                if k < i2.len() {
                    assert(i2.contains(x));
                    if x != q {
                        let m = choose|m: int| 0 <= m < s2.len() && s2[m] == x;
                        assert(s[m] == x);
                    }
                } else {
                    assert(s[s.len() - 1] == x);
                }
            }
            if s.contains(x) {
                let k = choose|k: int| 0 <= k < s.len() && s[k] == x;
                if k < s.len() - 1 {
                    assert(s2[k] == x);
                    assert(i2.contains(x));
                    let m = choose|m: int| 0 <= m < i2.len() && i2[m] == x;
                    assert(ins[m] == x);
                } else {
                    assert(ins[ins.len() - 1] == x);
                }
            }
            if x == q {
                assert(i2.contains(q));
                let m = choose|m: int| 0 <= m < i2.len() && i2[m] == q;
                assert(ins[m] == q);
            }
        }
        if sorted_by_first(s) {
            assert(sorted_by_first(s2));
            assert forall|i: int, j: int| 0 <= i < j < ins.len() implies (#[trigger] ins[i])[0] <= (
            #[trigger] ins[j])[0] by {
                if j == ins.len() - 1 {
                    assert(i2.contains(ins[i]));
                    if ins[i] != q {
                        let m = choose|m: int| 0 <= m < s2.len() && s2[m] == ins[i];
                        assert(s[m] == ins[i]);
                        assert(s[m][0] <= s[s.len() - 1][0]);
                    }
                } else {
                    assert(ins[i] == i2[i] && ins[j] == i2[j]);
                }
            }
        }
    } else {
        assert(ins.drop_last() =~= s);
        assert forall|x: Seq<i64>| #[trigger] ins.contains(x) <==> (s.contains(x) || x == q) by {
            if ins.contains(x) {
                let k = choose|k: int| 0 <= k < ins.len() && ins[k] == x;
                if k < s.len() {
                    assert(s[k] == x);
                }
            }
            if s.contains(x) {
                let k = choose|k: int| 0 <= k < s.len() && s[k] == x;
                assert(ins[k] == x);
            }
            if x == q {
                assert(ins[ins.len() - 1] == q);
            }
        }
        if sorted_by_first(s) {
            assert forall|i: int, j: int| 0 <= i < j < ins.len() implies (#[trigger] ins[i])[0] <= (
            #[trigger] ins[j])[0] by {
                if j == ins.len() - 1 {
                    assert(s[i][0] <= s[s.len() - 1][0] || i == s.len() - 1);
                } else {
                    assert(ins[i] == s[i] && ins[j] == s[j]);
                }
            }
        }
    }
}

pub proof fn lemma_sort_props(ps: Seq<Seq<i64>>, r: Seq<i64>)
    ensures
        sort_by_first(ps).len() == ps.len(),
        forall|x: Seq<i64>| #[trigger] sort_by_first(ps).contains(x) <==> ps.contains(x),
        sum_volumes(sort_by_first(ps), r) == sum_volumes(ps, r),
        sorted_by_first(sort_by_first(ps)),
    decreases ps.len(),
{
    if ps.len() > 0 {
        let p2 = ps.drop_last();
        lemma_sort_props(p2, r);
        lemma_insert_props(sort_by_first(p2), ps.last(), r);
        assert forall|x: Seq<i64>| #[trigger] sort_by_first(ps).contains(x) <==> ps.contains(x) by {
            if p2.contains(x) {
                let k = choose|k: int| 0 <= k < p2.len() && p2[k] == x;
                assert(ps[k] == x);
            }
            if ps.contains(x) {
                let k = choose|k: int| 0 <= k < ps.len() && ps[k] == x;
                if k < ps.len() - 1 {
                    assert(p2[k] == x);
                }
            }
        }
    }
}

// ---------------------------------------------------------------------------
// The recurrence computes the hypervolume
// ---------------------------------------------------------------------------

pub proof fn lemma_box_volume_1d(p: Seq<i64>, r: Seq<i64>)
    requires
        valid_point(p, r),
        r.len() == 1,
    ensures
        box_volume(p, r) == p[0] - r[0],
{
    assert(ints(r).drop_last().len() == 0);
    assert(widths_product(ints(r).drop_last(), ints(p).drop_last()) == 1);
}

pub proof fn lemma_box_volume_2d(p: Seq<i64>, r: Seq<i64>)
    requires
        valid_point(p, r),
        r.len() == 2,
    ensures
        box_volume(p, r) == (p[0] - r[0]) * (p[1] - r[1]),
{
    let a = ints(r);
    let b = ints(p);
    assert(a.drop_last().drop_last().len() == 0);
    assert(widths_product(a.drop_last().drop_last(), b.drop_last().drop_last()) == 1);
    assert(widths_product(a.drop_last(), b.drop_last()) == p[0] - r[0]);
}

/// A single point's hypervolume is its box volume.
pub proof fn lemma_measure_single(p: Seq<i64>, r: Seq<i64>)
    requires
        valid_point(p, r),
    ensures
        hv_measure(seq![p], r) == box_volume(p, r),
{
    let top = lattice_top(r.len());
    assert forall|c: Seq<int>| #[trigger] in_cube(c, ints(r), top) implies cover_ind(seq![p], r)(c)
        == cube_ind(ints(r), ints(p))(c) by {
        if in_box(c, p, r) {
            assert(in_box(c, seq![p][0], r));
        }
    }
    lemma_grid_eq(cover_ind(seq![p], r), cube_ind(ints(r), ints(p)), ints(r), top);
    lemma_box_cells(p, r);
}

proof fn lemma_wfg_1d(ps: Seq<Seq<i64>>, r: Seq<i64>)
    requires
        valid_points(ps, r),
        mutually_nondominated(ps),
        r.len() == 1,
        ps.len() >= 1,
    ensures
        hv1d_spec(ps, r) == hv_measure(ps, r),
{
    let p = ps[0];
    assert(valid_point(p, r));
    assert forall|i: int| 0 <= i < ps.len() implies #[trigger] ps[i] == p by {
        assert(valid_point(ps[i], r));
        assert(!dominates_spec(ps[i], ps[0]));
        assert(!dominates_spec(ps[0], ps[i]));
        assert(ps[i][0] == p[0]);
        assert(ps[i] =~= p);
    }
    assert forall|q: Seq<i64>| ps.contains(q) <==> seq![p].contains(q) by {
        if ps.contains(q) {
            let k = choose|k: int| 0 <= k < ps.len() && ps[k] == q;
            assert(seq![p][0] == q);
        }
        if seq![p].contains(q) {
            assert(ps[0] == q);
        }
    }
    lemma_measure_same_points(ps, seq![p], r);
    lemma_measure_single(p, r);
    lemma_box_volume_1d(p, r);
}

/// Along a sorted valid sequence the sweep lies between zero and the sum of box volumes.
pub proof fn lemma_sweep_bounds(s: Seq<Seq<i64>>, r: Seq<i64>)
    requires
        valid_points(s, r),
        sorted_by_first(s),
        r.len() == 2,
    ensures
        0 <= sweep_2d(s, r) <= sum_volumes(s, r),
    decreases s.len(),
{
    if s.len() > 0 {
        let last = s.last();
        let s2 = s.drop_last();
        assert(valid_point(s[s.len() - 1], r));
        lemma_sweep_bounds(s2, r);
        lemma_box_volume_2d(last, r);
        let px = prev_x(s2, r);
        if s2.len() > 0 {
            assert(s[s.len() - 2][0] <= s[s.len() - 1][0]);
            assert(valid_point(s[s.len() - 2], r));
        }
        assert(r[0] <= px <= last[0]);
        let w = last[0] - px;
        let wmax = last[0] - r[0];
        let h = last[1] - r[1];
        assert(0 <= w * h <= wmax * h) by (nonlinear_arith)
            requires
                0 <= w <= wmax,
                0 <= h,
        ;
    }
}

proof fn lemma_sweep_is_measure(s: Seq<Seq<i64>>, r: Seq<i64>)
    requires
        valid_points(s, r),
        sorted_by_first(s),
        mutually_nondominated(s),
        r.len() == 2,
    ensures
        sweep_2d(s, r) == hv_measure(s, r),
    decreases s.len(),
{
    if s.len() == 0 {
        lemma_measure_empty(r);
        assert(s =~= Seq::<Seq<i64>>::empty());
    } else {
        let last = s.last();
        let s2 = s.drop_last();
        let n = s.len();
        assert(valid_point(s[n - 1], r));
        assert forall|i: int, j: int| 0 <= i < s2.len() && 0 <= j < s2.len() implies !dominates_spec(
            #[trigger] s2[i],
            #[trigger] s2[j],
        ) by {
            assert(s2[i] == s[i] && s2[j] == s[j]);
        }
        lemma_sweep_is_measure(s2, r);
        lemma_measure_split_last(s, r);
        let px = prev_x(s2, r);
        if s2.len() > 0 {
            assert(s[n - 2][0] <= s[n - 1][0]);
            assert(valid_point(s[n - 2], r));
        }
        let a = seq![px, r[1] as int];
        let b = seq![last[0] as int, last[1] as int];
        let top = lattice_top(r.len());
        assert forall|c: Seq<int>| #[trigger] in_cube(c, ints(r), top) implies excl_ind(last, s2, r)(c)
            == cube_ind(a, b)(c) by {
            assert(c.len() == 2);
            assert(ints(r)[0] <= c[0] && ints(r)[1] <= c[1]);
            if in_box(c, last, r) && !covered(c, s2, r) {
                assert(c[0] < last[0] && c[1] < last[1]);
                if s2.len() > 0 && c[0] < px {
                    let q = s2.last();
                    assert(q == s[n - 2]);
                    assert(valid_point(q, r));
                    // the previous point has the larger second coordinate
                    if q[1] < last[1] {
                        assert(dominates_spec(s[n - 1], s[n - 2]));
                    }
                    assert(in_box(c, s2[s2.len() - 1], r));
                }
                assert(in_cube(c, a, b));
            }
            if in_cube(c, a, b) {
                assert(a[0] <= c[0] && a[1] <= c[1]);
                assert(in_box(c, last, r));
                if covered(c, s2, r) {
                    let i = choose|i: int| 0 <= i < s2.len() && #[trigger] in_box(c, s2[i], r);
                    assert(s[i][0] <= s[n - 2][0]);
                    assert(c[0] < ints(s2[i])[0]);
                }
            }
        }
        lemma_grid_eq(excl_ind(last, s2, r), cube_ind(a, b), ints(r), top);
        assert forall|k: int| 0 <= k < 2 implies ints(r)[k] <= #[trigger] a[k] <= b[k] <= top[k] by {
            assert(last[0] <= i64::MAX && last[1] <= i64::MAX);
        }
        lemma_cube_count(a, b, ints(r), top);
        assert(a.drop_last() =~= seq![px]);
        assert(b.drop_last() =~= seq![last[0] as int]);
        assert(seq![px].drop_last().len() == 0);
        assert(widths_product(seq![px].drop_last(), seq![last[0] as int].drop_last()) == 1);
        assert(widths_product(seq![px], seq![last[0] as int]) == last[0] - px);
    }
}

proof fn lemma_wfg_2d(ps: Seq<Seq<i64>>, r: Seq<i64>)
    requires
        valid_points(ps, r),
        mutually_nondominated(ps),
        r.len() == 2,
    ensures
        hv2d_spec(ps, r) == hv_measure(ps, r),
{
    let s = sort_by_first(ps);
    lemma_sort_props(ps, r);
    assert forall|i: int| 0 <= i < s.len() implies valid_point(#[trigger] s[i], r) by {
        assert(s.contains(s[i]));
        let k = choose|k: int| 0 <= k < ps.len() && ps[k] == s[i];
    }
    assert forall|i: int, j: int| 0 <= i < s.len() && 0 <= j < s.len() implies !dominates_spec(
        #[trigger] s[i],
        #[trigger] s[j],
    ) by {
        assert(s.contains(s[i]) && s.contains(s[j]));
        let k = choose|k: int| 0 <= k < ps.len() && ps[k] == s[i];
        let m = choose|m: int| 0 <= m < ps.len() && ps[m] == s[j];
        assert(!dominates_spec(ps[k], ps[m]));
    }
    lemma_sweep_is_measure(s, r);
    lemma_measure_same_points(s, ps, r);
}

/// The exclusive contribution of `p` is the number of cells of its box outside every box
/// of `rest`.
pub proof fn lemma_excl_is_region(p: Seq<i64>, rest: Seq<Seq<i64>>, r: Seq<i64>)
    requires
        valid_point(p, r),
        valid_points(rest, r),
    ensures
        excl_spec(p, rest, r) == cells(excl_ind(p, rest, r), r),
        excl_spec(p, rest, r) == hv_measure(seq![p] + rest, r) - hv_measure(rest, r),
        0 <= excl_spec(p, rest, r) <= box_volume(p, r),
    decreases rest.len() + 1, 0int,
{
    lemma_excl_cells(p, rest, r);
    let all = seq![p] + rest;
    assert(all[0] == p);
    assert(all.drop_first() =~= rest);
    lemma_measure_split_first(all, r);
    if rest.len() == 0 {
        lemma_measure_empty(r);
        assert(limit_spec(rest, p) =~= Seq::<Seq<i64>>::empty());
    } else {
        let l = limit_spec(rest, p);
        let nd = nd_spec(l);
        lemma_limit_valid(rest, p, r);
        lemma_nd_props(l, r);
        lemma_measure_nd(l, r);
        if nd.len() == 0 {
            lemma_measure_empty(r);
            assert(nd =~= Seq::<Seq<i64>>::empty());
        } else {
            lemma_wfg_is_hypervolume(nd, r);
        }
    }
}

/// The chain of exclusive contributions sums to the hypervolume.
pub proof fn lemma_chain_is_hypervolume(ps: Seq<Seq<i64>>, r: Seq<i64>)
    requires
        valid_points(ps, r),
    ensures
        excl_chain(ps, r) == hv_measure(ps, r),
    decreases ps.len(), 1int,
{
    if ps.len() == 0 {
        lemma_measure_empty(r);
        assert(ps =~= Seq::<Seq<i64>>::empty());
    } else {
        assert(valid_point(ps[0], r));
        assert(valid_points(ps.drop_first(), r)) by {
            assert forall|i: int| 0 <= i < ps.drop_first().len() implies valid_point(
                #[trigger] ps.drop_first()[i],
                r,
            ) by {
                assert(ps.drop_first()[i] == ps[i + 1]);
            }
        }
        lemma_excl_is_region(ps[0], ps.drop_first(), r);
        lemma_chain_is_hypervolume(ps.drop_first(), r);
        lemma_measure_split_first(ps, r);
    }
}

/// The WFG recursion computes the hypervolume: for points that dominate the reference
/// point in dimension other than one or two, and for any set whose points do not dominate
/// one another, the value equals the number of lattice cells in the union of the boxes.
pub proof fn lemma_wfg_is_hypervolume(ps: Seq<Seq<i64>>, r: Seq<i64>)
    requires
        valid_points(ps, r),
        (r.len() != 1 && r.len() != 2) || mutually_nondominated(ps),
    ensures
        wfg_spec(ps, r) == hv_measure(ps, r),
    decreases ps.len(), 2int,
{
    if ps.len() == 0 {
        lemma_measure_empty(r);
        assert(ps =~= Seq::<Seq<i64>>::empty());
    } else if r.len() == 1 {
        lemma_wfg_1d(ps, r);
    } else if r.len() == 2 {
        lemma_wfg_2d(ps, r);
    } else {
        lemma_chain_is_hypervolume(ps, r);
    }
}


/// Rearranging the points does not change the value of the recursion, for points that
/// dominate the reference point in dimension other than one and two, and for points that do
/// not dominate one another.
pub proof fn lemma_wfg_order_independent(a: Seq<Seq<i64>>, b: Seq<Seq<i64>>, r: Seq<i64>)
    requires
        a.to_multiset() == b.to_multiset(),
        valid_points(a, r),
        (r.len() != 1 && r.len() != 2) || mutually_nondominated(a),
    ensures
        wfg_spec(a, r) == wfg_spec(b, r),
{
    broadcast use vstd::seq_lib::group_to_multiset_ensures;

    assert forall|q: Seq<i64>| a.contains(q) <==> b.contains(q) by {
        assert(a.contains(q) <==> a.to_multiset().count(q) > 0);
        assert(b.contains(q) <==> b.to_multiset().count(q) > 0);
    }
    assert forall|i: int| 0 <= i < b.len() implies valid_point(#[trigger] b[i], r) by {
        assert(b.contains(b[i]));
        let k = choose|k: int| 0 <= k < a.len() && a[k] == b[i];
    }
    if mutually_nondominated(a) {
        assert forall|i: int, j: int| 0 <= i < b.len() && 0 <= j < b.len() implies !dominates_spec(
            #[trigger] b[i],
            #[trigger] b[j],
        ) by {
            assert(b.contains(b[i]) && b.contains(b[j]));
            let k = choose|k: int| 0 <= k < a.len() && a[k] == b[i];
            let m = choose|m: int| 0 <= m < a.len() && a[m] == b[j];
            assert(!dominates_spec(a[k], a[m]));
        }
    }
    lemma_wfg_is_hypervolume(a, r);
    lemma_wfg_is_hypervolume(b, r);
    lemma_measure_same_points(a, b, r);
}

/// In three or more dimensions (and in none), inserting anywhere a point that some point of
/// the set is at least as large as in every coordinate leaves the recursion's value unchanged.
pub proof fn lemma_wfg_insert_dominated(ps: Seq<Seq<i64>>, i: int, q: Seq<i64>, j: int, r: Seq<i64>)
    requires
        valid_points(ps, r),
        valid_point(q, r),
        r.len() != 1 && r.len() != 2,
        0 <= i <= ps.len(),
        0 <= j < ps.len(),
        forall|k: int| 0 <= k < q.len() ==> q[k] <= #[trigger] ps[j][k],
    ensures
        wfg_spec(ps.insert(i, q), r) == wfg_spec(ps, r),
{
    let big = ps.insert(i, q);
    assert forall|m: int| 0 <= m < big.len() implies valid_point(#[trigger] big[m], r) by {
        if m < i {
            assert(big[m] == ps[m]);
        } else if m > i {
            assert(big[m] == ps[m - 1]);
        }
    }
    assert(valid_point(ps[j], r));
    lemma_wfg_is_hypervolume(big, r);
    lemma_wfg_is_hypervolume(ps, r);
    lemma_measure_insert_dominated(ps, i, q, j, r);
}

/// The points of `ps` cut down to their first two coordinates.
pub open spec fn first_two(ps: Seq<Seq<i64>>) -> Seq<Seq<i64>> {
    ps.map_values(|p: Seq<i64>| p.take(2))
}

proof fn lemma_insert_first_two(s: Seq<Seq<i64>>, q: Seq<i64>)
    requires
        min_dim(s, 2),
        q.len() >= 2,
    ensures
        insert_by_first(first_two(s), q.take(2)) == first_two(insert_by_first(s, q)),
    decreases s.len(),
{
    if s.len() == 0 {
        assert(first_two(s) =~= Seq::<Seq<i64>>::empty());
        assert(first_two(seq![q]) =~= seq![q.take(2)]);
    } else {
        let t = first_two(s);
        assert(t.drop_last() =~= first_two(s.drop_last()));
        assert(t.last() == s.last().take(2));
        assert(s.last().len() >= 2);
        assert(t.last()[0] == s.last()[0]);
        assert(q.take(2)[0] == q[0]);
        if s.last()[0] > q[0] {
            lemma_insert_first_two(s.drop_last(), q);
            assert(first_two(insert_by_first(s.drop_last(), q).push(s.last())) =~= first_two(
                insert_by_first(s.drop_last(), q),
            ).push(s.last().take(2)));
        } else {
            assert(first_two(s.push(q)) =~= t.push(q.take(2)));
        }
    }
}

proof fn lemma_sort_first_two(ps: Seq<Seq<i64>>)
    requires
        min_dim(ps, 2),
    ensures
        sort_by_first(first_two(ps)) == first_two(sort_by_first(ps)),
        min_dim(sort_by_first(ps), 2),
    decreases ps.len(),
{
    if ps.len() > 0 {
        let t = first_two(ps);
        assert(t.drop_last() =~= first_two(ps.drop_last()));
        assert(t.last() == ps.last().take(2));
        assert(ps.last().len() >= 2);
        lemma_sort_first_two(ps.drop_last());
        lemma_insert_first_two(sort_by_first(ps.drop_last()), ps.last());
        lemma_insert_props(sort_by_first(ps.drop_last()), ps.last(), Seq::empty());
        let ins = sort_by_first(ps);
        assert forall|i: int| 0 <= i < ins.len() implies (#[trigger] ins[i]).len() >= 2 by {
            assert(ins.contains(ins[i]));
            if ins[i] != ps.last() {
                let k = choose|k: int|
                    0 <= k < sort_by_first(ps.drop_last()).len() && sort_by_first(ps.drop_last())[k] == ins[i];
            }
        }
    } else {
        assert(first_two(ps) =~= ps);
    }
}

proof fn lemma_sweep_first_two(s: Seq<Seq<i64>>, r: Seq<i64>)
    requires
        min_dim(s, 2),
        r.len() >= 2,
    ensures
        sweep_2d(first_two(s), r.take(2)) == sweep_2d(s, r),
    decreases s.len(),
{
    if s.len() > 0 {
        let t = first_two(s);
        assert(t.drop_last() =~= first_two(s.drop_last()));
        assert(t.last() == s.last().take(2));
        assert(s.last().len() >= 2);
        lemma_sweep_first_two(s.drop_last(), r);
        if s.len() > 1 {
            assert(s.drop_last().last().len() >= 2);
            assert(t.drop_last().last() == s.drop_last().last().take(2));
        }
        assert(prev_x(t.drop_last(), r.take(2)) == prev_x(s.drop_last(), r));
    }
}

/// The sweep reads only the first two coordinates: for points that, cut down to those, dominate
/// the reference point's first two coordinates and do not dominate one another, it is the
/// area of the union of their boxes.
pub proof fn lemma_hv2d_first_two(ps: Seq<Seq<i64>>, r: Seq<i64>)
    requires
        min_dim(ps, 2),
        r.len() >= 2,
    ensures
        hv2d_spec(ps, r) == hv2d_spec(first_two(ps), r.take(2)),
        valid_points(first_two(ps), r.take(2)) && mutually_nondominated(first_two(ps)) ==> hv2d_spec(ps, r)
            == hv_measure(first_two(ps), r.take(2)),
{
    lemma_sort_first_two(ps);
    lemma_sweep_first_two(sort_by_first(ps), r);
    if valid_points(first_two(ps), r.take(2)) && mutually_nondominated(first_two(ps)) {
        lemma_wfg_2d(first_two(ps), r.take(2));
    }
}

// ---------------------------------------------------------------------------
// Executable recursion
// ---------------------------------------------------------------------------

/// The points stably sorted by first coordinate.
pub fn sort_points_by_first(points: &Vec<Vec<i64>>) -> (sorted: Vec<Vec<i64>>)
    requires
        min_dim(pts(points@), 1),
    ensures
        pts(sorted@) == sort_by_first(pts(points@)),
{
    let ghost ps = pts(points@);
    let mut sorted: Vec<Vec<i64>> = Vec::with_capacity(points.len());
    let mut i: usize = 0;
    while i < points.len()
        invariant
            ps == pts(points@),
            min_dim(ps, 1),
            i <= ps.len(),
            pts(sorted@) == sort_by_first(ps.take(i as int)),
            min_dim(pts(sorted@), 1),
        decreases ps.len() - i,
    {
        let q = copy_point(&points[i]);
        assert(q@.len() >= 1) by {
            assert(ps[i as int] == points@[i as int]@);
        }
        let ghost s = pts(sorted@);
        let mut pos: usize = sorted.len();
        assert(s.take(pos as int) =~= s);
        assert(insert_by_first(s, q@) + s.skip(pos as int) =~= insert_by_first(s, q@));
        while pos > 0 && sorted[pos - 1][0] > q[0]
            invariant
                s == pts(sorted@),
                min_dim(s, 1),
                q@.len() >= 1,
                pos <= s.len(),
                insert_by_first(s, q@) == insert_by_first(s.take(pos as int), q@) + s.skip(pos as int),
            decreases pos,
        {
            proof {
                let t = s.take(pos as int);
                assert(t.drop_last() =~= s.take(pos - 1));
                assert(t.last() == s[pos - 1]);
                assert(s[pos - 1] == sorted@[pos - 1]@);
                assert(s.skip(pos - 1) =~= seq![s[pos - 1]] + s.skip(pos as int));
                assert(insert_by_first(t, q@) == insert_by_first(s.take(pos - 1), q@).push(s[pos - 1]));
                assert(insert_by_first(s.take(pos - 1), q@).push(s[pos - 1]) + s.skip(pos as int)
                    =~= insert_by_first(s.take(pos - 1), q@) + s.skip(pos - 1));
            }
            pos = pos - 1;
        }
        proof {
            let t = s.take(pos as int);
            if pos == 0 {
                assert(t =~= Seq::<Seq<i64>>::empty());
                assert(insert_by_first(t, q@) == seq![q@]);
            } else {
                assert(s[pos - 1] == sorted@[pos - 1]@);
                assert(t.last() == s[pos - 1]);
                assert(insert_by_first(t, q@) == t.push(q@));
            }
            assert(insert_by_first(t, q@) + s.skip(pos as int) =~= s.insert(pos as int, q@));
            assert(ps.take(i + 1).drop_last() =~= ps.take(i as int));
            assert(ps.take(i + 1).last() == q@);
        }
        sorted.insert(pos, q);
        assert(pts(sorted@) =~= s.insert(pos as int, q@));
        i = i + 1;
    }
    assert(ps.take(i as int) =~= ps);
    sorted
}

proof fn lemma_valid_take(ps: Seq<Seq<i64>>, r: Seq<i64>, i: int)
    requires
        valid_points(ps, r),
        0 <= i <= ps.len(),
    ensures
        valid_points(ps.take(i), r),
        sorted_by_first(ps) ==> sorted_by_first(ps.take(i)),
{
    assert forall|k: int| 0 <= k < ps.take(i).len() implies valid_point(#[trigger] ps.take(i)[k], r) by {
        assert(ps.take(i)[k] == ps[k]);
    }
    if sorted_by_first(ps) {
        assert forall|a: int, b: int| 0 <= a < b < ps.take(i).len() implies (#[trigger] ps.take(i)[a])[0]
            <= (#[trigger] ps.take(i)[b])[0] by {
            assert(ps.take(i)[a] == ps[a] && ps.take(i)[b] == ps[b]);
        }
    }
}

proof fn lemma_sweep_fits_prefix(s: Seq<Seq<i64>>, r: Seq<i64>, k: int)
    requires
        sweep_fits(s, r),
        0 <= k <= s.len(),
    ensures
        sweep_fits(s.take(k), r),
    decreases s.len(),
{
    if k == s.len() {
        assert(s.take(k) =~= s);
    } else {
        assert(s.take(k) =~= s.drop_last().take(k));
        lemma_sweep_fits_prefix(s.drop_last(), r, k);
    }
}

/// A suffix of a chain whose values fit has values that fit.
pub proof fn lemma_chain_fits_suffix(ps: Seq<Seq<i64>>, r: Seq<i64>, i: int)
    requires
        chain_fits(ps, r),
        0 <= i <= ps.len(),
    ensures
        chain_fits(ps.subrange(i, ps.len() as int), r),
    decreases i,
{
    if i == 0 {
        assert(ps.subrange(0, ps.len() as int) =~= ps);
    } else {
        lemma_chain_fits_suffix(ps, r, i - 1);
        assert(ps.subrange(i - 1, ps.len() as int).drop_first() =~= ps.subrange(i, ps.len() as int));
    }
}

/// The value of a recursion whose values fit, fits.
pub proof fn lemma_wfg_fits_value(ps: Seq<Seq<i64>>, r: Seq<i64>)
    requires
        wfg_fits(ps, r),
    ensures
        fits_i128(wfg_spec(ps, r)),
{
    if ps.len() > 0 && r.len() == 2 {
        lemma_sort_props(ps, r);
    }
}

proof fn lemma_sweep_fits_valid(s: Seq<Seq<i64>>, r: Seq<i64>)
    requires
        valid_points(s, r),
        sorted_by_first(s),
        r.len() == 2,
        sum_volumes(s, r) <= i128::MAX,
    ensures
        sweep_fits(s, r),
    decreases s.len(),
{
    if s.len() > 0 {
        let n = s.len();
        let s2 = s.drop_last();
        lemma_valid_take(s, r, n - 1);
        assert(s.take(n - 1) =~= s2);
        lemma_sum_volumes_subrange(s, r, 0, n - 1);
        assert(s.subrange(0, n - 1) =~= s2);
        lemma_sweep_fits_valid(s2, r);
        lemma_sweep_bounds(s, r);
        lemma_sweep_bounds(s2, r);
        lemma_box_volume_nonneg(s[n - 1], r);
        assert(valid_point(s[n - 1], r));
        lemma_sum_volumes_nonneg(s2, r);
    }
}

/// Points that dominate the reference point, with box volumes adding up to at most
/// `i128::MAX`, keep every value of the serial recursion within range.
pub proof fn lemma_wfg_fits_valid(ps: Seq<Seq<i64>>, r: Seq<i64>)
    requires
        valid_points(ps, r),
        sum_volumes(ps, r) <= i128::MAX,
    ensures
        wfg_fits(ps, r),
    decreases ps.len(), 2int,
{
    if ps.len() > 0 && r.len() == 2 {
        let s = sort_by_first(ps);
        lemma_sort_props(ps, r);
        assert forall|i: int| 0 <= i < s.len() implies valid_point(#[trigger] s[i], r) by {
            assert(s.contains(s[i]));
            let k = choose|k: int| 0 <= k < ps.len() && ps[k] == s[i];
        }
        lemma_sweep_fits_valid(s, r);
    } else if ps.len() > 0 && r.len() != 1 {
        lemma_chain_fits_valid(ps, r);
    }
}

proof fn lemma_chain_fits_valid(ps: Seq<Seq<i64>>, r: Seq<i64>)
    requires
        valid_points(ps, r),
        sum_volumes(ps, r) <= i128::MAX,
    ensures
        chain_fits(ps, r),
    decreases ps.len(), 1int,
{
    if ps.len() > 0 {
        let tail = ps.drop_first();
        assert(tail =~= ps.subrange(1, ps.len() as int));
        lemma_sum_volumes_subrange(ps, r, 0, ps.len() as int);
        lemma_sum_volumes_subrange(ps, r, 1, ps.len() as int);
        assert(valid_points(tail, r)) by {
            assert forall|i: int| 0 <= i < tail.len() implies valid_point(#[trigger] tail[i], r) by {
                assert(tail[i] == ps[i + 1]);
            }
        }
        assert(valid_point(ps[0], r));
        lemma_box_volume_nonneg(ps[0], r);
        lemma_excl_fits_valid(ps[0], tail, r);
        lemma_chain_fits_valid(tail, r);
        lemma_chain_is_hypervolume(ps, r);
        lemma_measure_le_sum(ps, r);
    }
}

pub proof fn lemma_excl_fits_valid(p: Seq<i64>, rest: Seq<Seq<i64>>, r: Seq<i64>)
    requires
        valid_point(p, r),
        valid_points(rest, r),
        box_volume(p, r) <= i128::MAX,
        sum_volumes(rest, r) <= i128::MAX,
    ensures
        excl_fits(p, rest, r),
    decreases rest.len() + 1, 0int,
{
    lemma_box_volume_nonneg(p, r);
    lemma_excl_is_region(p, rest, r);
    if rest.len() > 0 {
        let l = limit_spec(rest, p);
        let nd = nd_spec(l);
        lemma_limit_valid(rest, p, r);
        lemma_nd_props(l, r);
        if nd.len() > 0 {
            lemma_wfg_fits_valid(nd, r);
        }
    }
}

/// Two-dimensional hypervolume by a sweep over the points sorted by first coordinate; only
/// the first two coordinates of the points and of the reference point are read.
pub fn hypervolume_2d(points: &Vec<Vec<i64>>, reference_point: &Vec<i64>) -> (hv: i128)
    requires
        reference_point@.len() >= 2,
        min_dim(pts(points@), 2),
        sweep_fits(sort_by_first(pts(points@)), reference_point@),
    ensures
        hv == hv2d_spec(pts(points@), reference_point@),
        valid_points(first_two(pts(points@)), reference_point@.take(2)) && mutually_nondominated(
            first_two(pts(points@)),
        ) ==> hv == hv_measure(first_two(pts(points@)), reference_point@.take(2)),
{
    proof {
        lemma_hv2d_first_two(pts(points@), reference_point@);
    }
    let ghost r = reference_point@;
    let ghost ps = pts(points@);
    let sorted = sort_points_by_first(points);
    let ghost s = pts(sorted@);
    proof {
        lemma_sort_props(ps, r);
        assert forall|i: int| 0 <= i < s.len() implies (#[trigger] s[i]).len() >= 2 by {
            assert(s.contains(s[i]));
            let k = choose|k: int| 0 <= k < ps.len() && ps[k] == s[i];
        }
    }
    let mut hv: i128 = 0;
    let mut px: i64 = reference_point[0];
    let mut i: usize = 0;
    while i < sorted.len()
        invariant
            r == reference_point@,
            r.len() >= 2,
            s == pts(sorted@),
            min_dim(s, 2),
            sweep_fits(s, r),
            i <= s.len(),
            hv == sweep_2d(s.take(i as int), r),
            px == prev_x(s.take(i as int), r),
        decreases s.len() - i,
    {
        let p = &sorted[i];
        proof {
            assert(s[i as int] == p@);
            let t = s.take(i + 1);
            assert(t.drop_last() =~= s.take(i as int));
            assert(t.last() == p@);
            lemma_sweep_fits_prefix(s, r, i + 1);
            if i > 0 {
                assert(s.take(i as int).last() == s[i - 1]);
            }
        }
        let w = p[0] as i128 - px as i128;
        let h = p[1] as i128 - reference_point[1] as i128;
        let term = w * h;
        hv = hv + term;
        px = p[0];
        i = i + 1;
    }
    assert(s.take(i as int) =~= s);
    hv
}

/// The exclusive contribution of `point` with respect to `rest`.
pub fn exclusive_hv(point: &Vec<i64>, rest: &[Vec<i64>], reference_point: &Vec<i64>) -> (v: i128)
    requires
        point@.len() == reference_point@.len(),
        same_dim(pts(rest@), reference_point@.len() as int),
        excl_fits(point@, pts(rest@), reference_point@),
    ensures
        v == excl_spec(point@, pts(rest@), reference_point@),
        valid_point(point@, reference_point@) && valid_points(pts(rest@), reference_point@) ==> v
            == hv_measure(seq![point@] + pts(rest@), reference_point@) - hv_measure(
            pts(rest@),
            reference_point@,
        ),
    decreases rest@.len() + 1, 0int,
{
    proof {
        if valid_point(point@, reference_point@) && valid_points(pts(rest@), reference_point@) {
            lemma_excl_is_region(point@, pts(rest@), reference_point@);
        }
    }
    let ghost r = reference_point@;
    let inclusive = box_volume_exec(point, reference_point);
    if rest.len() == 0 {
        return inclusive;
    }
    let limited = limit_set(rest, point);
    let ghost l = pts(limited@);
    proof {
        lemma_limit_dim(pts(rest@), point@, r.len() as int);
        lemma_nd_dim(l, r.len() as int);
    }
    let nd = get_non_dominated(&limited);
    if nd.len() == 0 {
        return inclusive;
    }
    proof {
        lemma_wfg_fits_value(pts(nd@), r);
    }
    let sub = wfg_recursive(&nd, reference_point);
    inclusive - sub
}

/// The value of the WFG recursion for `points`: zero for no points; in one dimension the
/// first point's excess over the reference point (or zero); in two dimensions the sweep;
/// otherwise the sum of the exclusive contributions of the points.
pub fn wfg_recursive(points: &Vec<Vec<i64>>, reference_point: &Vec<i64>) -> (hv: i128)
    requires
        same_dim(pts(points@), reference_point@.len() as int),
        wfg_fits(pts(points@), reference_point@),
    ensures
        hv == wfg_spec(pts(points@), reference_point@),
    decreases points@.len(), 1int,
{
    let ghost r = reference_point@;
    let ghost ps = pts(points@);
    let n = points.len();
    let dim = reference_point.len();
    if n == 0 {
        return 0;
    }
    if dim == 1 {
        proof {
            assert(ps[0] == points@[0]@);
            assert(ps[0].len() == 1);
        }
        let v = points[0][0] as i128 - reference_point[0] as i128;
        return if v > 0 {
            v
        } else {
            0
        };
    }
    if dim == 2 {
        return hypervolume_2d(points, reference_point);
    }
    let mut total: i128 = 0;
    let mut i: usize = n;
    assert(ps.subrange(n as int, n as int) =~= Seq::<Seq<i64>>::empty());
    while i > 0
        invariant
            r == reference_point@,
            ps == pts(points@),
            n == ps.len(),
            r.len() == dim,
            dim != 1 && dim != 2,
            same_dim(ps, dim as int),
            chain_fits(ps, r),
            i <= n,
            total == excl_chain(ps.subrange(i as int, n as int), r),
        decreases i,
    {
        i = i - 1;
        let rest = slice_subrange(points.as_slice(), i + 1, n);
        proof {
            let sub = ps.subrange(i as int, n as int);
            let tail = ps.subrange(i + 1, n as int);
            assert(pts(rest@) =~= tail);
            assert(sub[0] == ps[i as int]);
            assert(sub.drop_first() =~= tail);
            assert(ps[i as int] == points@[i as int]@);
            lemma_chain_fits_suffix(ps, r, i as int);
            assert(same_dim(tail, dim as int)) by {
                assert forall|k: int| 0 <= k < tail.len() implies (#[trigger] tail[k]).len() == dim by {
                    assert(tail[k] == ps[i + 1 + k]);
                }
            }
        }
        let e = exclusive_hv(&points[i], rest, reference_point);
        total = e + total;
    }
    assert(ps.subrange(0, n as int) =~= ps);
    total
}

} // verus!
