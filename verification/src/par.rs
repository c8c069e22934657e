use vstd::prelude::*;
use rayon::iter::{IntoParallelIterator, ParallelIterator};
use crate::measure::{hv_measure, lemma_measure_le_sum};
use vstd::slice::slice_subrange;
use crate::point::{
    abs, box_volume, box_volume_exec, fits_i128, get_non_dominated, lemma_box_volume_nonneg,
    lemma_limit_dim, lemma_limit_valid, lemma_nd_dim, lemma_nd_props, lemma_sum_volumes_subrange,
    limit_set, limit_spec, nd_pred, nd_spec, pts, same_dim, sum_volumes, valid_point, valid_points,
};
use crate::wfg::{
    excl_chain, excl_fits, excl_spec, lemma_chain_is_hypervolume, lemma_excl_fits_valid,
    lemma_excl_is_region, lemma_wfg_fits_value, lemma_wfg_is_hypervolume, wfg_recursive,
    wfg_spec,
};

verus! {

// ---------------------------------------------------------------------------
// The recursion with its top levels spread over threads
// ---------------------------------------------------------------------------

/// The exclusive contribution of `p` with respect to `rest` when `depth` more levels run in
/// parallel: with `depth` zero the serial contribution; otherwise the box volume of `p` less
/// the sum of the contributions of the non-dominated part of `rest` limited by `p`, one
/// level deeper.
pub open spec fn excl_depth_spec(p: Seq<i64>, rest: Seq<Seq<i64>>, r: Seq<i64>, depth: nat) -> int
    decreases rest.len() + 1, 0int,
{
    if depth == 0 {
        excl_spec(p, rest, r)
    } else {
        let incl = box_volume(p, r);
        if rest.len() == 0 {
            incl
        } else {
            let l = limit_spec(rest, p);
            let nd = nd_spec(l);
            if nd.len() == 0 {
                incl
            } else {
                proof {
                    l.lemma_filter_len(nd_pred(l));
                }
                incl - par_chain_spec(nd, r, (depth - 1) as nat)
            }
        }
    }
}

/// The sum, over the points of `ps`, of each point's contribution with respect to the points
/// after it, `depth` more levels running in parallel.
pub open spec fn par_chain_spec(ps: Seq<Seq<i64>>, r: Seq<i64>, depth: nat) -> int
    decreases ps.len(), 1int,
{
    if ps.len() == 0 {
        0
    } else {
        excl_depth_spec(ps[0], ps.drop_first(), r, depth) + par_chain_spec(ps.drop_first(), r, depth)
    }
}

/// The sum of the magnitudes of the contributions that `par_chain_spec` adds up.
pub open spec fn par_abs(ps: Seq<Seq<i64>>, r: Seq<i64>, depth: nat) -> int
    decreases ps.len(),
{
    if ps.len() == 0 {
        0
    } else {
        abs(excl_depth_spec(ps[0], ps.drop_first(), r, depth)) + par_abs(ps.drop_first(), r, depth)
    }
}

/// Every value formed on the way to the contribution of `p` fits an `i128`.
pub open spec fn excl_depth_fits(p: Seq<i64>, rest: Seq<Seq<i64>>, r: Seq<i64>, depth: nat) -> bool
    decreases rest.len() + 1, 0int,
{
    if depth == 0 {
        excl_fits(p, rest, r)
    } else {
        fits_i128(box_volume(p, r)) && (rest.len() == 0 || {
            let l = limit_spec(rest, p);
            let nd = nd_spec(l);
            nd.len() == 0 || {
                proof {
                    l.lemma_filter_len(nd_pred(l));
                }
                par_fits(nd, r, (depth - 1) as nat) && fits_i128(excl_depth_spec(p, rest, r, depth))
            }
        })
    }
}

/// Every contribution of the points of `ps` is formed within range.
pub open spec fn par_each_fits(ps: Seq<Seq<i64>>, r: Seq<i64>, depth: nat) -> bool
    decreases ps.len(), 1int,
{
    ps.len() == 0 || (excl_depth_fits(ps[0], ps.drop_first(), r, depth) && par_each_fits(
        ps.drop_first(),
        r,
        depth,
    ))
}

/// Every contribution is formed within range, and the magnitudes of the contributions add
/// up to at most `i128::MAX`, so that they can be added in any order.
pub open spec fn par_fits(ps: Seq<Seq<i64>>, r: Seq<i64>, depth: nat) -> bool
    decreases ps.len(), 2int,
{
    par_abs(ps, r, depth) <= i128::MAX && par_each_fits(ps, r, depth)
}

pub proof fn lemma_par_abs_bound(ps: Seq<Seq<i64>>, r: Seq<i64>, depth: nat)
    ensures
        abs(par_chain_spec(ps, r, depth)) <= par_abs(ps, r, depth),
    decreases ps.len(),
{
    if ps.len() > 0 {
        lemma_par_abs_bound(ps.drop_first(), r, depth);
    }
}

/// In dimension other than one and two the parallel recursion adds up the same
/// contributions as the serial one.
pub proof fn lemma_par_chain_high_dim(ps: Seq<Seq<i64>>, r: Seq<i64>, depth: nat)
    requires
        r.len() != 1 && r.len() != 2,
    ensures
        par_chain_spec(ps, r, depth) == excl_chain(ps, r),
    decreases ps.len(), 1int,
{
    if ps.len() > 0 {
        lemma_excl_depth_high_dim(ps[0], ps.drop_first(), r, depth);
        lemma_par_chain_high_dim(ps.drop_first(), r, depth);
    }
}

pub proof fn lemma_excl_depth_high_dim(p: Seq<i64>, rest: Seq<Seq<i64>>, r: Seq<i64>, depth: nat)
    requires
        r.len() != 1 && r.len() != 2,
    ensures
        excl_depth_spec(p, rest, r, depth) == excl_spec(p, rest, r),
    decreases rest.len() + 1, 0int,
{
    if depth > 0 && rest.len() > 0 {
        let l = limit_spec(rest, p);
        let nd = nd_spec(l);
        if nd.len() > 0 {
            l.lemma_filter_len(nd_pred(l));
            lemma_par_chain_high_dim(nd, r, (depth - 1) as nat);
        }
    }
}

/// For points that dominate the reference point the parallel recursion adds up the same
/// non-negative contributions as the serial one, whose sum is the hypervolume.
pub proof fn lemma_par_value_valid(ps: Seq<Seq<i64>>, r: Seq<i64>, depth: nat)
    requires
        valid_points(ps, r),
    ensures
        par_chain_spec(ps, r, depth) == hv_measure(ps, r),
        par_chain_spec(ps, r, depth) == excl_chain(ps, r),
        par_abs(ps, r, depth) == excl_chain(ps, r),
    decreases ps.len(), 1int,
{
    lemma_chain_is_hypervolume(ps, r);
    if ps.len() > 0 {
        let tail = ps.drop_first();
        assert(valid_points(tail, r)) by {
            assert forall|i: int| 0 <= i < tail.len() implies valid_point(#[trigger] tail[i], r) by {
                assert(tail[i] == ps[i + 1]);
            }
        }
        assert(valid_point(ps[0], r));
        lemma_excl_depth_value(ps[0], tail, r, depth);
        lemma_par_value_valid(tail, r, depth);
        lemma_excl_is_region(ps[0], tail, r);
        lemma_chain_is_hypervolume(tail, r);
    }
}

proof fn lemma_excl_depth_value(p: Seq<i64>, rest: Seq<Seq<i64>>, r: Seq<i64>, depth: nat)
    requires
        valid_point(p, r),
        valid_points(rest, r),
    ensures
        excl_depth_spec(p, rest, r, depth) == excl_spec(p, rest, r),
    decreases rest.len() + 1, 0int,
{
    if depth > 0 && rest.len() > 0 {
        let l = limit_spec(rest, p);
        let nd = nd_spec(l);
        lemma_limit_valid(rest, p, r);
        lemma_nd_props(l, r);
        if nd.len() > 0 {
            lemma_par_value_valid(nd, r, (depth - 1) as nat);
            lemma_wfg_is_hypervolume(nd, r);
        }
    }
}

/// For points that dominate the reference point, with box volumes adding up to at most
/// `i128::MAX`, the parallel recursion stays within range at every depth.
pub proof fn lemma_par_valid(ps: Seq<Seq<i64>>, r: Seq<i64>, depth: nat)
    requires
        valid_points(ps, r),
        sum_volumes(ps, r) <= i128::MAX,
    ensures
        par_fits(ps, r, depth),
    decreases ps.len(), 2int,
{
    lemma_par_each_valid(ps, r, depth);
    lemma_par_value_valid(ps, r, depth);
    lemma_measure_le_sum(ps, r);
}

proof fn lemma_par_each_valid(ps: Seq<Seq<i64>>, r: Seq<i64>, depth: nat)
    requires
        valid_points(ps, r),
        sum_volumes(ps, r) <= i128::MAX,
    ensures
        par_each_fits(ps, r, depth),
    decreases ps.len(), 1int,
{
    if ps.len() > 0 {
        let tail = ps.drop_first();
        assert(tail =~= ps.subrange(1, ps.len() as int));
        lemma_sum_volumes_subrange(ps, r, 0, ps.len() as int);
        lemma_sum_volumes_subrange(ps, r, 1, ps.len() as int);
        assert(valid_points(tail, r)) by {
            assert forall|i: int| 0 <= i < tail.len() implies valid_point(#[trigger] tail[i], r) by {
                assert(tail[i] == ps[i + 1]);
            }
        }
        assert(valid_point(ps[0], r));
        lemma_box_volume_nonneg(ps[0], r);
        lemma_excl_depth_fits_valid(ps[0], tail, r, depth);
        lemma_par_each_valid(tail, r, depth);
    }
}

proof fn lemma_excl_depth_fits_valid(p: Seq<i64>, rest: Seq<Seq<i64>>, r: Seq<i64>, depth: nat)
    requires
        valid_point(p, r),
        valid_points(rest, r),
        box_volume(p, r) <= i128::MAX,
        sum_volumes(rest, r) <= i128::MAX,
    ensures
        excl_depth_fits(p, rest, r, depth),
    decreases rest.len() + 1, 0int,
{
    lemma_box_volume_nonneg(p, r);
    lemma_excl_is_region(p, rest, r);
    lemma_excl_depth_value(p, rest, r, depth);
    if depth == 0 {
        lemma_excl_fits_valid(p, rest, r);
    } else if rest.len() > 0 {
        let l = limit_spec(rest, p);
        let nd = nd_spec(l);
        lemma_limit_valid(rest, p, r);
        lemma_nd_props(l, r);
        if nd.len() > 0 {
            lemma_par_valid(nd, r, (depth - 1) as nat);
        }
    }
}

/// Contribution of point `i` of `ps` with respect to the points after it.
pub open spec fn contribution_spec(ps: Seq<Seq<i64>>, r: Seq<i64>, depth: nat, i: int) -> int {
    excl_depth_spec(ps[i], ps.subrange(i + 1, ps.len() as int), r, depth)
}

/// Sum of the contributions of the points from index `i` on.
pub open spec fn contributions_from(ps: Seq<Seq<i64>>, r: Seq<i64>, depth: nat, i: int) -> int
    decreases ps.len() - i,
{
    if i >= ps.len() || i < 0 {
        0
    } else {
        contribution_spec(ps, r, depth, i) + contributions_from(ps, r, depth, i + 1)
    }
}

/// Sum of the magnitudes of the contributions of the points from index `i` on.
pub open spec fn contributions_abs_from(ps: Seq<Seq<i64>>, r: Seq<i64>, depth: nat, i: int) -> int
    decreases ps.len() - i,
{
    if i >= ps.len() || i < 0 {
        0
    } else {
        abs(contribution_spec(ps, r, depth, i)) + contributions_abs_from(ps, r, depth, i + 1)
    }
}

/// Summing the contributions by index is the chain of contributions of the suffix.
pub proof fn lemma_contributions(ps: Seq<Seq<i64>>, r: Seq<i64>, depth: nat, i: int)
    requires
        0 <= i <= ps.len(),
    ensures
        contributions_from(ps, r, depth, i) == par_chain_spec(ps.subrange(i, ps.len() as int), r, depth),
        contributions_abs_from(ps, r, depth, i) == par_abs(ps.subrange(i, ps.len() as int), r, depth),
        par_each_fits(ps.subrange(i, ps.len() as int), r, depth) ==> forall|k: int|
            i <= k < ps.len() ==> #[trigger] excl_depth_fits(
                ps[k],
                ps.subrange(k + 1, ps.len() as int),
                r,
                depth,
            ),
    decreases ps.len() - i,
{
    let n = ps.len() as int;
    let sub = ps.subrange(i, n);
    if i == n {
        assert(sub.len() == 0);
    } else {
        lemma_contributions(ps, r, depth, i + 1);
        assert(sub[0] == ps[i]);
        assert(sub.drop_first() =~= ps.subrange(i + 1, n));
    }
}

/// Sums, across rayon's thread pool, the contribution of every point of `points`
/// (`into_par_iter` on `0..points.len()`, then `map` and `sum` of rayon's parallel iterators).
/// Trusted: rayon applies the closure to every index of the range exactly once and adds up
/// all the results. Each result is the verified `contribution`, whose requirements the
/// `requires` clauses give; the magnitudes of the results add up to at most `i128::MAX`, so no
/// order of the additions leaves the range.
#[verifier::external_body]
fn par_sum_contributions(points: &[Vec<i64>], reference_point: &Vec<i64>, depth: usize) -> (s: i128)
    requires
        same_dim(pts(points@), reference_point@.len() as int),
        forall|k: int|
            0 <= k < points@.len() ==> #[trigger] excl_depth_fits(
                pts(points@)[k],
                pts(points@).subrange(k + 1, points@.len() as int),
                reference_point@,
                depth as nat,
            ),
        contributions_abs_from(pts(points@), reference_point@, depth as nat, 0) <= i128::MAX,
    ensures
        s == contributions_from(pts(points@), reference_point@, depth as nat, 0),
{
    (0..points.len()).into_par_iter().map(|i| contribution(points, i, reference_point, depth)).sum()
}

/// The contribution of point `i` of `points` with respect to the points after it.
pub fn contribution(points: &[Vec<i64>], i: usize, reference_point: &Vec<i64>, depth: usize) -> (v: i128)
    requires
        i < points@.len(),
        same_dim(pts(points@), reference_point@.len() as int),
        excl_depth_fits(
            pts(points@)[i as int],
            pts(points@).subrange(i + 1, points@.len() as int),
            reference_point@,
            depth as nat,
        ),
    ensures
        v == contribution_spec(pts(points@), reference_point@, depth as nat, i as int),
{
    let ghost ps = pts(points@);
    let n = points.len();
    let rest = slice_subrange(points, i + 1, n);
    proof {
        let tail = ps.subrange(i + 1, ps.len() as int);
        assert(pts(rest@) =~= tail);
        assert(ps[i as int] == points@[i as int]@);
        assert forall|k: int| 0 <= k < tail.len() implies (#[trigger] tail[k]).len() == reference_point@.len() by {
            assert(tail[k] == ps[i + 1 + k]);
        }
    }
    exclusive_hv_with_depth(&points[i], rest, reference_point, depth)
}

/// The chain of contributions of `points`, computed in parallel.
pub fn parallel_chain(points: &[Vec<i64>], reference_point: &Vec<i64>, depth: usize) -> (s: i128)
    requires
        same_dim(pts(points@), reference_point@.len() as int),
        par_fits(pts(points@), reference_point@, depth as nat),
    ensures
        s == par_chain_spec(pts(points@), reference_point@, depth as nat),
{
    proof {
        let ps = pts(points@);
        lemma_contributions(ps, reference_point@, depth as nat, 0);
        assert(ps.subrange(0, ps.len() as int) =~= ps);
    }
    par_sum_contributions(points, reference_point, depth)
}

/// The exclusive contribution of `point` with respect to `rest`, where the recursion on the
/// limited set is spread over threads for `depth` more levels.
pub fn exclusive_hv_with_depth(
    point: &Vec<i64>,
    rest: &[Vec<i64>],
    reference_point: &Vec<i64>,
    depth: usize,
) -> (v: i128)
    requires
        point@.len() == reference_point@.len(),
        same_dim(pts(rest@), reference_point@.len() as int),
        excl_depth_fits(point@, pts(rest@), reference_point@, depth as nat),
    ensures
        v == excl_depth_spec(point@, pts(rest@), reference_point@, depth as nat),
        depth == 0 ==> v == excl_spec(point@, pts(rest@), reference_point@),
        valid_point(point@, reference_point@) && valid_points(pts(rest@), reference_point@) ==> v
            == excl_spec(point@, pts(rest@), reference_point@) && v == hv_measure(
            seq![point@] + pts(rest@),
            reference_point@,
        ) - hv_measure(pts(rest@), reference_point@),
{
    proof {
        lemma_depth_zero_is_serial(point@, pts(rest@), reference_point@);
        if valid_point(point@, reference_point@) && valid_points(pts(rest@), reference_point@) {
            lemma_excl_depth_is_region(point@, pts(rest@), reference_point@, depth as nat);
        }
    }
    let ghost r = reference_point@;
    let inclusive = box_volume_exec(point, reference_point);
    if rest.len() == 0 {
        return inclusive;
    }
    let limited = limit_set(rest, point);
    let ghost l = pts(limited@);
    proof {
        lemma_limit_dim(pts(rest@), point@, r.len() as int);
        lemma_nd_dim(l, r.len() as int);
    }
    let nd = get_non_dominated(&limited);
    if nd.len() == 0 {
        return inclusive;
    }
    let sub = if depth == 0 {
        proof {
            lemma_wfg_fits_value(pts(nd@), r);
        }
        wfg_recursive(&nd, reference_point)
    } else {
        proof {
            lemma_par_abs_bound(pts(nd@), r, (depth - 1) as nat);
        }
        parallel_chain(nd.as_slice(), reference_point, depth - 1)
    };
    inclusive - sub
}

// ---------------------------------------------------------------------------
// Laws of the parallel recursion
// ---------------------------------------------------------------------------

/// The parallel chain equals the serial value in dimension other than one and two, and the
/// hypervolume for points that dominate the reference point.
pub proof fn lemma_parallel_chain_facts(ps: Seq<Seq<i64>>, r: Seq<i64>, depth: nat)
    ensures
        r.len() != 1 && r.len() != 2 ==> par_chain_spec(ps, r, depth) == wfg_spec(ps, r),
        valid_points(ps, r) ==> par_chain_spec(ps, r, depth) == hv_measure(ps, r),
{
    if r.len() != 1 && r.len() != 2 {
        lemma_par_chain_high_dim(ps, r, depth);
    }
    if valid_points(ps, r) {
        lemma_par_value_valid(ps, r, depth);
    }
}

/// With no level in parallel, a contribution is the serial one, and so are its range
/// conditions.
pub proof fn lemma_depth_zero_is_serial(p: Seq<i64>, rest: Seq<Seq<i64>>, r: Seq<i64>)
    ensures
        excl_depth_spec(p, rest, r, 0) == excl_spec(p, rest, r),
        excl_depth_fits(p, rest, r, 0) == excl_fits(p, rest, r),
{
}

/// For points that dominate the reference point, the contribution of `p` at every depth is
/// the volume of its box outside the boxes of `rest`: the hypervolume of `p` together with
/// `rest` less that of `rest`, between zero and the box volume of `p`. In particular it does
/// not depend on the depth.
pub proof fn lemma_excl_depth_is_region(p: Seq<i64>, rest: Seq<Seq<i64>>, r: Seq<i64>, depth: nat)
    requires
        valid_point(p, r),
        valid_points(rest, r),
    ensures
        excl_depth_spec(p, rest, r, depth) == excl_spec(p, rest, r),
        excl_depth_spec(p, rest, r, depth) == hv_measure(seq![p] + rest, r) - hv_measure(rest, r),
        0 <= excl_depth_spec(p, rest, r, depth) <= box_volume(p, r),
{
    lemma_excl_depth_value(p, rest, r, depth);
    lemma_excl_is_region(p, rest, r);
}

/// For points that dominate the reference point every depth of parallelism gives the same
/// value, the hypervolume.
pub proof fn lemma_parallel_levels_agree(ps: Seq<Seq<i64>>, r: Seq<i64>, d1: nat, d2: nat)
    requires
        valid_points(ps, r),
    ensures
        par_chain_spec(ps, r, d1) == par_chain_spec(ps, r, d2),
        par_chain_spec(ps, r, d1) == hv_measure(ps, r),
{
    lemma_par_value_valid(ps, r, d1);
    lemma_par_value_valid(ps, r, d2);
}

} // verus!
