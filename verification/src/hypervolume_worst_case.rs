use vstd::prelude::*;
use crate::measure::hv_measure;
use crate::par::{lemma_parallel_chain_facts, par_chain_spec, par_fits, parallel_chain};
use crate::point::{dominates_spec, mutually_nondominated, pts, same_dim, valid_point, valid_points};
use crate::wfg::{wfg_fits, wfg_spec};

verus! {

/// Hypervolume of `points` with respect to `ref_point` by the serial WFG recursion; the
/// same computation as `hypervolume_random::calculate_hv_serial`.
pub fn calculate_hv_serial(points: &Vec<Vec<i64>>, ref_point: &Vec<i64>) -> (hv: i128)
    requires
        same_dim(pts(points@), ref_point@.len() as int),
        wfg_fits(pts(points@), ref_point@),
    ensures
        hv == wfg_spec(pts(points@), ref_point@),
        valid_points(pts(points@), ref_point@) && ((ref_point@.len() != 1 && ref_point@.len() != 2)
            || mutually_nondominated(pts(points@))) ==> hv == hv_measure(pts(points@), ref_point@),
{
    crate::hypervolume_random::calculate_hv_serial(points, ref_point)
}

/// Hypervolume with the contributions of the points computed in parallel, each one serially.
pub fn calculate_hv_parallel_lvl1(points: &Vec<Vec<i64>>, ref_point: &Vec<i64>) -> (hv: i128)
    requires
        same_dim(pts(points@), ref_point@.len() as int),
        par_fits(pts(points@), ref_point@, 0),
    ensures
        hv == par_chain_spec(pts(points@), ref_point@, 0),
        ref_point@.len() != 1 && ref_point@.len() != 2 ==> hv == wfg_spec(pts(points@), ref_point@),
        valid_points(pts(points@), ref_point@) ==> hv == hv_measure(pts(points@), ref_point@),
{
    proof {
        lemma_parallel_chain_facts(pts(points@), ref_point@, 0);
    }
    parallel_chain(points.as_slice(), ref_point, 0)
}

/// Hypervolume with the contributions of the points computed in parallel, and the
/// contributions one level further down computed in parallel as well.
pub fn calculate_hv_parallel_lvl2(points: &Vec<Vec<i64>>, ref_point: &Vec<i64>) -> (hv: i128)
    requires
        same_dim(pts(points@), ref_point@.len() as int),
        par_fits(pts(points@), ref_point@, 1),
    ensures
        hv == par_chain_spec(pts(points@), ref_point@, 1),
        ref_point@.len() != 1 && ref_point@.len() != 2 ==> hv == wfg_spec(pts(points@), ref_point@),
        valid_points(pts(points@), ref_point@) ==> hv == hv_measure(pts(points@), ref_point@),
{
    proof {
        lemma_parallel_chain_facts(pts(points@), ref_point@, 1);
    }
    parallel_chain(points.as_slice(), ref_point, 1)
}

/// Coordinate `i` of the `s`-th cyclic point in dimension `dim`: `(i + s) mod dim + 1`.
pub open spec fn cyclic_value(i: int, s: int, dim: int) -> int {
    if i + s < dim {
        i + s + 1
    } else {
        i + s - dim + 1
    }
}

/// The `dim` cyclic shifts of `(1, 2, ..., dim)`: point `s` has coordinate
/// `(i + s) mod dim + 1` at position `i`.
pub fn generate_cyclic_points(dim: usize) -> (points: Vec<Vec<i64>>)
    requires
        dim <= i64::MAX,
    ensures
        points@.len() == dim,
        forall|s: int| 0 <= s < dim ==> (#[trigger] points@[s])@.len() == dim,
        forall|s: int, i: int|
            0 <= s < dim && 0 <= i < dim ==> (#[trigger] points@[s]@[i]) == cyclic_value(i, s, dim as int),
{
    let mut points: Vec<Vec<i64>> = Vec::with_capacity(dim);
    let mut s: usize = 0;
    while s < dim
        invariant
            dim <= i64::MAX,
            s <= dim,
            points@.len() == s,
            forall|t: int| 0 <= t < s ==> (#[trigger] points@[t])@.len() == dim,
            forall|t: int, i: int|
                0 <= t < s && 0 <= i < dim ==> (#[trigger] points@[t]@[i]) == cyclic_value(i, t, dim as int),
        decreases dim - s,
    {
        let mut p: Vec<i64> = Vec::with_capacity(dim);
        let mut i: usize = 0;
        while i < dim
            invariant
                dim <= i64::MAX,
                s < dim,
                i <= dim,
                p@.len() == i,
                forall|j: int| 0 <= j < i ==> (#[trigger] p@[j]) == cyclic_value(j, s as int, dim as int),
            decreases dim - i,
        {
            let v = if i < dim - s {
                i + s + 1
            } else {
                i - (dim - s) + 1
            };
            p.push(v as i64);
            i = i + 1;
        }
        points.push(p);
        s = s + 1;
    }
    points
}

/// The cyclic points do not dominate one another, and they all lie at or above the origin.
pub proof fn lemma_cyclic_points_nondominated(ps: Seq<Seq<i64>>, dim: int)
    requires
        ps.len() == dim,
        forall|s: int| 0 <= s < dim ==> (#[trigger] ps[s]).len() == dim,
        forall|s: int, i: int| 0 <= s < dim && 0 <= i < dim ==> (#[trigger] ps[s][i]) == cyclic_value(i, s, dim),
    ensures
        mutually_nondominated(ps),
        valid_points(ps, Seq::new(dim as nat, |k: int| 0i64)),
{
    assert forall|s: int, t: int| 0 <= s < ps.len() && 0 <= t < ps.len() implies !dominates_spec(
        #[trigger] ps[s],
        #[trigger] ps[t],
    ) by {
        if dominates_spec(ps[s], ps[t]) {
            let i = dim - 1 - t;
            assert(ps[t][i] == dim);
            assert(ps[s][i] >= ps[t][i]);
            assert(s == t);
            let k = choose|k: int| 0 <= k < dim && ps[s][k] > ps[t][k];
        }
    }
    let z = Seq::new(dim as nat, |k: int| 0i64);
    assert forall|s: int| 0 <= s < ps.len() implies valid_point(#[trigger] ps[s], z) by {
        assert forall|k: int| 0 <= k < z.len() implies z[k] <= #[trigger] ps[s][k] by {
            assert(ps[s][k] == cyclic_value(k, s, dim));
        }
    }
}

} // verus!
