use vstd::prelude::*;
use crate::par::{lemma_par_valid, par_fits};
use crate::point::{
    checked_box_volume, lemma_box_volume_nonneg, lemma_sum_volumes_nonneg,
    lemma_sum_volumes_subrange, pts, same_dim, sum_volumes, valid_point, valid_points,
};
use crate::wfg::{lemma_wfg_fits_valid, wfg_fits};

verus! {

/// Whether every point has the reference point's dimension and lies at or above it in every
/// coordinate, and the box volumes of all points add up to at most `i128::MAX`.
pub fn fits_reference(points: &Vec<Vec<i64>>, reference_point: &Vec<i64>) -> (ok: bool)
    ensures
        ok == (valid_points(pts(points@), reference_point@) && sum_volumes(pts(points@), reference_point@)
            <= i128::MAX),
        ok ==> same_dim(pts(points@), reference_point@.len() as int),
        ok ==> wfg_fits(pts(points@), reference_point@),
        ok ==> forall|depth: nat| #[trigger] par_fits(pts(points@), reference_point@, depth),
{
    let ghost ps = pts(points@);
    let ghost r = reference_point@;
    let mut acc: i128 = 0;
    let mut i: usize = 0;
    while i < points.len()
        invariant
            ps == pts(points@),
            r == reference_point@,
            i <= ps.len(),
            valid_points(ps.take(i as int), r),
            acc == sum_volumes(ps.take(i as int), r),
        decreases ps.len() - i,
    {
        let p = &points[i];
        assert(ps[i as int] == p@);
        if p.len() != reference_point.len() {
            assert(!valid_point(ps[i as int], r));
            return false;
        }
        let mut k: usize = 0;
        while k < p.len()
            invariant
                r == reference_point@,
                ps == pts(points@),
                i < ps.len(),
                ps[i as int] == p@,
                p@.len() == r.len(),
                k <= p@.len(),
                forall|j: int| 0 <= j < k ==> r[j] <= p@[j],
            decreases p@.len() - k,
        {
            if p[k] < reference_point[k] {
                assert(!valid_point(p@, r));
                return false;
            }
            k = k + 1;
        }
        assert(valid_point(p@, r));
        let ghost t = ps.take(i + 1);
        assert(t.drop_last() =~= ps.take(i as int));
        assert(t.last() == p@);
        assert(valid_points(t, r)) by {
            assert forall|j: int| 0 <= j < t.len() implies valid_point(#[trigger] t[j], r) by {
                if j < i {
                    assert(t[j] == ps.take(i as int)[j]);
                }
            }
        }
        proof {
            lemma_box_volume_nonneg(p@, r);
            lemma_sum_volumes_nonneg(ps.take(i as int), r);
        }
        match checked_box_volume(p, reference_point) {
            Some(v) => {
                match acc.checked_add(v) {
                    Some(x) => {
                        acc = x;
                    },
                    None => {
                        proof {
                            if valid_points(ps, r) {
                                assert(ps.subrange(0, i + 1) == t);
                                lemma_sum_volumes_subrange(ps, r, 0, i + 1);
                            }
                        }
                        return false;
                    },
                }
            },
            None => {
                proof {
                    if valid_points(ps, r) {
                        lemma_sum_volumes_subrange(ps, r, i as int, ps.len() as int);
                    }
                }
                return false;
            },
        }
        i = i + 1;
    }
    assert(ps.take(i as int) =~= ps);
    proof {
        lemma_wfg_fits_valid(ps, r);
        assert forall|depth: nat| #[trigger] par_fits(ps, r, depth) by {
            lemma_par_valid(ps, r, depth);
        }
        assert forall|k: int| 0 <= k < ps.len() implies (#[trigger] ps[k]).len() == r.len() by {
            assert(valid_point(ps[k], r));
        }
    }
    true
}

} // verus!
