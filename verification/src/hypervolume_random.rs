use vstd::prelude::*;
use crate::measure::hv_measure;
use crate::par::{lemma_parallel_chain_facts, par_chain_spec, par_fits, parallel_chain};
use crate::point::{
    coord_sum, dominates_spec, lemma_dominates_sum, mutually_nondominated, pts, same_dim,
    valid_point, valid_points,
};
use crate::rng::{
    index_of, lcg_iter, lcg_next, lemma_index_range, lemma_shuffle_contains, lemma_shuffle_last,
    lemma_shuffle_map, lemma_shuffle_steps,
    lemma_shuffle_no_duplicates, lemma_shuffle_permutes, shuffle_from, shuffle_spec, swap_spec,
    SimpleRng,
};
use crate::wfg::{lemma_wfg_is_hypervolume, wfg_fits, wfg_recursive, wfg_spec};

verus! {

/// Hypervolume of `points` with respect to `ref_point` by the serial WFG recursion.
///
/// Every point must have the reference point's dimension, and every value the recursion
/// forms must fit an `i128`; `fits_reference` tests a condition that ensures both.
pub fn calculate_hv_serial(points: &Vec<Vec<i64>>, ref_point: &Vec<i64>) -> (hv: i128)
    requires
        same_dim(pts(points@), ref_point@.len() as int),
        wfg_fits(pts(points@), ref_point@),
    ensures
        hv == wfg_spec(pts(points@), ref_point@),
        valid_points(pts(points@), ref_point@) && ((ref_point@.len() != 1 && ref_point@.len() != 2)
            || mutually_nondominated(pts(points@))) ==> hv == hv_measure(pts(points@), ref_point@),
{
    proof {
        if valid_points(pts(points@), ref_point@) && ((ref_point@.len() != 1 && ref_point@.len() != 2)
            || mutually_nondominated(pts(points@))) {
            lemma_wfg_is_hypervolume(pts(points@), ref_point@);
        }
    }
    wfg_recursive(points, ref_point)
}

/// Hypervolume of `points` with respect to `ref_point`, with the top `parallel_depth` levels
/// of the recursion spread over threads. Depth zero is the serial computation; any other
/// depth adds up the contributions of all points, which in dimension other than one and two
/// is what the serial computation does, and for points that dominate the reference point is
/// the hypervolume.
pub fn calculate_hv_parallel(points: &Vec<Vec<i64>>, ref_point: &Vec<i64>, parallel_depth: usize) -> (hv: i128)
    requires
        same_dim(pts(points@), ref_point@.len() as int),
        parallel_depth == 0 ==> wfg_fits(pts(points@), ref_point@),
        parallel_depth > 0 ==> par_fits(pts(points@), ref_point@, (parallel_depth - 1) as nat),
    ensures
        parallel_depth == 0 ==> hv == wfg_spec(pts(points@), ref_point@),
        parallel_depth > 0 ==> hv == par_chain_spec(pts(points@), ref_point@, (parallel_depth - 1) as nat),
        ref_point@.len() != 1 && ref_point@.len() != 2 ==> hv == wfg_spec(pts(points@), ref_point@),
        valid_points(pts(points@), ref_point@) && (parallel_depth > 0 || (ref_point@.len() != 1
            && ref_point@.len() != 2) || mutually_nondominated(pts(points@))) ==> hv == hv_measure(
            pts(points@),
            ref_point@,
        ),
{
    if parallel_depth == 0 {
        return calculate_hv_serial(points, ref_point);
    }
    proof {
        lemma_parallel_chain_facts(pts(points@), ref_point@, (parallel_depth - 1) as nat);
    }
    parallel_chain(points.as_slice(), ref_point, parallel_depth - 1)
}

// ---------------------------------------------------------------------------
// Structured random point sets
// ---------------------------------------------------------------------------

/// The sum of the coordinates of every generated point, in units of one thousandth.
pub const TOTAL: u16 = 1000;

/// Cut positions: strictly increasing, each in `1..TOTAL`.
pub open spec fn cuts_ok(cuts: Seq<u16>) -> bool {
    &&& forall|k: int| 0 <= k < cuts.len() ==> 1 <= #[trigger] cuts[k] <= 999
    &&& forall|a: int, b: int| 0 <= a < b < cuts.len() ==> (#[trigger] cuts[a]) < (#[trigger] cuts[b])
}

/// Cut `k`, with 0 before the first cut and `TOTAL` after the last one.
pub open spec fn cut_at(cuts: Seq<u16>, k: int) -> int {
    if k < 0 {
        0
    } else if k < cuts.len() {
        cuts[k] as int
    } else {
        1000
    }
}

/// The parts into which the cuts split `0..TOTAL`: part `k` runs from cut `k - 1` to cut `k`.
pub open spec fn composition(cuts: Seq<u16>) -> Seq<i64> {
    Seq::new((cuts.len() + 1) as nat, |k: int| (cut_at(cuts, k) - cut_at(cuts, k - 1)) as i64)
}

/// `p` has `len` coordinates, each at least one, adding up to `TOTAL`.
pub open spec fn is_composition(p: Seq<i64>, len: int) -> bool {
    &&& p.len() == len
    &&& forall|k: int| 0 <= k < p.len() ==> #[trigger] p[k] >= 1
    &&& coord_sum(p) == 1000
}

/// Number of coordinates of a generated point in dimension `dim`.
pub open spec fn point_len(dim: int) -> int {
    if dim == 0 {
        1
    } else {
        dim
    }
}

pub proof fn lemma_composition(cuts: Seq<u16>)
    requires
        cuts_ok(cuts),
    ensures
        is_composition(composition(cuts), cuts.len() + 1int),
{
    let c = composition(cuts);
    assert forall|k: int| 0 <= k < c.len() implies #[trigger] c[k] >= 1 by {
        if 0 < k < cuts.len() {
            assert(cuts[k - 1] < cuts[k]);
        }
        if k == cuts.len() && k > 0 {
            assert(cuts[k - 1] <= 999);
        }
        if k == 0 && cuts.len() > 0 {
            assert(cuts[0] >= 1);
        }
    }
    lemma_composition_prefix(cuts, c.len() as int);
    assert(c.take(c.len() as int) =~= c);
}

proof fn lemma_composition_prefix(cuts: Seq<u16>, k: int)
    requires
        cuts_ok(cuts),
        0 <= k <= cuts.len() + 1,
    ensures
        coord_sum(composition(cuts).take(k)) == cut_at(cuts, k - 1),
    decreases k,
{
    let c = composition(cuts);
    if k > 0 {
        lemma_composition_prefix(cuts, k - 1);
        assert(c.take(k).drop_last() =~= c.take(k - 1));
        if 0 < k - 1 < cuts.len() {
            assert(cuts[k - 2] < cuts[k - 1]);
        }
        if k - 1 == cuts.len() && k - 1 > 0 {
            assert(cuts[k - 2] <= 999);
        }
    } else {
        assert(c.take(0) =~= Seq::<i64>::empty());
    }
}

proof fn lemma_coord_sum_update(s: Seq<i64>, i: int, v: i64)
    requires
        0 <= i < s.len(),
    ensures
        coord_sum(s.update(i, v)) == coord_sum(s) - s[i] + v,
    decreases s.len(),
{
    let u = s.update(i, v);
    if i == s.len() - 1 {
        assert(u.drop_last() =~= s.drop_last());
    } else {
        assert(u.drop_last() =~= s.drop_last().update(i, v));
        lemma_coord_sum_update(s.drop_last(), i, v);
    }
}

proof fn lemma_shuffle_composition(p: Seq<i64>, st: u64, i: int, len: int)
    requires
        is_composition(p, len),
        i < p.len(),
    ensures
        is_composition(shuffle_from(p, st, i).0, len),
    decreases i,
{
    if i > 0 {
        let st2 = lcg_next(st);
        let j = index_of(st2, i + 1);
        lemma_index_range(st2, i + 1);
        let q = swap_spec(p, i, j);
        lemma_coord_sum_update(p, i, p[j]);
        lemma_coord_sum_update(p.update(i, p[j]), j, p[i]);
        assert forall|k: int| 0 <= k < q.len() implies #[trigger] q[k] >= 1 by {
            assert(q[k] == p[k] || q[k] == p[i] || q[k] == p[j]);
        }
        lemma_shuffle_composition(q, st2, i - 1, len);
    }
}

/// Points of equal dimension whose coordinates add up to the same total do not dominate
/// one another.
pub proof fn lemma_equal_sums_nondominated(ps: Seq<Seq<i64>>, len: int)
    requires
        forall|i: int| 0 <= i < ps.len() ==> is_composition(#[trigger] ps[i], len),
    ensures
        mutually_nondominated(ps),
{
    assert forall|i: int, j: int| 0 <= i < ps.len() && 0 <= j < ps.len() implies !dominates_spec(
        #[trigger] ps[i],
        #[trigger] ps[j],
    ) by {
        assert(is_composition(ps[i], len) && is_composition(ps[j], len));
        if dominates_spec(ps[i], ps[j]) {
            lemma_dominates_sum(ps[i], ps[j]);
        }
    }
}

/// `c` placed into the ascending cut positions `cuts` at its place, unless already present.
pub open spec fn cut_insert(cuts: Seq<u16>, c: u16) -> Seq<u16>
    decreases cuts.len(),
{
    if cuts.len() == 0 {
        seq![c]
    } else if cuts.last() < c {
        cuts.push(c)
    } else if cuts.last() == c {
        cuts
    } else {
        cut_insert(cuts.drop_last(), c).push(cuts.last())
    }
}

proof fn lemma_cut_insert_at(s: Seq<u16>, c: u16, pos: int)
    requires
        cuts_ok(s),
        0 <= pos <= s.len(),
        forall|k: int| 0 <= k < pos ==> #[trigger] s[k] < c,
        pos == s.len() || s[pos] >= c,
    ensures
        cut_insert(s, c) == if pos < s.len() && s[pos] == c {
            s
        } else {
            s.insert(pos, c)
        },
    decreases s.len(),
{
    if s.len() == 0 {
        assert(s.insert(pos, c) =~= seq![c]);
    } else {
        let n = s.len() - 1;
        let t = s.drop_last();
        if s.last() < c {
            assert(pos == s.len());
            assert(s.insert(pos, c) =~= s.push(c));
        } else if s.last() == c {
            if pos < n {
                assert(s[pos] < s[n]);
            }
            assert(pos == n);
        } else {
            assert(pos <= n);
            if pos < n {
                assert(s[pos] == t[pos]);
            }
            assert(cuts_ok(t));
            lemma_cut_insert_at(t, c, pos);
            if !(pos < s.len() && s[pos] == c) {
                assert(t.insert(pos, c).push(s.last()) =~= s.insert(pos, c));
            } else {
                assert(t.push(s.last()) =~= s);
            }
        }
    }
}

/// `c` inserted into the cut positions `cuts`, unless already present.
pub fn insert_cut(cuts: &mut Vec<u16>, c: u16)
    requires
        cuts_ok(old(cuts)@),
        1 <= c <= 999,
    ensures
        cuts_ok(final(cuts)@),
        forall|x: u16| #[trigger] final(cuts)@.contains(x) <==> (old(cuts)@.contains(x) || x == c),
        final(cuts)@.len() == old(cuts)@.len() + (if old(cuts)@.contains(c) { 0int } else { 1int }),
        final(cuts)@ == cut_insert(old(cuts)@, c),
{
    let mut pos: usize = 0;
    while pos < cuts.len() && cuts[pos] < c
        invariant
            pos <= cuts@.len(),
            forall|k: int| 0 <= k < pos ==> #[trigger] cuts@[k] < c,
        decreases cuts@.len() - pos,
    {
        pos = pos + 1;
    }
    proof {
        lemma_cut_insert_at(cuts@, c, pos as int);
    }
    if pos < cuts.len() && cuts[pos] == c {
        return;
    }
    let ghost s = cuts@;
    assert(!s.contains(c)) by {
        if s.contains(c) {
            let k = choose|k: int| 0 <= k < s.len() && s[k] == c;
            if k > pos {
                assert(s[pos as int] < s[k]);
            }
        }
    }
    cuts.insert(pos, c);
    assert forall|x: u16| #[trigger] cuts@.contains(x) <==> (s.contains(x) || x == c) by {
        if cuts@.contains(x) {
            let k = choose|k: int| 0 <= k < cuts@.len() && cuts@[k] == x;
            if k < pos {
                assert(s[k] == x);
            } else if k > pos {
                assert(s[k - 1] == x);
            }
        }
        if s.contains(x) {
            let k = choose|k: int| 0 <= k < s.len() && s[k] == x;
            if k < pos {
                assert(cuts@[k] == x);
            } else {
                assert(cuts@[k + 1] == x);
            }
        }
        if x == c {
            assert(cuts@[pos as int] == c);
        }
    }
    assert forall|a: int, b: int| 0 <= a < b < cuts@.len() implies (#[trigger] cuts@[a]) < (
    #[trigger] cuts@[b]) by {
        if b < pos {
            assert(cuts@[a] == s[a] && cuts@[b] == s[b]);
        } else if b == pos {
            assert(cuts@[a] == s[a]);
        } else if a < pos {
            assert(cuts@[a] == s[a] && cuts@[b] == s[b - 1]);
            assert(s[b - 1] >= c) by {
                if pos < s.len() {
                    assert(s[pos as int] >= c);
                    if b - 1 > pos {
                        assert(s[pos as int] < s[b - 1]);
                    }
                }
            }
        } else if a == pos {
            assert(cuts@[b] == s[b - 1]);
            if b - 1 > pos {
                assert(s[pos as int] < s[b - 1]);
            }
        } else {
            assert(cuts@[a] == s[a - 1] && cuts@[b] == s[b - 1]);
        }
    }
}

/// The parts into which the cut positions split `0..TOTAL`.
pub fn compose_cuts(cuts: &Vec<u16>) -> (coords: Vec<i64>)
    requires
        cuts_ok(cuts@),
    ensures
        coords@ == composition(cuts@),
{
    let mut coords: Vec<i64> = Vec::new();
    let mut previous: u16 = 0;
    let mut k: usize = 0;
    while k < cuts.len()
        invariant
            cuts_ok(cuts@),
            k <= cuts@.len(),
            previous == cut_at(cuts@, k - 1),
            coords@ == composition(cuts@).take(k as int),
        decreases cuts@.len() - k,
    {
        if k > 0 {
            assert(cuts@[k - 1] < cuts@[k as int]);
        }
        coords.push((cuts[k] - previous) as i64);
        previous = cuts[k];
        k = k + 1;
        assert(coords@ =~= composition(cuts@).take(k as int));
    }
    if k > 0 {
        assert(cuts@[k - 1] <= 999);
    }
    coords.push((TOTAL - previous) as i64);
    assert(coords@ =~= composition(cuts@));
    coords
}

/// Whether two points are equal.
pub fn same_point(a: &Vec<i64>, b: &Vec<i64>) -> (eq: bool)
    ensures
        eq == (a@ == b@),
{
    if a.len() != b.len() {
        return false;
    }
    let mut k: usize = 0;
    while k < a.len()
        invariant
            a@.len() == b@.len(),
            k <= a@.len(),
            forall|j: int| 0 <= j < k ==> a@[j] == b@[j],
        decreases a@.len() - k,
    {
        if a[k] != b[k] {
            return false;
        }
        k = k + 1;
    }
    assert(a@ =~= b@);
    true
}

/// Whether `p` is one of `points`.
pub fn contains_point(points: &Vec<Vec<i64>>, p: &Vec<i64>) -> (found: bool)
    ensures
        found == pts(points@).contains(p@),
{
    let mut i: usize = 0;
    while i < points.len()
        invariant
            i <= points@.len(),
            forall|j: int| 0 <= j < i ==> pts(points@)[j] != p@,
        decreases points@.len() - i,
    {
        if same_point(&points[i], p) {
            assert(pts(points@)[i as int] == p@);
            return true;
        }
        i = i + 1;
    }
    false
}

/// One unit of the generation, on the generator state `st`, the number of points wanted
/// `n`, the dimension `dim`, the cut positions drawn so far and the points found so far.
/// With all points found, nothing changes. Otherwise, while fewer than `dim - 1` cuts are
/// drawn, the generator steps and yields the cut `1 + index in 0..999`, placed among the cuts
/// unless present; once the cuts are complete, the parts between them are shuffled into a
/// point, which is kept when it is new, and the cuts are cleared.
pub open spec fn dataset_step(st: u64, n: nat, dim: nat, cuts: Seq<u16>, found: Seq<Seq<i64>>) -> (
    u64,
    Seq<u16>,
    Seq<Seq<i64>>,
) {
    if found.len() >= n {
        (st, cuts, found)
    } else if cuts.len() + 1 < dim {
        let st2 = lcg_next(st);
        (st2, cut_insert(cuts, (1 + index_of(st2, 999)) as u16), found)
    } else {
        let (coords, st2) = shuffle_spec(composition(cuts), st);
        (st2, Seq::empty(), if found.contains(coords) {
            found
        } else {
            found.push(coords)
        })
    }
}

proof fn lemma_cut_insert_props(s: Seq<u16>, c: u16)
    requires
        cuts_ok(s),
        1 <= c <= 999,
    ensures
        cuts_ok(cut_insert(s, c)),
        forall|x: u16| #[trigger] cut_insert(s, c).contains(x) <==> (s.contains(x) || x == c),
    decreases s.len(),
{
    let r = cut_insert(s, c);
    if s.len() == 0 {
        assert(r =~= seq![c]);
        assert forall|x: u16| #[trigger] r.contains(x) <==> (s.contains(x) || x == c) by {
            if r.contains(x) {
                assert(r[0] == c);
            }
            if x == c {
                assert(r[0] == c);
            }
        }
    } else {
        let t = s.drop_last();
        let last = s.last();
        assert(cuts_ok(t));
        assert(s =~= t.push(last));
        if last < c {
            assert forall|x: u16| #[trigger] r.contains(x) <==> (s.contains(x) || x == c) by {
                if r.contains(x) {
                    let k = choose|k: int| 0 <= k < r.len() && r[k] == x;
                    if k < s.len() {
                        assert(s[k] == x);
                    }
                }
                if s.contains(x) {
                    let k = choose|k: int| 0 <= k < s.len() && s[k] == x;
                    assert(r[k] == x);
                }
                if x == c {
                    assert(r[s.len() as int] == c);
                }
            }
            assert forall|a: int, b: int| 0 <= a < b < r.len() implies (#[trigger] r[a]) < (#[trigger] r[b]) by {
                if b == s.len() {
                    assert(s[a] <= last);
                }
            }
        } else if last == c {
            assert(s.contains(last));
        } else {
            lemma_cut_insert_props(t, c);
            let u = cut_insert(t, c);
            assert(r == u.push(last));
            assert forall|x: u16| #[trigger] r.contains(x) <==> (s.contains(x) || x == c) by {
                if r.contains(x) {
                    let k = choose|k: int| 0 <= k < r.len() && r[k] == x;
                    if k < u.len() {
                        assert(u.contains(u[k]));
                        if t.contains(x) {
                            let m = choose|m: int| 0 <= m < t.len() && t[m] == x;
                            assert(s[m] == x);
                        }
                    } else {
                        assert(s[s.len() - 1] == x);
                    }
                }
                if s.contains(x) {
                    let k = choose|k: int| 0 <= k < s.len() && s[k] == x;
                    if k < t.len() {
                        assert(t[k] == x);
                        assert(t.contains(x));
                        assert(u.contains(x));
                        let m = choose|m: int| 0 <= m < u.len() && u[m] == x;
                        assert(r[m] == x);
                    } else {
                        assert(r[u.len() as int] == x);
                    }
                }
                if x == c {
                    assert(u.contains(c));
                    let m = choose|m: int| 0 <= m < u.len() && u[m] == c;
                    assert(r[m] == c);
                }
            }
            assert forall|a: int, b: int| 0 <= a < b < r.len() implies (#[trigger] r[a]) < (#[trigger] r[b]) by {
                if b == u.len() {
                    assert(u.contains(u[a]));
                    if u[a] != c {
                        assert(t.contains(u[a]));
                        let m = choose|m: int| 0 <= m < t.len() && t[m] == u[a];
                        assert(s[m] < s[s.len() - 1]);
                    }
                } else {
                    assert(r[a] == u[a] && r[b] == u[b]);
                }
            }
            assert forall|k: int| 0 <= k < r.len() implies 1 <= #[trigger] r[k] <= 999 by {
                if k < u.len() {
                    assert(r[k] == u[k]);
                }
            }
        }
    }
}

/// Drawing a cut: while points are still wanted and fewer than `dim - 1` cuts are drawn, one
/// unit of generation steps the generator once and adds the cut `1 + i`, for the index `i`
/// the new state yields in `0..999`, to the cuts, which stay ascending and free of repeats;
/// the points found stay as they are.
pub proof fn lemma_step_draws_cut(st: u64, n: nat, dim: nat, cuts: Seq<u16>, found: Seq<Seq<i64>>)
    requires
        found.len() < n,
        cuts_ok(cuts),
        cuts.len() + 1 < dim,
    ensures
        ({
            let (st2, cuts2, found2) = dataset_step(st, n, dim, cuts, found);
            let c = 1 + index_of(lcg_next(st), 999);
            &&& st2 == lcg_next(st)
            &&& 1 <= c <= 999
            &&& cuts_ok(cuts2)
            &&& forall|x: u16| #[trigger] cuts2.contains(x) <==> (cuts.contains(x) || x == c)
            &&& found2 == found
        }),
{
    let st2 = lcg_next(st);
    lemma_index_range(st2, 999);
    lemma_cut_insert_props(cuts, (1 + index_of(st2, 999)) as u16);
}

/// Forming a point: while points are still wanted and the cuts are complete, one unit of
/// generation takes the parts between the ascending cuts (whose running sums are the cuts) and
/// shuffles them with the generator as `SimpleRng::shuffle` does: the generator steps once per
/// position from the last down to 1, so `cuts.len()` times, and the first draw picks the part
/// that ends up last. The shuffled point, a rearrangement of the parts adding up to `TOTAL`,
/// is kept unless it was found before, and the cuts are cleared.
pub proof fn lemma_step_forms_shuffled_point(st: u64, n: nat, dim: nat, cuts: Seq<u16>, found: Seq<Seq<i64>>)
    requires
        found.len() < n,
        cuts_ok(cuts),
        cuts.len() + 1 >= dim,
    ensures
        ({
            let (st2, cuts2, found2) = dataset_step(st, n, dim, cuts, found);
            let parts = composition(cuts);
            let x = shuffle_spec(parts, st).0;
            &&& forall|k: int| 0 <= k <= cuts.len() ==> #[trigger] coord_sum(parts.take(k + 1)) == cut_at(cuts, k)
            &&& st2 == lcg_iter(st, cuts.len())
            &&& st2 == shuffle_spec(parts, st).1
            &&& x.to_multiset() == parts.to_multiset()
            &&& is_composition(x, cuts.len() + 1int)
            &&& (cuts.len() >= 1 ==> x.last() == parts[index_of(lcg_next(st), cuts.len() + 1int)])
            &&& cuts2.len() == 0
            &&& found2 == (if found.contains(x) { found } else { found.push(x) })
        }),
{
    let parts = composition(cuts);
    assert forall|k: int| 0 <= k <= cuts.len() implies #[trigger] coord_sum(parts.take(k + 1)) == cut_at(cuts, k) by {
        lemma_composition_prefix(cuts, k + 1);
    }
    lemma_shuffle_steps(parts, st, parts.len() - 1);
    lemma_shuffle_permutes(parts, st);
    lemma_composition(cuts);
    lemma_shuffle_composition(parts, st, parts.len() - 1, cuts.len() + 1int);
    if cuts.len() >= 1 {
        lemma_shuffle_last(parts, st);
    }
}

/// `k` units of the generation.
pub open spec fn dataset_run(
    st: u64,
    n: nat,
    dim: nat,
    cuts: Seq<u16>,
    found: Seq<Seq<i64>>,
    k: nat,
) -> (u64, Seq<u16>, Seq<Seq<i64>>)
    decreases k,
{
    if k == 0 {
        (st, cuts, found)
    } else {
        let (st2, cuts2, found2) = dataset_step(st, n, dim, cuts, found);
        dataset_run(st2, n, dim, cuts2, found2, (k - 1) as nat)
    }
}

proof fn lemma_dataset_run_succ(
    st: u64,
    n: nat,
    dim: nat,
    cuts: Seq<u16>,
    found: Seq<Seq<i64>>,
    k: nat,
)
    ensures
        ({
            let (a, b, c) = dataset_run(st, n, dim, cuts, found, k);
            dataset_run(st, n, dim, cuts, found, k + 1) == dataset_step(a, n, dim, b, c)
        }),
    decreases k,
{
    let (st2, cuts2, found2) = dataset_step(st, n, dim, cuts, found);
    assert(dataset_run(st, n, dim, cuts, found, k + 1) == dataset_run(st2, n, dim, cuts2, found2, k));
    if k > 0 {
        lemma_dataset_run_succ(st2, n, dim, cuts2, found2, (k - 1) as nat);
        assert(dataset_run(st, n, dim, cuts, found, k) == dataset_run(
            st2,
            n,
            dim,
            cuts2,
            found2,
            (k - 1) as nat,
        ));
        assert(((k - 1) as nat + 1) as nat == k);
    } else {
        assert(dataset_run(st2, n, dim, cuts2, found2, 0) == (st2, cuts2, found2));
    }
}

proof fn lemma_dataset_run_done(st: u64, n: nat, dim: nat, cuts: Seq<u16>, found: Seq<Seq<i64>>, k: nat)
    requires
        found.len() >= n,
    ensures
        dataset_run(st, n, dim, cuts, found, k) == (st, cuts, found),
    decreases k,
{
    if k > 0 {
        lemma_dataset_run_done(st, n, dim, cuts, found, (k - 1) as nat);
    }
}

proof fn lemma_dataset_run_add(
    st: u64,
    n: nat,
    dim: nat,
    cuts: Seq<u16>,
    found: Seq<Seq<i64>>,
    i: nat,
    j: nat,
)
    ensures
        ({
            let (a, b, c) = dataset_run(st, n, dim, cuts, found, i);
            dataset_run(st, n, dim, cuts, found, i + j) == dataset_run(a, n, dim, b, c, j)
        }),
    decreases i,
{
    if i > 0 {
        let (st2, cuts2, found2) = dataset_step(st, n, dim, cuts, found);
        lemma_dataset_run_add(st2, n, dim, cuts2, found2, (i - 1) as nat, j);
        assert((i + j - 1) as nat == (i - 1) as nat + j);
    }
}

/// A point set under construction: random compositions of `TOTAL` into `dim` positive parts
/// (one part when `dim` is zero), all distinct, drawn from a seeded generator.
///
/// Each `step` either draws one more cut position or, when the cuts are complete, turns them
/// into a point; `finish` shuffles the points found.
pub struct StructuredDataset {
    rng: SimpleRng,
    n_points: usize,
    dim: usize,
    cuts: Vec<u16>,
    points: Vec<Vec<i64>>,
}

impl StructuredDataset {
    /// The generator state.
    pub closed spec fn state(self) -> u64 {
        self.rng.state
    }

    /// The number of points wanted.
    pub closed spec fn target(self) -> nat {
        self.n_points as nat
    }

    /// The dimension asked for.
    pub closed spec fn dimension(self) -> nat {
        self.dim as nat
    }

    /// The cut positions drawn for the next point.
    pub closed spec fn cut_positions(self) -> Seq<u16> {
        self.cuts@
    }

    /// The points found so far, in the order they were found.
    pub closed spec fn found(self) -> Seq<Seq<i64>> {
        pts(self.points@)
    }

    #[verifier::type_invariant]
    closed spec fn well_formed(self) -> bool {
        &&& cuts_ok(self.cuts@)
        &&& self.cuts@.len() + 1 <= point_len(self.dim as int)
        &&& self.points@.len() <= self.n_points
        &&& forall|i: int|
            0 <= i < self.points@.len() ==> is_composition(
                #[trigger] pts(self.points@)[i],
                point_len(self.dim as int),
            )
        &&& pts(self.points@).no_duplicates()
    }

    /// A new point set of `n_points` points in dimension `dim`; the generator is seeded
    /// with `12345 + n_points + 10000 * dim`.
    pub fn new(n_points: usize, dim: usize) -> (ds: Self)
        requires
            12345 + n_points + 10000 * dim <= u64::MAX,
        ensures
            ds.state() == 12345 + n_points + 10000 * dim,
            ds.target() == n_points,
            ds.dimension() == dim,
            ds.cut_positions().len() == 0,
            ds.found().len() == 0,
            cuts_ok(ds.cut_positions()),
    {
        let seed = 12345 + n_points as u64 + (dim as u64 * 10_000);
        let ds = StructuredDataset {
            rng: SimpleRng::new(seed),
            n_points,
            dim,
            cuts: Vec::new(),
            points: Vec::new(),
        };
        assert(pts(ds.points@) =~= Seq::<Seq<i64>>::empty());
        ds
    }

    /// Whether all the points wanted have been found.
    pub fn is_complete(&self) -> (done: bool)
        ensures
            done == (self.found().len() >= self.target()),
            cuts_ok(self.cut_positions()),
    {
        proof {
            use_type_invariant(self);
        }
        self.points.len() >= self.n_points
    }

    /// One unit of the generation (see `dataset_step`): with all points found nothing changes;
    /// while cuts are missing, one cut is drawn; once they are complete, the parts between
    /// them are shuffled by the generator into a point, kept unless found before.
    pub fn step(&mut self)
        ensures
            final(self).target() == old(self).target(),
            final(self).dimension() == old(self).dimension(),
            (final(self).state(), final(self).cut_positions(), final(self).found()) == dataset_step(
                old(self).state(),
                old(self).target(),
                old(self).dimension(),
                old(self).cut_positions(),
                old(self).found(),
            ),
            cuts_ok(final(self).cut_positions()),
            old(self).found().len() >= old(self).target() ==> final(self).state() == old(self).state()
                && final(self).cut_positions() == old(self).cut_positions() && final(self).found()
                == old(self).found(),
            old(self).found().len() < old(self).target() && old(self).cut_positions().len() + 1
                < old(self).dimension() ==> final(self).state() == lcg_next(old(self).state())
                && final(self).found() == old(self).found() && forall|x: u16| #[trigger]
                final(self).cut_positions().contains(x) <==> (old(self).cut_positions().contains(x)
                || x == 1 + index_of(lcg_next(old(self).state()), 999)),
            old(self).found().len() < old(self).target() && old(self).cut_positions().len() + 1
                >= old(self).dimension() ==> ({
                let x = shuffle_spec(composition(old(self).cut_positions()), old(self).state()).0;
                &&& final(self).state() == lcg_iter(old(self).state(), old(self).cut_positions().len())
                &&& final(self).cut_positions().len() == 0
                &&& final(self).found() == (if old(self).found().contains(x) {
                    old(self).found()
                } else {
                    old(self).found().push(x)
                })
            }),
    {
        proof {
            use_type_invariant(&*self);
            let st = self.state();
            let n = self.target();
            let d = self.dimension();
            let cs = self.cut_positions();
            let fs = self.found();
            if fs.len() < n {
                if cs.len() + 1 < d {
                    lemma_step_draws_cut(st, n, d, cs, fs);
                } else {
                    lemma_step_forms_shuffled_point(st, n, d, cs, fs);
                }
            }
        }
        if self.points.len() >= self.n_points {
            return;
        }
        let mut cur = StructuredDataset {
            rng: SimpleRng::new(0),
            n_points: 0,
            dim: 0,
            cuts: Vec::new(),
            points: Vec::new(),
        };
        proof {
            assert(pts(cur.points@) =~= Seq::<Seq<i64>>::empty());
        }
        std::mem::swap(self, &mut cur);
        proof {
            use_type_invariant(&cur);
        }
        let StructuredDataset { rng, n_points, dim, cuts, points } = cur;
        let mut rng = rng;
        let mut cuts = cuts;
        let mut points = points;
        if cuts.len() + 1 < dim {
            let i = rng.gen_index(999);
            proof {
                lemma_index_range(rng.state, 999);
            }
            let c = 1 + i as u16;
            insert_cut(&mut cuts, c);
        } else {
            let mut coords = compose_cuts(&cuts);
            let ghost comp = coords@;
            let ghost st0 = rng.state;
            proof {
                lemma_composition(cuts@);
                lemma_shuffle_composition(comp, st0, comp.len() - 1, point_len(dim as int));
            }
            rng.shuffle(&mut coords);
            if !contains_point(&points, &coords) {
                let ghost old_points = pts(points@);
                points.push(coords);
                assert(pts(points@) =~= old_points.push(coords@));
            }
            cuts = Vec::new();
        }
        *self = StructuredDataset { rng, n_points, dim, cuts, points };
    }

    /// The points found, shuffled by the generator. Every point has `dim` coordinates (one
    /// when `dim` is zero), each at least one, adding up to `TOTAL`; no point occurs twice,
    /// and no point dominates another.
    pub fn finish(self) -> (points: Vec<Vec<i64>>)
        ensures
            pts(points@) == shuffle_spec(self.found(), self.state()).0,
            points@.len() == self.found().len(),
            self.found().len() >= self.target() ==> points@.len() == self.target(),
            forall|i: int|
                0 <= i < points@.len() ==> is_composition(
                    #[trigger] pts(points@)[i],
                    point_len(self.dimension() as int),
                ),
            pts(points@).no_duplicates(),
            mutually_nondominated(pts(points@)),
            valid_points(pts(points@), Seq::new(point_len(self.dimension() as int) as nat, |k: int| 0i64)),
    {
        proof {
            use_type_invariant(&self);
        }
        let ghost found = pts(self.points@);
        let ghost st = self.rng.state;
        let ghost len = point_len(self.dim as int);
        let StructuredDataset { rng, points, .. } = self;
        let mut rng = rng;
        let mut points = points;
        let ghost before = points@;
        rng.shuffle(&mut points);
        proof {
            let f = |p: Vec<i64>| p@;
            lemma_shuffle_map(before, st, before.len() - 1, f);
            assert(pts(before) == found);
            assert(pts(points@) == shuffle_spec(found, st).0);
            lemma_shuffle_permutes(found, st);
            lemma_shuffle_no_duplicates(found, st, found.len() - 1);
            let out = pts(points@);
            assert forall|i: int| 0 <= i < out.len() implies is_composition(#[trigger] out[i], len) by {
                assert(out.contains(out[i]));
                lemma_shuffle_contains(found, st, out[i]);
                let k = choose|k: int| 0 <= k < found.len() && found[k] == out[i];
            }
            lemma_equal_sums_nondominated(out, len);
            let z = Seq::new(len as nat, |k: int| 0i64);
            assert forall|i: int| 0 <= i < out.len() implies valid_point(#[trigger] out[i], z) by {
                assert(is_composition(out[i], len));
                assert forall|k: int| 0 <= k < z.len() implies z[k] <= #[trigger] out[i][k] by {
                    assert(out[i][k] >= 1);
                }
            }
        }
        points
    }
}

/// The structured point set of `n_points` points in dimension `dim`: the shuffled points
/// reached once the generation (seeded with `12345 + n_points + 10000 * dim`) has found them
/// all, when at most `max_steps` units of generation do so; otherwise `None`.
pub fn generate_structured_dataset(n_points: usize, dim: usize, max_steps: usize) -> (res: Option<
    Vec<Vec<i64>>,
>)
    requires
        12345 + n_points + 10000 * dim <= u64::MAX,
    ensures
        ({
            let (st, cuts, found) = dataset_run(
                (12345 + n_points + 10000 * dim) as u64,
                n_points as nat,
                dim as nat,
                Seq::empty(),
                Seq::empty(),
                max_steps as nat,
            );
            match res {
                Some(ps) => {
                    &&& found.len() >= n_points
                    &&& pts(ps@) == shuffle_spec(found, st).0
                    &&& ps@.len() == n_points
                    &&& forall|i: int|
                        0 <= i < ps@.len() ==> is_composition(#[trigger] pts(ps@)[i], point_len(dim as int))
                    &&& pts(ps@).no_duplicates()
                    &&& mutually_nondominated(pts(ps@))
                    &&& valid_points(pts(ps@), Seq::new(point_len(dim as int) as nat, |k: int| 0i64))
                },
                None => found.len() < n_points,
            }
        }),
{
    let ghost seed = (12345 + n_points + 10000 * dim) as u64;
    let ghost e1 = Seq::<u16>::empty();
    let ghost e2 = Seq::<Seq<i64>>::empty();
    let mut ds = StructuredDataset::new(n_points, dim);
    assert(ds.cut_positions() =~= e1);
    assert(ds.found() =~= e2);
    let mut i: usize = 0;
    while i < max_steps && !ds.is_complete()
        invariant
            i <= max_steps,
            ds.target() == n_points,
            ds.dimension() == dim,
            (ds.state(), ds.cut_positions(), ds.found()) == dataset_run(
                seed,
                n_points as nat,
                dim as nat,
                e1,
                e2,
                i as nat,
            ),
        decreases max_steps - i,
    {
        proof {
            lemma_dataset_run_succ(seed, n_points as nat, dim as nat, e1, e2, i as nat);
        }
        ds.step();
        i = i + 1;
    }
    proof {
        let (a, b, c) = dataset_run(seed, n_points as nat, dim as nat, e1, e2, i as nat);
        lemma_dataset_run_add(seed, n_points as nat, dim as nat, e1, e2, i as nat, (max_steps - i) as nat);
        if c.len() >= n_points {
            lemma_dataset_run_done(a, n_points as nat, dim as nat, b, c, (max_steps - i) as nat);
        }
        assert((i + (max_steps - i) as nat) as nat == max_steps as nat);
    }
    if ds.is_complete() {
        Some(ds.finish())
    } else {
        None
    }
}

} // verus!
