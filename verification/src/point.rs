use vstd::prelude::*;

verus! {

// ---------------------------------------------------------------------------
// Points and point sets
// ---------------------------------------------------------------------------

/// The coordinate sequences of a run of points.
pub open spec fn pts(s: Seq<Vec<i64>>) -> Seq<Seq<i64>> {
    s.map_values(|p: Vec<i64>| p@)
}

/// Coordinates read as mathematical integers.
pub open spec fn ints(s: Seq<i64>) -> Seq<int> {
    s.map_values(|x: i64| x as int)
}

pub open spec fn min_len(p: Seq<i64>, q: Seq<i64>) -> int {
    if p.len() <= q.len() {
        p.len() as int
    } else {
        q.len() as int
    }
}

/// `p` has the dimension of the reference point `r` and is at least `r` in every coordinate.
pub open spec fn valid_point(p: Seq<i64>, r: Seq<i64>) -> bool {
    &&& p.len() == r.len()
    &&& forall|k: int| 0 <= k < r.len() ==> r[k] <= #[trigger] p[k]
}

/// Every point of `ps` is a valid point for the reference point `r`.
pub open spec fn valid_points(ps: Seq<Seq<i64>>, r: Seq<i64>) -> bool {
    forall|i: int| 0 <= i < ps.len() ==> valid_point(#[trigger] ps[i], r)
}

/// Every point of `ps` has `d` coordinates.
pub open spec fn same_dim(ps: Seq<Seq<i64>>, d: int) -> bool {
    forall|i: int| 0 <= i < ps.len() ==> (#[trigger] ps[i]).len() == d
}

/// Every point of `ps` has at least `d` coordinates.
pub open spec fn min_dim(ps: Seq<Seq<i64>>, d: int) -> bool {
    forall|i: int| 0 <= i < ps.len() ==> (#[trigger] ps[i]).len() >= d
}

// ---------------------------------------------------------------------------
// Dominance
// ---------------------------------------------------------------------------

/// `p` dominates `q` (maximisation): `p` is at least `q` in every coordinate they share
/// and strictly greater in at least one of them.
pub open spec fn dominates_spec(p: Seq<i64>, q: Seq<i64>) -> bool {
    &&& forall|k: int| 0 <= k < min_len(p, q) ==> p[k] >= q[k]
    &&& exists|k: int| 0 <= k < min_len(p, q) && p[k] > q[k]
}

/// Some point of `ps` dominates `q`.
pub open spec fn dominated_in(q: Seq<i64>, ps: Seq<Seq<i64>>) -> bool {
    exists|j: int| 0 <= j < ps.len() && #[trigger] dominates_spec(ps[j], q)
}

/// No point of `ps` dominates `q`.
pub open spec fn nd_pred(ps: Seq<Seq<i64>>) -> spec_fn(Seq<i64>) -> bool {
    |q: Seq<i64>| !dominated_in(q, ps)
}

/// The points of `ps` that no point of `ps` dominates, in the order they come in `ps`.
pub open spec fn nd_spec(ps: Seq<Seq<i64>>) -> Seq<Seq<i64>> {
    ps.filter(nd_pred(ps))
}

/// No point of `ps` dominates another one.
pub open spec fn mutually_nondominated(ps: Seq<Seq<i64>>) -> bool {
    forall|i: int, j: int|
        0 <= i < ps.len() && 0 <= j < ps.len() ==> !dominates_spec(#[trigger] ps[i], #[trigger] ps[j])
}

/// Sum of the coordinates of a point.
pub open spec fn coord_sum(p: Seq<i64>) -> int
    decreases p.len(),
{
    if p.len() == 0 {
        0
    } else {
        coord_sum(p.drop_last()) + p.last()
    }
}

/// The largest coordinate sum in a point set (0 for the empty set).
pub open spec fn max_coord_sum(ps: Seq<Seq<i64>>) -> int
    decreases ps.len(),
{
    if ps.len() == 0 {
        0
    } else {
        let m = max_coord_sum(ps.drop_last());
        if coord_sum(ps.last()) > m {
            coord_sum(ps.last())
        } else {
            m
        }
    }
}

// ---------------------------------------------------------------------------
// Limiting a set by a point
// ---------------------------------------------------------------------------

/// Coordinatewise minimum of `q` and `p` over the coordinates they share.
pub open spec fn pmin(q: Seq<i64>, p: Seq<i64>) -> Seq<i64> {
    Seq::new(min_len(q, p) as nat, |k: int| if q[k] <= p[k] { q[k] } else { p[k] })
}

/// Every point of `ps` limited by `p`.
pub open spec fn limit_spec(ps: Seq<Seq<i64>>, p: Seq<i64>) -> Seq<Seq<i64>> {
    ps.map_values(|q: Seq<i64>| pmin(q, p))
}

// ---------------------------------------------------------------------------
// Box volumes
// ---------------------------------------------------------------------------

/// Product of the widths `b[k] - a[k]`.
pub open spec fn widths_product(a: Seq<int>, b: Seq<int>) -> int
    decreases a.len(),
{
    if a.len() == 0 {
        1
    } else {
        widths_product(a.drop_last(), b.drop_last()) * (b.last() - a.last())
    }
}

/// Volume of the box spanned by the reference point `r` and the point `p`.
pub open spec fn box_volume(p: Seq<i64>, r: Seq<i64>) -> int {
    widths_product(ints(r), ints(p))
}

/// Sum of the box volumes of the points of `ps`.
pub open spec fn sum_volumes(ps: Seq<Seq<i64>>, r: Seq<i64>) -> int
    decreases ps.len(),
{
    if ps.len() == 0 {
        0
    } else {
        sum_volumes(ps.drop_last(), r) + box_volume(ps.last(), r)
    }
}

// ---------------------------------------------------------------------------
// Lemmas
// ---------------------------------------------------------------------------

pub proof fn lemma_widths_nonneg(a: Seq<int>, b: Seq<int>)
    requires
        a.len() == b.len(),
        forall|k: int| 0 <= k < a.len() ==> a[k] <= b[k],
    ensures
        widths_product(a, b) >= 0,
    decreases a.len(),
{
    if a.len() > 0 {
        lemma_widths_nonneg(a.drop_last(), b.drop_last());
        let w = widths_product(a.drop_last(), b.drop_last());
        assert(w * (b.last() - a.last()) >= 0) by (nonlinear_arith)
            requires
                w >= 0,
                b.last() - a.last() >= 0,
        ;
    }
}

pub proof fn lemma_widths_zero(a: Seq<int>, b: Seq<int>, z: int)
    requires
        a.len() == b.len(),
        0 <= z < a.len(),
        a[z] == b[z],
    ensures
        widths_product(a, b) == 0,
    decreases a.len(),
{
    let w = widths_product(a.drop_last(), b.drop_last());
    if z < a.len() - 1 {
        lemma_widths_zero(a.drop_last(), b.drop_last(), z);
        assert(w * (b.last() - a.last()) == 0) by (nonlinear_arith)
            requires
                w == 0,
        ;
    } else {
        assert(w * (b.last() - a.last()) == 0) by (nonlinear_arith)
            requires
                b.last() - a.last() == 0,
        ;
    }
}

pub open spec fn abs(x: int) -> int {
    if x < 0 {
        -x
    } else {
        x
    }
}

/// `x` is representable in an `i128` together with its negation.
pub open spec fn fits_i128(x: int) -> bool {
    -0x7fff_ffff_ffff_ffff_ffff_ffff_ffff_ffff <= x <= 0x7fff_ffff_ffff_ffff_ffff_ffff_ffff_ffff
}

/// With no width zero, the magnitude of the product over a prefix grows with the prefix.
pub proof fn lemma_widths_prefix_mono(a: Seq<int>, b: Seq<int>, i: int, j: int)
    requires
        a.len() == b.len(),
        0 <= i <= j <= a.len(),
        forall|k: int| 0 <= k < a.len() ==> a[k] != #[trigger] b[k],
    ensures
        1 <= abs(widths_product(a.take(i), b.take(i))) <= abs(widths_product(a.take(j), b.take(j))),
    decreases j,
{
    if j == 0 {
    } else if i == j {
        lemma_widths_prefix_mono(a, b, i - 1, j - 1);
        assert(a.take(j).drop_last() =~= a.take(j - 1));
        assert(b.take(j).drop_last() =~= b.take(j - 1));
        let w = widths_product(a.take(j - 1), b.take(j - 1));
        let x = b[j - 1] - a[j - 1];
        assert(abs(w * x) >= 1) by (nonlinear_arith)
            requires
                abs(w) >= 1,
                x != 0,
        ;
    } else {
        lemma_widths_prefix_mono(a, b, i, j - 1);
        assert(a.take(j).drop_last() =~= a.take(j - 1));
        assert(b.take(j).drop_last() =~= b.take(j - 1));
        let w = widths_product(a.take(j - 1), b.take(j - 1));
        let x = b[j - 1] - a[j - 1];
        assert(abs(w) <= abs(w * x)) by (nonlinear_arith)
            requires
                abs(w) >= 1,
                x != 0,
        ;
    }
}

/// Narrowing every width does not increase the product.
pub proof fn lemma_widths_mono(a: Seq<int>, b: Seq<int>, c: Seq<int>)
    requires
        a.len() == b.len(),
        a.len() == c.len(),
        forall|k: int| 0 <= k < a.len() ==> a[k] <= #[trigger] b[k] <= c[k],
    ensures
        0 <= widths_product(a, b) <= widths_product(a, c),
    decreases a.len(),
{
    if a.len() > 0 {
        lemma_widths_mono(a.drop_last(), b.drop_last(), c.drop_last());
        let w1 = widths_product(a.drop_last(), b.drop_last());
        let w2 = widths_product(a.drop_last(), c.drop_last());
        let x1 = b.last() - a.last();
        let x2 = c.last() - a.last();
        assert(0 <= w1 * x1 <= w2 * x2) by (nonlinear_arith)
            requires
                0 <= w1 <= w2,
                0 <= x1 <= x2,
        ;
    }
}

pub proof fn lemma_box_volume_nonneg(p: Seq<i64>, r: Seq<i64>)
    requires
        valid_point(p, r),
    ensures
        box_volume(p, r) >= 0,
{
    lemma_widths_nonneg(ints(r), ints(p));
}

pub proof fn lemma_sum_volumes_nonneg(ps: Seq<Seq<i64>>, r: Seq<i64>)
    requires
        valid_points(ps, r),
    ensures
        sum_volumes(ps, r) >= 0,
    decreases ps.len(),
{
    if ps.len() > 0 {
        lemma_sum_volumes_nonneg(ps.drop_last(), r);
        lemma_box_volume_nonneg(ps.last(), r);
    }
}

pub proof fn lemma_sum_volumes_append(a: Seq<Seq<i64>>, b: Seq<Seq<i64>>, r: Seq<i64>)
    ensures
        sum_volumes(a + b, r) == sum_volumes(a, r) + sum_volumes(b, r),
    decreases b.len(),
{
    if b.len() == 0 {
        assert(a + b =~= a);
    } else {
        assert((a + b).drop_last() =~= a + b.drop_last());
        lemma_sum_volumes_append(a, b.drop_last(), r);
    }
}

/// The volumes of a contiguous run of points sum to no more than those of the whole set.
pub proof fn lemma_sum_volumes_subrange(ps: Seq<Seq<i64>>, r: Seq<i64>, i: int, j: int)
    requires
        valid_points(ps, r),
        0 <= i <= j <= ps.len(),
    ensures
        0 <= sum_volumes(ps.subrange(i, j), r) <= sum_volumes(ps, r),
        box_volume(ps[i], r) <= sum_volumes(ps, r) || i == ps.len(),
{
    let a = ps.subrange(0, i);
    let b = ps.subrange(i, j);
    let c = ps.subrange(j, ps.len() as int);
    assert(ps =~= a + b + c);
    lemma_sum_volumes_append(a + b, c, r);
    lemma_sum_volumes_append(a, b, r);
    lemma_sum_volumes_nonneg(a, r);
    lemma_sum_volumes_nonneg(b, r);
    lemma_sum_volumes_nonneg(c, r);
    if i < ps.len() {
        let d = ps.subrange(i + 1, ps.len() as int);
        let e = ps.subrange(0, i + 1);
        assert(ps =~= e + d);
        lemma_sum_volumes_append(e, d, r);
        assert(e.drop_last() =~= a);
        lemma_sum_volumes_nonneg(d, r);
        lemma_sum_volumes_nonneg(a, r);
    }
}

/// Filtering a point set does not increase its sum of volumes.
pub proof fn lemma_sum_volumes_filter(ps: Seq<Seq<i64>>, r: Seq<i64>, pred: spec_fn(Seq<i64>) -> bool)
    requires
        valid_points(ps, r),
    ensures
        0 <= sum_volumes(ps.filter(pred), r) <= sum_volumes(ps, r),
        valid_points(ps.filter(pred), r),
    decreases ps.len(),
{
    reveal_with_fuel(Seq::filter, 1);
    lemma_sum_volumes_nonneg(ps, r);
    if ps.len() > 0 {
        lemma_sum_volumes_filter(ps.drop_last(), r, pred);
        lemma_box_volume_nonneg(ps.last(), r);
        let f = ps.drop_last().filter(pred);
        if pred(ps.last()) {
            assert(f.push(ps.last()).drop_last() =~= f);
        }
    }
}

/// Limiting by a valid point keeps points valid and does not increase any box volume.
pub proof fn lemma_limit_valid(ps: Seq<Seq<i64>>, p: Seq<i64>, r: Seq<i64>)
    requires
        valid_points(ps, r),
        valid_point(p, r),
    ensures
        valid_points(limit_spec(ps, p), r),
        limit_spec(ps, p).len() == ps.len(),
        0 <= sum_volumes(limit_spec(ps, p), r) <= sum_volumes(ps, r),
        forall|i: int|
            0 <= i < ps.len() ==> box_volume(#[trigger] limit_spec(ps, p)[i], r) <= box_volume(p, r),
    decreases ps.len(),
{
    let l = limit_spec(ps, p);
    assert forall|i: int| 0 <= i < ps.len() implies valid_point(#[trigger] l[i], r)
        && box_volume(l[i], r) <= box_volume(ps[i], r) && box_volume(l[i], r) <= box_volume(p, r) by {
        assert(valid_point(ps[i], r));
        let q = ps[i];
        assert(l[i] == pmin(q, p));
        assert forall|k: int| 0 <= k < r.len() implies ints(r)[k] <= #[trigger] ints(l[i])[k] <= ints(q)[k] by {}
        lemma_widths_mono(ints(r), ints(l[i]), ints(q));
        assert forall|k: int| 0 <= k < r.len() implies ints(r)[k] <= #[trigger] ints(l[i])[k] <= ints(p)[k] by {}
        lemma_widths_mono(ints(r), ints(l[i]), ints(p));
    }
    if ps.len() > 0 {
        lemma_limit_valid(ps.drop_last(), p, r);
        assert(limit_spec(ps.drop_last(), p) =~= l.drop_last());
        assert(box_volume(l[ps.len() - 1], r) <= box_volume(ps[ps.len() - 1], r));
        assert(l.last() == l[ps.len() - 1]);
        assert(sum_volumes(l, r) == sum_volumes(l.drop_last(), r) + box_volume(l.last(), r));
        lemma_box_volume_nonneg(l.last(), r);
    }
}

pub proof fn lemma_coord_sum_strict(p: Seq<i64>, q: Seq<i64>, n: int)
    requires
        p.len() == q.len(),
        0 <= n <= p.len(),
        forall|k: int| 0 <= k < n ==> p[k] >= q[k],
    ensures
        coord_sum(p.take(n)) >= coord_sum(q.take(n)),
        (exists|k: int| 0 <= k < n && p[k] > q[k]) ==> coord_sum(p.take(n)) > coord_sum(q.take(n)),
    decreases n,
{
    if n > 0 {
        lemma_coord_sum_strict(p, q, n - 1);
        assert(p.take(n).drop_last() =~= p.take(n - 1));
        assert(q.take(n).drop_last() =~= q.take(n - 1));
        if exists|k: int| 0 <= k < n && p[k] > q[k] {
            let k = choose|k: int| 0 <= k < n && p[k] > q[k];
            if k < n - 1 {
            }
        }
    }
}

/// Dominance between points of equal dimension strictly raises the coordinate sum.
pub proof fn lemma_dominates_sum(p: Seq<i64>, q: Seq<i64>)
    requires
        p.len() == q.len(),
        dominates_spec(p, q),
    ensures
        coord_sum(p) > coord_sum(q),
{
    lemma_coord_sum_strict(p, q, p.len() as int);
    assert(p.take(p.len() as int) =~= p);
    assert(q.take(q.len() as int) =~= q);
}

pub proof fn lemma_max_coord_sum(ps: Seq<Seq<i64>>, i: int)
    requires
        0 <= i < ps.len(),
    ensures
        coord_sum(ps[i]) <= max_coord_sum(ps),
    decreases ps.len(),
{
    if i < ps.len() - 1 {
        lemma_max_coord_sum(ps.drop_last(), i);
    }
}

pub proof fn lemma_dominates_transitive(a: Seq<i64>, b: Seq<i64>, c: Seq<i64>)
    requires
        a.len() == b.len(),
        b.len() == c.len(),
        dominates_spec(a, b),
        dominates_spec(b, c),
    ensures
        dominates_spec(a, c),
{
    let k = choose|k: int| 0 <= k < min_len(b, c) && b[k] > c[k];
    assert(a[k] >= b[k]);
}

/// A dominated point of a set of equal-dimension points is dominated by a point of the set
/// that nothing in the set dominates.
pub proof fn lemma_maximal_dominator(ps: Seq<Seq<i64>>, d: int, i: int)
    requires
        same_dim(ps, d),
        0 <= i < ps.len(),
        dominated_in(ps[i], ps),
    ensures
        exists|k: int|
            0 <= k < ps.len() && dominates_spec(ps[k], ps[i]) && !dominated_in(#[trigger] ps[k], ps),
    decreases max_coord_sum(ps) - coord_sum(ps[i]),
{
    let j = choose|j: int| 0 <= j < ps.len() && #[trigger] dominates_spec(ps[j], ps[i]);
    if dominated_in(ps[j], ps) {
        assert(ps[j].len() == d && ps[i].len() == d);
        lemma_dominates_sum(ps[j], ps[i]);
        lemma_max_coord_sum(ps, j);
        lemma_maximal_dominator(ps, d, j);
        let k = choose|k: int|
            0 <= k < ps.len() && dominates_spec(ps[k], ps[j]) && !dominated_in(#[trigger] ps[k], ps);
        assert(ps[k].len() == d);
        lemma_dominates_transitive(ps[k], ps[j], ps[i]);
    } else {
        assert(dominates_spec(ps[j], ps[i]) && !dominated_in(ps[j], ps));
    }
}

/// Limiting a set of `d`-dimensional points by a `d`-dimensional point keeps the dimension.
pub proof fn lemma_limit_dim(ps: Seq<Seq<i64>>, p: Seq<i64>, d: int)
    requires
        same_dim(ps, d),
        p.len() == d,
    ensures
        same_dim(limit_spec(ps, p), d),
        limit_spec(ps, p).len() == ps.len(),
{
    assert forall|i: int| 0 <= i < ps.len() implies (#[trigger] limit_spec(ps, p)[i]).len() == d by {
        assert(ps[i].len() == d);
    }
}

/// The non-dominated filter keeps the dimension and does not lengthen the set.
pub proof fn lemma_nd_dim(ps: Seq<Seq<i64>>, d: int)
    requires
        same_dim(ps, d),
    ensures
        same_dim(nd_spec(ps), d),
        nd_spec(ps).len() <= ps.len(),
{
    let pred = nd_pred(ps);
    let nd = nd_spec(ps);
    ps.lemma_filter_len(pred);
    assert forall|i: int| 0 <= i < nd.len() implies (#[trigger] nd[i]).len() == d by {
        assert(nd.contains(nd[i]));
        ps.lemma_filter_contains_rev(pred, nd[i]);
        let k = choose|k: int| 0 <= k < ps.len() && ps[k] == nd[i];
    }
}

/// The non-dominated filter keeps the dimension, keeps validity, and leaves a set
/// whose points do not dominate one another.
pub proof fn lemma_nd_props(ps: Seq<Seq<i64>>, r: Seq<i64>)
    requires
        valid_points(ps, r),
    ensures
        valid_points(nd_spec(ps), r),
        mutually_nondominated(nd_spec(ps)),
        nd_spec(ps).len() <= ps.len(),
        0 <= sum_volumes(nd_spec(ps), r) <= sum_volumes(ps, r),
{
    let pred = nd_pred(ps);
    let nd = nd_spec(ps);
    ps.lemma_filter_len(pred);
    lemma_sum_volumes_filter(ps, r, pred);
    assert forall|i: int, j: int| 0 <= i < nd.len() && 0 <= j < nd.len() implies !dominates_spec(
        #[trigger] nd[i],
        #[trigger] nd[j],
    ) by {
        ps.lemma_filter_pred(pred, j);
        assert(nd.contains(nd[i]));
        ps.lemma_filter_contains_rev(pred, nd[i]);
        let k = choose|k: int| 0 <= k < ps.len() && ps[k] == nd[i];
        if dominates_spec(nd[i], nd[j]) {
            assert(dominates_spec(ps[k], nd[j]));
        }
    }
}

/// Filtering by a predicate that every element meets keeps the sequence as it is.
proof fn lemma_filter_keeps_all(s: Seq<Seq<i64>>, pred: spec_fn(Seq<i64>) -> bool)
    requires
        forall|i: int| 0 <= i < s.len() ==> pred(#[trigger] s[i]),
    ensures
        s.filter(pred) == s,
    decreases s.len(),
{
    reveal(Seq::filter);
    if s.len() > 0 {
        lemma_filter_keeps_all(s.drop_last(), pred);
        assert(s.drop_last().push(s.last()) =~= s);
    }
}

/// Taking the non-dominated points a second time changes nothing: no kept point is
/// dominated by another kept point.
pub proof fn lemma_nd_idempotent(ps: Seq<Seq<i64>>)
    ensures
        nd_spec(nd_spec(ps)) == nd_spec(ps),
{
    let pred = nd_pred(ps);
    let nd = nd_spec(ps);
    assert forall|j: int| 0 <= j < nd.len() implies nd_pred(nd)(#[trigger] nd[j]) by {
        ps.lemma_filter_pred(pred, j);
        if dominated_in(nd[j], nd) {
            let i = choose|i: int| 0 <= i < nd.len() && #[trigger] dominates_spec(nd[i], nd[j]);
            assert(nd.contains(nd[i]));
            ps.lemma_filter_contains_rev(pred, nd[i]);
            let k = choose|k: int| 0 <= k < ps.len() && ps[k] == nd[i];
            assert(dominates_spec(ps[k], nd[j]));
        }
    }
    lemma_filter_keeps_all(nd, nd_pred(nd));
}

// ---------------------------------------------------------------------------
// Executable operations
// ---------------------------------------------------------------------------

/// Whether `p` dominates `q`.
pub fn dominates(p: &Vec<i64>, q: &Vec<i64>) -> (b: bool)
    ensures
        b == dominates_spec(p@, q@),
{
    let n = if p.len() <= q.len() {
        p.len()
    } else {
        q.len()
    };
    let mut ge = true;
    let mut gt = false;
    let mut k: usize = 0;
    while k < n
        invariant
            n == min_len(p@, q@),
            k <= n,
            ge == (forall|j: int| 0 <= j < k ==> p@[j] >= q@[j]),
            gt == (exists|j: int| 0 <= j < k && p@[j] > q@[j]),
        decreases n - k,
    {
        if p[k] < q[k] {
            ge = false;
        }
        if p[k] > q[k] {
            gt = true;
        }
        k = k + 1;
    }
    ge && gt
}

/// A copy of a point.
pub fn copy_point(p: &Vec<i64>) -> (c: Vec<i64>)
    ensures
        c@ == p@,
{
    let mut c: Vec<i64> = Vec::with_capacity(p.len());
    let mut k: usize = 0;
    while k < p.len()
        invariant
            k <= p.len(),
            c@ == p@.take(k as int),
        decreases p.len() - k,
    {
        c.push(p[k]);
        k = k + 1;
        assert(c@ =~= p@.take(k as int));
    }
    assert(p@.take(p.len() as int) =~= p@);
    c
}

/// Every point of `points` limited by `limit`: the coordinatewise minimum of the two.
pub fn limit_set(points: &[Vec<i64>], limit: &Vec<i64>) -> (res: Vec<Vec<i64>>)
    ensures
        pts(res@) == limit_spec(pts(points@), limit@),
{
    let mut res: Vec<Vec<i64>> = Vec::with_capacity(points.len());
    let mut i: usize = 0;
    while i < points.len()
        invariant
            i <= points@.len(),
            pts(res@) == limit_spec(pts(points@), limit@).take(i as int),
        decreases points@.len() - i,
    {
        let p = &points[i];
        let n = if p.len() <= limit.len() {
            p.len()
        } else {
            limit.len()
        };
        let mut row: Vec<i64> = Vec::with_capacity(n);
        let mut k: usize = 0;
        while k < n
            invariant
                n == min_len(p@, limit@),
                k <= n,
                row@ == pmin(p@, limit@).take(k as int),
            decreases n - k,
        {
            let v = if p[k] <= limit[k] {
                p[k]
            } else {
                limit[k]
            };
            row.push(v);
            k = k + 1;
            assert(row@ =~= pmin(p@, limit@).take(k as int));
        }
        assert(row@ =~= pmin(p@, limit@));
        assert(pts(points@)[i as int] == points@[i as int]@);
        assert(limit_spec(pts(points@), limit@)[i as int] == pmin(p@, limit@));
        let ghost old_res = res@;
        res.push(row);
        assert(res@ == old_res.push(row));
        assert(pts(res@) =~= pts(old_res).push(row@));
        assert(limit_spec(pts(points@), limit@).take(i + 1) =~= limit_spec(pts(points@), limit@).take(
            i as int,
        ).push(pmin(p@, limit@)));
        i = i + 1;
    }
    assert(limit_spec(pts(points@), limit@).take(i as int) =~= limit_spec(pts(points@), limit@));
    res
}

/// The points of `points` that no point of `points` dominates, in the order they come.
pub fn get_non_dominated(points: &Vec<Vec<i64>>) -> (res: Vec<Vec<i64>>)
    requires
        exists|d: int| same_dim(pts(points@), d),
    ensures
        pts(res@) == nd_spec(pts(points@)),
{
    let ghost ps = pts(points@);
    let ghost d = choose|d: int| same_dim(ps, d);
    let n = points.len();
    let mut dom: Vec<bool> = Vec::with_capacity(n);
    let mut z: usize = 0;
    while z < n
        invariant
            z <= n,
            dom@.len() == z,
            forall|x: int| 0 <= x < z ==> !dom@[x],
        decreases n - z,
    {
        dom.push(false);
        z = z + 1;
    }
    let mut i: usize = 0;
    while i < n
        invariant
            n == ps.len(),
            ps == pts(points@),
            i <= n,
            dom@.len() == n,
            forall|x: int| 0 <= x < n && #[trigger] dom@[x] ==> dominated_in(ps[x], ps),
            forall|x: int, j: int|
                0 <= x < i && 0 <= j < n && #[trigger] dominates_spec(ps[j], ps[x]) ==> dom@[x]
                    || dom@[j],
        decreases n - i,
    {
        if !dom[i] {
            let ghost dom0 = dom@;
            let mut j: usize = 0;
            while j < n
                invariant_except_break
                    !dom@[i as int],
                invariant
                    n == ps.len(),
                    ps == pts(points@),
                    i < n,
                    j <= n,
                    dom@.len() == n,
                    forall|x: int| 0 <= x < n && #[trigger] dom@[x] ==> dominated_in(ps[x], ps),
                    forall|x: int| 0 <= x < n && dom0[x] ==> #[trigger] dom@[x],
                    forall|j2: int|
                        0 <= j2 < j && #[trigger] dominates_spec(ps[j2], ps[i as int]) ==> dom@[j2],
                ensures
                    dom@.len() == n,
                    forall|x: int| 0 <= x < n && #[trigger] dom@[x] ==> dominated_in(ps[x], ps),
                    forall|x: int| 0 <= x < n && dom0[x] ==> #[trigger] dom@[x],
                    dom@[i as int] || forall|j2: int|
                        0 <= j2 < n && #[trigger] dominates_spec(ps[j2], ps[i as int]) ==> dom@[j2],
                decreases n - j,
            {
                if j != i && !dom[j] {
                    if dominates(&points[j], &points[i]) {
                        dom.set(i, true);
                        assert(dominates_spec(ps[j as int], ps[i as int]));
                        break;
                    } else if dominates(&points[i], &points[j]) {
                        dom.set(j, true);
                        assert(dominates_spec(ps[i as int], ps[j as int]));
                    }
                }
                proof {
                    if j == i {
                        assert(!dominates_spec(ps[i as int], ps[i as int]));
                    }
                }
                j = j + 1;
            }
        }
        i = i + 1;
    }
    proof {
        assert forall|x: int| 0 <= x < n implies dom@[x] == dominated_in(#[trigger] ps[x], ps) by {
            if dominated_in(ps[x], ps) && !dom@[x] {
                lemma_maximal_dominator(ps, d, x);
                let k = choose|k: int|
                    0 <= k < ps.len() && dominates_spec(ps[k], ps[x]) && !dominated_in(
                        #[trigger] ps[k],
                        ps,
                    );
                assert(dom@[x] || dom@[k]);
            }
        }
    }
    let ghost pred = nd_pred(ps);
    let mut res: Vec<Vec<i64>> = Vec::new();
    let mut i: usize = 0;
    while i < n
        invariant
            n == ps.len(),
            ps == pts(points@),
            i <= n,
            dom@.len() == n,
            forall|x: int| 0 <= x < n ==> dom@[x] == dominated_in(#[trigger] ps[x], ps),
            pred == nd_pred(ps),
            pts(res@) == ps.take(i as int).filter(pred),
        decreases n - i,
    {
        if !dom[i] {
            let c = copy_point(&points[i]);
            res.push(c);
            proof {
                reveal_with_fuel(Seq::filter, 1);
                assert(ps.take(i + 1).drop_last() =~= ps.take(i as int));
                assert(ps.take(i + 1).last() == ps[i as int]);
                assert(pred(ps[i as int]));
                assert(ps.take(i + 1).filter(pred) == ps.take(i as int).filter(pred).push(ps[i as int]));
                assert(pts(res@) =~= ps.take(i as int).filter(pred).push(ps[i as int]));
            }
        } else {
            proof {
                reveal_with_fuel(Seq::filter, 1);
                assert(ps.take(i + 1).drop_last() =~= ps.take(i as int));
                assert(ps.take(i + 1).last() == ps[i as int]);
                assert(!pred(ps[i as int]));
                assert(ps.take(i + 1).filter(pred) == ps.take(i as int).filter(pred));
            }
        }
        i = i + 1;
    }
    assert(ps.take(n as int) =~= ps);
    res
}

/// Volume of the box between the reference point `r` and the point `p` (the product of
/// the differences `p[k] - r[k]`), or `None` when its magnitude exceeds `i128::MAX`.
pub fn checked_box_volume(p: &Vec<i64>, r: &Vec<i64>) -> (v: Option<i128>)
    requires
        p@.len() == r@.len(),
    ensures
        match v {
            Some(x) => x == box_volume(p@, r@),
            None => !fits_i128(box_volume(p@, r@)),
        },
{
    let n = r.len();
    let ghost a = ints(r@);
    let ghost b = ints(p@);
    let mut k: usize = 0;
    while k < n
        invariant
            n == r@.len(),
            p@.len() == r@.len(),
            a == ints(r@),
            b == ints(p@),
            k <= n,
            forall|j: int| 0 <= j < k ==> r@[j] != p@[j],
        decreases n - k,
    {
        if p[k] == r[k] {
            proof {
                lemma_widths_zero(a, b, k as int);
            }
            return Some(0);
        }
        k = k + 1;
    }
    assert forall|j: int| 0 <= j < n implies a[j] != #[trigger] b[j] by {
        assert(r@[j] != p@[j]);
    }
    let mut acc: i128 = 1;
    let mut k: usize = 0;
    while k < n
        invariant
            n == r@.len(),
            p@.len() == r@.len(),
            k <= n,
            forall|j: int| 0 <= j < n ==> a[j] != #[trigger] b[j],
            a == ints(r@),
            b == ints(p@),
            acc == widths_product(a.take(k as int), b.take(k as int)),
        decreases n - k,
    {
        proof {
            lemma_widths_prefix_mono(a, b, k + 1, n as int);
            assert(a.take(n as int) =~= a);
            assert(b.take(n as int) =~= b);
            assert(a.take(k + 1).drop_last() =~= a.take(k as int));
            assert(b.take(k + 1).drop_last() =~= b.take(k as int));
        }
        let w = p[k] as i128 - r[k] as i128;
        match acc.checked_mul(w) {
            Some(x) => {
                if x == i128::MIN {
                    return None;
                }
                acc = x;
            },
            None => {
                return None;
            },
        }
        k = k + 1;
    }
    assert(a.take(n as int) =~= a);
    assert(b.take(n as int) =~= b);
    Some(acc)
}

/// Volume of the box between the reference point `r` and the point `p`.
pub fn box_volume_exec(p: &Vec<i64>, r: &Vec<i64>) -> (v: i128)
    requires
        p@.len() == r@.len(),
        fits_i128(box_volume(p@, r@)),
    ensures
        v == box_volume(p@, r@),
{
    match checked_box_volume(p, r) {
        Some(v) => v,
        None => {
            proof {
                assert(false);
            }
            0
        },
    }
}

} // verus!
