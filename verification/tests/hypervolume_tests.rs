use hypervolume::hypervolume_random::{calculate_hv_parallel, calculate_hv_serial};
use hypervolume::hypervolume_worst_case::{
    calculate_hv_parallel_lvl1, calculate_hv_parallel_lvl2, generate_cyclic_points,
};
use hypervolume::input::fits_reference;
use hypervolume::par::{contribution, exclusive_hv_with_depth, parallel_chain};
use hypervolume::point::{box_volume_exec, checked_box_volume, dominates, get_non_dominated, limit_set};
use hypervolume::wfg::{exclusive_hv, hypervolume_2d, sort_points_by_first, wfg_recursive};

/// Number of unit lattice cells covered by the boxes [r, p) of the points, by enumeration.
fn brute_force_hv(points: &[Vec<i64>], r: &[i64]) -> i128 {
    let d = r.len();
    let mut top = r.to_vec();
    for p in points {
        for k in 0..d {
            if p[k] > top[k] {
                top[k] = p[k];
            }
        }
    }
    let mut count: i128 = 0;
    let mut cell = r.to_vec();
    if points.is_empty() {
        return 0;
    }
    if d == 0 {
        return 1;
    }
    if (0..d).any(|k| top[k] <= r[k]) {
        return 0;
    }
    loop {
        if points.iter().any(|p| (0..d).all(|k| r[k] <= cell[k] && cell[k] < p[k])) {
            count += 1;
        }
        let mut k = 0;
        loop {
            cell[k] += 1;
            if cell[k] < top[k] {
                break;
            }
            cell[k] = r[k];
            k += 1;
            if k == d {
                return count;
            }
        }
    }
}

fn pts(v: &[&[i64]]) -> Vec<Vec<i64>> {
    v.iter().map(|p| p.to_vec()).collect()
}

#[test]
fn dominates_needs_one_strict_coordinate() {
    assert!(dominates(&vec![2, 2], &vec![1, 2]));
    assert!(!dominates(&vec![2, 2], &vec![2, 2]));
    assert!(!dominates(&vec![2, 1], &vec![1, 2]));
    assert!(!dominates(&vec![1, 2], &vec![2, 2]));
}

#[test]
fn limit_set_takes_coordinatewise_minimum() {
    let ps = pts(&[&[5, 1, 3], &[2, 7, 3]]);
    let lim = limit_set(&ps, &vec![4, 4, 4]);
    assert_eq!(lim, pts(&[&[4, 1, 3], &[2, 4, 3]]));
}

#[test]
fn non_dominated_filter_keeps_order_and_duplicates() {
    let ps = pts(&[&[1, 1], &[3, 1], &[1, 3], &[2, 2], &[2, 2], &[0, 3]]);
    let nd = get_non_dominated(&ps);
    assert_eq!(nd, pts(&[&[3, 1], &[1, 3], &[2, 2], &[2, 2]]));
}

#[test]
fn non_dominated_filter_chain_of_dominance() {
    // each point dominated by the next one: only the last survives
    let ps = pts(&[&[1, 1, 1], &[2, 2, 2], &[3, 3, 3], &[4, 4, 4]]);
    assert_eq!(get_non_dominated(&ps), pts(&[&[4, 4, 4]]));
}

#[test]
fn box_volumes() {
    assert_eq!(box_volume_exec(&vec![3, 4, 5], &vec![1, 1, 1]), 24);
    assert_eq!(box_volume_exec(&vec![3, 1, 5], &vec![1, 1, 1]), 0);
    assert_eq!(box_volume_exec(&vec![], &vec![]), 1);
    assert_eq!(checked_box_volume(&vec![i64::MAX, i64::MAX, i64::MAX], &vec![0, 0, 0]), None);
    assert_eq!(checked_box_volume(&vec![i64::MAX, i64::MAX, 0], &vec![0, 0, 0]), Some(0));
    assert_eq!(checked_box_volume(&vec![-1, 9], &vec![-3, 4]), Some(10));
    assert_eq!(checked_box_volume(&vec![1, 2], &vec![3, 0]), Some(-4));
    assert_eq!(checked_box_volume(&vec![i64::MIN, i64::MAX], &vec![i64::MAX, i64::MIN]), None);
}

#[test]
fn points_below_the_reference_follow_the_recurrence() {
    // the box volume is a signed product of the differences to the reference point
    assert_eq!(calculate_hv_serial(&pts(&[&[-1, 2, 3]]), &vec![0, 0, 0]), -6);
    assert_eq!(calculate_hv_parallel(&pts(&[&[-1, 2, 3]]), &vec![0, 0, 0], 2), -6);
    // sweep term (x - r_x) * (y - r_y)
    assert_eq!(calculate_hv_serial(&pts(&[&[-1, 3]]), &vec![0, 0]), -3);
    // one dimension: the excess over the reference point, or zero
    assert_eq!(calculate_hv_serial(&pts(&[&[-5]]), &vec![0]), 0);
    // a point below and a point above the reference point in three dimensions:
    // contribution of the first is its volume -2 less the value of the second limited by it
    let ps = pts(&[&[-1, 1, 2], &[2, 2, 2]]);
    let r = vec![0, 0, 0];
    let limited_value = -1 * 1 * 2;
    let expect = (-2 - limited_value) + 8;
    assert_eq!(calculate_hv_serial(&ps, &r), expect);
    assert_eq!(calculate_hv_parallel(&ps, &r, 1), expect);
    assert_eq!(calculate_hv_parallel_lvl1(&ps, &r), expect);
    assert_eq!(calculate_hv_parallel_lvl2(&ps, &r), expect);
}

#[test]
fn fits_reference_rejects_bad_inputs() {
    let r = vec![0, 0];
    assert!(fits_reference(&pts(&[&[1, 2], &[2, 1]]), &r));
    assert!(!fits_reference(&pts(&[&[1, 2, 3]]), &r));
    assert!(!fits_reference(&pts(&[&[1, -1]]), &r));
    let big = i64::MAX;
    let r3 = vec![0, 0, 0];
    assert!(!fits_reference(&pts(&[&[big, big, big]]), &r3));
    assert!(fits_reference(&vec![], &r3));
}

#[test]
fn sort_by_first_is_stable() {
    let ps = pts(&[&[3, 1], &[1, 5], &[3, 0], &[1, 2], &[2, 2]]);
    let s = sort_points_by_first(&ps);
    assert_eq!(s, pts(&[&[1, 5], &[1, 2], &[2, 2], &[3, 1], &[3, 0]]));
}

#[test]
fn staircase_2d() {
    let ps = pts(&[&[3, 1], &[1, 3], &[2, 2]]);
    let r = vec![0, 0];
    assert_eq!(hypervolume_2d(&ps, &r), 6);
    assert_eq!(calculate_hv_serial(&ps, &r), 6);
    assert_eq!(brute_force_hv(&ps, &r), 6);
}

#[test]
fn sweep_on_dominated_2d_set_differs_from_measure() {
    // the sweep assumes mutually non-dominated points
    let ps = pts(&[&[1, 1], &[2, 2]]);
    let r = vec![0, 0];
    assert_eq!(calculate_hv_serial(&ps, &r), 3);
    assert_eq!(calculate_hv_parallel(&ps, &r, 1), 4);
    assert_eq!(brute_force_hv(&ps, &r), 4);
}

#[test]
fn one_dimension() {
    let r = vec![2];
    assert_eq!(calculate_hv_serial(&pts(&[&[7], &[7]]), &r), 5);
    assert_eq!(calculate_hv_serial(&pts(&[&[2]]), &r), 0);
}

#[test]
fn zero_dimension_counts_the_single_cell() {
    let r: Vec<i64> = vec![];
    assert_eq!(calculate_hv_serial(&vec![vec![], vec![], vec![]], &r), 1);
    assert_eq!(calculate_hv_serial(&vec![], &r), 0);
}

#[test]
fn exclusive_contribution() {
    let r = vec![0, 0, 0];
    let p = vec![2, 2, 2];
    let rest = pts(&[&[1, 1, 3], &[3, 1, 1]]);
    // box of p holds 8 cells; rest limited by p covers [0,1)x[0,1)x[0,2) and [0,2)x[0,1)x[0,1)
    assert_eq!(exclusive_hv(&p, &rest, &r), 8 - 3);
    assert_eq!(exclusive_hv_with_depth(&p, &rest, &r, 0), 5);
    assert_eq!(exclusive_hv_with_depth(&p, &rest, &r, 2), 5);
    assert_eq!(exclusive_hv(&p, &[], &r), 8);
}

#[test]
fn three_dimensional_sets_match_enumeration() {
    let r = vec![0, 0, 0];
    let sets = vec![
        pts(&[&[1, 1, 1]]),
        pts(&[&[2, 1, 1], &[1, 2, 1]]),
        pts(&[&[4, 2, 3], &[1, 5, 2], &[3, 3, 3], &[2, 2, 5], &[1, 1, 1]]),
        pts(&[&[3, 3, 3], &[3, 3, 3], &[1, 4, 1]]),
    ];
    for ps in sets {
        let expect = brute_force_hv(&ps, &r);
        assert_eq!(calculate_hv_serial(&ps, &r), expect);
        assert_eq!(wfg_recursive(&ps, &r), expect);
        for depth in 0..4 {
            assert_eq!(calculate_hv_parallel(&ps, &r, depth), expect);
        }
        assert_eq!(calculate_hv_parallel_lvl1(&ps, &r), expect);
        assert_eq!(calculate_hv_parallel_lvl2(&ps, &r), expect);
    }
}

#[test]
fn negative_reference_point() {
    let r = vec![-2, -1, -3];
    let ps = pts(&[&[0, 0, 0], &[-1, 2, -2], &[1, -1, 1]]);
    let expect = brute_force_hv(&ps, &r);
    assert_eq!(calculate_hv_serial(&ps, &r), expect);
    assert_eq!(calculate_hv_parallel(&ps, &r, 2), expect);
}

#[test]
fn cyclic_points() {
    let ps = generate_cyclic_points(3);
    assert_eq!(ps, pts(&[&[1, 2, 3], &[2, 3, 1], &[3, 1, 2]]));
    assert_eq!(generate_cyclic_points(1), pts(&[&[1]]));
    assert!(generate_cyclic_points(0).is_empty());
}

#[test]
fn cyclic_hypervolume_matches_enumeration() {
    for dim in 1..=5 {
        let ps = generate_cyclic_points(dim);
        let r = vec![0; dim];
        let expect = brute_force_hv(&ps, &r);
        assert_eq!(calculate_hv_serial(&ps, &r), expect);
        assert_eq!(calculate_hv_parallel_lvl1(&ps, &r), expect);
        assert_eq!(calculate_hv_parallel_lvl2(&ps, &r), expect);
        assert_eq!(calculate_hv_parallel(&ps, &r, 3), expect);
    }
}

#[test]
fn cyclic_hypervolume_dimension_3_value() {
    // (1,2,3),(2,3,1),(3,1,2): three boxes of 6 cells, pairwise overlaps of 2, common core of 1
    let ps = generate_cyclic_points(3);
    assert_eq!(calculate_hv_serial(&ps, &vec![0, 0, 0]), 18 - 6 + 1);
}

#[test]
fn dropping_dominated_points_keeps_hypervolume() {
    let r = vec![0, 0, 0];
    let ps = pts(&[&[4, 2, 3], &[1, 1, 1], &[1, 5, 2], &[2, 2, 2], &[2, 2, 5]]);
    let nd = get_non_dominated(&ps);
    assert_eq!(calculate_hv_serial(&nd, &r), calculate_hv_serial(&ps, &r));
}

#[test]
fn point_order_does_not_matter() {
    let r = vec![0, 0, 0, 0];
    let ps = pts(&[&[4, 2, 3, 1], &[1, 5, 2, 2], &[2, 2, 5, 1], &[1, 1, 1, 6]]);
    let mut rev = ps.clone();
    rev.reverse();
    assert_eq!(calculate_hv_serial(&ps, &r), calculate_hv_serial(&rev, &r));
    assert_eq!(calculate_hv_serial(&ps, &r), brute_force_hv(&ps, &r));
}

#[test]
fn hypervolume_at_most_sum_of_box_volumes() {
    let r = vec![0, 0, 0];
    let ps = pts(&[&[4, 2, 3], &[1, 5, 2], &[3, 3, 3], &[2, 2, 5]]);
    let sum: i128 = ps.iter().map(|p| box_volume_exec(p, &r)).sum();
    let hv = calculate_hv_serial(&ps, &r);
    assert!(0 <= hv && hv <= sum);
    assert_eq!(sum, 24 + 10 + 27 + 20);
}

#[test]
fn cyclic_points_do_not_dominate_one_another() {
    for dim in 1..=6 {
        let ps = generate_cyclic_points(dim);
        for p in &ps {
            for q in &ps {
                assert!(!dominates(p, q));
            }
        }
    }
}

#[test]
fn non_dominated_filter_twice_is_once() {
    let ps = pts(&[&[4, 2, 3], &[1, 1, 1], &[1, 5, 2], &[2, 2, 2], &[4, 2, 3], &[2, 2, 5]]);
    let once = get_non_dominated(&ps);
    assert_eq!(once, pts(&[&[4, 2, 3], &[1, 5, 2], &[4, 2, 3], &[2, 2, 5]]));
    assert_eq!(get_non_dominated(&once), once);
}

#[test]
fn weakly_dominated_point_adds_nothing() {
    let r = vec![0, 0, 0];
    let ps = pts(&[&[4, 2, 3], &[1, 5, 2], &[2, 2, 5]]);
    let base = wfg_recursive(&ps, &r);
    for q in [vec![4, 2, 3], vec![3, 1, 3], vec![1, 5, 1], vec![0, 0, 0]] {
        for i in 0..=ps.len() {
            let mut more = ps.clone();
            more.insert(i, q.clone());
            assert_eq!(wfg_recursive(&more, &r), base);
        }
    }
    assert_eq!(base, brute_force_hv(&ps, &r));
}

#[test]
fn exclusive_contribution_is_the_same_at_every_depth() {
    let r = vec![0, 0, 0, 0];
    let p = vec![3, 3, 2, 2];
    let rest = pts(&[&[1, 4, 1, 3], &[2, 2, 3, 1], &[4, 1, 1, 1], &[1, 1, 4, 4]]);
    let serial = exclusive_hv(&p, &rest, &r);
    for depth in 0..4 {
        assert_eq!(exclusive_hv_with_depth(&p, &rest, &r, depth), serial);
    }
    let mut all = vec![p.clone()];
    all.extend(rest.iter().cloned());
    assert_eq!(serial, brute_force_hv(&all, &r) - brute_force_hv(&rest, &r));
    assert!(0 < serial && serial < box_volume_exec(&p, &r));
}

#[test]
fn contributions_sum_to_the_hypervolume() {
    let r = vec![0, 0, 0];
    let ps = pts(&[&[4, 2, 3], &[1, 5, 2], &[3, 3, 3], &[2, 2, 5]]);
    let mut total: i128 = 0;
    for i in 0..ps.len() {
        let c = contribution(&ps, i, &r, 1);
        assert_eq!(c, exclusive_hv(&ps[i], &ps[i + 1..], &r));
        total += c;
    }
    assert_eq!(parallel_chain(&ps, &r, 1), total);
    assert_eq!(total, brute_force_hv(&ps, &r));
    assert_eq!(parallel_chain(&ps, &r, 0), calculate_hv_serial(&ps, &r));
}

#[test]
fn sweep_reads_only_the_first_two_coordinates() {
    let ps = pts(&[&[3, 1, 9], &[1, 3, -4, 7], &[2, 2, 0]]);
    assert_eq!(hypervolume_2d(&ps, &vec![0, 0, 5]), 6);
    assert_eq!(hypervolume_2d(&ps, &vec![0, 0]), 6);
    let mixed = pts(&[&[4, 1], &[1, 4, 100], &[2, 3, 0, 0]]);
    assert_eq!(hypervolume_2d(&mixed, &vec![1, 1, 1]), 2);
    assert_eq!(brute_force_hv(&pts(&[&[4, 1], &[1, 4], &[2, 3]]), &[1, 1]), hypervolume_2d(&mixed, &vec![1, 1, 1]));
}
