use hypervolume::hypervolume_random::{
    calculate_hv_parallel, calculate_hv_serial, compose_cuts, contains_point,
    generate_structured_dataset, insert_cut, same_point, StructuredDataset, TOTAL,
};
use hypervolume::input::fits_reference;
use hypervolume::point::dominates;
use hypervolume::rng::{swap_entries, SimpleRng};

fn lcg(s: u64) -> u64 {
    s.wrapping_mul(6364136223846793005).wrapping_add(1)
}

fn generate(n: usize, dim: usize) -> Vec<Vec<i64>> {
    let mut ds = StructuredDataset::new(n, dim);
    while !ds.is_complete() {
        ds.step();
    }
    ds.finish()
}

#[test]
fn rng_steps_as_a_linear_congruential_generator() {
    let mut rng = SimpleRng::new(42);
    let x = rng.next_sample();
    assert_eq!(rng.state, lcg(42));
    assert_eq!(x, lcg(42) >> 33);
    assert!(x < (1u64 << 31));
}

#[test]
fn gen_index_small_bounds_do_not_step() {
    let mut rng = SimpleRng::new(7);
    assert_eq!(rng.gen_index(0), 0);
    assert_eq!(rng.gen_index(1), 0);
    assert_eq!(rng.state, 7);
}

#[test]
fn gen_index_scales_the_sample() {
    let mut rng = SimpleRng::new(99);
    let idx = rng.gen_index(999);
    let s = lcg(99);
    let expect = (((s >> 33) as u128 * 999) >> 31) as usize % 999;
    assert_eq!(idx, expect);
    // the floating-point form gives the same index for small bounds
    let f = ((s >> 33) as f64 / 2147483648.0 * 999.0).floor() as usize % 999;
    assert_eq!(idx, f);
}

#[test]
fn shuffle_is_fisher_yates() {
    let mut rng = SimpleRng::new(2024);
    let mut v: Vec<u32> = (0..10).collect();
    rng.shuffle(&mut v);
    let mut s = 2024u64;
    let mut w: Vec<u32> = (0..10).collect();
    for i in (1..10usize).rev() {
        s = lcg(s);
        let j = (((s >> 33) as u128 * (i as u128 + 1)) >> 31) as usize % (i + 1);
        w.swap(i, j);
    }
    assert_eq!(v, w);
    assert_eq!(rng.state, s);
    let mut sorted = v.clone();
    sorted.sort();
    assert_eq!(sorted, (0..10).collect::<Vec<u32>>());
}

#[test]
fn swap_entries_exchanges() {
    let mut v = vec![1, 2, 3, 4];
    swap_entries(&mut v, 3, 1);
    assert_eq!(v, vec![1, 4, 3, 2]);
    swap_entries(&mut v, 2, 2);
    assert_eq!(v, vec![1, 4, 3, 2]);
}

#[test]
fn cuts_and_compositions() {
    let mut cuts: Vec<u16> = vec![];
    insert_cut(&mut cuts, 500);
    insert_cut(&mut cuts, 100);
    insert_cut(&mut cuts, 500);
    insert_cut(&mut cuts, 999);
    assert_eq!(cuts, vec![100, 500, 999]);
    assert_eq!(compose_cuts(&cuts), vec![100, 400, 499, 1]);
    assert_eq!(compose_cuts(&vec![]), vec![1000]);
}

#[test]
fn point_equality_and_membership() {
    assert!(same_point(&vec![1, 2], &vec![1, 2]));
    assert!(!same_point(&vec![1, 2], &vec![1, 2, 3]));
    assert!(!same_point(&vec![1, 2], &vec![2, 1]));
    let ps = vec![vec![1, 2], vec![3, 4]];
    assert!(contains_point(&ps, &vec![3, 4]));
    assert!(!contains_point(&ps, &vec![4, 3]));
}

#[test]
fn structured_points_are_distinct_compositions() {
    for dim in 2..=5 {
        let ps = generate(30, dim);
        assert_eq!(ps.len(), 30);
        for (i, p) in ps.iter().enumerate() {
            assert_eq!(p.len(), dim);
            assert!(p.iter().all(|&c| c >= 1));
            assert_eq!(p.iter().sum::<i64>(), TOTAL as i64);
            for q in ps.iter().skip(i + 1) {
                assert_ne!(p, q);
                assert!(!dominates(p, q) && !dominates(q, p));
            }
        }
    }
}

#[test]
fn structured_dataset_is_deterministic() {
    assert_eq!(generate(15, 4), generate(15, 4));
    assert_ne!(generate(15, 4), generate(16, 4)[..15].to_vec());
}

#[test]
fn structured_dimension_zero_gives_the_whole_total() {
    assert_eq!(generate(1, 0), vec![vec![1000]]);
    assert_eq!(generate(1, 1), vec![vec![1000]]);
    assert!(generate(0, 3).is_empty());
}

#[test]
fn step_draws_cuts_then_a_point() {
    let mut ds = StructuredDataset::new(1, 3);
    ds.step();
    ds.step();
    // two cuts drawn (or one drawn twice); a later step yields the point
    let mut steps = 0;
    while !ds.is_complete() {
        ds.step();
        steps += 1;
        assert!(steps < 100);
    }
    let ps = ds.finish();
    assert_eq!(ps.len(), 1);
    assert_eq!(ps[0].iter().sum::<i64>(), 1000);
}

#[test]
fn serial_and_parallel_agree_on_structured_sets() {
    for dim in 2..=5 {
        let ps = generate(40, dim);
        let r = vec![0; dim];
        assert!(fits_reference(&ps, &r));
        let serial = calculate_hv_serial(&ps, &r);
        for depth in 0..4 {
            assert_eq!(calculate_hv_parallel(&ps, &r, depth), serial);
        }
        assert!(serial > 0);
    }
}

#[test]
fn bounded_generation_matches_stepping() {
    for &(n, dim) in &[(0usize, 3usize), (1, 1), (5, 2), (12, 3), (20, 5)] {
        assert_eq!(generate_structured_dataset(n, dim, usize::MAX), Some(generate(n, dim)));
    }
}

#[test]
fn bounded_generation_gives_up_when_steps_run_out() {
    assert_eq!(generate_structured_dataset(3, 2, 0), None);
    assert_eq!(generate_structured_dataset(0, 2, 0), Some(vec![]));
    assert_eq!(generate_structured_dataset(1, 0, 1), Some(vec![vec![1000]]));
}

#[test]
fn bounded_generation_is_deterministic() {
    let a = generate_structured_dataset(25, 4, usize::MAX);
    let b = generate_structured_dataset(25, 4, usize::MAX);
    assert!(a.is_some());
    assert_eq!(a, b);
}

#[test]
fn inserted_cuts_stay_sorted_and_distinct() {
    let mut cuts: Vec<u16> = vec![];
    for &c in &[700u16, 3, 999, 1, 700, 250, 3] {
        insert_cut(&mut cuts, c);
        assert!(cuts.windows(2).all(|w| w[0] < w[1]));
    }
    assert_eq!(cuts, vec![1, 3, 250, 700, 999]);
}

/// The index the floating-point formula `floor(x / 2^31 * upper) mod upper` gives.
fn float_index(state: u64, upper: usize) -> usize {
    (((state >> 33) as f64 / 2147483648.0) * upper as f64).floor() as usize % upper
}

#[test]
fn gen_index_rounds_as_a_double_product() {
    let mut rng = SimpleRng::new(6497497095147214683);
    assert_eq!(rng.gen_index((1usize << 30) + 1), 536870912);
    assert_eq!(rng.state, (((1u64 << 30) - 1) << 33));
}

#[test]
fn gen_index_matches_the_floating_point_formula() {
    let uppers: Vec<usize> = vec![
        2,
        3,
        999,
        1 << 22,
        (1 << 22) + 1,
        (1 << 30) + 1,
        (1 << 40) + 12345,
        (1 << 53) - 1,
        (1 << 53) + 1,
        (1 << 53) + 3,
        (1 << 60) + 77,
        usize::MAX - 2048,
        usize::MAX - 1,
        usize::MAX,
    ];
    let mut seed: u64 = 1;
    for round in 0..400u64 {
        seed = lcg(seed ^ round);
        for &upper in &uppers {
            let mut rng = SimpleRng::new(seed);
            let idx = rng.gen_index(upper);
            assert_eq!(idx, float_index(lcg(seed), upper), "seed {} upper {}", seed, upper);
        }
    }
    // states whose sample sits next to a power of two, where rounding matters most
    for k in [(1u64 << 31) - 1, (1u64 << 30) - 1, (1u64 << 29) + 1, 1, 0] {
        let state = k << 33;
        for &upper in &uppers {
            let mut rng = SimpleRng::new(lcg_back(state));
            assert_eq!(rng.gen_index(upper), float_index(state, upper), "k {} upper {}", k, upper);
            assert_eq!(rng.state, state);
        }
    }
}

/// The state that one step of the generator takes to `s`.
fn lcg_back(s: u64) -> u64 {
    let a: u64 = 6364136223846793005;
    let mut inv: u64 = a;
    for _ in 0..6 {
        inv = inv.wrapping_mul(2u64.wrapping_sub(a.wrapping_mul(inv)));
    }
    assert_eq!(a.wrapping_mul(inv), 1);
    s.wrapping_sub(1).wrapping_mul(inv)
}
