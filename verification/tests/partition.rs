use boost_kernels::partition::{
    missing_compare, pivot_on_split, pivot_on_split_exclude_missing, MISSING,
};
use rand::rngs::StdRng;
use rand::seq::SliceRandom;
use rand::Rng;
use rand::SeedableRng;
use std::cmp::Ordering;

#[test]
fn test_missing_compare() {
    assert_eq!(missing_compare(&10, 0, true), Ordering::Less);
    assert_eq!(missing_compare(&10, 0, false), Ordering::Greater);
    assert_eq!(missing_compare(&10, 11, true), Ordering::Less);
    assert_eq!(missing_compare(&10, 1, true), Ordering::Greater);
}

fn pivot_assert(
    f: &[u16],
    idx: &[usize],
    split_i: usize,
    missing_right: bool,
    split_val: u16,
) {
    if missing_right {
        for i in 0..split_i {
            assert!((f[idx[i]] < split_val) && f[idx[i]] != 0);
        }
        for i in idx[split_i..].iter() {
            assert!((f[*i] >= split_val) || (f[*i] == 0));
        }
    } else {
        for i in 0..split_i {
            assert!((f[idx[i]] < split_val) || (f[idx[i]] == 0));
        }
        for i in idx[split_i..].iter() {
            assert!((f[*i] >= split_val) || (f[*i] != 0));
        }
    }
}

#[test]
fn test_pivot() {
    let mut idx = vec![2, 6, 9, 5, 8, 13, 11, 7];
    let f = vec![15, 10, 10, 11, 3, 18, 0, 9, 3, 5, 2, 6, 13, 19, 14];
    let split_i = pivot_on_split(&mut idx, &f, 10, true);
    pivot_assert(&f, &idx, split_i, true, 10);

    let mut idx = vec![2, 6, 9, 5, 8, 13, 11, 7];
    let f = vec![15, 10, 10, 11, 3, 18, 0, 9, 3, 5, 2, 6, 13, 19, 14];
    let split_i = pivot_on_split(&mut idx, &f, 10, false);
    pivot_assert(&f, &idx, split_i, false, 10);

    // Test Minimum value...
    let mut idx = vec![2, 6, 9, 5, 8, 13, 11, 7];
    let f = vec![15, 10, 10, 11, 3, 18, 0, 9, 3, 5, 2, 6, 13, 19, 14];
    let split_i = pivot_on_split(&mut idx, &f, 1, true);
    pivot_assert(&f, &idx, split_i, true, 1);

    let mut idx = vec![2, 6, 9, 5, 8, 13, 11, 7];
    let f = vec![15, 10, 10, 11, 3, 18, 0, 9, 3, 5, 2, 6, 13, 19, 14];
    let split_i = pivot_on_split(&mut idx, &f, 1, false);
    pivot_assert(&f, &idx, split_i, false, 1);

    // Test Maximum value...
    let mut idx = vec![2, 6, 9, 5, 8, 13, 11, 7];
    let f = vec![15, 10, 10, 11, 3, 18, 0, 9, 3, 5, 2, 6, 13, 19, 14];
    let split_i = pivot_on_split(&mut idx, &f, 19, true);
    pivot_assert(&f, &idx, split_i, true, 19);

    let mut idx = vec![2, 6, 9, 5, 8, 13, 11, 7];
    let f = vec![15, 10, 10, 11, 3, 18, 0, 9, 3, 5, 2, 6, 13, 19, 14];
    let split_i = pivot_on_split(&mut idx, &f, 19, false);
    pivot_assert(&f, &idx, split_i, false, 19);

    // Random tests... right...
    // With missing
    let index = (0..100).collect::<Vec<usize>>();
    let mut rng = StdRng::seed_from_u64(0);
    let f = (0..100).map(|_| rng.gen_range(0..15)).collect::<Vec<u16>>();
    let mut idx = index
        .choose_multiple(&mut rng, 73)
        .copied()
        .collect::<Vec<usize>>();
    let split_i = pivot_on_split(&mut idx, &f, 7, true);
    pivot_assert(&f, &idx, split_i, true, 7);

    // Already sorted...
    let split_i = pivot_on_split(&mut idx, &f, 7, true);
    pivot_assert(&f, &idx, split_i, true, 7);

    // Reversed
    idx.reverse();
    let split_i = pivot_on_split(&mut idx, &f, 7, true);
    pivot_assert(&f, &idx, split_i, true, 7);

    // Without missing...
    let index = (0..100).collect::<Vec<usize>>();
    let mut rng = StdRng::seed_from_u64(0);
    let f = (0..100).map(|_| rng.gen_range(1..15)).collect::<Vec<u16>>();
    let mut idx = index
        .choose_multiple(&mut rng, 73)
        .copied()
        .collect::<Vec<usize>>();
    let split_i = pivot_on_split(&mut idx, &f, 5, true);
    pivot_assert(&f, &idx, split_i, true, 5);

    // Using max...
    let index = (0..100).collect::<Vec<usize>>();
    let mut rng = StdRng::seed_from_u64(0);
    let f = (0..100).map(|_| rng.gen_range(0..15)).collect::<Vec<u16>>();
    let mut idx = index
        .choose_multiple(&mut rng, 73)
        .copied()
        .collect::<Vec<usize>>();
    let sv = idx.iter().map(|i| f[*i]).max().unwrap();
    let split_i = pivot_on_split(&mut idx, &f, sv, true);
    pivot_assert(&f, &idx, split_i, true, sv);

    // Using non-0 minimum...
    let index = (0..100).collect::<Vec<usize>>();
    let mut rng = StdRng::seed_from_u64(0);
    let f = (0..100).map(|_| rng.gen_range(0..15)).collect::<Vec<u16>>();
    let mut idx = index
        .choose_multiple(&mut rng, 73)
        .copied()
        .collect::<Vec<usize>>();
    let sv = idx
        .iter()
        .filter(|i| f[**i] > 0)
        .map(|i| f[*i])
        .min()
        .unwrap();
    let split_i = pivot_on_split(&mut idx, &f, sv, true);
    pivot_assert(&f, &idx, split_i, true, sv);

    // Using non-0 minimum with no missing...
    let index = (0..100).collect::<Vec<usize>>();
    let mut rng = StdRng::seed_from_u64(0);
    let f = (0..100).map(|_| rng.gen_range(1..15)).collect::<Vec<u16>>();
    let mut idx = index
        .choose_multiple(&mut rng, 73)
        .copied()
        .collect::<Vec<usize>>();
    let sv = idx
        .iter()
        .filter(|i| f[**i] > 0)
        .map(|i| f[*i])
        .min()
        .unwrap();
    let split_i = pivot_on_split(&mut idx, &f, sv, true);
    pivot_assert(&f, &idx, split_i, true, sv);

    // Left
    let index = (0..100).collect::<Vec<usize>>();
    let mut rng = StdRng::seed_from_u64(0);
    let f = (0..100).map(|_| rng.gen_range(0..15)).collect::<Vec<u16>>();
    let mut idx = index
        .choose_multiple(&mut rng, 73)
        .copied()
        .collect::<Vec<usize>>();
    let split_i = pivot_on_split(&mut idx, &f, 7, false);
    pivot_assert(&f, &idx, split_i, false, 7);

    // Already sorted...
    let split_i = pivot_on_split(&mut idx, &f, 7, false);
    pivot_assert(&f, &idx, split_i, false, 7);

    // Reversed
    idx.reverse();
    let split_i = pivot_on_split(&mut idx, &f, 7, false);
    pivot_assert(&f, &idx, split_i, false, 7);

    // Without missing...
    let index = (0..100).collect::<Vec<usize>>();
    let mut rng = StdRng::seed_from_u64(0);
    let f = (0..100).map(|_| rng.gen_range(1..15)).collect::<Vec<u16>>();
    let mut idx = index
        .choose_multiple(&mut rng, 73)
        .copied()
        .collect::<Vec<usize>>();
    let split_i = pivot_on_split(&mut idx, &f, 5, false);
    pivot_assert(&f, &idx, split_i, false, 5);

    // Using max...
    let index = (0..100).collect::<Vec<usize>>();
    let mut rng = StdRng::seed_from_u64(0);
    let f = (0..100).map(|_| rng.gen_range(0..15)).collect::<Vec<u16>>();
    let mut idx = index
        .choose_multiple(&mut rng, 73)
        .copied()
        .collect::<Vec<usize>>();
    let sv = idx.iter().map(|i| f[*i]).max().unwrap();
    let split_i = pivot_on_split(&mut idx, &f, sv, false);
    pivot_assert(&f, &idx, split_i, false, sv);

    // Using non-0 minimum...
    let index = (0..100).collect::<Vec<usize>>();
    let mut rng = StdRng::seed_from_u64(0);
    let f = (0..100).map(|_| rng.gen_range(0..15)).collect::<Vec<u16>>();
    let mut idx = index
        .choose_multiple(&mut rng, 73)
        .copied()
        .collect::<Vec<usize>>();
    let sv = idx
        .iter()
        .filter(|i| f[**i] > 0)
        .map(|i| f[*i])
        .min()
        .unwrap();
    let split_i = pivot_on_split(&mut idx, &f, sv, false);
    pivot_assert(&f, &idx, split_i, false, sv);

    // Using non-0 minimum with no missing...
    let index = (0..100).collect::<Vec<usize>>();
    let mut rng = StdRng::seed_from_u64(0);
    let f = (0..100).map(|_| rng.gen_range(1..15)).collect::<Vec<u16>>();
    let mut idx = index
        .choose_multiple(&mut rng, 73)
        .copied()
        .collect::<Vec<usize>>();
    let sv = idx
        .iter()
        .filter(|i| f[**i] > 0)
        .map(|i| f[*i])
        .min()
        .unwrap();
    let split_i = pivot_on_split(&mut idx, &f, sv, false);
    pivot_assert(&f, &idx, split_i, false, sv);
}

fn pivot_missing_assert(
    split_value: u16,
    idx: &[usize],
    f: &[u16],
    split_i: &(usize, usize),
) {
    // Check they are lower than..
    for i in 0..split_i.0 {
        assert!(f[idx[i]] < split_value);
    }
    // Check missing got moved
    for i in 0..split_i.1 {
        assert!(f[idx[i]] == 0);
    }
    // Check none are less than...
    for i in split_i.0..(idx.len()) {
        assert!(!(f[idx[i]] < split_value));
    }
    // Check none other are missing...
    for i in split_i.1..(idx.len()) {
        assert!(f[idx[i]] != 0);
    }
}

#[test]
fn test_pivot_missing() {
    // Using minimum value...
    let mut idx = vec![2, 6, 9, 5, 8, 13, 11, 7];
    let f = vec![15, 10, 10, 0, 3, 0, 0, 9, 3, 5, 2, 6, 13, 19, 14];
    let split_i = pivot_on_split_exclude_missing(&mut idx, &f, 1);
    pivot_missing_assert(1, &idx, &f, &split_i);

    // Higher value...
    let mut idx = vec![2, 6, 9, 5, 8, 13, 11, 7];
    let f = vec![15, 10, 10, 0, 3, 0, 0, 9, 3, 5, 2, 6, 13, 19, 14];
    let split_i = pivot_on_split_exclude_missing(&mut idx, &f, 10);
    pivot_missing_assert(10, &idx, &f, &split_i);

    // Run it again, and ensure it works on an already sorted list...
    let split_i = pivot_on_split_exclude_missing(&mut idx, &f, 10);
    pivot_missing_assert(10, &idx, &f, &split_i);

    // Run it again, and ensure it works on reversed list...
    idx.reverse();
    let split_i = pivot_on_split_exclude_missing(&mut idx, &f, 10);
    pivot_missing_assert(10, &idx, &f, &split_i);

    let mut idx = vec![0, 1, 2, 3, 4, 5];
    let f = vec![1, 0, 1, 3, 0, 4];
    let split_i = pivot_on_split_exclude_missing(&mut idx, &f, 2);
    pivot_missing_assert(2, &idx, &f, &split_i);

    // Check if none missing...
    let mut idx = vec![2, 6, 9, 5, 8, 13, 11, 7];
    let f = vec![15, 10, 10, 2, 3, 5, 7, 9, 3, 5, 2, 6, 13, 19, 14];
    let split_i = pivot_on_split_exclude_missing(&mut idx, &f, 10);
    pivot_missing_assert(10, &idx, &f, &split_i);

    // Random tests...
    // With missing
    let index = (0..100).collect::<Vec<usize>>();
    let mut rng = StdRng::seed_from_u64(0);
    let f = (0..100).map(|_| rng.gen_range(0..15)).collect::<Vec<u16>>();
    let mut idx = index
        .choose_multiple(&mut rng, 73)
        .copied()
        .collect::<Vec<usize>>();
    let split_i = pivot_on_split_exclude_missing(&mut idx, &f, 10);
    pivot_missing_assert(10, &idx, &f, &split_i);

    // Already sorted...
    let split_i = pivot_on_split_exclude_missing(&mut idx, &f, 10);
    pivot_missing_assert(10, &idx, &f, &split_i);

    // Without missing...
    let index = (0..100).collect::<Vec<usize>>();
    let mut rng = StdRng::seed_from_u64(0);
    let f = (0..100).map(|_| rng.gen_range(1..15)).collect::<Vec<u16>>();
    let mut idx = index
        .choose_multiple(&mut rng, 73)
        .copied()
        .collect::<Vec<usize>>();
    let split_i = pivot_on_split_exclude_missing(&mut idx, &f, 5);
    pivot_missing_assert(5, &idx, &f, &split_i);

    // Using max...
    let index = (0..100).collect::<Vec<usize>>();
    let mut rng = StdRng::seed_from_u64(0);
    let f = (0..100).map(|_| rng.gen_range(0..15)).collect::<Vec<u16>>();
    let mut idx = index
        .choose_multiple(&mut rng, 73)
        .copied()
        .collect::<Vec<usize>>();
    let sv = idx.iter().map(|i| f[*i]).max().unwrap();
    let split_i = pivot_on_split_exclude_missing(&mut idx, &f, sv);
    pivot_missing_assert(sv, &idx, &f, &split_i);

    // Using non-0 minimum...
    let index = (0..100).collect::<Vec<usize>>();
    let mut rng = StdRng::seed_from_u64(0);
    let f = (0..100).map(|_| rng.gen_range(0..15)).collect::<Vec<u16>>();
    let mut idx = index
        .choose_multiple(&mut rng, 73)
        .copied()
        .collect::<Vec<usize>>();
    let sv = idx
        .iter()
        .filter(|i| f[**i] > 0)
        .map(|i| f[*i])
        .min()
        .unwrap();
    let split_i = pivot_on_split_exclude_missing(&mut idx, &f, sv);
    pivot_missing_assert(sv, &idx, &f, &split_i);

    // Using non-0 minimum with no missing...
    let index = (0..100).collect::<Vec<usize>>();
    let mut rng = StdRng::seed_from_u64(0);
    let f = (0..100).map(|_| rng.gen_range(1..15)).collect::<Vec<u16>>();
    let mut idx = index
        .choose_multiple(&mut rng, 73)
        .copied()
        .collect::<Vec<usize>>();
    let sv = idx
        .iter()
        .filter(|i| f[**i] > 0)
        .map(|i| f[*i])
        .min()
        .unwrap();
    let split_i = pivot_on_split_exclude_missing(&mut idx, &f, sv);
    pivot_missing_assert(sv, &idx, &f, &split_i);
}


fn codes(feature: &[u16], index: &[usize]) -> Vec<u16> {
    index.iter().map(|i| feature[*i]).collect()
}

fn sorted(index: &[usize]) -> Vec<usize> {
    let mut copy = index.to_vec();
    copy.sort();
    copy
}

#[test]
fn missing_compare_orders_real_codes() {
    assert_eq!(missing_compare(&10, 10, true), Ordering::Equal);
    assert_eq!(missing_compare(&10, 10, false), Ordering::Equal);
    assert_eq!(missing_compare(&10, 1, false), Ordering::Greater);
    assert_eq!(missing_compare(&10, 11, false), Ordering::Less);
    assert_eq!(missing_compare(&1, MISSING, true), Ordering::Less);
    assert_eq!(missing_compare(&65535, MISSING, false), Ordering::Greater);
}

#[test]
fn pivot_gives_exact_arrangement() {
    let f: Vec<u16> = vec![5, 1, 7, 0, 3];
    let mut idx = vec![0, 1, 2, 3, 4];
    let s = pivot_on_split(&mut idx, &f, 4, true);
    assert_eq!(s, 2);
    assert_eq!(idx, vec![4, 1, 2, 3, 0]);
    assert_eq!(codes(&f, &idx), vec![3, 1, 7, 0, 5]);

    let mut idx = vec![0, 1, 2, 3, 4];
    let s = pivot_on_split(&mut idx, &f, 4, false);
    assert_eq!(s, 3);
    assert_eq!(idx, vec![4, 1, 3, 2, 0]);
    assert_eq!(codes(&f, &idx), vec![3, 1, 0, 7, 5]);
}

#[test]
fn pivot_where_every_sample_goes_left() {
    let f: Vec<u16> = vec![1, 2, 3];
    let mut idx = vec![0, 1, 2];
    assert_eq!(pivot_on_split(&mut idx, &f, 10, true), 3);
    assert_eq!(idx, vec![0, 1, 2]);

    let f: Vec<u16> = vec![0, 0];
    let mut idx = vec![1, 0];
    assert_eq!(pivot_on_split(&mut idx, &f, 10, false), 2);
    assert_eq!(idx, vec![1, 0]);

    let f: Vec<u16> = vec![4];
    let mut idx = vec![0];
    assert_eq!(pivot_on_split(&mut idx, &f, 5, true), 1);
}

#[test]
fn pivot_where_every_sample_goes_right() {
    let f: Vec<u16> = vec![7, 8, 0];
    let mut idx = vec![0, 1, 2];
    assert_eq!(pivot_on_split(&mut idx, &f, 7, true), 0);
    assert_eq!(idx, vec![0, 1, 2]);

    let f: Vec<u16> = vec![4];
    let mut idx = vec![0];
    assert_eq!(pivot_on_split(&mut idx, &f, 4, true), 0);
}

#[test]
fn pivot_of_nothing() {
    let f: Vec<u16> = vec![4, 5];
    let mut idx: Vec<usize> = vec![];
    assert_eq!(pivot_on_split(&mut idx, &f, 4, true), 0);
    assert_eq!(pivot_on_split_exclude_missing(&mut idx, &f, 4), (0, 0));
    assert!(idx.is_empty());
}

#[test]
fn pivot_keeps_every_sample_and_counts_the_left() {
    let f: Vec<u16> = vec![15, 10, 10, 11, 3, 18, 0, 9, 3, 5, 2, 6, 13, 19, 14];
    for missing_right in [true, false] {
        for split in 1..21u16 {
            let mut idx = vec![2, 6, 9, 5, 8, 13, 11, 7, 6, 2];
            let before = idx.clone();
            let s = pivot_on_split(&mut idx, &f, split, missing_right);
            assert_eq!(sorted(&idx), sorted(&before));
            let left = before
                .iter()
                .filter(|i| {
                    let code = f[**i];
                    if code == 0 {
                        !missing_right
                    } else {
                        code < split
                    }
                })
                .count();
            assert_eq!(s, left);
            for (at, i) in idx.iter().enumerate() {
                let code = f[*i];
                let goes_left = if code == 0 { !missing_right } else { code < split };
                assert_eq!(goes_left, at < s);
            }
            // A sample that stood on its side of the split point has not moved.
            for (at, i) in before.iter().enumerate() {
                let code = f[*i];
                let goes_left = if code == 0 { !missing_right } else { code < split };
                if goes_left == (at < s) {
                    assert_eq!(idx[at], *i);
                }
            }
        }
    }
}

#[test]
fn pivot_leaves_a_split_array_alone() {
    let f: Vec<u16> = vec![15, 10, 10, 11, 3, 18, 0, 9, 3, 5, 2, 6, 13, 19, 14];
    let mut idx = vec![2, 6, 9, 5, 8, 13, 11, 7];
    let s = pivot_on_split(&mut idx, &f, 10, false);
    let once = idx.clone();
    assert_eq!(pivot_on_split(&mut idx, &f, 10, false), s);
    assert_eq!(idx, once);
    idx.reverse();
    assert_eq!(pivot_on_split(&mut idx, &f, 10, false), s);
}

#[test]
fn pivot_missing_gives_exact_arrangement() {
    let f: Vec<u16> = vec![1, 0, 1, 3, 0, 4];
    let mut idx = vec![0, 1, 2, 3, 4, 5];
    let points = pivot_on_split_exclude_missing(&mut idx, &f, 2);
    assert_eq!(points, (4, 2));
    assert_eq!(codes(&f, &idx), vec![0, 0, 1, 1, 3, 4]);
    assert_eq!(sorted(&idx), vec![0, 1, 2, 3, 4, 5]);
}

#[test]
fn pivot_missing_where_every_sample_is_missing() {
    let f: Vec<u16> = vec![0, 0, 0, 7];
    let mut idx = vec![2, 0, 1];
    assert_eq!(pivot_on_split_exclude_missing(&mut idx, &f, 3), (3, 3));
    assert_eq!(idx, vec![2, 0, 1]);

    let mut idx = vec![1];
    assert_eq!(pivot_on_split_exclude_missing(&mut idx, &f, 3), (1, 1));
}

#[test]
fn pivot_missing_looks_at_the_last_sample() {
    let f: Vec<u16> = vec![1, 0];
    let mut idx = vec![0, 1];
    assert_eq!(pivot_on_split_exclude_missing(&mut idx, &f, 5), (2, 1));
    assert_eq!(idx, vec![1, 0]);

    let f: Vec<u16> = vec![1, 2];
    let mut idx = vec![0, 1];
    assert_eq!(pivot_on_split_exclude_missing(&mut idx, &f, 5), (2, 0));
    assert_eq!(idx, vec![0, 1]);

    let f: Vec<u16> = vec![9];
    let mut idx = vec![0];
    assert_eq!(pivot_on_split_exclude_missing(&mut idx, &f, 5), (0, 0));
}

#[test]
fn pivot_missing_keeps_every_sample_and_counts_the_runs() {
    let f: Vec<u16> = vec![15, 10, 10, 0, 3, 0, 0, 9, 3, 5, 2, 6, 13, 19, 14];
    for split in 1..21u16 {
        let mut idx = vec![2, 6, 9, 5, 8, 13, 11, 7, 3, 3, 14];
        let before = idx.clone();
        let (low, missing) = pivot_on_split_exclude_missing(&mut idx, &f, split);
        assert_eq!(sorted(&idx), sorted(&before));
        assert_eq!(missing, before.iter().filter(|i| f[**i] == 0).count());
        assert_eq!(low, before.iter().filter(|i| f[**i] < split).count());
        for (at, i) in idx.iter().enumerate() {
            let code = f[*i];
            assert_eq!(code == 0, at < missing);
            assert_eq!(code < split, at < low);
        }
        let once = idx.clone();
        assert_eq!(pivot_on_split_exclude_missing(&mut idx, &f, split), (low, missing));
        assert_eq!(idx, once);
        idx.reverse();
        assert_eq!(pivot_on_split_exclude_missing(&mut idx, &f, split), (low, missing));
    }
}

#[test]
fn three_runs_serve_both_routings() {
    let f: Vec<u16> = vec![15, 10, 10, 0, 3, 0, 0, 9, 3, 5, 2, 6, 13, 19, 14];
    for split in 1..21u16 {
        let mut idx = vec![2, 6, 9, 5, 8, 13, 11, 7, 3, 3, 14];
        let (low, missing) = pivot_on_split_exclude_missing(&mut idx, &f, split);
        // With the missing samples routed left the array is split already.
        let runs = idx.clone();
        assert_eq!(pivot_on_split(&mut idx, &f, split, false), low);
        assert_eq!(idx, runs);
        // With the missing samples routed right the second run alone goes left.
        assert_eq!(pivot_on_split(&mut idx, &f, split, true), low - missing);
    }
}
