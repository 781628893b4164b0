use boost_kernels::reduction::{fast_sum, fast_sum_widened, naive_sum, LANES};

#[test]
fn sixteen_lanes() {
    assert_eq!(LANES, 16);
}

#[test]
fn sums_of_nothing_are_zero() {
    let none: Vec<f64> = vec![];
    assert_eq!(naive_sum(&none), 0.0);
    assert_eq!(fast_sum(&none), 0.0);
    let none: Vec<f32> = vec![];
    assert_eq!(fast_sum_widened::<f32, f64>(&none), 0.0);
}

#[test]
fn fast_sum_is_naive_sum_where_nothing_rounds() {
    for len in [1usize, 2, 15, 16, 17, 31, 32, 33, 100, 1000] {
        let values: Vec<f64> = (0..len).map(|i| (i as f64) * 0.5 - 7.0).collect();
        let expected: f64 = values.iter().sum();
        assert_eq!(naive_sum(&values), expected);
        assert_eq!(fast_sum(&values), expected);
        let narrow: Vec<f32> = values.iter().map(|v| *v as f32).collect();
        assert_eq!(fast_sum_widened::<f32, f64>(&narrow), expected);
    }
}

#[test]
fn naive_sum_adds_in_order() {
    // Adding the small values first keeps them; adding them last loses them.
    let values: Vec<f32> = vec![1.0, 1.0, 1.0, 1.0, 1e8];
    assert_eq!(naive_sum(&values), 1e8 + 4.0);
    let values: Vec<f32> = vec![1e8, 1.0, 1.0, 1.0, 1.0];
    assert_eq!(naive_sum(&values), 1e8);
}

#[test]
fn fast_sum_adds_in_lanes() {
    // Eight chunks of sixteen. Lane 0 starts with 1e8, next to which a single 1
    // is lost; every other lane adds up eight 1s, and an 8 is not lost.
    let mut values: Vec<f32> = vec![1.0; 128];
    values[0] = 1e8;
    assert_eq!(fast_sum(&values), 100000120.0);
    assert_eq!(naive_sum(&values), 100000000.0);
    // Two values are left over and are added in order after the lanes.
    values.push(4.0);
    values.push(4.0);
    assert_eq!(fast_sum(&values), 100000128.0);
}

#[test]
fn fast_sum_is_close_to_naive_sum() {
    let values: Vec<f64> = (0..1000).map(|i| 1.0 / (1.0 + i as f64)).collect();
    let fast = fast_sum(&values);
    let naive = naive_sum(&values);
    assert!((fast - naive).abs() < 1e-12);
}

// The sum in lanes of `f64`, rounded to `f32`.
fn fast_f64_sum(values: &[f32]) -> f32 {
    fast_sum_widened::<f32, f64>(values) as f32
}

#[test]
fn test_fast_f64_sum() {
    let records = 300000;
    let vec = vec![0.23500371; records];
    assert_ne!(vec.iter().sum::<f32>(), vec[0] * (records as f32));
    assert_eq!(vec[0] * (records as f32), fast_f64_sum(&vec));
}

#[test]
fn naive_sum_of_repeated_values_is_not_the_product() {
    let records = 300000;
    let values: Vec<f32> = vec![0.23500371; records];
    assert_ne!(naive_sum(&values), values[0] * (records as f32));
}

#[test]
fn sums_of_integers() {
    let values: Vec<u64> = (1..=100).collect();
    assert_eq!(naive_sum(&values), 5050);
    assert_eq!(fast_sum(&values), 5050);
    let narrow: Vec<u8> = vec![255; 40];
    assert_eq!(fast_sum_widened::<u8, u32>(&narrow), 10200);
}
