use boost_kernels::quantile::{
    checked_percentiles, percentiles, percentiles_in_order, PercentileError,
};

#[test]
fn test_percentiles() {
    let v = vec![4., 5., 6., 1., 2., 3., 7., 8., 9., 10.];
    let w = vec![1.; v.len()];
    let p = vec![0.3, 0.5, 0.75, 1.0];
    let p = percentiles(&v, &w, &p);
    assert_eq!(p, vec![3.0, 5.0, 8.0, 10.0]);
}

#[test]
fn test_percentiles_weighted() {
    let v = vec![10., 8., 9., 1., 2., 3., 6., 7., 4., 5.];
    let w = vec![1., 1., 1., 1., 1., 2., 1., 1., 5., 1.];
    let p = vec![0.3, 0.5, 0.75, 1.0];
    let p = percentiles(&v, &w, &p);
    assert_eq!(p, vec![4.0, 4.0, 7.0, 10.0]);
}

#[test]
fn percentiles_by_exact_shares() {
    // Shares of 1/4 and 3/4: the cumulative share is 0.25, then 1.
    let v: Vec<f64> = vec![20., 10.];
    let w: Vec<f64> = vec![3., 1.];
    assert_eq!(percentiles(&v, &w, &[0.25]), vec![10.]);
    assert_eq!(percentiles(&v, &w, &[0.26]), vec![20.]);
    assert_eq!(percentiles(&v, &w, &[0.1, 0.25, 0.5, 1.0]), vec![10., 10., 20., 20.]);
}

#[test]
fn percentiles_level_zero_is_the_least_value() {
    let v: Vec<f32> = vec![4., 5., 6., 1., 2., 3.];
    let w: Vec<f32> = vec![1.; 6];
    assert_eq!(percentiles(&v, &w, &[0.0]), vec![1.]);
    assert_eq!(percentiles(&v, &w, &[0.0, 0.0, 0.5]), vec![1., 1., 3.]);
}

#[test]
fn percentiles_level_zero_is_met_at_once() {
    // The first share is below zero, and still the first sample meets level zero.
    let v: Vec<f64> = vec![2., 1.];
    let w: Vec<f64> = vec![3., -1.];
    assert_eq!(percentiles(&v, &w, &[0.0]), vec![1.]);
    assert_eq!(percentiles(&v, &w, &[0.0, 0.5]), vec![1., 2.]);
}

#[test]
fn percentiles_level_one_is_the_greatest_value() {
    // Ten shares of a tenth add up to a little less than one.
    let v: Vec<f64> = vec![4., 5., 6., 1., 2., 3., 7., 8., 9., 10.];
    let w: Vec<f64> = vec![1.; 10];
    assert_eq!(percentiles(&v, &w, &[1.0]), vec![10.]);
    assert_eq!(percentiles(&v, &w, &[0.3, 0.5, 0.95, 1.0]), vec![3., 5., 10., 10.]);
    // With samples of no weight at the end, level one is met before them.
    let v: Vec<f64> = vec![1., 2., 3.];
    let w: Vec<f64> = vec![1., 1., 0.];
    assert_eq!(percentiles(&v, &w, &[0.5, 1.0]), vec![1., 2.]);
    assert_eq!(percentiles(&v, &w, &[1.0]), vec![3.]);
}

#[test]
fn percentiles_stop_at_a_level_out_of_reach() {
    let v: Vec<f64> = vec![3., 1., 2.];
    let w: Vec<f64> = vec![1., 1., 2.];
    assert_eq!(percentiles(&v, &w, &[0.5, 1.5, 0.1]), vec![2.]);
    assert_eq!(percentiles(&v, &w, &[2.0]), Vec::<f64>::new());
}

#[test]
fn percentiles_of_equal_values() {
    let v: Vec<f64> = vec![7., 7., 7., 7.];
    let w: Vec<f64> = vec![1., 2., 3., 4.];
    assert_eq!(percentiles(&v, &w, &[0.1, 0.2, 0.9, 1.0]), vec![7., 7., 7., 7.]);
}

#[test]
fn percentiles_walk_the_order_given() {
    let v: Vec<f64> = vec![30., 10., 20.];
    let w: Vec<f64> = vec![1., 1., 2.];
    assert_eq!(percentiles_in_order(&v, &w, &[0.25, 0.5, 1.0], &[1, 2, 0]), vec![10., 20., 30.]);
    // The walk does not sort: in stored order the first sample meets the first level.
    assert_eq!(percentiles_in_order(&v, &w, &[0.25, 0.5, 1.0], &[0, 1, 2]), vec![30., 10., 20.]);
}

#[test]
fn percentiles_sort_the_samples() {
    let v: Vec<f64> = vec![30., 10., 20.];
    let w: Vec<f64> = vec![1., 1., 2.];
    assert_eq!(percentiles(&v, &w, &[0.25, 0.5, 1.0]), vec![10., 20., 30.]);
}

#[test]
fn checked_percentiles_agree_with_percentiles() {
    let v = vec![10., 8., 9., 1., 2., 3., 6., 7., 4., 5.];
    let w = vec![1., 1., 1., 1., 1., 2., 1., 1., 5., 1.];
    let p = vec![0.3, 0.5, 0.75, 1.0];
    assert_eq!(checked_percentiles(&v, &w, &p), Ok(vec![4.0, 4.0, 7.0, 10.0]));
}

#[test]
fn checked_percentiles_say_what_is_wrong() {
    let v: Vec<f64> = vec![1., 2.];
    let w: Vec<f64> = vec![1., 1.];
    let none: Vec<f64> = vec![];
    assert_eq!(checked_percentiles(&v, &w, &none), Err(PercentileError::NoLevels));
    assert_eq!(checked_percentiles(&none, &none, &none), Err(PercentileError::NoLevels));
    assert_eq!(checked_percentiles(&none, &none, &[0.5]), Err(PercentileError::NoValues));
    assert_eq!(checked_percentiles(&none, &w, &[0.5]), Err(PercentileError::NoValues));
    assert_eq!(checked_percentiles(&v, &[1.], &[0.5]), Err(PercentileError::LengthMismatch));
    assert_eq!(checked_percentiles(&v, &[1., 1., 1.], &[0.5]), Err(PercentileError::LengthMismatch));
    assert_eq!(
        checked_percentiles(&[1., f64::NAN], &w, &[0.5]),
        Err(PercentileError::UnorderedValue)
    );
    assert_eq!(checked_percentiles(&v, &[0., 0.], &[0.5]), Err(PercentileError::ZeroTotalWeight));
    assert_eq!(checked_percentiles(&v, &[1., -1.], &[0.5]), Err(PercentileError::ZeroTotalWeight));
    assert_eq!(
        checked_percentiles(&[f64::NAN], &[0.], &[0.5]),
        Err(PercentileError::UnorderedValue)
    );
}
