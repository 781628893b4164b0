use boost_kernels::one_indexed::OneIndexed;

#[test]
fn one_indexed_is_never_zero() {
    assert_eq!(OneIndexed::new(0), None);
    assert_eq!(OneIndexed::new(1).unwrap().get(), 1);
    assert_eq!(OneIndexed::new(usize::MAX).unwrap().get(), usize::MAX);
}

#[test]
fn one_indexed_counts_from_zero_and_back() {
    assert_eq!(OneIndexed::from_zero_indexed(0).get(), 1);
    assert_eq!(OneIndexed::from_zero_indexed(41).get(), 42);
    assert_eq!(OneIndexed::from_zero_indexed(usize::MAX).get(), usize::MAX);
    assert_eq!(OneIndexed::from_zero_indexed(41).to_zero_indexed(), 41);
    assert_eq!(OneIndexed::new(1).unwrap().to_zero_indexed(), 0);
}

#[test]
fn one_indexed_arithmetic_saturates() {
    let five = OneIndexed::new(5).unwrap();
    assert_eq!(five.saturating_add(3).get(), 8);
    assert_eq!(five.saturating_add(0).get(), 5);
    assert_eq!(five.saturating_add(usize::MAX).get(), usize::MAX);
    assert_eq!(five.saturating_sub(3).get(), 2);
    assert_eq!(five.saturating_sub(4).get(), 1);
    assert_eq!(five.saturating_sub(5).get(), 1);
    assert_eq!(five.saturating_sub(usize::MAX).get(), 1);
}

#[test]
fn one_indexed_orders_by_value() {
    let two = OneIndexed::new(2).unwrap();
    let nine = OneIndexed::from_zero_indexed(8);
    assert!(two < nine);
    assert_eq!(nine, OneIndexed::new(9).unwrap());
    assert_ne!(two, nine);
}
