use six_eight::jsfrac::JsFrac;

#[test]
fn jsfrac_it_works() {
    assert_eq!(JsFrac::reduce(4, 2), vec![2, 1]);
    assert_eq!(JsFrac::add(1, 2, 1, 4), vec![3, 4]);
    assert_eq!(JsFrac::gt(1, 2, 1, 3), true);
    assert_eq!(JsFrac::lt(1, 2, 1, 3), false);
    assert_eq!(JsFrac::eq(1, 2, 1, 3), false);
}

#[test]
fn reduce_moves_the_sign_to_the_numerator() {
    assert_eq!(JsFrac::reduce(3, -6), vec![-1, 2]);
    assert_eq!(JsFrac::reduce(0, 5), vec![0, 1]);
}

#[test]
fn from_duration_counts_dots() {
    assert_eq!(JsFrac::from_duration(-2, 0), vec![1, 4]);
    assert_eq!(JsFrac::from_duration(-2, 1), vec![3, 8]);
    assert_eq!(JsFrac::from_duration(-1, 2), vec![7, 8]);
    assert_eq!(JsFrac::from_duration(1, 0), vec![2, 1]);
}

#[test]
fn comparisons_of_equal_fractions() {
    assert!(JsFrac::eq(2, 4, 1, 2));
    assert!(!JsFrac::lt(2, 4, 1, 2));
    assert!(!JsFrac::gt(2, 4, 1, 2));
}
