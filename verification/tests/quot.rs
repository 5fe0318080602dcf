use comlib::math::Quot;

#[test]
fn denominator_is_positive() {
    assert_eq!(Quot::new(2, 1).unwrap().denominator(), 1);
    assert_eq!(Quot::new(2, -1).unwrap().denominator(), 1);
    assert_eq!(Quot::new(-2, 1).unwrap().denominator(), 1);
    assert_eq!(Quot::new(-2, -1).unwrap().denominator(), 1);
}
