use comlib::range::Bit;
use comlib::range::Bound::{Excluded, Included, Unbounded};

#[test]
fn test_bit_sum() {
    let bit = Bit::from(vec![1, 2, 3, 4, 5, 6, 7]);
    assert_eq!(bit.sum(Included(0), Excluded(0)), 0);
    assert_eq!(bit.sum(Unbounded, Included(0)), 1);
    assert_eq!(bit.sum(Unbounded, Included(1)), 3);
    assert_eq!(bit.sum(Unbounded, Included(2)), 6);
    assert_eq!(bit.sum(Unbounded, Included(3)), 10);
    assert_eq!(bit.sum(Unbounded, Included(4)), 15);
    assert_eq!(bit.sum(Unbounded, Included(5)), 21);
    assert_eq!(bit.sum(Unbounded, Included(6)), 28);

    assert_eq!(bit.sum(Included(5), Included(5)), 6);
    assert_eq!(bit.sum(Included(1), Included(5)), 20);

    assert_eq!(bit.sum(Unbounded, Unbounded), 28);
    assert_eq!(bit.sum(Included(2), Unbounded), 25);
    assert_eq!(bit.sum(Unbounded, Excluded(3)), 6);
}

#[test]
fn test_bit_add() {
    let mut bit = Bit::from(vec![1, 2, 3, 4, 5, 6, 7]);
    assert_eq!(bit.sum(Included(0), Excluded(7)), 28);
    bit.add(0, 3);
    assert_eq!(bit.sum(Included(0), Excluded(7)), 31);
    bit.sub(5, 2);
    assert_eq!(bit.sum(Included(1), Excluded(6)), 18);
}

#[test]
fn bit_of_zeros_and_excluded_start() {
    let mut bit = Bit::zeros(5);
    assert_eq!(bit.sum(Unbounded, Unbounded), 0);
    bit.add(4, -9);
    bit.add(0, 2);
    assert_eq!(bit.sum(Excluded(0), Unbounded), -9);
    assert_eq!(bit.sum(Unbounded, Excluded(4)), 2);
}

#[test]
fn what_the_tree_can_hold_can_be_tested() {
    assert!(Bit::can_build(&vec![1, 2, 3, 4, 5, 6, 7]));
    assert!(Bit::can_build(&vec![]));
    assert!(Bit::can_build(&vec![i64::MAX, i64::MIN, i64::MAX]));
    // The second node holds the sum of the first two values.
    assert!(!Bit::can_build(&vec![i64::MAX, 1]));
    assert!(Bit::can_build(&vec![1, i64::MAX - 1]));
    let mut bit = Bit::from(vec![i64::MAX - 1, 0, 5]);
    assert!(bit.can_add(0, 1));
    assert!(!bit.can_add(0, 2));
    // The value at 1 belongs to the second node, which holds the first too.
    assert!(!bit.can_add(1, 2));
    assert!(bit.can_add(2, i64::MAX - 5));
    assert!(!bit.can_add(3, 0));
    assert!(bit.can_sub(0, i64::MAX));
    assert!(!bit.can_sub(2, i64::MIN));
    bit.sub(0, i64::MAX);
    assert_eq!(bit.sum(Unbounded, Unbounded), 4);
    assert_eq!(bit.sum_wide(Included(0), Included(0)), -1);
    assert_eq!(bit.len(), 3);
}
