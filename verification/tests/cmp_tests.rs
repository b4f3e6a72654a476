use dakv_skiplist::cmp::{BaseComparator, DefaultComparator};
use std::cmp::Ordering;

#[test]
fn cmp_test_basic() {
    let cmp = DefaultComparator::default();
    assert_eq!(cmp.compare(&[1], &[2]), Ordering::Less);
    assert_eq!(cmp.compare(&[2], &[2]), Ordering::Equal);
    assert_eq!(cmp.compare(&[2], &[1]), Ordering::Greater);
}

#[test]
fn test_simplify() {
    let cmp = DefaultComparator::default();
    assert!(cmp.lt(&[1], &[2]));
    assert!(cmp.le(&[2], &[2]));
    assert!(cmp.ge(&[2], &[2]));
    assert!(cmp.eq(&[2], &[2]));
    assert!(cmp.gt(&[2], &[1]));
    assert!(cmp.ne(&[2], &[1]));
}

#[test]
fn test_prefix_orders_first() {
    let cmp = DefaultComparator::default();
    assert_eq!(cmp.compare(&[1], &[1, 0]), Ordering::Less);
    assert_eq!(cmp.compare(&[1, 0], &[1]), Ordering::Greater);
    assert_eq!(cmp.compare(&[], &[]), Ordering::Equal);
    assert_eq!(cmp.compare(&[], &[0]), Ordering::Less);
}
