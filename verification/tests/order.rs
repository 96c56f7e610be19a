use biguint::BigUint;

#[test]
fn test_eq() {
    let a = BigUint::Big(vec![12, 34]);
    let b = BigUint::Big(vec![12, 34, 0, 0]);
    assert_eq!(a, b);
    assert_eq!(b, a);
    assert_eq!(a, a);
    assert_eq!(b, b);

    let a = BigUint::Big(vec![12, 0, 0]);
    let b = BigUint::Small(12);
    assert_eq!(a, b);
    assert_eq!(b, a);
    assert_eq!(a, a);
    assert_eq!(b, b);
}

use core::cmp::Ordering;

#[test]
fn cmp_small_with_small() {
    assert_eq!(BigUint::Small(3).cmp(&BigUint::Small(4)), Ordering::Less);
    assert_eq!(BigUint::Small(4).cmp(&BigUint::Small(4)), Ordering::Equal);
    assert_eq!(BigUint::Small(5).cmp(&BigUint::Small(4)), Ordering::Greater);
}

#[test]
fn cmp_small_with_big() {
    let small = BigUint::Small(u64::MAX);
    assert_eq!(small.cmp(&BigUint::Big(vec![0, 1])), Ordering::Less);
    assert_eq!(BigUint::Big(vec![0, 1]).cmp(&small), Ordering::Greater);
    assert_eq!(small.cmp(&BigUint::Big(vec![u64::MAX, 0, 0])), Ordering::Equal);
    assert_eq!(BigUint::Big(vec![u64::MAX, 0]).cmp(&small), Ordering::Equal);
    assert_eq!(BigUint::Small(5).cmp(&BigUint::Big(vec![4, 0])), Ordering::Greater);
    assert_eq!(BigUint::Big(vec![4]).cmp(&BigUint::Small(5)), Ordering::Less);
    assert_eq!(BigUint::Small(0).cmp(&BigUint::Big(vec![])), Ordering::Equal);
    assert_eq!(BigUint::Small(1).cmp(&BigUint::Big(vec![])), Ordering::Greater);
    assert_eq!(BigUint::Big(vec![]).cmp(&BigUint::Small(1)), Ordering::Less);
}

#[test]
fn cmp_big_with_big_goes_by_the_highest_difference() {
    let a = BigUint::Big(vec![9, 1, 5]);
    let b = BigUint::Big(vec![1, 9, 5]);
    assert_eq!(a.cmp(&b), Ordering::Less);
    assert_eq!(b.cmp(&a), Ordering::Greater);

    let a = BigUint::Big(vec![9, 9, 9]);
    let b = BigUint::Big(vec![0, 0, 0, 1]);
    assert_eq!(a.cmp(&b), Ordering::Less);
    assert_eq!(b.cmp(&a), Ordering::Greater);

    let a = BigUint::Big(vec![1, 2]);
    let b = BigUint::Big(vec![1, 2, 0, 0, 0]);
    assert_eq!(a.cmp(&b), Ordering::Equal);
    assert_eq!(b.cmp(&a), Ordering::Equal);

    let a = BigUint::Big(vec![]);
    let b = BigUint::Big(vec![0, 0]);
    assert_eq!(a.cmp(&b), Ordering::Equal);
}

#[test]
fn operators_follow_cmp() {
    let a = BigUint::Big(vec![9, 1]);
    let b = BigUint::Big(vec![1, 9, 0]);
    assert!(a < b);
    assert!(a <= b);
    assert!(b > a);
    assert!(b >= a);
    assert!(a != b);
    assert_eq!(a.partial_cmp(&b), Some(Ordering::Less));
    assert!(a > 5);
    assert!(BigUint::Big(vec![5, 0]) <= 5);
    assert_eq!(BigUint::Big(vec![5, 0]).partial_cmp(&6), Some(Ordering::Less));
}

#[test]
fn unequal_values_are_not_equal() {
    assert_ne!(BigUint::Big(vec![12, 34]), BigUint::Big(vec![12, 35]));
    assert_ne!(BigUint::Big(vec![12, 34]), BigUint::Big(vec![12, 34, 1]));
    assert_ne!(BigUint::Big(vec![12, 34, 0, 1]), BigUint::Big(vec![12, 34]));
    assert_ne!(BigUint::Big(vec![12, 1]), BigUint::Small(12));
    assert_ne!(BigUint::Small(12), BigUint::Big(vec![13]));
    assert_ne!(BigUint::Small(1), BigUint::Big(vec![]));
    assert_ne!(BigUint::Small(12), BigUint::Small(13));
    assert_ne!(BigUint::Big(vec![0, 1]), 0);
}

#[test]
fn trailing_zero_limbs_do_not_change_the_comparison() {
    for word in [0u64, 1, 12, u64::MAX] {
        let small = BigUint::Small(word);
        for zeros in 0..5 {
            let mut limbs = vec![word];
            limbs.resize(1 + zeros, 0);
            let long = BigUint::Big(limbs);
            let mut trimmed = long.clone();
            trimmed.trim();
            assert_eq!(long, small);
            assert_eq!(small, long);
            assert_eq!(long, trimmed);
            assert_eq!(long.cmp(&small), Ordering::Equal);
            assert_eq!(small.cmp(&long), Ordering::Equal);
            assert_eq!(long.cmp(&trimmed), Ordering::Equal);
        }
    }
}
