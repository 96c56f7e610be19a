use biguint::BigUint;

fn same_big(x: &BigUint, limbs: &[u64]) -> bool {
    matches!(x, BigUint::Big(v) if v.as_slice() == limbs)
}

fn same_small(x: &BigUint, word: u64) -> bool {
    matches!(x, BigUint::Small(v) if *v == word)
}

#[test]
fn default_is_small_zero() {
    assert!(same_small(&BigUint::default(), 0));
}

#[test]
fn from_word_is_small() {
    assert!(same_small(&BigUint::from(17), 17));
    assert!(same_small(&BigUint::from(u64::MAX), u64::MAX));
}

#[test]
fn clone_keeps_the_form() {
    assert!(same_small(&BigUint::Small(5).clone(), 5));
    assert!(same_big(&BigUint::Big(vec![1, 0, 0]).clone(), &[1, 0, 0]));
    assert!(same_big(&BigUint::Big(vec![]).clone(), &[]));
}

#[test]
fn narrowing_succeeds_where_the_value_fits() {
    assert_eq!(u64::try_from(BigUint::Small(9)), Ok(9));
    assert_eq!(u64::try_from(BigUint::Big(vec![])), Ok(0));
    assert_eq!(u64::try_from(BigUint::Big(vec![u64::MAX])), Ok(u64::MAX));
    assert_eq!(u64::try_from(BigUint::Big(vec![9, 0, 0])), Ok(9));
    assert_eq!(BigUint::Big(vec![9, 0, 0]).to_word(), Some(9));
}

#[test]
fn narrowing_fails_where_the_value_is_too_large() {
    assert_eq!(u64::try_from(BigUint::Big(vec![0, 1])), Err(()));
    assert_eq!(u64::try_from(BigUint::Big(vec![9, 0, 3])), Err(()));
    assert_eq!(BigUint::Big(vec![9, 0, 3]).to_word(), None);
}

#[test]
fn left_shift_places_by_zero_changes_nothing() {
    let mut a = BigUint::Small(5);
    a.left_shift_places(0);
    assert!(same_small(&a, 5));

    let mut a = BigUint::Big(vec![1, 2]);
    a.left_shift_places(0);
    assert!(same_big(&a, &[1, 2]));
}

#[test]
fn left_shift_places_inserts_zero_limbs_below() {
    let mut a = BigUint::Small(5);
    a.left_shift_places(1);
    assert!(same_big(&a, &[0, 5]));

    let mut a = BigUint::Small(5);
    a.left_shift_places(3);
    assert!(same_big(&a, &[0, 0, 0, 5]));

    let mut a = BigUint::Big(vec![1, 2, 3]);
    a.left_shift_places(2);
    assert!(same_big(&a, &[0, 0, 1, 2, 3]));

    let mut a = BigUint::Big(vec![1, 2, 3]);
    a.left_shift_places(5);
    assert!(same_big(&a, &[0, 0, 0, 0, 0, 1, 2, 3]));

    let mut a = BigUint::Big(vec![]);
    a.left_shift_places(2);
    assert!(same_big(&a, &[0, 0]));
}

#[test]
fn trim_gives_the_canonical_form() {
    let mut a = BigUint::Small(0);
    a.trim();
    assert!(same_small(&a, 0));

    let mut a = BigUint::Big(vec![]);
    a.trim();
    assert!(same_small(&a, 0));

    let mut a = BigUint::Big(vec![0, 0, 0]);
    a.trim();
    assert!(same_small(&a, 0));

    let mut a = BigUint::Big(vec![7]);
    a.trim();
    assert!(same_small(&a, 7));

    let mut a = BigUint::Big(vec![7, 0, 0]);
    a.trim();
    assert!(same_small(&a, 7));

    let mut a = BigUint::Big(vec![7, 0, 1, 0, 0]);
    a.trim();
    assert!(same_big(&a, &[7, 0, 1]));

    let mut a = BigUint::Big(vec![0, 1]);
    a.trim();
    assert!(same_big(&a, &[0, 1]));
}

#[test]
fn inflate_grows_and_never_shrinks() {
    let mut a = BigUint::Small(5);
    a.inflate(0);
    assert!(same_big(&a, &[5]));

    let mut a = BigUint::Small(5);
    a.inflate(3);
    assert!(same_big(&a, &[5, 0, 0]));

    let mut a = BigUint::Big(vec![1, 2]);
    a.inflate(4);
    assert!(same_big(&a, &[1, 2, 0, 0]));

    let mut a = BigUint::Big(vec![1, 2, 3]);
    a.inflate(2);
    assert!(same_big(&a, &[1, 2, 3]));

    let mut a = BigUint::Big(vec![]);
    a.inflate(0);
    assert!(same_big(&a, &[]));
}

#[test]
fn inflate_vec_hands_out_the_limbs() {
    assert_eq!(BigUint::Small(5).inflate_vec(0), vec![5]);
    assert_eq!(BigUint::Small(5).inflate_vec(2), vec![5, 0]);
    assert_eq!(BigUint::Big(vec![1, 2]).inflate_vec(1), vec![1, 2]);
    assert_eq!(BigUint::Big(vec![1, 2]).inflate_vec(3), vec![1, 2, 0]);
    assert_eq!(BigUint::Big(vec![]).inflate_vec(0), Vec::<u64>::new());
}

#[test]
fn identities() {
    assert!(same_small(&BigUint::zero(), 0));
    assert!(same_small(&BigUint::one(), 1));

    assert!(BigUint::Small(0).is_zero());
    assert!(BigUint::Big(vec![]).is_zero());
    assert!(BigUint::Big(vec![0, 0]).is_zero());
    assert!(!BigUint::Small(1).is_zero());
    assert!(!BigUint::Big(vec![0, 1]).is_zero());

    assert!(BigUint::Small(1).is_one());
    assert!(BigUint::Big(vec![1]).is_one());
    assert!(BigUint::Big(vec![1, 0, 0]).is_one());
    assert!(!BigUint::Small(0).is_one());
    assert!(!BigUint::Small(2).is_one());
    assert!(!BigUint::Big(vec![]).is_one());
    assert!(!BigUint::Big(vec![1, 1]).is_one());
    assert!(!BigUint::Big(vec![0, 1]).is_one());

    let mut a = BigUint::Big(vec![1, 2, 3]);
    a.set_zero();
    assert!(same_small(&a, 0));
}
