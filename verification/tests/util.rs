use biguint::util::CarryOps;

const MAX: u64 = u64::MAX;

#[test]
fn carrying_add_reports_the_carry() {
    assert_eq!(1u64._carrying_add(2, false), (3, false));
    assert_eq!(1u64._carrying_add(2, true), (4, false));
    assert_eq!(MAX._carrying_add(0, false), (MAX, false));
    assert_eq!(MAX._carrying_add(0, true), (0, true));
    assert_eq!(MAX._carrying_add(1, false), (0, true));
    assert_eq!(MAX._carrying_add(MAX, false), (MAX - 1, true));
    assert_eq!(MAX._carrying_add(MAX, true), (MAX, true));
    assert_eq!(0u64._carrying_add(MAX, true), (0, true));
}

#[test]
fn borrowing_sub_reports_the_borrow() {
    assert_eq!(3u64._borrowing_sub(2, false), (1, false));
    assert_eq!(3u64._borrowing_sub(2, true), (0, false));
    assert_eq!(3u64._borrowing_sub(3, true), (MAX, true));
    assert_eq!(0u64._borrowing_sub(0, false), (0, false));
    assert_eq!(0u64._borrowing_sub(0, true), (MAX, true));
    assert_eq!(0u64._borrowing_sub(1, false), (MAX, true));
    assert_eq!(0u64._borrowing_sub(MAX, true), (0, true));
    assert_eq!(MAX._borrowing_sub(MAX, false), (0, false));
    assert_eq!(MAX._borrowing_sub(MAX, true), (MAX, true));
}

#[test]
fn carrying_mul_add_splits_the_double_width_result() {
    assert_eq!(3u64._carrying_mul_add(4, 5, 6), (23, 0));
    assert_eq!(MAX._carrying_mul_add(MAX, 0, 0), (1, MAX - 1));
    assert_eq!(MAX._carrying_mul_add(MAX, MAX, MAX), (MAX, MAX));
    assert_eq!((1u64 << 32)._carrying_mul_add(1 << 32, 7, 0), (7, 1));
}

#[test]
fn carrying_mul_adds_no_further_word() {
    assert_eq!(3u64._carrying_mul(4, 5), (17, 0));
    assert_eq!(MAX._carrying_mul(MAX, MAX), (0, MAX));
    assert_eq!(MAX._carrying_mul(2, 0), (MAX - 1, 1));
    assert_eq!(<u64 as CarryOps>::ZERO, 0);
}
