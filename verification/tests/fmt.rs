use biguint::BigUint;

#[test]
fn test_display() {
    assert_eq!(&BigUint::Small(123).to_string(), "123");
    assert_eq!(&BigUint::Big(vec![243]).to_string(), "243");
    assert_eq!(&BigUint::Big(vec![0, 1]).to_string(), "18446744073709551616");
}

#[test]
fn zero_renders_as_one_digit_in_every_form() {
    assert_eq!(BigUint::Small(0).to_string(), "0");
    assert_eq!(BigUint::Big(vec![]).to_string(), "0");
    assert_eq!(BigUint::Big(vec![0]).to_string(), "0");
    assert_eq!(BigUint::Big(vec![0, 0, 0]).to_string(), "0");
}

#[test]
fn small_renders_natively() {
    assert_eq!(BigUint::Small(7).to_string(), "7");
    assert_eq!(BigUint::Small(10).to_string(), "10");
    assert_eq!(BigUint::Small(243).to_string(), "243");
    assert_eq!(BigUint::Small(1000000).to_string(), "1000000");
    assert_eq!(BigUint::Small(u64::MAX).to_string(), "18446744073709551615");
}

#[test]
fn big_renders_without_leading_zeros() {
    assert_eq!(BigUint::Big(vec![u64::MAX]).to_string(), "18446744073709551615");
    assert_eq!(BigUint::Big(vec![10, 0, 0]).to_string(), "10");
    assert_eq!(
        BigUint::Big(vec![0, 0, 1]).to_string(),
        "340282366920938463463374607431768211456"
    );
    assert_eq!(
        BigUint::Big(vec![13399722918938673152, 7145508105175220139, 29]).to_string(),
        "10000000000000000000000000000000000000000"
    );
    assert_eq!(
        BigUint::Big(vec![u64::MAX, u64::MAX, u64::MAX]).to_string(),
        "6277101735386680763835789423207666416102355444464034512895"
    );
    assert_eq!(
        BigUint::Big(vec![17926562471779175122, 12319663444204090490, 36280689513]).to_string(),
        "12345678901234567890123456789012345678901234567890"
    );
}

#[test]
fn rendering_agrees_with_the_native_one_on_words() {
    let words = [0u64, 1, 9, 10, 99, 100, 12345, 1 << 32, u64::MAX - 1, u64::MAX];
    for w in words {
        assert_eq!(BigUint::Small(w).to_string(), format!("{}", w));
        assert_eq!(BigUint::Big(vec![w]).to_string(), format!("{}", w));
        assert_eq!(BigUint::Big(vec![w, 0]).to_string(), format!("{}", w));
    }
}

#[test]
fn rendered_numeral_reads_back_as_the_value() {
    let x = BigUint::Big(vec![0x123456789abcdef0, 0xfedcba9876543210, 7]);
    let text = x.to_string();
    assert!(!text.starts_with('0'));
    let mut back = BigUint::Small(0);
    for c in text.chars() {
        back.mul_assign(&BigUint::Small(10));
        back.add_assign(&BigUint::Small(c as u64 - '0' as u64));
    }
    assert_eq!(back, x);
}

#[test]
fn debug_string_shows_the_form() {
    assert_eq!(BigUint::Small(42).debug_string(), "Small(42)");
    assert_eq!(BigUint::Big(vec![]).debug_string(), "Big()");
    assert_eq!(BigUint::Big(vec![7]).debug_string(), "Big(7)");
    assert_eq!(BigUint::Big(vec![3, 0, 12]).debug_string(), "Big(12_0_3)");
    assert_eq!(
        BigUint::Big(vec![u64::MAX, 1]).debug_string(),
        "Big(1_18446744073709551615)"
    );
}

#[test]
fn rendering_agrees_with_the_native_one_on_double_words() {
    let mut state = 3u64;
    for _ in 0..100 {
        state = state
            .wrapping_mul(6364136223846793005)
            .wrapping_add(1442695040888963407);
        let low = state ^ (state >> 31);
        state = state
            .wrapping_mul(6364136223846793005)
            .wrapping_add(1442695040888963407);
        let high = state >> (state % 64);
        let x = (high as u128) << 64 | low as u128;
        assert_eq!(BigUint::Big(vec![low, high]).to_string(), format!("{}", x));
        assert_eq!(BigUint::Big(vec![low, high, 0]).to_string(), format!("{}", x));
    }
}
