use ibuki::arith::{div_round, div_trunc, fraction_lt, mul_wide, product_lt};

#[test]
fn div_round_goes_to_the_nearest_integer() {
    assert_eq!(div_round(7, 2), 4);
    assert_eq!(div_round(6, 4), 2);
    assert_eq!(div_round(5, 4), 1);
    assert_eq!(div_round(1, 3), 0);
    assert_eq!(div_round(2, 3), 1);
    assert_eq!(div_round(0, 5), 0);
    assert_eq!(div_round(10, 5), 2);
    assert_eq!(div_round(9, 1), 9);
}

#[test]
fn div_round_of_a_tie_goes_up() {
    assert_eq!(div_round(1, 2), 1);
    assert_eq!(div_round(3, 2), 2);
    assert_eq!(div_round(-1, 2), 0);
    assert_eq!(div_round(-3, 2), -1);
    assert_eq!(div_round(-5, 10), 0);
    assert_eq!(div_round(5, 10), 1);
}

#[test]
fn div_round_of_negative_numbers() {
    assert_eq!(div_round(-7, 2), -3);
    assert_eq!(div_round(-1, 3), 0);
    assert_eq!(div_round(-2, 3), -1);
    assert_eq!(div_round(-10, 5), -2);
    assert_eq!(div_round(-11, 5), -2);
    assert_eq!(div_round(-13, 5), -3);
}

#[test]
fn div_round_of_large_numbers() {
    let big: i128 = 1 << 125;
    assert_eq!(div_round(big, 1), big);
    assert_eq!(div_round(-big, 1), -big);
    assert_eq!(div_round(big, big), 1);
    assert_eq!(div_round(big - 1, big), 1);
    assert_eq!(div_round(big / 2 - 1, big), 0);
    assert_eq!(div_round(-big / 2, big), 0);
    assert_eq!(div_round(-big / 2 - 1, big), -1);
}

#[test]
fn div_trunc_drops_the_fraction() {
    assert_eq!(div_trunc(7, 2), 3);
    assert_eq!(div_trunc(-7, 2), -3);
    assert_eq!(div_trunc(6, 3), 2);
    assert_eq!(div_trunc(-6, 3), -2);
    assert_eq!(div_trunc(0, 9), 0);
    assert_eq!(div_trunc(-1, 9), 0);
    assert_eq!(div_trunc(i64::MIN, 1), i64::MIN);
    assert_eq!(div_trunc(i64::MAX, 1), i64::MAX);
    assert_eq!(div_trunc(i64::MIN, i64::MAX), -1);
}

#[test]
fn mul_wide_splits_at_64_bits() {
    assert_eq!(mul_wide(0, 12345), (0, 0));
    assert_eq!(mul_wide(3, 5), (0, 15));
    assert_eq!(mul_wide(1 << 32, 1 << 32), (1, 0));
    assert_eq!(mul_wide(1 << 40, 1 << 40), (1 << 16, 0));
    let m: u128 = (1 << 66) - 1;
    let (high, low) = mul_wide(m, m);
    // (2^66 - 1)^2 = 2^132 - 2^67 + 1
    assert_eq!(low, 1);
    assert_eq!(high, (1u128 << 68) - 8);
    let (h, l) = mul_wide(u64::MAX as u128, u64::MAX as u128);
    assert_eq!((h << 64) | l, (u64::MAX as u128) * (u64::MAX as u128));
}

#[test]
fn product_lt_compares_beyond_128_bits() {
    let m: u128 = (1 << 66) - 1;
    assert!(product_lt(m - 1, m, m, m));
    assert!(!product_lt(m, m, m, m));
    assert!(!product_lt(m, m, m - 1, m));
    assert!(product_lt(m, m - 2, m - 1, m - 1));
    assert!(product_lt(0, m, 1, 1));
    assert!(!product_lt(2, 3, 3, 2));
    assert!(product_lt(2, 3, 7, 1));
}

#[test]
fn fraction_lt_orders_fractions_of_either_sign() {
    assert!(fraction_lt(1, 3, 1, 2));
    assert!(!fraction_lt(1, 2, 1, 3));
    assert!(!fraction_lt(2, 4, 1, 2));
    assert!(fraction_lt(-1, 2, 1, 3));
    assert!(!fraction_lt(1, 3, -1, 2));
    assert!(fraction_lt(-1, 2, -1, 3));
    assert!(!fraction_lt(-1, 3, -1, 2));
    assert!(fraction_lt(-1, 3, 0, 5));
    assert!(!fraction_lt(0, 5, 0, 7));
    let m: i128 = (1 << 66) - 1;
    assert!(fraction_lt(m - 1, m, m, m));
    assert!(fraction_lt(-m, m, -(m - 1), m));
    assert!(fraction_lt(m, m - 1, m - 1, m - 2));
    assert!(!fraction_lt(m - 1, m - 2, m, m - 1));
}
