use color::bignat::BigNat;
use color::fixed::{div_floor, Fixed};
use color::root::bounded_root;

const ONE: i64 = 4294967296;
const MAX: i64 = 0x7FFF_FFFF_FFFF;

#[test]
fn from_ratio_rounds_to_nearest() {
    assert_eq!(Fixed::from_ratio(1, 2).raw(), 2147483648);
    assert_eq!(Fixed::from_ratio(1, 1).raw(), ONE);
    assert_eq!(Fixed::from_ratio(128, 255).raw(), 2155905153);
    assert_eq!(Fixed::from_ratio(95047, 100000).raw(), 4082237566);
    assert_eq!(Fixed::from_ratio(-1, 2).raw(), -2147483648);
    assert_eq!(Fixed::from_ratio(0, 7).raw(), 0);
}

#[test]
fn from_ratio_saturates() {
    assert_eq!(Fixed::from_ratio(40000, 1).raw(), MAX);
    assert_eq!(Fixed::from_ratio(-40000, 1).raw(), -MAX);
    assert_eq!(Fixed::from_ratio(32767, 1).raw(), 32767 * ONE);
}

#[test]
fn from_raw_saturates_at_both_ends() {
    assert_eq!(Fixed::from_raw(i64::MAX).raw(), MAX);
    assert_eq!(Fixed::from_raw(i64::MIN).raw(), -MAX);
    assert_eq!(Fixed::from_raw(MAX).raw(), MAX);
    assert_eq!(Fixed::from_raw(-MAX).raw(), -MAX);
    assert_eq!(Fixed::from_raw(-5).raw(), -5);
    assert_eq!(Fixed::from_wide(1i128 << 100).raw(), MAX);
    assert_eq!(Fixed::from_wide(-(1i128 << 100)).raw(), -MAX);
    assert_eq!(Fixed::from_wide(12345).raw(), 12345);
}

#[test]
fn zero_and_one() {
    assert_eq!(Fixed::zero().raw(), 0);
    assert_eq!(Fixed::one().raw(), ONE);
    assert_eq!(Fixed::one(), Fixed::from_ratio(3, 3));
}

#[test]
fn add_saturates() {
    let a = Fixed::from_ratio(3, 2);
    let b = Fixed::from_ratio(-1, 4);
    assert_eq!(a.add(b).raw(), 5 * ONE / 4);
    let big = Fixed::from_ratio(30000, 1);
    assert_eq!(big.add(big).raw(), MAX);
    let small = Fixed::from_ratio(-30000, 1);
    assert_eq!(small.add(small).raw(), -MAX);
}

#[test]
fn mul_rounds_down() {
    let half = Fixed::from_ratio(1, 2);
    assert_eq!(half.mul(half).raw(), ONE / 4);
    // 3 raw units times one half is 1.5 raw units: down to 1, and to -2
    assert_eq!(Fixed::from_raw(3).mul(half).raw(), 1);
    assert_eq!(Fixed::from_raw(-3).mul(half).raw(), -2);
    let big = Fixed::from_ratio(30000, 1);
    assert_eq!(big.mul(big).raw(), MAX);
    assert_eq!(big.mul(Fixed::from_ratio(-30000, 1)).raw(), -MAX);
}

#[test]
fn div_floor_rounds_towards_minus_infinity() {
    assert_eq!(div_floor(7, 2), 3);
    assert_eq!(div_floor(-7, 2), -4);
    assert_eq!(div_floor(-8, 2), -4);
    assert_eq!(div_floor(0, 5), 0);
    assert_eq!(div_floor(-1, 1000), -1);
}

#[test]
fn big_naturals_multiply_and_compare() {
    let a = BigNat::from_u64(u64::MAX).mul_u64(u64::MAX);
    // (2^64 - 1)^2 = 2^128 - 2^65 + 1
    let b = BigNat::from_u128(u128::MAX - (1u128 << 65) + 2);
    assert!(a.le(&b));
    assert!(b.le(&a));
    let c = b.mul_u64(1);
    assert!(c.le(&a));
    let d = a.mul_u64(2);
    assert!(a.le(&d));
    assert!(!d.le(&a));
    let zero = a.mul_u64(0);
    assert!(zero.le(&BigNat::from_u64(0)));
    assert!(BigNat::from_u64(0).le(&zero));
}

#[test]
fn big_natural_powers() {
    // 3^40 = 12157665459056928801
    let p = BigNat::from_u64(1).mul_pow(3, 40);
    assert!(p.le(&BigNat::from_u64(12157665459056928801)));
    assert!(BigNat::from_u64(12157665459056928801).le(&p));
    // 10^30 > 2^99, 10^30 < 2^100
    let q = BigNat::from_u64(1).mul_pow(10, 30);
    assert!(BigNat::from_u128(1u128 << 99).le(&q));
    assert!(q.le(&BigNat::from_u128(1u128 << 100)));
    let r = BigNat::from_u64(5).mul_pow(7, 0);
    assert!(r.le(&BigNat::from_u64(5)) && BigNat::from_u64(5).le(&r));
}

#[test]
fn roots_round_down() {
    let one = BigNat::from_u64(1);
    assert_eq!(bounded_root(&BigNat::from_u64(16), &one, 2, 1000), 4);
    assert_eq!(bounded_root(&BigNat::from_u64(17), &one, 2, 1000), 4);
    assert_eq!(bounded_root(&BigNat::from_u64(24), &one, 2, 1000), 4);
    assert_eq!(bounded_root(&BigNat::from_u64(25), &one, 2, 1000), 5);
    assert_eq!(bounded_root(&BigNat::from_u64(26), &one, 3, 1000), 2);
    assert_eq!(bounded_root(&BigNat::from_u64(27), &one, 3, 1000), 3);
    assert_eq!(bounded_root(&BigNat::from_u64(0), &one, 5, 1000), 0);
    // the square root of 2 * 10^36 over 10^18
    let num = BigNat::from_u64(2).mul_pow(10, 36);
    assert_eq!(bounded_root(&num, &one, 2, u64::MAX - 1), 1414213562373095048);
}

#[test]
fn roots_of_ratios_and_the_cap() {
    // the cube root of 1000 / 8 is 5; of 999 / 8, a little under
    let den = BigNat::from_u64(8);
    assert_eq!(bounded_root(&BigNat::from_u64(1000), &den, 3, 100), 5);
    assert_eq!(bounded_root(&BigNat::from_u64(999), &den, 3, 100), 4);
    // the first root is the quotient rounded down
    assert_eq!(bounded_root(&BigNat::from_u64(1000), &BigNat::from_u64(7), 1, 1000), 142);
    // capped
    assert_eq!(bounded_root(&BigNat::from_u64(1000), &BigNat::from_u64(7), 1, 100), 100);
    assert_eq!(bounded_root(&BigNat::from_u64(1000), &BigNat::from_u64(7), 1, 142), 142);
    assert_eq!(bounded_root(&BigNat::from_u64(1000), &BigNat::from_u64(7), 1, 0), 0);
}
