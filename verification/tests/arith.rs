use num::BigInt;
use secret_sharing_algos::arith::{gcd, modpow};
use secret_sharing_algos::error::SharingError;
use secret_sharing_algos::poly::calc_y;

fn big(v: i64) -> BigInt {
    BigInt::from(v)
}

#[test]
fn gcd_of_two_positive_integers() {
    assert_eq!(gcd(&big(12), &big(18)), big(6));
    assert_eq!(gcd(&big(18), &big(12)), big(6));
    assert_eq!(gcd(&big(17), &big(5)), big(1));
    assert_eq!(gcd(&big(997), &big(996)), big(1));
}

#[test]
fn gcd_with_a_zero_operand() {
    assert_eq!(gcd(&big(0), &big(5)), big(5));
    assert_eq!(gcd(&big(5), &big(0)), big(5));
    assert_eq!(gcd(&big(0), &big(0)), big(0));
}

#[test]
fn gcd_sign_follows_the_remainders() {
    assert_eq!(gcd(&big(-4), &big(0)), big(-4));
    assert_eq!(gcd(&big(4), &big(-6)), big(-2));
    assert_eq!(gcd(&big(-12), &big(18)), big(6));
    assert_eq!(gcd(&big(-12), &big(-18)), big(-6));
}

#[test]
fn gcd_of_integers_beyond_machine_words() {
    let a = "123456789012345678901234567890".parse::<BigInt>().unwrap();
    let b = "987654321098765432109876543210".parse::<BigInt>().unwrap();
    let expected = "9000000000900000000090".parse::<BigInt>().unwrap();
    assert_eq!(gcd(&a, &b), expected);
}

#[test]
fn modpow_small_values() {
    assert_eq!(modpow(&big(2), &big(10), &big(997)), Ok(big(27)));
    assert_eq!(modpow(&big(2), &big(65), &big(997)), Ok(big(925)));
    assert_eq!(modpow(&big(2), &big(500), &big(997)), Ok(big(993)));
    assert_eq!(modpow(&big(3), &big(1), &big(7)), Ok(big(3)));
    assert_eq!(modpow(&big(0), &big(5), &big(7)), Ok(big(0)));
}

#[test]
fn modpow_reduces_the_base_first() {
    assert_eq!(modpow(&big(1000), &big(3), &big(997)), Ok(big(27)));
    assert_eq!(modpow(&big(997), &big(2), &big(997)), Ok(big(0)));
}

#[test]
fn modpow_exponent_zero_is_one() {
    assert_eq!(modpow(&big(5), &big(0), &big(7)), Ok(big(1)));
    assert_eq!(modpow(&big(0), &big(0), &big(7)), Ok(big(1)));
    assert_eq!(modpow(&big(5), &big(0), &big(1)), Ok(big(1)));
}

#[test]
fn modpow_modulus_one() {
    assert_eq!(modpow(&big(5), &big(3), &big(1)), Ok(big(0)));
}

#[test]
fn modpow_rejects_a_modulus_that_is_not_positive() {
    assert_eq!(modpow(&big(2), &big(3), &big(0)), Err(SharingError::DomainError));
    assert_eq!(modpow(&big(2), &big(3), &big(-7)), Err(SharingError::DomainError));
    assert_eq!(modpow(&big(2), &big(0), &big(0)), Err(SharingError::DomainError));
}

#[test]
fn modpow_negative_base_keeps_the_sign_of_the_power() {
    assert_eq!(modpow(&big(-2), &big(3), &big(5)), Ok(big(-3)));
    assert_eq!(modpow(&big(-2), &big(2), &big(5)), Ok(big(4)));
    assert_eq!(modpow(&big(-5), &big(3), &big(5)), Ok(big(0)));
}

#[test]
fn modpow_of_a_large_exponent() {
    // Fermat: 2^(p-1) = 1 modulo the prime p = 2^61 - 1.
    let p = big(2305843009213693951);
    let e = big(2305843009213693950);
    assert_eq!(modpow(&big(2), &e, &p), Ok(big(1)));
    let wide = "340282366920938463463374607431768211507".parse::<BigInt>().unwrap();
    assert_eq!(modpow(&big(2), &big(128), &wide), Ok("340282366920938463463374607431768211456".parse::<BigInt>().unwrap()));
}

#[test]
fn calc_y_sums_the_powers() {
    assert_eq!(calc_y(&big(4), &vec![big(65), big(3)]), big(77));
    assert_eq!(calc_y(&big(2), &vec![big(1), big(2), big(3)]), big(17));
    assert_eq!(calc_y(&big(3), &vec![big(65), big(2), big(1)]), big(80));
    assert_eq!(calc_y(&big(0), &vec![big(65), big(2), big(1)]), big(65));
    assert_eq!(calc_y(&big(-2), &vec![big(1), big(1), big(1), big(1)]), big(-5));
}

#[test]
fn calc_y_of_no_coefficients_is_zero() {
    assert_eq!(calc_y(&big(9), &Vec::new()), big(0));
}

#[test]
fn calc_y_is_not_reduced() {
    assert_eq!(calc_y(&big(4), &vec![big(65), big(500)]), big(2065));
    let x = big(50);
    let poly = vec![big(1); 40];
    let expected = "1856111636271282118193957270408163265306122448979591836734693877551".parse::<BigInt>().unwrap();
    assert_eq!(calc_y(&x, &poly), expected);
}
