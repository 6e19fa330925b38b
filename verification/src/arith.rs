//! Greatest common divisor and modular exponentiation.

use vstd::prelude::*;
use vstd::arithmetic::div_mod::*;
use vstd::arithmetic::mul::*;
use vstd::arithmetic::power::*;
use num::BigInt;
use crate::bigint::{
    big_div, big_eq, big_from_u64, big_lt, big_mul, big_rem, trunc_div, trunc_rem, val,
};
use crate::error::SharingError;

verus! {

/// The absolute value of `a`.
pub open spec fn abs(a: int) -> int {
    if a < 0 {
        -a
    } else {
        a
    }
}

/// `d` is a positive divisor of `a`.
pub open spec fn divides(d: int, a: int) -> bool {
    d > 0 && a % d == 0
}

/// `g` is the greatest common divisor of `a` and `b`: the largest positive
/// integer that divides both, and zero where both are zero.
pub open spec fn is_gcd(g: int, a: int, b: int) -> bool {
    if a == 0 && b == 0 {
        g == 0
    } else {
        &&& divides(g, a)
        &&& divides(g, b)
        &&& forall|d: int|
            #![trigger divides(d, a), divides(d, b)]
            divides(d, a) && divides(d, b) ==> d <= g
    }
}

/// What Euclid's algorithm arrives at when each step takes the remainder of
/// the division rounded towards zero. Its absolute value is the greatest
/// common divisor; its sign depends on the signs met on the way.
pub open spec fn euclid(a: int, b: int) -> int
    decreases abs(b),
{
    if b == 0 {
        a
    } else {
        euclid(b, trunc_rem(a, b))
    }
}

/// Division rounded towards zero leaves a remainder that is smaller than the
/// divisor in absolute value and has the sign of the dividend.
pub proof fn lemma_trunc_div_rem(a: int, b: int)
    requires
        b != 0,
    ensures
        a == b * trunc_div(a, b) + trunc_rem(a, b),
        abs(trunc_rem(a, b)) < abs(b),
        a >= 0 ==> trunc_rem(a, b) >= 0,
        a <= 0 ==> trunc_rem(a, b) <= 0,
{
    let aa = abs(a);
    let bb = abs(b);
    lemma_fundamental_div_mod(aa, bb);
    lemma_mod_bound(aa, bb);
    assert(a == b * trunc_div(a, b) + trunc_rem(a, b)) by (nonlinear_arith)
        requires
            aa == bb * (aa / bb) + (aa % bb),
            aa == abs(a),
            bb == abs(b),
            b != 0,
            trunc_div(a, b) == (if (a >= 0) == (b > 0) {
                aa / bb
            } else {
                -(aa / bb)
            }),
            trunc_rem(a, b) == (if a >= 0 {
                aa % bb
            } else {
                -(aa % bb)
            }),
    ;
}

/// A positive `d` that divides `x` and `y` divides `x * k + y`.
pub proof fn lemma_divides_combination(d: int, x: int, k: int, y: int)
    requires
        divides(d, x),
        divides(d, y),
    ensures
        divides(d, x * k + y),
{
    lemma_mul_mod_noop_left(x, k, d);
    lemma_add_mod_noop(x * k, y, d);
    lemma_small_mod(0, d as nat);
    assert((x % d) * k == 0) by (nonlinear_arith)
        requires
            x % d == 0,
    ;
}

/// A step of Euclid's algorithm keeps the common divisors.
proof fn lemma_euclid_step(a: int, b: int, d: int)
    requires
        b != 0,
    ensures
        (divides(d, a) && divides(d, b)) <==> (divides(d, b) && divides(d, trunc_rem(a, b))),
{
    lemma_trunc_div_rem(a, b);
    let q = trunc_div(a, b);
    let r = trunc_rem(a, b);
    if divides(d, b) && divides(d, r) {
        lemma_divides_combination(d, b, q, r);
    }
    if divides(d, a) && divides(d, b) {
        lemma_divides_combination(d, b, -q, a);
        assert(b * (-q) + a == r) by (nonlinear_arith)
            requires
                a == b * q + r,
        ;
    }
}

/// The common divisors of `a` and `b` are the divisors of `euclid(a, b)`.
proof fn lemma_euclid_divisors(a: int, b: int, d: int)
    ensures
        (divides(d, a) && divides(d, b)) <==> divides(d, euclid(a, b)),
    decreases abs(b),
{
    if b == 0 {
        if d > 0 {
            lemma_mod_multiples_basic(0, d);
        }
    } else {
        lemma_trunc_div_rem(a, b);
        lemma_euclid_step(a, b, d);
        lemma_euclid_divisors(b, trunc_rem(a, b), d);
    }
}

/// Euclid's algorithm gives zero only for two zeros.
proof fn lemma_euclid_zero(a: int, b: int)
    ensures
        euclid(a, b) == 0 <==> (a == 0 && b == 0),
    decreases abs(b),
{
    if b != 0 {
        lemma_trunc_div_rem(a, b);
        lemma_euclid_zero(b, trunc_rem(a, b));
    }
}

/// Euclid's algorithm on two integers that are not negative gives one that is
/// not negative.
proof fn lemma_euclid_sign(a: int, b: int)
    requires
        a >= 0,
        b >= 0,
    ensures
        euclid(a, b) >= 0,
    decreases abs(b),
{
    if b != 0 {
        lemma_trunc_div_rem(a, b);
        lemma_euclid_sign(b, trunc_rem(a, b));
    }
}

/// A positive integer divides itself, and nothing larger divides it.
proof fn lemma_divisor_bound(d: int, g: int)
    requires
        g > 0,
        divides(d, g),
    ensures
        d <= g,
        divides(g, g),
        divides(g, -g),
{
    if d > g {
        lemma_small_mod(g as nat, d as nat);
    }
    lemma_mod_self_0(g);
    lemma_mod_multiples_basic(-1, g);
}

/// The absolute value of what Euclid's algorithm arrives at is the greatest
/// common divisor.
pub proof fn lemma_euclid_is_gcd(a: int, b: int)
    ensures
        is_gcd(abs(euclid(a, b)), a, b),
        a >= 0 && b >= 0 ==> euclid(a, b) >= 0,
{
    let e = euclid(a, b);
    let g = abs(e);
    lemma_euclid_zero(a, b);
    if a >= 0 && b >= 0 {
        lemma_euclid_sign(a, b);
    }
    if !(a == 0 && b == 0) {
        lemma_divisor_bound(g, g);
        lemma_divides_negation(g, e);
        lemma_euclid_divisors(a, b, g);
        assert forall|d: int|
            #![trigger divides(d, a), divides(d, b)]
            divides(d, a) && divides(d, b) implies d <= g by {
            lemma_euclid_divisors(a, b, d);
            lemma_divides_negation(d, e);
            lemma_divisor_bound(d, g);
        }
    }
}

/// What divides an integer divides its negation.
pub proof fn lemma_divides_negation(d: int, a: int)
    ensures
        divides(d, a) <==> divides(d, -a),
{
    if d > 0 {
        if divides(d, a) {
            lemma_divides_combination(d, a, -1, 0);
            lemma_mod_multiples_basic(0, d);
        }
        if divides(d, -a) {
            lemma_divides_combination(d, -a, -1, 0);
            lemma_mod_multiples_basic(0, d);
        }
    }
}

/// The greatest common divisor of `a` and `b` by Euclid's algorithm, with the
/// sign that the algorithm arrives at: not negative where neither `a` nor `b`
/// is.
pub fn gcd(a: &BigInt, b: &BigInt) -> (g: BigInt)
    ensures
        val(&g) == euclid(val(a), val(b)),
        is_gcd(abs(val(&g)), val(a), val(b)),
        val(a) >= 0 && val(b) >= 0 ==> val(&g) >= 0,
{
    let zero = big_from_u64(0);
    let mut x = a.clone();
    let mut y = b.clone();
    while !big_eq(&y, &zero)
        invariant
            val(&zero) == 0,
            euclid(val(&x), val(&y)) == euclid(val(a), val(b)),
        decreases abs(val(&y)),
    {
        proof {
            lemma_trunc_div_rem(val(&x), val(&y));
        }
        let r = big_rem(&x, &y);
        x = y;
        y = r;
    }
    proof {
        lemma_euclid_is_gcd(val(a), val(b));
    }
    x
}

/// A power of an integer that is not negative is not negative.
pub proof fn lemma_pow_nonnegative(x: int, n: nat)
    requires
        x >= 0,
    ensures
        pow(x, n) >= 0,
    decreases n,
{
    reveal(pow);
    if n > 0 {
        lemma_pow_nonnegative(x, (n - 1) as nat);
        assert(x * pow(x, (n - 1) as nat) >= 0) by (nonlinear_arith)
            requires
                x >= 0,
                pow(x, (n - 1) as nat) >= 0,
        ;
    }
}

/// `base` to the power `exp`, reduced by `modulus` as division rounded
/// towards zero reduces it; `1` for the exponent zero, whatever the modulus.
pub open spec fn modpow_spec(base: int, exp: int, modulus: int) -> int {
    if exp <= 0 {
        1
    } else {
        trunc_rem(pow(base, exp as nat), modulus)
    }
}

/// For a dividend that is not negative and a positive divisor, the remainder
/// of the division rounded towards zero is the ordinary one.
pub proof fn lemma_trunc_rem_nonnegative(a: int, m: int)
    requires
        a >= 0,
        m > 0,
    ensures
        trunc_rem(a, m) == a % m,
        0 <= trunc_rem(a, m) < m,
{
    lemma_mod_bound(a, m);
}

/// The remainder of `a` is the one integer that differs from `a` by a
/// multiple of `m`, is smaller than `m` in absolute value, and is not of the
/// opposite sign.
proof fn lemma_trunc_rem_unique(a: int, m: int, r: int)
    requires
        m > 0,
        (a - r) % m == 0,
        abs(r) < m,
        a >= 0 ==> r >= 0,
        a <= 0 ==> r <= 0,
    ensures
        r == trunc_rem(a, m),
{
    if a >= 0 {
        lemma_mod_equivalence(a, r, m);
        lemma_small_mod(r as nat, m as nat);
    } else {
        lemma_divides_negation(m, a - r);
        lemma_mod_equivalence(-a, -r, m);
        lemma_small_mod((-r) as nat, m as nat);
    }
}

/// An integer and its remainder differ by a multiple of the divisor.
proof fn lemma_trunc_rem_congruent(a: int, m: int)
    requires
        m > 0,
    ensures
        (a - trunc_rem(a, m)) % m == 0,
{
    lemma_trunc_div_rem(a, m);
    lemma_mod_multiples_basic(trunc_div(a, m), m);
    assert(a - trunc_rem(a, m) == trunc_div(a, m) * m) by (nonlinear_arith)
        requires
            a == m * trunc_div(a, m) + trunc_rem(a, m),
    ;
}

/// Reducing a factor first does not change the remainder of a product.
pub proof fn lemma_trunc_rem_mul_left(a: int, b: int, m: int)
    requires
        m > 0,
    ensures
        trunc_rem(trunc_rem(a, m) * b, m) == trunc_rem(a * b, m),
{
    let t = trunc_rem(a, m);
    let r = trunc_rem(t * b, m);
    lemma_trunc_div_rem(a, m);
    lemma_trunc_div_rem(t * b, m);
    lemma_trunc_rem_congruent(a, m);
    lemma_trunc_rem_congruent(t * b, m);
    lemma_divides_combination(m, a - t, b, t * b - r);
    assert((a - t) * b + (t * b - r) == a * b - r) by (nonlinear_arith);
    assert(a * b >= 0 ==> t * b >= 0) by (nonlinear_arith)
        requires
            a >= 0 ==> t >= 0,
            a <= 0 ==> t <= 0,
    ;
    assert(a * b <= 0 ==> t * b <= 0) by (nonlinear_arith)
        requires
            a >= 0 ==> t >= 0,
            a <= 0 ==> t <= 0,
    ;
    lemma_trunc_rem_unique(a * b, m, r);
}

/// Reducing the other factor first does not change it either.
pub proof fn lemma_trunc_rem_mul_right(a: int, b: int, m: int)
    requires
        m > 0,
    ensures
        trunc_rem(a * trunc_rem(b, m), m) == trunc_rem(a * b, m),
{
    lemma_trunc_rem_mul_left(b, a, m);
    lemma_mul_is_commutative(a, b);
    lemma_mul_is_commutative(a, trunc_rem(b, m));
}

/// A remainder is its own remainder.
pub proof fn lemma_trunc_rem_idempotent(a: int, m: int)
    requires
        m > 0,
    ensures
        trunc_rem(trunc_rem(a, m), m) == trunc_rem(a, m),
{
    lemma_trunc_rem_mul_left(a, 1, m);
    lemma_mul_basics(a);
    lemma_mul_basics(trunc_rem(a, m));
}

/// Reducing the base first does not change the remainder of a power.
pub proof fn lemma_trunc_rem_pow(a: int, n: nat, m: int)
    requires
        m > 0,
    ensures
        trunc_rem(pow(trunc_rem(a, m), n), m) == trunc_rem(pow(a, n), m),
    decreases n,
{
    let t = trunc_rem(a, m);
    reveal(pow);
    if n > 0 {
        let k = (n - 1) as nat;
        lemma_trunc_rem_pow(a, k, m);
        lemma_trunc_rem_mul_right(t, pow(t, k), m);
        lemma_trunc_rem_mul_left(a, pow(a, k), m);
        lemma_trunc_rem_mul_right(t, pow(a, k), m);
    }
}

/// One round of square-and-multiply: with `e == 2 * h + bit`, moving the low
/// bit of the exponent into the accumulator and squaring the base leaves the
/// remainder of `acc * base^e` as it was.
proof fn lemma_modpow_step(acc: int, base: int, e: nat, h: nat, bit: nat, m: int)
    requires
        m > 0,
        e == 2 * h + bit,
        bit <= 1,
    ensures
        trunc_rem(
            (if bit == 1 {
                trunc_rem(acc * base, m)
            } else {
                acc
            }) * pow(trunc_rem(base * base, m), h),
            m,
        ) == trunc_rem(acc * pow(base, e), m),
{
    let sq = base * base;
    let acc1 = if bit == 1 {
        trunc_rem(acc * base, m)
    } else {
        acc
    };
    // base^e == sq^h * base^bit
    lemma_square_is_pow2(base);
    lemma_pow_multiplies(base, 2, h);
    lemma_pow_adds(base, 2 * h, bit);
    lemma_pow0(base);
    lemma_pow1(base);
    assert(pow(base, e) == pow(sq, h) * pow(base, bit));
    // the squared base may be reduced
    lemma_trunc_rem_mul_right(acc1, pow(trunc_rem(sq, m), h), m);
    lemma_trunc_rem_pow(sq, h, m);
    lemma_trunc_rem_mul_right(acc1, pow(sq, h), m);
    assert(trunc_rem(acc1 * pow(trunc_rem(sq, m), h), m) == trunc_rem(acc1 * pow(sq, h), m));
    if bit == 1 {
        lemma_trunc_rem_mul_left(acc * base, pow(sq, h), m);
        assert((acc * base) * pow(sq, h) == acc * pow(base, e)) by (nonlinear_arith)
            requires
                pow(base, e) == pow(sq, h) * base,
        ;
    } else {
        assert(acc * pow(sq, h) == acc * pow(base, e)) by (nonlinear_arith)
            requires
                pow(base, e) == pow(sq, h) * 1,
        ;
    }
}

/// `base` to the power `exp` modulo `modulus`, by squaring and multiplying.
///
/// Fails with `DomainError` where the modulus is not positive. The remainder
/// is that of the division rounded towards zero: a negative base can give a
/// negative result.
pub fn modpow(base: &BigInt, exp: &BigInt, modulus: &BigInt) -> (r: Result<BigInt, SharingError>)
    requires
        val(exp) >= 0,
    ensures
        val(modulus) <= 0 <==> r == Err::<BigInt, SharingError>(SharingError::DomainError),
        val(modulus) > 0 ==> r.is_ok() && val(&r.unwrap()) == modpow_spec(
            val(base),
            val(exp),
            val(modulus),
        ),
        val(modulus) > 0 && val(base) >= 0 && val(exp) > 0 ==> val(&r.unwrap()) == pow(
            val(base),
            val(exp) as nat,
        ) % val(modulus),
{
    let zero = big_from_u64(0);
    let one = big_from_u64(1);
    let two = big_from_u64(2);
    if !big_lt(&zero, modulus) {
        return Err(SharingError::DomainError);
    }
    let ghost m = val(modulus);
    let ghost b = val(base);
    let ghost e = val(exp);
    let mut result = one.clone();
    let mut cur = big_rem(base, modulus);
    let mut rest = exp.clone();
    proof {
        lemma_trunc_rem_pow(b, e as nat, m);
        lemma_mul_basics(pow(val(&cur), e as nat));
    }
    while big_lt(&zero, &rest)
        invariant
            val(&zero) == 0,
            val(&one) == 1,
            val(&two) == 2,
            m == val(modulus),
            m > 0,
            0 <= val(&rest) <= e,
            e == 0 ==> val(&result) == 1,
            e > 0 && val(&rest) == 0 ==> trunc_rem(val(&result), m) == val(&result),
            trunc_rem(val(&result) * pow(val(&cur), val(&rest) as nat), m) == trunc_rem(
                pow(b, e as nat),
                m,
            ),
        decreases val(&rest),
    {
        let ghost acc = val(&result);
        let ghost c = val(&cur);
        let ghost ex = val(&rest);
        let bit = big_rem(&rest, &two);
        let half = big_div(&rest, &two);
        proof {
            lemma_trunc_div_rem(ex, 2);
            lemma_modpow_step(acc, c, ex as nat, val(&half) as nat, val(&bit) as nat, m);
            lemma_trunc_rem_idempotent(acc * c, m);
        }
        if big_eq(&bit, &one) {
            let product = big_mul(&result, &cur);
            result = big_rem(&product, modulus);
        }
        let square = big_mul(&cur, &cur);
        cur = big_rem(&square, modulus);
        rest = half;
    }
    proof {
        lemma_pow0(val(&cur));
        lemma_mul_basics(val(&result));
        if b >= 0 {
            lemma_pow_nonnegative(b, e as nat);
        }
    }
    Ok(result)
}

} // verus!
