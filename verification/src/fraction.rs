//! Exact rational numbers in lowest terms.

use vstd::prelude::*;
use vstd::arithmetic::div_mod::{
    lemma_div_multiples_vanish, lemma_fundamental_div_mod, lemma_mod_multiples_basic,
    lemma_small_mod,
};
use num::BigInt;
use crate::arith::{
    abs, divides, euclid, gcd, is_gcd, lemma_divides_negation, lemma_trunc_div_rem,
};
use crate::bigint::{
    big_add, big_div, big_eq, big_from_u64, big_lt, big_mul, big_sub, trunc_div, val,
};
use crate::error::SharingError;

verus! {

/// The rational number `n / d`.
pub open spec fn ratio(n: int, d: int) -> real
    recommends
        d != 0,
{
    (n as real) / (d as real)
}

/// The integer `s` as a rational number.
pub open spec fn whole(s: int) -> real {
    s as real
}

/// `v` is a whole number.
pub open spec fn is_integer(v: real) -> bool {
    exists|s: int| #[trigger] whole(s) == v
}

/// Fractions that are equal by cross-multiplication are the same rational.
pub proof fn lemma_ratio_equal(n1: int, d1: int, n2: int, d2: int)
    requires
        d1 != 0,
        d2 != 0,
    ensures
        n1 * d2 == n2 * d1 <==> ratio(n1, d1) == ratio(n2, d2),
{
    assert((n1 * d2) as real == (n1 as real) * (d2 as real)) by (nonlinear_arith);
    assert((n2 * d1) as real == (n2 as real) * (d1 as real)) by (nonlinear_arith);
    assert((n1 as real) * (d2 as real) == (n2 as real) * (d1 as real) <==> ratio(n1, d1) == ratio(
        n2,
        d2,
    )) by (nonlinear_arith)
        requires
            d1 != 0,
            d2 != 0,
    ;
}

/// The sum of two fractions, over the product of the denominators.
pub proof fn lemma_ratio_add(n1: int, d1: int, n2: int, d2: int)
    requires
        d1 != 0,
        d2 != 0,
    ensures
        d1 * d2 != 0,
        ratio(n1, d1) + ratio(n2, d2) == ratio(n1 * d2 + n2 * d1, d1 * d2),
{
    assert(d1 * d2 != 0) by (nonlinear_arith)
        requires
            d1 != 0,
            d2 != 0,
    ;
    assert((n1 * d2 + n2 * d1) as real == (n1 as real) * (d2 as real) + (n2 as real) * (
    d1 as real)) by (nonlinear_arith);
    assert((d1 * d2) as real == (d1 as real) * (d2 as real)) by (nonlinear_arith);
    let a = n1 as real;
    let b = d1 as real;
    let c = n2 as real;
    let d = d2 as real;
    assert(a / b + c / d == (a * d + c * b) / (b * d)) by (nonlinear_arith)
        requires
            b != 0real,
            d != 0real,
    ;
}

/// The product of two fractions.
pub proof fn lemma_ratio_mul(n1: int, d1: int, n2: int, d2: int)
    requires
        d1 != 0,
        d2 != 0,
    ensures
        d1 * d2 != 0,
        ratio(n1, d1) * ratio(n2, d2) == ratio(n1 * n2, d1 * d2),
{
    assert(d1 * d2 != 0) by (nonlinear_arith)
        requires
            d1 != 0,
            d2 != 0,
    ;
    assert((n1 * n2) as real == (n1 as real) * (n2 as real)) by (nonlinear_arith);
    assert((d1 * d2) as real == (d1 as real) * (d2 as real)) by (nonlinear_arith);
    let a = n1 as real;
    let b = d1 as real;
    let c = n2 as real;
    let d = d2 as real;
    assert((a / b) * (c / d) == (a * c) / (b * d)) by (nonlinear_arith)
        requires
            b != 0real,
            d != 0real,
    ;
}

/// A quotient of integers that is a whole number `s` has `n == s * d`.
proof fn lemma_whole_quotient(n: int, d: int, s: int)
    requires
        d != 0,
        ratio(n, d) == whole(s),
    ensures
        n == s * d,
{
    assert((s * d) as real == (s as real) * (d as real)) by (nonlinear_arith);
    assert((n as real) == (s as real) * (d as real)) by (nonlinear_arith)
        requires
            (n as real) / (d as real) == s as real,
            d != 0,
    ;
}

/// A fraction in lowest terms with a positive denominator is a whole number
/// exactly where the denominator is one, and then it is the numerator.
pub proof fn lemma_reduced_integer(n: int, d: int)
    requires
        d > 0,
        is_gcd(1, n, d),
    ensures
        is_integer(ratio(n, d)) <==> d == 1,
        d == 1 ==> ratio(n, d) == whole(n),
{
    let v = ratio(n, d);
    if is_integer(v) {
        let s = choose|s: int| #[trigger] whole(s) == v;
        lemma_whole_quotient(n, d, s);
        lemma_mod_multiples_basic(s, d);
        lemma_mod_multiples_basic(1, d);
        assert(divides(d, n) && divides(d, d));
    }
    if d == 1 {
        assert(v == n as real) by (nonlinear_arith)
            requires
                v == (n as real) / (d as real),
                d == 1,
        ;
        assert(whole(n) == v);
    }
}

/// Dividing two integers by their greatest common divisor, either sign of it,
/// leaves two integers whose greatest common divisor is one.
proof fn lemma_reduce(n: int, d: int, g: int)
    requires
        d != 0,
        is_gcd(abs(g), n, d),
    ensures
        g != 0,
        n == g * trunc_div(n, g),
        d == g * trunc_div(d, g),
        trunc_div(d, g) != 0,
        is_gcd(1, trunc_div(n, g), trunc_div(d, g)),
        is_gcd(1, -trunc_div(n, g), -trunc_div(d, g)),
{
    let m = abs(g);
    let n1 = trunc_div(n, g);
    let d1 = trunc_div(d, g);
    lemma_exact_quotient(n, g);
    lemma_exact_quotient(d, g);
    assert(d1 != 0) by (nonlinear_arith)
        requires
            d == g * d1,
            d != 0,
    ;
    assert forall|e: int|
        #![trigger divides(e, n1), divides(e, d1)]
        divides(e, n1) && divides(e, d1) implies e <= 1 by {
        lemma_scaled_divisor(e, n1, g, n);
        lemma_scaled_divisor(e, d1, g, d);
        assert(divides(e * m, n) && divides(e * m, d));
        assert(e <= 1) by (nonlinear_arith)
            requires
                e * m <= m,
                m > 0,
        ;
    }
    lemma_mod_multiples_basic(n1, 1);
    lemma_mod_multiples_basic(d1, 1);
    assert(is_gcd(1, n1, d1));
    assert forall|e: int|
        #![trigger divides(e, -n1), divides(e, -d1)]
        divides(e, -n1) && divides(e, -d1) implies e <= 1 by {
        lemma_divides_negation(e, n1);
        lemma_divides_negation(e, d1);
    }
    lemma_mod_multiples_basic(-n1, 1);
    lemma_mod_multiples_basic(-d1, 1);
}

/// Where the absolute value of `g` divides `a`, the division of `a` by `g`
/// leaves no remainder.
proof fn lemma_exact_quotient(a: int, g: int)
    requires
        divides(abs(g), a),
    ensures
        a == g * trunc_div(a, g),
{
    lemma_trunc_div_rem(a, g);
    lemma_divides_negation(abs(g), a);
}

/// Where `e` divides `q` and `a == g * q`, `e * |g|` divides `a`.
proof fn lemma_scaled_divisor(e: int, q: int, g: int, a: int)
    requires
        divides(e, q),
        g != 0,
        a == g * q,
    ensures
        divides(e * abs(g), a),
{
    let m = abs(g);
    let k = q / e;
    lemma_fundamental_div_mod(q, e);
    assert(e * m > 0) by (nonlinear_arith)
        requires
            e > 0,
            m > 0,
    ;
    if g > 0 {
        assert(a == k * (e * m)) by (nonlinear_arith)
            requires
                a == g * q,
                q == e * k,
                m == g,
        ;
        lemma_mod_multiples_basic(k, e * m);
    } else {
        assert(a == (-k) * (e * m)) by (nonlinear_arith)
            requires
                a == g * q,
                q == e * k,
                m == -g,
        ;
        lemma_mod_multiples_basic(-k, e * m);
    }
}

/// `n / d` in lowest terms: both parts divided by their greatest common
/// divisor, with the sign carried by the numerator.
pub open spec fn lowest_terms(n: int, d: int) -> (int, int)
    recommends
        d != 0,
{
    let g = abs(euclid(n, d));
    if d > 0 {
        (n / g, d / g)
    } else {
        ((-n) / g, (-d) / g)
    }
}

/// Dividing both parts by their greatest common divisor of either sign, and
/// changing both signs where the denominator came out negative, gives the
/// lowest terms.
proof fn lemma_lowest_terms(n: int, d: int, g: int, nf: int, df: int)
    requires
        d != 0,
        g != 0,
        abs(g) == abs(euclid(n, d)),
        n == g * trunc_div(n, g),
        d == g * trunc_div(d, g),
        df > 0,
        (nf == trunc_div(n, g) && df == trunc_div(d, g)) || (nf == -trunc_div(n, g) && df
            == -trunc_div(d, g)),
    ensures
        (nf, df) == lowest_terms(n, d),
{
    let m = abs(g);
    let n1 = trunc_div(n, g);
    let d1 = trunc_div(d, g);
    assert(m * df == abs(d) && m * nf == (if d > 0 {
        n
    } else {
        -n
    })) by (nonlinear_arith)
        requires
            n == g * n1,
            d == g * d1,
            m == abs(g),
            g != 0,
            df > 0,
            (nf == n1 && df == d1) || (nf == -n1 && df == -d1),
    ;
    lemma_div_multiples_vanish(df, m);
    lemma_div_multiples_vanish(nf, m);
}

/// An exact rational number: a numerator over a positive denominator, with no
/// common divisor but one.
pub struct Fraction {
    num: BigInt,
    den: BigInt,
}

impl View for Fraction {
    type V = (int, int);

    /// The numerator and the denominator.
    open spec fn view(&self) -> (int, int) {
        (self.numer(), self.denom())
    }
}

impl Fraction {
    /// The numerator.
    pub closed spec fn numer(&self) -> int {
        val(&self.num)
    }

    /// The denominator.
    pub closed spec fn denom(&self) -> int {
        val(&self.den)
    }

    /// The fraction is in lowest terms and its denominator is positive.
    pub open spec fn is_reduced(&self) -> bool {
        self.denom() > 0 && is_gcd(1, self.numer(), self.denom())
    }

    /// The rational number that the fraction stands for.
    pub open spec fn value(&self) -> real {
        ratio(self.numer(), self.denom())
    }

    #[verifier::type_invariant]
    spec fn inv(&self) -> bool {
        self.is_reduced()
    }

    /// `num / den` in lowest terms, where `den` is not zero.
    fn reduce(num: BigInt, den: BigInt) -> (f: Fraction)
        requires
            val(&den) != 0,
        ensures
            f@ == lowest_terms(val(&num), val(&den)),
            f.is_reduced(),
            f.value() == ratio(val(&num), val(&den)),
    {
        let zero = big_from_u64(0);
        let g = gcd(&num, &den);
        proof {
            lemma_reduce(val(&num), val(&den), val(&g));
        }
        let n = big_div(&num, &g);
        let d = big_div(&den, &g);
        let f = if big_lt(&d, &zero) {
            Fraction { num: big_sub(&zero, &n), den: big_sub(&zero, &d) }
        } else {
            Fraction { num: n, den: d }
        };
        proof {
            assert(f.numer() * val(&den) == val(&num) * f.denom()) by (nonlinear_arith)
                requires
                    val(&num) == val(&g) * val(&n),
                    val(&den) == val(&g) * val(&d),
                    (f.numer() == val(&n) && f.denom() == val(&d)) || (f.numer() == -val(&n)
                        && f.denom() == -val(&d)),
            ;
            lemma_ratio_equal(f.numer(), f.denom(), val(&num), val(&den));
            lemma_lowest_terms(val(&num), val(&den), val(&g), f.numer(), f.denom());
        }
        f
    }

    /// The fraction `num / den` in lowest terms, with a positive denominator.
    ///
    /// Fails with `DegenerateArithmetic` where `den` is zero, which covers
    /// zero over zero.
    pub fn new(num: BigInt, den: BigInt) -> (r: Result<Fraction, SharingError>)
        ensures
            val(&den) == 0 <==> r == Err::<Fraction, SharingError>(
                SharingError::DegenerateArithmetic,
            ),
            val(&den) != 0 ==> r.is_ok() && r.unwrap()@ == lowest_terms(val(&num), val(&den))
                && r.unwrap().is_reduced() && r.unwrap().value() == ratio(val(&num), val(&den)),
    {
        let zero = big_from_u64(0);
        if big_eq(&den, &zero) {
            return Err(SharingError::DegenerateArithmetic);
        }
        Ok(Fraction::reduce(num, den))
    }

    /// The whole number `n` as a fraction.
    pub fn from_integer(n: BigInt) -> (f: Fraction)
        ensures
            f@ == (val(&n), 1int),
            f.is_reduced(),
            f.value() == whole(val(&n)),
    {
        let one = big_from_u64(1);
        proof {
            let v = val(&n);
            lemma_mod_multiples_basic(v, 1);
            lemma_mod_multiples_basic(1, 1);
            assert forall|d: int|
                #![trigger divides(d, v), divides(d, 1)]
                divides(d, v) && divides(d, 1) implies d <= 1 by {
                if d > 1 {
                    lemma_small_mod(1, d as nat);
                }
            }
            lemma_reduced_integer(v, 1);
        }
        Fraction { num: n, den: one }
    }

    /// The sum of two fractions, in lowest terms.
    pub fn add(&self, other: &Fraction) -> (f: Fraction)
        ensures
            f@ == lowest_terms(
                self.numer() * other.denom() + other.numer() * self.denom(),
                self.denom() * other.denom(),
            ),
            f.is_reduced(),
            f.value() == self.value() + other.value(),
    {
        proof {
            use_type_invariant(self);
            use_type_invariant(other);
            lemma_ratio_add(self.numer(), self.denom(), other.numer(), other.denom());
        }
        let left = big_mul(&self.num, &other.den);
        let right = big_mul(&other.num, &self.den);
        let num = big_add(&left, &right);
        let den = big_mul(&self.den, &other.den);
        Fraction::reduce(num, den)
    }

    /// The product of two fractions, in lowest terms.
    pub fn mul(&self, other: &Fraction) -> (f: Fraction)
        ensures
            f@ == lowest_terms(self.numer() * other.numer(), self.denom() * other.denom()),
            f.is_reduced(),
            f.value() == self.value() * other.value(),
    {
        proof {
            use_type_invariant(self);
            use_type_invariant(other);
            lemma_ratio_mul(self.numer(), self.denom(), other.numer(), other.denom());
        }
        let num = big_mul(&self.num, &other.num);
        let den = big_mul(&self.den, &other.den);
        Fraction::reduce(num, den)
    }

    /// The numerator.
    pub fn numerator(&self) -> (n: &BigInt)
        ensures
            val(n) == self.numer(),
    {
        &self.num
    }

    /// The denominator.
    pub fn denominator(&self) -> (d: &BigInt)
        ensures
            val(d) == self.denom(),
            self.is_reduced(),
    {
        proof {
            use_type_invariant(self);
        }
        &self.den
    }
}

} // verus!
