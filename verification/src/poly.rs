//! Polynomials with integer coefficients, lowest power first.

use vstd::prelude::*;
use vstd::arithmetic::power::{lemma_pow0, pow};
use num::BigInt;
use crate::arith::lemma_pow_nonnegative;
use crate::bigint::{big_add, big_from_u64, big_mul, val};

verus! {

/// The integers that a sequence of `BigInt` holds.
pub open spec fn vals(v: Seq<BigInt>) -> Seq<int> {
    Seq::new(v.len(), |i: int| val(&v[i]))
}

/// The value at `x` of the polynomial with the coefficients `c`: the sum of
/// `c[i] * x^i`.
pub open spec fn poly_eval(c: Seq<int>, x: int) -> int
    decreases c.len(),
{
    if c.len() == 0 {
        0
    } else {
        poly_eval(c.drop_last(), x) + c.last() * pow(x, (c.len() - 1) as nat)
    }
}

/// Horner's rule: a polynomial is its constant term plus `x` times the
/// polynomial of the remaining coefficients.
pub proof fn lemma_poly_eval_horner(c: Seq<int>, x: int)
    requires
        c.len() > 0,
    ensures
        poly_eval(c, x) == c[0] + x * poly_eval(c.skip(1), x),
    decreases c.len(),
{
    let n = c.len();
    let rest = c.skip(1);
    if n == 1 {
        lemma_pow0(x);
        assert(poly_eval(c.drop_last(), x) == 0);
        assert(poly_eval(rest, x) == 0);
    } else {
        let front = c.drop_last();
        lemma_poly_eval_horner(front, x);
        assert(front.skip(1) =~= rest.drop_last());
        assert(rest.last() == c.last());
        assert(front[0] == c[0]);
        let e = (n - 2) as nat;
        assert(pow(x, (n - 1) as nat) == x * pow(x, e)) by {
            reveal(pow);
        }
        assert(x * (poly_eval(rest.drop_last(), x) + rest.last() * pow(x, e)) == x * poly_eval(
            rest.drop_last(),
            x,
        ) + c.last() * (x * pow(x, e))) by (nonlinear_arith)
            requires
                rest.last() == c.last(),
        ;
    }
}

/// The value at zero is the constant term.
pub proof fn lemma_poly_eval_zero(c: Seq<int>)
    ensures
        poly_eval(c, 0) == if c.len() == 0 {
            0
        } else {
            c[0]
        },
{
    if c.len() > 0 {
        lemma_poly_eval_horner(c, 0);
    }
}

/// Coefficients that are not negative give, at an `x` that is not negative,
/// a value that is not negative.
pub proof fn lemma_poly_eval_nonnegative(c: Seq<int>, x: int)
    requires
        x >= 0,
        forall|i: int| 0 <= i < c.len() ==> c[i] >= 0,
    ensures
        poly_eval(c, x) >= 0,
    decreases c.len(),
{
    if c.len() > 0 {
        lemma_poly_eval_nonnegative(c.drop_last(), x);
        let p = pow(x, (c.len() - 1) as nat);
        lemma_pow_nonnegative(x, (c.len() - 1) as nat);
        assert(c.last() * p >= 0) by (nonlinear_arith)
            requires
                c.last() >= 0,
                p >= 0,
        ;
    }
}

/// The value at `x` of the polynomial with the coefficients `poly`, lowest
/// power first.
pub fn calc_y(x: &BigInt, poly: &Vec<BigInt>) -> (y: BigInt)
    ensures
        val(&y) == poly_eval(vals(poly@), val(x)),
{
    let ghost c = vals(poly@);
    let mut temp = big_from_u64(1);
    let mut y = big_from_u64(0);
    let mut i: usize = 0;
    proof {
        lemma_pow0(val(x));
    }
    while i < poly.len()
        invariant
            i <= poly.len(),
            c == vals(poly@),
            val(&temp) == pow(val(x), i as nat),
            val(&y) == poly_eval(c.take(i as int), val(x)),
        decreases poly.len() - i,
    {
        proof {
            let next = c.take(i + 1);
            assert(next.drop_last() =~= c.take(i as int));
            assert(next.last() == val(&poly@[i as int]));
            assert(pow(val(x), (i + 1) as nat) == val(x) * pow(val(x), i as nat)) by {
                reveal(pow);
            }
            vstd::arithmetic::mul::lemma_mul_is_commutative(val(&temp), val(x));
        }
        let term = big_mul(&poly[i], &temp);
        y = big_add(&y, &term);
        temp = big_mul(&temp, x);
        i += 1;
    }
    proof {
        assert(c.take(poly.len() as int) =~= c);
    }
    y
}

} // verus!
