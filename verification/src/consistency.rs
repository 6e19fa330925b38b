//! When a share passes the check against the commitments that were dealt
//! with it.

use vstd::prelude::*;
use vstd::arithmetic::div_mod::lemma_small_mod;
use vstd::arithmetic::power::{lemma_pow0, lemma_pow_adds, lemma_pow_multiplies, pow};
use crate::arith::{
    lemma_pow_nonnegative, lemma_trunc_rem_mul_left, lemma_trunc_rem_mul_right,
    lemma_trunc_rem_nonnegative, lemma_trunc_rem_pow, modpow_spec,
};
use crate::bigint::trunc_rem;
use crate::dealer::{commitments_of, dealt_xs, dealt_ys, nonnegative};
use crate::error::SharingError;
use crate::poly::poly_eval;
use crate::verify::{
    commitment_exponent, commitment_product, lemma_commitment_exponent_nonnegative, verification,
};

verus! {

/// The exponent of `g` that the product of the first `m` commitments stands
/// for: the sum of each coefficient times the exponent of its commitment.
pub open spec fn exponent_sum(c: Seq<int>, x: int, q: int, m: int) -> int
    decreases m,
{
    if m <= 0 {
        0
    } else {
        exponent_sum(c, x, q, m - 1) + c[m - 1] * commitment_exponent(x, m - 1, q)
    }
}

/// For a modulus above one, a power modulo it is the remainder of the power,
/// for the exponent zero too.
pub proof fn lemma_modpow_is_remainder(b: int, e: int, m: int)
    requires
        e >= 0,
        m > 1,
    ensures
        modpow_spec(b, e, m) == trunc_rem(pow(b, e as nat), m),
{
    if e == 0 {
        lemma_pow0(b);
        lemma_small_mod(1, m as nat);
    }
}

/// The exponent sum of coefficients that are not negative is not negative.
proof fn lemma_exponent_sum_nonnegative(c: Seq<int>, x: int, q: int, m: int)
    requires
        q > 1,
        x >= 0,
        nonnegative(c),
        0 <= m <= c.len(),
    ensures
        exponent_sum(c, x, q, m) >= 0,
    decreases m,
{
    if m > 0 {
        lemma_exponent_sum_nonnegative(c, x, q, m - 1);
        lemma_commitment_exponent_nonnegative(x, m - 1, q);
        let e = commitment_exponent(x, m - 1, q);
        assert(c[m - 1] * e >= 0) by (nonlinear_arith)
            requires
                c[m - 1] >= 0,
                e >= 0,
        ;
    }
}

/// The product of the first `m` commitments, each raised to its exponent, is
/// `g` to the exponent sum, modulo `q`.
pub proof fn lemma_commitment_product(c: Seq<int>, g: int, x: int, q: int, m: int)
    requires
        q > 1,
        x >= 0,
        nonnegative(c),
        0 <= m <= c.len(),
    ensures
        exponent_sum(c, x, q, m) >= 0,
        commitment_product(commitments_of(c, g, q), x, q, m) == trunc_rem(
            pow(g, exponent_sum(c, x, q, m) as nat),
            q,
        ),
    decreases m,
{
    lemma_exponent_sum_nonnegative(c, x, q, m);
    if m == 0 {
        lemma_pow0(g);
        lemma_small_mod(1, q as nat);
    } else {
        let i = m - 1;
        lemma_commitment_product(c, g, x, q, i);
        lemma_commitment_exponent_nonnegative(x, i, q);
        let before = exponent_sum(c, x, q, i) as nat;
        let a = c[i] as nat;
        let e = commitment_exponent(x, i, q) as nat;
        let commitment = commitments_of(c, g, q)[i];
        let term = modpow_spec(commitment, e as int, q);
        // the commitment and its power
        lemma_modpow_is_remainder(g, a as int, q);
        lemma_modpow_is_remainder(commitment, e as int, q);
        lemma_trunc_rem_pow(pow(g, a), e, q);
        lemma_pow_multiplies(g, a, e);
        assert(term == trunc_rem(pow(g, a * e), q));
        // the product so far, times it
        let p = pow(g, before);
        let t = pow(g, a * e);
        lemma_trunc_rem_mul_left(p, term, q);
        lemma_trunc_rem_mul_right(p, t, q);
        lemma_pow_adds(g, before, a * e);
        assert(c[i] * commitment_exponent(x, i, q) == a * e);
    }
}

/// What the check gives for a share against the commitments of a polynomial
/// with coefficients that are not negative: whether `g^y` and `g` to the
/// exponent sum agree modulo `q`.
pub proof fn law_verification_of_commitments(c: Seq<int>, x: int, y: int, g: int, q: int)
    requires
        q > 1,
        x >= 0,
        y >= 0,
        nonnegative(c),
    ensures
        verification(commitments_of(c, g, q), x, y, g, q) == Ok::<bool, SharingError>(
            modpow_spec(g, y, q) == modpow_spec(g, exponent_sum(c, x, q, c.len() as int), q),
        ),
{
    lemma_commitment_product(c, g, x, q, c.len() as int);
    lemma_modpow_is_remainder(g, exponent_sum(c, x, q, c.len() as int), q);
}

/// Where no power of `x` below the threshold reaches `q - 1`, the exponent
/// sum is the value of the polynomial at `x`.
pub proof fn lemma_exponent_sum_unreduced(c: Seq<int>, x: int, q: int, m: int)
    requires
        q > 1,
        x >= 0,
        0 <= m <= c.len(),
        forall|i: int| 0 <= i < c.len() ==> #[trigger] pow(x, i as nat) < q - 1,
    ensures
        exponent_sum(c, x, q, m) == poly_eval(c.take(m), x),
    decreases m,
{
    if m > 0 {
        let i = m - 1;
        lemma_exponent_sum_unreduced(c, x, q, i);
        assert(c.take(m).drop_last() =~= c.take(i));
        assert(c.take(m).last() == c[i]);
        let p = pow(x, i as nat);
        assert(p < q - 1);
        lemma_pow_nonnegative(x, i as nat);
        if i == 0 {
            lemma_pow0(x);
        } else {
            lemma_trunc_rem_nonnegative(p, q - 1);
            lemma_small_mod(p as nat, (q - 1) as nat);
        }
        assert(commitment_exponent(x, i, q) == p);
    }
}

/// A share of a polynomial passes the check against the commitments dealt
/// with it, where nothing was reduced: the coefficients are not negative,
/// the value at `x` does not reach `q`, and no power of `x` below the
/// threshold reaches `q - 1`.
pub proof fn law_unreduced_share_verifies(c: Seq<int>, x: int, g: int, q: int)
    requires
        q > 1,
        x >= 0,
        nonnegative(c),
        poly_eval(c, x) < q,
        forall|i: int| 0 <= i < c.len() ==> #[trigger] pow(x, i as nat) < q - 1,
    ensures
        verification(commitments_of(c, g, q), x, poly_eval(c, x) % q, g, q) == Ok::<
            bool,
            SharingError,
        >(true),
{
    crate::poly::lemma_poly_eval_nonnegative(c, x);
    lemma_small_mod(poly_eval(c, x) as nat, q as nat);
    lemma_exponent_sum_unreduced(c, x, q, c.len() as int);
    assert(c.take(c.len() as int) =~= c);
    law_verification_of_commitments(c, x, poly_eval(c, x), g, q);
}

/// Where a share passes the check, the share with another value `y2` at the
/// same `x` passes exactly where `g^y2` and `g^y` agree modulo `q`.
pub proof fn law_changed_value(commitments: Seq<int>, x: int, y: int, y2: int, g: int, q: int)
    requires
        verification(commitments, x, y, g, q) == Ok::<bool, SharingError>(true),
        y2 >= 0,
    ensures
        verification(commitments, x, y2, g, q) == Ok::<bool, SharingError>(
            modpow_spec(g, y2, q) == modpow_spec(g, y, q),
        ),
        modpow_spec(g, y2, q) != modpow_spec(g, y, q) ==> verification(commitments, x, y2, g, q)
            == Ok::<bool, SharingError>(false),
{
}

/// What the check gives for share `j` of a dealing against the commitments
/// dealt with it: whether `g^y` and `g` to the exponent sum agree modulo
/// `q`. It passes where nothing was reduced.
pub proof fn law_dealt_share_verification(c: Seq<int>, n: int, j: int, g: int, q: int)
    requires
        q > 1,
        0 <= j < n,
        nonnegative(c),
    ensures
        verification(commitments_of(c, g, q), dealt_xs(n)[j], dealt_ys(c, n, q)[j], g, q) == Ok::<
            bool,
            SharingError,
        >(
            modpow_spec(g, dealt_ys(c, n, q)[j], q) == modpow_spec(
                g,
                exponent_sum(c, j + 1, q, c.len() as int),
                q,
            ),
        ),
        poly_eval(c, j + 1) < q && (forall|i: int|
            0 <= i < c.len() ==> #[trigger] pow(j + 1, i as nat) < q - 1) ==> verification(
            commitments_of(c, g, q),
            dealt_xs(n)[j],
            dealt_ys(c, n, q)[j],
            g,
            q,
        ) == Ok::<bool, SharingError>(true),
{
    let x = j + 1;
    let y = poly_eval(c, x) % q;
    vstd::arithmetic::div_mod::lemma_mod_bound(poly_eval(c, x), q);
    law_verification_of_commitments(c, x, y, g, q);
    if poly_eval(c, x) < q && (forall|i: int|
        0 <= i < c.len() ==> #[trigger] pow(x, i as nat) < q - 1) {
        law_unreduced_share_verifies(c, x, g, q);
    }
}

} // verus!
