//! The dealer: shares of a secret, and the commitments that go with them.

use vstd::prelude::*;
use num::BigInt;
use rand::rngs::StdRng;
use crate::arith::{lemma_trunc_rem_nonnegative, modpow, modpow_spec};
use crate::bigint::{big_eq, big_from_u64, big_lt, big_rem, big_sub, val};
use crate::error::SharingError;
use crate::poly::{calc_y, lemma_poly_eval_nonnegative, poly_eval, vals};
use crate::random::draw_in_range;
use crate::share::{share_xs, share_ys, Share};

verus! {

/// How often one coefficient is drawn before the dealer gives up.
pub const MAX_DRAWS: usize = 128;

/// The indices of `n` shares: `1, 2, ..., n`.
pub open spec fn dealt_xs(n: int) -> Seq<int> {
    Seq::new(n as nat, |j: int| j + 1)
}

/// The values of `n` shares: the polynomial at `1, 2, ..., n`, modulo `q`.
pub open spec fn dealt_ys(coefficients: Seq<int>, n: int, q: int) -> Seq<int> {
    Seq::new(n as nat, |j: int| poly_eval(coefficients, j + 1) % q)
}

/// The commitments: `g` to the power of each coefficient, modulo `q`.
pub open spec fn commitments_of(coefficients: Seq<int>, g: int, q: int) -> Seq<int> {
    Seq::new(coefficients.len(), |i: int| modpow_spec(g, coefficients[i], q))
}

/// No coefficient is negative.
pub open spec fn nonnegative(coefficients: Seq<int>) -> bool {
    forall|i: int| 0 <= i < coefficients.len() ==> coefficients[i] >= 0
}

/// The polynomial can be dealt to `n` holders modulo `q`, and if it cannot,
/// why not: its length is the threshold, which lies between one and `n`; the
/// modulus is positive; no coefficient is negative.
pub open spec fn dealing_error(coefficients: Seq<int>, n: int, q: int) -> Option<SharingError> {
    if coefficients.len() < 1 || coefficients.len() > n {
        Some(SharingError::InvalidThreshold)
    } else if q <= 0 || !nonnegative(coefficients) {
        Some(SharingError::DomainError)
    } else {
        None
    }
}

/// `shares` and `commitments` are what the polynomial deals to `n` holders.
pub open spec fn is_dealt(
    coefficients: Seq<int>,
    n: int,
    q: int,
    g: int,
    shares: Seq<Share>,
    commitments: Seq<BigInt>,
) -> bool {
    &&& share_xs(shares) == dealt_xs(n)
    &&& share_ys(shares) == dealt_ys(coefficients, n, q)
    &&& vals(commitments) == commitments_of(coefficients, g, q)
}

/// A polynomial as the dealer makes it: `k` coefficients, the first of them
/// the secret, each of the others from `1` to `q - 2`.
pub open spec fn is_dealer_polynomial(coefficients: Seq<int>, secret: int, k: int, q: int) -> bool {
    &&& coefficients.len() == k
    &&& k >= 1
    &&& coefficients[0] == secret
    &&& forall|i: int| 1 <= i < k ==> 1 <= #[trigger] coefficients[i] < q - 1
}

/// Whether some coefficient is negative.
fn has_negative(coefficients: &Vec<BigInt>) -> (found: bool)
    ensures
        found == !nonnegative(vals(coefficients@)),
{
    let zero = big_from_u64(0);
    let ghost c = vals(coefficients@);
    let mut i: usize = 0;
    while i < coefficients.len()
        invariant
            i <= coefficients.len(),
            c == vals(coefficients@),
            val(&zero) == 0,
            forall|a: int| 0 <= a < i ==> c[a] >= 0,
        decreases coefficients.len() - i,
    {
        if big_lt(&coefficients[i], &zero) {
            assert(c[i as int] < 0);
            return true;
        }
        i += 1;
    }
    false
}

/// The shares and commitments of a given polynomial.
///
/// The threshold is the number of coefficients, and the first coefficient is
/// the secret. Share `j` is the point at `x = j + 1`, its value reduced
/// modulo `q`; commitment `i` is `g` to the power of coefficient `i`, modulo
/// `q`. Fails with `InvalidThreshold` where the threshold is zero or above
/// `n`, else with `DomainError` where `q` is not positive or a coefficient
/// is negative.
pub fn deal(coefficients: &Vec<BigInt>, n: usize, q: &BigInt, g: &BigInt) -> (r: Result<
    (Vec<Share>, Vec<BigInt>),
    SharingError,
>)
    ensures
        match r {
            Ok((shares, commitments)) => dealing_error(vals(coefficients@), n as int, val(q))
                is None && is_dealt(
                vals(coefficients@),
                n as int,
                val(q),
                val(g),
                shares@,
                commitments@,
            ) && shares.len() == n && commitments.len() == coefficients.len() && forall|j: int|
                0 <= j < n ==> 0 <= #[trigger] val(&shares@[j].y) < val(q),
            Err(e) => dealing_error(vals(coefficients@), n as int, val(q)) == Some(e),
        },
{
    let zero = big_from_u64(0);
    let k = coefficients.len();
    if k < 1 || k > n {
        return Err(SharingError::InvalidThreshold);
    }
    if !big_lt(&zero, q) || has_negative(coefficients) {
        return Err(SharingError::DomainError);
    }
    let ghost c = vals(coefficients@);
    let mut commitments: Vec<BigInt> = Vec::new();
    let mut i: usize = 0;
    while i < k
        invariant
            i <= k == coefficients.len(),
            c == vals(coefficients@),
            nonnegative(c),
            val(q) > 0,
            commitments.len() == i,
            forall|a: int| 0 <= a < i ==> val(&commitments@[a]) == modpow_spec(val(g), c[a], val(q)),
        decreases k - i,
    {
        assert(c[i as int] >= 0);
        match modpow(g, &coefficients[i], q) {
            Ok(v) => {
                commitments.push(v);
            },
            Err(e) => {
                return Err(e);
            },
        }
        i += 1;
    }
    let mut shares: Vec<Share> = Vec::new();
    let mut j: usize = 0;
    while j < n
        invariant
            j <= n,
            c == vals(coefficients@),
            nonnegative(c),
            val(q) > 0,
            shares.len() == j,
            forall|a: int| 0 <= a < j ==> val(&shares@[a].x) == a + 1,
            forall|a: int| 0 <= a < j ==> val(&shares@[a].y) == poly_eval(c, a + 1) % val(q),
        decreases n - j,
    {
        let x = big_from_u64((j + 1) as u64);
        let value = calc_y(&x, coefficients);
        proof {
            lemma_poly_eval_nonnegative(c, j + 1);
            lemma_trunc_rem_nonnegative(val(&value), val(q));
        }
        let y = big_rem(&value, q);
        shares.push(Share { x, y });
        j += 1;
    }
    proof {
        assert(share_xs(shares@) =~= dealt_xs(n as int));
        assert(share_ys(shares@) =~= dealt_ys(c, n as int, val(q)));
        assert(vals(commitments@) =~= commitments_of(c, val(g), val(q)));
    }
    Ok((shares, commitments))
}

/// A draw that can serve as a coefficient: any but zero.
pub fn nonzero_draw(draw: BigInt) -> (c: Option<BigInt>)
    ensures
        val(&draw) == 0 <==> c is None,
        c matches Some(v) ==> val(&v) == val(&draw),
{
    let zero = big_from_u64(0);
    if big_eq(&draw, &zero) {
        None
    } else {
        Some(draw)
    }
}

/// One coefficient: draws from `0 <= c < q - 1` until a draw is not zero,
/// and gives up after `MAX_DRAWS` draws of zero, or at once where the range
/// is empty.
fn draw_coefficient(rng: &mut StdRng, q: &BigInt) -> (c: Option<BigInt>)
    ensures
        c matches Some(v) ==> 1 <= val(&v) < val(q) - 1,
        val(q) <= 2 ==> c is None,
{
    let zero = big_from_u64(0);
    let one = big_from_u64(1);
    let bound = big_sub(q, &one);
    if !big_lt(&zero, &bound) {
        return None;
    }
    let mut attempts: usize = 0;
    while attempts < MAX_DRAWS
        invariant
            val(&zero) == 0,
            val(&bound) == val(q) - 1,
            val(&bound) > 0,
        decreases MAX_DRAWS - attempts,
    {
        let draw = draw_in_range(rng, &zero, &bound);
        match nonzero_draw(draw) {
            Some(v) => {
                return Some(v);
            },
            None => {},
        }
        attempts += 1;
    }
    None
}

/// Splits `secret` into `n` shares of which any `k` stand for it, and commits
/// to the polynomial behind them.
///
/// The polynomial has the secret as its constant term and `k - 1` further
/// coefficients drawn from `rng`, none of them zero; it is dropped before
/// the function returns. Fails with `InvalidThreshold` where `k` is zero or
/// above `n`, else with `DomainError` where `q` is not positive or the
/// secret is negative; in both cases nothing has been drawn from `rng`.
/// Fails with `ExhaustedDraws` where a coefficient came out zero `MAX_DRAWS`
/// times in a row, as it does for a modulus below three.
pub fn encode(secret: &BigInt, n: usize, k: usize, q: &BigInt, g: &BigInt, rng: &mut StdRng) -> (r:
    Result<(Vec<Share>, Vec<BigInt>), SharingError>)
    ensures
        (k < 1 || k > n) <==> r == Err::<(Vec<Share>, Vec<BigInt>), SharingError>(
            SharingError::InvalidThreshold,
        ),
        (1 <= k <= n && (val(q) <= 0 || val(secret) < 0)) <==> r == Err::<
            (Vec<Share>, Vec<BigInt>),
            SharingError,
        >(SharingError::DomainError),
        r matches Err(e) ==> e == SharingError::InvalidThreshold || e == SharingError::DomainError
            || (e == SharingError::ExhaustedDraws && k >= 2),
        k <= 1 || k > n || val(q) <= 0 || val(secret) < 0 ==> *final(rng) == *old(rng),
        2 <= k <= n && 0 < val(q) <= 2 && val(secret) >= 0 ==> r == Err::<
            (Vec<Share>, Vec<BigInt>),
            SharingError,
        >(SharingError::ExhaustedDraws),
        r matches Ok((shares, commitments)) ==> shares.len() == n && commitments.len() == k
            && exists|coefficients: Seq<int>|
            #[trigger] is_dealer_polynomial(coefficients, val(secret), k as int, val(q))
                && is_dealt(coefficients, n as int, val(q), val(g), shares@, commitments@),
{
    let zero = big_from_u64(0);
    if k < 1 || k > n {
        return Err(SharingError::InvalidThreshold);
    }
    if !big_lt(&zero, q) || big_lt(secret, &zero) {
        return Err(SharingError::DomainError);
    }
    let mut poly: Vec<BigInt> = Vec::new();
    poly.push(secret.clone());
    let mut i: usize = 1;
    while i < k
        invariant
            1 <= i <= k <= n,
            poly.len() == i,
            val(q) > 0,
            val(secret) >= 0,
            k == 1 ==> *rng == *old(rng),
            val(&poly@[0]) == val(secret),
            forall|a: int|
                1 <= a < i ==> #[trigger] val(&poly@[a]) >= 1 && val(&poly@[a]) < val(q) - 1,
        decreases k - i,
    {
        match draw_coefficient(rng, q) {
            Some(c) => {
                poly.push(c);
            },
            None => {
                return Err(SharingError::ExhaustedDraws);
            },
        }
        i += 1;
    }
    let ghost c = vals(poly@);
    proof {
        assert(is_dealer_polynomial(c, val(secret), k as int, val(q)));
        assert(nonnegative(c));
    }
    deal(&poly, n, q, g)
}

} // verus!
