//! The check of one share against the dealer's public commitments.

use vstd::prelude::*;
use num::BigInt;
use crate::arith::{lemma_pow_nonnegative, lemma_trunc_div_rem, modpow, modpow_spec};
use crate::bigint::{big_eq, big_from_u64, big_lt, big_mul, big_rem, big_sub, trunc_rem, val};
use crate::error::SharingError;
use crate::poly::vals;
use crate::share::Share;

verus! {

/// The exponent that the commitment `i` is raised to for the index `x`:
/// `x^i` reduced by `q - 1`.
pub open spec fn commitment_exponent(x: int, i: int, q: int) -> int {
    modpow_spec(x, i, q - 1)
}

/// The product, reduced by `q` after each factor, of the first `m`
/// commitments, each raised to its exponent for the index `x`.
pub open spec fn commitment_product(commitments: Seq<int>, x: int, q: int, m: int) -> int
    decreases m,
{
    if m <= 0 {
        1
    } else {
        trunc_rem(
            commitment_product(commitments, x, q, m - 1) * modpow_spec(
                commitments[m - 1],
                commitment_exponent(x, m - 1, q),
                q,
            ),
            q,
        )
    }
}

/// What the check of the share `(x, y)` against the commitments gives:
/// whether `g^y` and the product of the commitments agree modulo `q`. It is
/// defined for a modulus above one and a share without a negative part.
pub open spec fn verification(commitments: Seq<int>, x: int, y: int, g: int, q: int) -> Result<
    bool,
    SharingError,
> {
    if q <= 1 || x < 0 || y < 0 {
        Err(SharingError::DomainError)
    } else {
        Ok(modpow_spec(g, y, q) == commitment_product(commitments, x, q, commitments.len() as int))
    }
}

/// The exponent of a commitment is not negative for an index that is not.
pub proof fn lemma_commitment_exponent_nonnegative(x: int, i: int, q: int)
    requires
        x >= 0,
        q > 1,
    ensures
        commitment_exponent(x, i, q) >= 0,
{
    if i > 0 {
        lemma_pow_nonnegative(x, i as nat);
        lemma_trunc_div_rem(vstd::arithmetic::power::pow(x, i as nat), q - 1);
    }
}

/// Whether `share` lies on the polynomial that `commitments` commit to.
///
/// Compares `g^y` with the product of `commitments[i]^(x^i mod (q - 1))`,
/// both modulo `q`. `Ok(false)` tells of a share that does not fit. Fails
/// with `DomainError` where `q` is not above one, or where `x` or `y` is
/// negative.
pub fn verify_share(commitments: &Vec<BigInt>, share: &Share, g: &BigInt, q: &BigInt) -> (r: Result<
    bool,
    SharingError,
>)
    ensures
        r == verification(vals(commitments@), val(&share.x), val(&share.y), val(g), val(q)),
{
    let zero = big_from_u64(0);
    let one = big_from_u64(1);
    if !big_lt(&one, q) || big_lt(&share.x, &zero) || big_lt(&share.y, &zero) {
        return Err(SharingError::DomainError);
    }
    let order = big_sub(q, &one);
    let ghost c = vals(commitments@);
    let ghost x = val(&share.x);
    let left = match modpow(g, &share.y, q) {
        Ok(v) => v,
        Err(e) => {
            return Err(e);
        },
    };
    let mut right = one.clone();
    let mut i: usize = 0;
    while i < commitments.len()
        invariant
            i <= commitments.len(),
            c == vals(commitments@),
            x == val(&share.x),
            x >= 0,
            val(q) > 1,
            val(&order) == val(q) - 1,
            val(&right) == commitment_product(c, x, val(q), i as int),
        decreases commitments.len() - i,
    {
        let index = big_from_u64(i as u64);
        proof {
            lemma_commitment_exponent_nonnegative(x, i as int, val(q));
        }
        let exponent = match modpow(&share.x, &index, &order) {
            Ok(v) => v,
            Err(e) => {
                return Err(e);
            },
        };
        let term = match modpow(&commitments[i], &exponent, q) {
            Ok(v) => v,
            Err(e) => {
                return Err(e);
            },
        };
        let product = big_mul(&right, &term);
        right = big_rem(&product, q);
        i += 1;
    }
    Ok(big_eq(&left, &right))
}

} // verus!
