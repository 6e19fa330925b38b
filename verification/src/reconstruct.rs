//! Recovery of the secret from a threshold of shares, by Lagrange
//! interpolation at zero over exact fractions.

use vstd::prelude::*;
use num::BigInt;
use crate::bigint::{big_eq, big_from_u64, big_sub, val};
use crate::error::SharingError;
use crate::fraction::{is_integer, lemma_reduced_integer, ratio, whole, Fraction};
use crate::share::{pairwise_distinct, share_xs, share_ys, Share};

verus! {

/// What the point `j` contributes at zero to the basis polynomial of the
/// point `i`: `-x_j / (x_i - x_j)`.
pub open spec fn basis_factor(xs: Seq<int>, i: int, j: int) -> real {
    ratio(-xs[j], xs[i] - xs[j])
}

/// The basis polynomial of the point `i` at zero, over the points `lo <= j <
/// hi`: the product of their factors, `j == i` left out.
pub open spec fn basis_at_zero(xs: Seq<int>, i: int, lo: int, hi: int) -> real
    decreases hi - lo,
{
    if hi <= lo {
        1real
    } else if hi - 1 == i {
        basis_at_zero(xs, i, lo, hi - 1)
    } else {
        basis_at_zero(xs, i, lo, hi - 1) * basis_factor(xs, i, hi - 1)
    }
}

/// The part of the interpolation sum over the points `lo <= j < hi` that the
/// points before `m` contribute: the sum of `y_i` times the basis polynomial
/// of `i` at zero.
pub open spec fn lagrange_sum(xs: Seq<int>, ys: Seq<int>, lo: int, hi: int, m: int) -> real
    decreases m - lo,
{
    if m <= lo {
        0real
    } else {
        lagrange_sum(xs, ys, lo, hi, m - 1) + whole(ys[m - 1]) * basis_at_zero(xs, m - 1, lo, hi)
    }
}

/// The value at zero of the polynomial of least degree through the first `k`
/// points.
pub open spec fn interpolate_at_zero(xs: Seq<int>, ys: Seq<int>, k: int) -> real {
    lagrange_sum(xs, ys, 0, k, k)
}

/// What reconstruction gives for the threshold `k` and the points `(xs[i],
/// ys[i])`: the value at zero of the polynomial through the first `k` of
/// them where that is a whole number, and otherwise the reason why not.
pub open spec fn reconstruction(k: int, xs: Seq<int>, ys: Seq<int>) -> Result<int, SharingError> {
    if xs.len() < k {
        Err(SharingError::InsufficientShares)
    } else if !pairwise_distinct(xs) {
        Err(SharingError::DuplicateShareIndex)
    } else if is_integer(interpolate_at_zero(xs, ys, k)) {
        Ok(choose|s: int| #[trigger] whole(s) == interpolate_at_zero(xs, ys, k))
    } else {
        Err(SharingError::ReconstructionError)
    }
}

/// Whether two of the shares have the same `x`.
fn has_duplicate_index(points: &Vec<Share>) -> (found: bool)
    ensures
        found == !pairwise_distinct(share_xs(points@)),
{
    let ghost xs = share_xs(points@);
    let mut j: usize = 0;
    while j < points.len()
        invariant
            j <= points.len(),
            xs == share_xs(points@),
            forall|a: int, b: int| 0 <= a < b < j ==> xs[a] != xs[b],
        decreases points.len() - j,
    {
        let mut i: usize = 0;
        while i < j
            invariant
                i <= j < points.len(),
                xs == share_xs(points@),
                forall|a: int| 0 <= a < i ==> xs[a] != xs[j as int],
            decreases j - i,
        {
            if big_eq(&points[i].x, &points[j].x) {
                assert(xs[i as int] == xs[j as int]);
                return true;
            }
            i += 1;
        }
        j += 1;
    }
    false
}

/// The secret that `k` shares stand for.
///
/// The first `k` of `points` are interpolated; the value at zero of the
/// polynomial of least degree through them is the secret. Fails with
/// `InsufficientShares` where fewer than `k` points are given, else with
/// `DuplicateShareIndex` where two of the points given share an `x`, else
/// with `ReconstructionError` where the value at zero is no whole number, as
/// it is for points that do not lie on one polynomial with integer values.
pub fn decode(k: usize, points: &Vec<Share>) -> (r: Result<BigInt, SharingError>)
    ensures
        points.len() < k <==> r == Err::<BigInt, SharingError>(SharingError::InsufficientShares),
        points.len() >= k && !pairwise_distinct(share_xs(points@)) <==> r == Err::<
            BigInt,
            SharingError,
        >(SharingError::DuplicateShareIndex),
        match r {
            Ok(s) => reconstruction(k as int, share_xs(points@), share_ys(points@)) == Ok::<
                int,
                SharingError,
            >(val(&s)),
            Err(e) => reconstruction(k as int, share_xs(points@), share_ys(points@)) == Err::<
                int,
                SharingError,
            >(e),
        },
{
    if points.len() < k {
        return Err(SharingError::InsufficientShares);
    }
    if has_duplicate_index(points) {
        return Err(SharingError::DuplicateShareIndex);
    }
    let ghost xs = share_xs(points@);
    let ghost ys = share_ys(points@);
    let zero = big_from_u64(0);
    let one = big_from_u64(1);
    let mut sum = Fraction::from_integer(zero.clone());
    let mut i: usize = 0;
    while i < k
        invariant
            i <= k <= points.len(),
            xs == share_xs(points@),
            ys == share_ys(points@),
            pairwise_distinct(xs),
            val(&zero) == 0,
            sum.value() == lagrange_sum(xs, ys, 0, k as int, i as int),
        decreases k - i,
    {
        let mut term = Fraction::from_integer(points[i].y.clone());
        let mut j: usize = 0;
        assert(term.value() == term.value() * 1real) by (nonlinear_arith);
        while j < k
            invariant
                i < k <= points.len(),
                j <= k,
                xs == share_xs(points@),
                ys == share_ys(points@),
                pairwise_distinct(xs),
                val(&zero) == 0,
                term.value() == whole(ys[i as int]) * basis_at_zero(xs, i as int, 0, j as int),
            decreases k - j,
        {
            if j != i {
                let num = big_sub(&zero, &points[j].x);
                let den = big_sub(&points[i].x, &points[j].x);
                assert(xs[i as int] != xs[j as int]);
                match Fraction::new(num, den) {
                    Ok(factor) => {
                        let ghost before = term.value();
                        term = term.mul(&factor);
                        assert(before * basis_factor(xs, i as int, j as int) == whole(ys[i as int])
                            * (basis_at_zero(xs, i as int, 0, j as int) * basis_factor(
                            xs,
                            i as int,
                            j as int,
                        ))) by (nonlinear_arith)
                            requires
                                before == whole(ys[i as int]) * basis_at_zero(
                                    xs,
                                    i as int,
                                    0,
                                    j as int,
                                ),
                        ;
                    },
                    Err(e) => {
                        return Err(e);
                    },
                }
            }
            j += 1;
        }
        sum = sum.add(&term);
        i += 1;
    }
    let ghost v = interpolate_at_zero(xs, ys, k as int);
    let den = sum.denominator();
    proof {
        lemma_reduced_integer(sum.numer(), sum.denom());
    }
    if big_eq(den, &one) {
        let s = sum.numerator().clone();
        assert(whole(val(&s)) == v);
        Ok(s)
    } else {
        Err(SharingError::ReconstructionError)
    }
}

} // verus!
