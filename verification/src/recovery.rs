//! What reconstruction gives for shares as the dealer hands them out, whose
//! values are reduced by the modulus.

use vstd::prelude::*;
use vstd::arithmetic::div_mod::{lemma_fundamental_div_mod, lemma_small_mod};
use crate::dealer::{dealt_xs, dealt_ys};
use crate::error::SharingError;
use crate::fraction::{is_integer, whole};
use crate::interpolation::{lemma_interpolation_at_zero, lemma_lagrange_sum_linear, poly_values};
use crate::poly::poly_eval;
use crate::reconstruct::{basis_at_zero, interpolate_at_zero, lagrange_sum, reconstruction};
use crate::share::pairwise_distinct;

verus! {

/// Reconstruction gives `s` exactly where the interpolated value is `s`.
pub proof fn lemma_reconstruction_value(xs: Seq<int>, ys: Seq<int>, s: int)
    requires
        pairwise_distinct(xs),
    ensures
        reconstruction(xs.len() as int, xs, ys) == Ok::<int, SharingError>(s)
            <==> interpolate_at_zero(xs, ys, xs.len() as int) == whole(s),
{
    let v = interpolate_at_zero(xs, ys, xs.len() as int);
    if v == whole(s) {
        assert(is_integer(v));
        let t = choose|t: int| #[trigger] whole(t) == v;
        assert(whole(t) == whole(s));
        assert(t == s);
    }
}

/// The values of the polynomial at each of `xs`, reduced modulo `q`: what
/// the shares with these indices hold.
pub open spec fn reduced_values(c: Seq<int>, xs: Seq<int>, q: int) -> Seq<int> {
    Seq::new(xs.len(), |i: int| poly_eval(c, xs[i]) % q)
}

/// How many times `q` was taken out of each value by the reduction.
pub open spec fn value_quotients(c: Seq<int>, xs: Seq<int>, q: int) -> Seq<int> {
    Seq::new(xs.len(), |i: int| poly_eval(c, xs[i]) / q)
}

/// What `k` shares of a polynomial with `k` coefficients, dealt modulo `q`,
/// interpolate to: the secret, less `q` times what the quotients of the
/// reduction interpolate to.
pub proof fn lemma_interpolation_of_shares(c: Seq<int>, xs: Seq<int>, q: int)
    requires
        q > 0,
        c.len() == xs.len() >= 1,
        pairwise_distinct(xs),
    ensures
        interpolate_at_zero(xs, reduced_values(c, xs, q), xs.len() as int) == whole(c[0]) - whole(q)
            * interpolate_at_zero(xs, value_quotients(c, xs, q), xs.len() as int),
{
    let k = xs.len() as int;
    let ys = reduced_values(c, xs, q);
    let ps = poly_values(c, xs);
    let qs = value_quotients(c, xs, q);
    assert forall|i: int| 0 <= i < k implies ys[i] == ps[i] + (-q) * qs[i] by {
        lemma_fundamental_div_mod(ps[i], q);
        assert((-q) * qs[i] == -(q * qs[i])) by (nonlinear_arith);
    }
    lemma_lagrange_sum_linear(xs, ps, -q, qs, ys, 0, k, k);
    lemma_interpolation_at_zero(c, xs, k);
    let l = interpolate_at_zero(xs, qs, k);
    let plus = whole(q);
    let minus = whole(-q);
    assert(minus == -plus);
    assert(minus * l == -(plus * l)) by (nonlinear_arith)
        requires
            minus == -plus,
    ;
}

/// Values that are all zero interpolate to zero.
proof fn lemma_zero_values(xs: Seq<int>, zeros: Seq<int>, lo: int, hi: int, m: int)
    requires
        forall|i: int| lo <= i < m ==> zeros[i] == 0,
    ensures
        lagrange_sum(xs, zeros, lo, hi, m) == 0real,
    decreases m - lo,
{
    if m > lo {
        lemma_zero_values(xs, zeros, lo, hi, m - 1);
        assert(whole(0) * basis_at_zero(xs, m - 1, lo, hi) == 0real) by (nonlinear_arith);
    }
}

/// Where no value of the polynomial at `xs` is negative or reaches `q`, the
/// quotients of the reduction are zero and interpolate to zero.
pub proof fn lemma_no_reduction(c: Seq<int>, xs: Seq<int>, q: int)
    requires
        q > 0,
        forall|i: int| 0 <= i < xs.len() ==> 0 <= #[trigger] poly_eval(c, xs[i]) < q,
    ensures
        interpolate_at_zero(xs, value_quotients(c, xs, q), xs.len() as int) == 0real,
        reduced_values(c, xs, q) == poly_values(c, xs),
{
    let k = xs.len() as int;
    let qs = value_quotients(c, xs, q);
    let ys = reduced_values(c, xs, q);
    assert forall|i: int| 0 <= i < k implies qs[i] == 0 by {
        let p = poly_eval(c, xs[i]);
        lemma_small_mod(p as nat, q as nat);
        lemma_fundamental_div_mod(p, q);
        assert(p / q == 0) by (nonlinear_arith)
            requires
                p == q * (p / q) + p,
                q > 0,
        ;
    }
    assert forall|i: int| 0 <= i < k implies #[trigger] ys[i] == poly_values(c, xs)[i] by {
        lemma_small_mod(poly_eval(c, xs[i]) as nat, q as nat);
    }
    lemma_zero_values(xs, qs, 0, k, k);
    assert(ys =~= poly_values(c, xs));
}

/// A positive multiple of a rational number is zero only where the number
/// is, and two such multiples agree only where the numbers do.
proof fn lemma_scale(q: int, a: real, b: real)
    requires
        q > 0,
    ensures
        whole(q) * a == 0real <==> a == 0real,
        whole(q) * a == whole(q) * b <==> a == b,
{
    let s = whole(q);
    assert(s > 0real);
    assert(s * a == 0real <==> a == 0real) by (nonlinear_arith)
        requires
            s > 0real,
    ;
    assert(s * a == s * b <==> a == b) by (nonlinear_arith)
        requires
            s > 0real,
    ;
}

/// Any `k` shares with distinct indices, of a polynomial with `k`
/// coefficients dealt modulo `q`, reconstruct the secret exactly where the
/// quotients of the reduction interpolate to zero.
pub proof fn law_shares_reconstruct_secret(c: Seq<int>, xs: Seq<int>, q: int)
    requires
        q > 0,
        c.len() == xs.len() >= 1,
        pairwise_distinct(xs),
    ensures
        reconstruction(xs.len() as int, xs, reduced_values(c, xs, q)) == Ok::<int, SharingError>(
            c[0],
        ) <==> interpolate_at_zero(xs, value_quotients(c, xs, q), xs.len() as int) == 0real,
{
    let k = xs.len() as int;
    let l = interpolate_at_zero(xs, value_quotients(c, xs, q), k);
    lemma_interpolation_of_shares(c, xs, q);
    lemma_reconstruction_value(xs, reduced_values(c, xs, q), c[0]);
    lemma_scale(q, l, l);
}

/// Any `k` shares with distinct indices, of a polynomial with `k`
/// coefficients of which no value at these indices is negative or reaches
/// `q`, reconstruct the secret.
pub proof fn law_unreduced_shares_reconstruct_secret(c: Seq<int>, xs: Seq<int>, q: int)
    requires
        q > 0,
        c.len() == xs.len() >= 1,
        pairwise_distinct(xs),
        forall|i: int| 0 <= i < xs.len() ==> 0 <= #[trigger] poly_eval(c, xs[i]) < q,
    ensures
        reconstruction(xs.len() as int, xs, reduced_values(c, xs, q)) == Ok::<int, SharingError>(
            c[0],
        ),
{
    lemma_no_reduction(c, xs, q);
    law_shares_reconstruct_secret(c, xs, q);
}

/// Two choices of `k` shares of one polynomial with `k` coefficients, dealt
/// modulo `q`, interpolate to the same value exactly where the quotients of
/// the reduction do, and reconstruction then gives the same for both.
pub proof fn law_subsets_agree(c: Seq<int>, xs1: Seq<int>, xs2: Seq<int>, q: int)
    requires
        q > 0,
        c.len() == xs1.len() == xs2.len() >= 1,
        pairwise_distinct(xs1),
        pairwise_distinct(xs2),
    ensures
        interpolate_at_zero(xs1, reduced_values(c, xs1, q), xs1.len() as int)
            == interpolate_at_zero(xs2, reduced_values(c, xs2, q), xs2.len() as int)
            <==> interpolate_at_zero(xs1, value_quotients(c, xs1, q), xs1.len() as int)
            == interpolate_at_zero(xs2, value_quotients(c, xs2, q), xs2.len() as int),
        interpolate_at_zero(xs1, value_quotients(c, xs1, q), xs1.len() as int)
            == interpolate_at_zero(xs2, value_quotients(c, xs2, q), xs2.len() as int)
            ==> reconstruction(xs1.len() as int, xs1, reduced_values(c, xs1, q)) == reconstruction(
            xs2.len() as int,
            xs2,
            reduced_values(c, xs2, q),
        ),
{
    let k = xs1.len() as int;
    let l1 = interpolate_at_zero(xs1, value_quotients(c, xs1, q), k);
    let l2 = interpolate_at_zero(xs2, value_quotients(c, xs2, q), k);
    lemma_interpolation_of_shares(c, xs1, q);
    lemma_interpolation_of_shares(c, xs2, q);
    lemma_scale(q, l1, l2);
}

/// Two choices of `k` shares of one polynomial with `k` coefficients, of
/// which no value at the chosen indices is negative or reaches `q`,
/// reconstruct the same secret.
pub proof fn law_unreduced_subsets_agree(c: Seq<int>, xs1: Seq<int>, xs2: Seq<int>, q: int)
    requires
        q > 0,
        c.len() == xs1.len() == xs2.len() >= 1,
        pairwise_distinct(xs1),
        pairwise_distinct(xs2),
        forall|i: int| 0 <= i < xs1.len() ==> 0 <= #[trigger] poly_eval(c, xs1[i]) < q,
        forall|i: int| 0 <= i < xs2.len() ==> 0 <= #[trigger] poly_eval(c, xs2[i]) < q,
    ensures
        reconstruction(xs1.len() as int, xs1, reduced_values(c, xs1, q)) == Ok::<int, SharingError>(
            c[0],
        ),
        reconstruction(xs2.len() as int, xs2, reduced_values(c, xs2, q)) == Ok::<int, SharingError>(
            c[0],
        ),
{
    law_unreduced_shares_reconstruct_secret(c, xs1, q);
    law_unreduced_shares_reconstruct_secret(c, xs2, q);
}

/// The entries of `values` at the positions `picks`, in the order of
/// `picks`.
pub open spec fn picked(values: Seq<int>, picks: Seq<int>) -> Seq<int> {
    Seq::new(picks.len(), |i: int| values[picks[i]])
}

/// The positions are positions among `n` shares, none of them named twice.
pub open spec fn is_choice(picks: Seq<int>, n: int) -> bool {
    &&& forall|i: int| 0 <= i < picks.len() ==> 0 <= #[trigger] picks[i] < n
    &&& pairwise_distinct(picks)
}

/// A choice of dealt shares holds distinct indices, and the values of the
/// polynomial at them, reduced modulo `q`.
pub proof fn lemma_picked_shares(c: Seq<int>, n: int, q: int, picks: Seq<int>)
    requires
        is_choice(picks, n),
    ensures
        pairwise_distinct(picked(dealt_xs(n), picks)),
        picked(dealt_ys(c, n, q), picks) == reduced_values(c, picked(dealt_xs(n), picks), q),
{
    let xs = picked(dealt_xs(n), picks);
    assert forall|i: int, j: int| 0 <= i < j < xs.len() implies xs[i] != xs[j] by {
        assert(picks[i] != picks[j]);
    }
    assert(picked(dealt_ys(c, n, q), picks) =~= reduced_values(c, xs, q));
}

/// Any `k` of the `n` shares dealt for a polynomial with `k` coefficients
/// reconstruct the secret exactly where the quotients of the reduction
/// interpolate to zero, as they do where the polynomial reaches `q` at none
/// of the indices chosen.
pub proof fn law_dealt_shares_reconstruct_secret(c: Seq<int>, n: int, q: int, picks: Seq<int>)
    requires
        q > 0,
        c.len() == picks.len() >= 1,
        is_choice(picks, n),
    ensures
        reconstruction(
            picks.len() as int,
            picked(dealt_xs(n), picks),
            picked(dealt_ys(c, n, q), picks),
        ) == Ok::<int, SharingError>(c[0]) <==> interpolate_at_zero(
            picked(dealt_xs(n), picks),
            value_quotients(c, picked(dealt_xs(n), picks), q),
            picks.len() as int,
        ) == 0real,
        (forall|i: int| 0 <= i < picks.len() ==> 0 <= #[trigger] poly_eval(c, picks[i] + 1) < q)
            ==> reconstruction(
            picks.len() as int,
            picked(dealt_xs(n), picks),
            picked(dealt_ys(c, n, q), picks),
        ) == Ok::<int, SharingError>(c[0]),
{
    let xs = picked(dealt_xs(n), picks);
    lemma_picked_shares(c, n, q, picks);
    law_shares_reconstruct_secret(c, xs, q);
    if forall|i: int| 0 <= i < picks.len() ==> 0 <= #[trigger] poly_eval(c, picks[i] + 1) < q {
        assert forall|i: int| 0 <= i < xs.len() implies 0 <= #[trigger] poly_eval(c, xs[i])
            < q by {
            assert(xs[i] == picks[i] + 1);
        }
        law_unreduced_shares_reconstruct_secret(c, xs, q);
    }
}

/// Two choices of `k` of the `n` shares dealt for one polynomial with `k`
/// coefficients reconstruct the same secret, where the polynomial reaches
/// `q` at none of the indices chosen.
pub proof fn law_dealt_subsets_agree(
    c: Seq<int>,
    n: int,
    q: int,
    picks1: Seq<int>,
    picks2: Seq<int>,
)
    requires
        q > 0,
        c.len() == picks1.len() == picks2.len() >= 1,
        is_choice(picks1, n),
        is_choice(picks2, n),
        forall|i: int| 0 <= i < picks1.len() ==> 0 <= #[trigger] poly_eval(c, picks1[i] + 1) < q,
        forall|i: int| 0 <= i < picks2.len() ==> 0 <= #[trigger] poly_eval(c, picks2[i] + 1) < q,
    ensures
        reconstruction(
            picks1.len() as int,
            picked(dealt_xs(n), picks1),
            picked(dealt_ys(c, n, q), picks1),
        ) == reconstruction(
            picks2.len() as int,
            picked(dealt_xs(n), picks2),
            picked(dealt_ys(c, n, q), picks2),
        ),
{
    law_dealt_shares_reconstruct_secret(c, n, q, picks1);
    law_dealt_shares_reconstruct_secret(c, n, q, picks2);
}

} // verus!
