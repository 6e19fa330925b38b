//! Why interpolation at zero gives back the constant term: the theorem that
//! reconstruction rests on, and what follows from it for shares whose values
//! were reduced by a modulus.

use vstd::prelude::*;
use crate::fraction::{ratio, whole};
use crate::poly::{lemma_poly_eval_horner, lemma_poly_eval_zero, poly_eval};
use crate::reconstruct::{basis_at_zero, basis_factor, interpolate_at_zero, lagrange_sum};

verus! {

/// No two of the entries `lo <= i < hi` are equal.
pub open spec fn distinct_between(xs: Seq<int>, lo: int, hi: int) -> bool {
    &&& 0 <= lo <= hi <= xs.len()
    &&& forall|i: int, j: int| lo <= i < j < hi ==> xs[i] != xs[j]
}

/// The values of the polynomial with the coefficients `c` at each of `xs`.
pub open spec fn poly_values(c: Seq<int>, xs: Seq<int>) -> Seq<int> {
    Seq::new(xs.len(), |i: int| poly_eval(c, xs[i]))
}

/// The quotient of the polynomial `c` by `x - a`.
pub open spec fn poly_quotient(c: Seq<int>, a: int) -> Seq<int>
    decreases c.len(),
{
    if c.len() <= 1 {
        Seq::empty()
    } else {
        seq![poly_eval(c.skip(1), a)] + poly_quotient(c.skip(1), a)
    }
}

/// The quotient has one coefficient less.
pub proof fn lemma_poly_quotient_len(c: Seq<int>, a: int)
    ensures
        poly_quotient(c, a).len() == if c.len() == 0 {
            0
        } else {
            c.len() - 1
        },
    decreases c.len(),
{
    if c.len() > 1 {
        lemma_poly_quotient_len(c.skip(1), a);
    }
}

/// Division of a polynomial by `x - a` leaves its value at `a`.
pub proof fn lemma_poly_division(c: Seq<int>, a: int, x: int)
    ensures
        poly_eval(c, x) == (x - a) * poly_eval(poly_quotient(c, a), x) + poly_eval(c, a),
    decreases c.len(),
{
    let h = poly_quotient(c, a);
    if c.len() == 0 {
        assert((x - a) * 0 == 0);
    } else if c.len() == 1 {
        lemma_poly_eval_horner(c, x);
        lemma_poly_eval_horner(c, a);
        assert(poly_eval(c.skip(1), x) == 0);
        assert(poly_eval(c.skip(1), a) == 0);
        assert(poly_eval(h, x) == 0);
        assert(x * 0 == 0 && a * 0 == 0 && (x - a) * 0 == 0);
    } else {
        let rest = c.skip(1);
        let r = poly_eval(rest, a);
        let hr = poly_quotient(rest, a);
        lemma_poly_division(rest, a, x);
        lemma_poly_eval_horner(c, x);
        lemma_poly_eval_horner(c, a);
        lemma_poly_eval_horner(h, x);
        assert(h.skip(1) =~= hr);
        assert(h[0] == r);
        let ph = poly_eval(hr, x);
        assert(c[0] + x * ((x - a) * ph + r) == (x - a) * (r + x * ph) + (c[0] + a * r))
            by (nonlinear_arith);
    }
}

/// A product of two integers, as a rational number.
proof fn lemma_whole_mul(a: int, b: int)
    ensures
        whole(a * b) == whole(a) * whole(b),
{
    assert((a * b) as real == (a as real) * (b as real)) by (nonlinear_arith);
}

/// The interpolation sum is linear in the values.
pub proof fn lemma_lagrange_sum_linear(
    xs: Seq<int>,
    ys: Seq<int>,
    c: int,
    ws: Seq<int>,
    zs: Seq<int>,
    lo: int,
    hi: int,
    m: int,
)
    requires
        forall|i: int| lo <= i < m ==> zs[i] == ys[i] + c * ws[i],
    ensures
        lagrange_sum(xs, zs, lo, hi, m) == lagrange_sum(xs, ys, lo, hi, m) + whole(c)
            * lagrange_sum(xs, ws, lo, hi, m),
    decreases m - lo,
{
    if m <= lo {
        assert(whole(c) * 0real == 0real) by (nonlinear_arith);
    } else {
        lemma_lagrange_sum_linear(xs, ys, c, ws, zs, lo, hi, m - 1);
        let b = basis_at_zero(xs, m - 1, lo, hi);
        let sy = lagrange_sum(xs, ys, lo, hi, m - 1);
        let sw = lagrange_sum(xs, ws, lo, hi, m - 1);
        let y = whole(ys[m - 1]);
        let w = whole(ws[m - 1]);
        let k = whole(c);
        lemma_whole_mul(c, ws[m - 1]);
        assert(whole(zs[m - 1]) == y + k * w);
        assert((sy + k * sw) + (y + k * w) * b == (sy + y * b) + k * (sw + w * b))
            by (nonlinear_arith);
    }
}

/// Where the values are those of `hs` times `x - a`, with `a` the last `x`
/// of the range, the sum before the last point is `-a` times the sum of `hs`
/// over the range without that point.
proof fn lemma_pivot_last_partial(
    xs: Seq<int>,
    hs: Seq<int>,
    zs: Seq<int>,
    lo: int,
    hi: int,
    m: int,
)
    requires
        distinct_between(xs, lo, hi),
        lo <= m < hi,
        forall|i: int| lo <= i < m ==> zs[i] == (xs[i] - xs[hi - 1]) * hs[i],
    ensures
        lagrange_sum(xs, zs, lo, hi, m) == whole(-xs[hi - 1]) * lagrange_sum(
            xs,
            hs,
            lo,
            hi - 1,
            m,
        ),
    decreases m - lo,
{
    let a = xs[hi - 1];
    if m <= lo {
        assert(whole(-a) * 0real == 0real) by (nonlinear_arith);
    } else {
        let i = m - 1;
        lemma_pivot_last_partial(xs, hs, zs, lo, hi, i);
        let sz = lagrange_sum(xs, zs, lo, hi, i);
        let sh = lagrange_sum(xs, hs, lo, hi - 1, i);
        let b = basis_at_zero(xs, i, lo, hi - 1);
        let d = xs[i] - a;
        assert(d != 0);
        assert(basis_at_zero(xs, i, lo, hi) == b * basis_factor(xs, i, hi - 1));
        lemma_whole_mul(d, hs[i]);
        lemma_cancel(d, -a, whole(hs[i]), b);
        assert(sz + whole(zs[i]) * (b * ratio(-a, d)) == whole(-a) * (sh + whole(hs[i]) * b))
            by (nonlinear_arith)
            requires
                sz == whole(-a) * sh,
                whole(zs[i]) * (b * ratio(-a, d)) == whole(-a) * (whole(hs[i]) * b),
        ;
    }
}

/// `d * h * (b * (n / d)) == n * (h * b)` for a `d` other than zero.
proof fn lemma_cancel(d: int, n: int, h: real, b: real)
    requires
        d != 0,
    ensures
        (whole(d) * h) * (b * ratio(n, d)) == whole(n) * (h * b),
{
    let dr = d as real;
    let nr = n as real;
    assert((dr * h) * (b * (nr / dr)) == nr * (h * b)) by (nonlinear_arith)
        requires
            dr != 0real,
    ;
}

/// Where the values are those of `hs` times `x - a`, with `a` the last `x`
/// of the range, the sum is `-a` times the sum of `hs` over the range
/// without its last point.
pub proof fn lemma_pivot_last(xs: Seq<int>, hs: Seq<int>, zs: Seq<int>, lo: int, hi: int)
    requires
        distinct_between(xs, lo, hi),
        lo < hi,
        forall|i: int| lo <= i < hi ==> zs[i] == (xs[i] - xs[hi - 1]) * hs[i],
    ensures
        lagrange_sum(xs, zs, lo, hi, hi) == whole(-xs[hi - 1]) * lagrange_sum(
            xs,
            hs,
            lo,
            hi - 1,
            hi - 1,
        ),
{
    lemma_pivot_last_partial(xs, hs, zs, lo, hi, hi - 1);
    assert(zs[hi - 1] == 0) by (nonlinear_arith)
        requires
            zs[hi - 1] == (xs[hi - 1] - xs[hi - 1]) * hs[hi - 1],
    ;
    assert(whole(0) * basis_at_zero(xs, hi - 1, lo, hi) == 0real) by (nonlinear_arith);
}

/// The first point's factor can be taken out of a basis polynomial.
proof fn lemma_basis_first(xs: Seq<int>, i: int, lo: int, hi: int)
    requires
        lo < hi,
        i != lo,
    ensures
        basis_at_zero(xs, i, lo, hi) == basis_factor(xs, i, lo) * basis_at_zero(
            xs,
            i,
            lo + 1,
            hi,
        ),
    decreases hi - lo,
{
    let f = basis_factor(xs, i, lo);
    if hi == lo + 1 {
        assert(basis_at_zero(xs, i, lo, lo) == 1real);
        assert(basis_at_zero(xs, i, lo + 1, hi) == 1real);
        assert(1real * f == f * 1real) by (nonlinear_arith);
    } else {
        lemma_basis_first(xs, i, lo, hi - 1);
        let inner = basis_at_zero(xs, i, lo + 1, hi - 1);
        if hi - 1 != i {
            let g = basis_factor(xs, i, hi - 1);
            assert((f * inner) * g == f * (inner * g)) by (nonlinear_arith);
        }
    }
}

/// Where the values are those of `hs` times `x - a`, with `a` the first `x`
/// of the range, the sum up to `m` is `-a` times the sum of `hs` over the
/// range without its first point.
proof fn lemma_pivot_first_partial(
    xs: Seq<int>,
    hs: Seq<int>,
    zs: Seq<int>,
    lo: int,
    hi: int,
    m: int,
)
    requires
        distinct_between(xs, lo, hi),
        lo < m <= hi,
        forall|i: int| lo <= i < m ==> zs[i] == (xs[i] - xs[lo]) * hs[i],
    ensures
        lagrange_sum(xs, zs, lo, hi, m) == whole(-xs[lo]) * lagrange_sum(xs, hs, lo + 1, hi, m),
    decreases m - lo,
{
    let a = xs[lo];
    if m == lo + 1 {
        assert(zs[lo] == 0) by (nonlinear_arith)
            requires
                zs[lo] == (xs[lo] - xs[lo]) * hs[lo],
        ;
        assert(lagrange_sum(xs, zs, lo, hi, lo) == 0real);
        assert(lagrange_sum(xs, hs, lo + 1, hi, m) == 0real);
        assert(whole(0) * basis_at_zero(xs, lo, lo, hi) == 0real) by (nonlinear_arith);
        assert(whole(-a) * 0real == 0real) by (nonlinear_arith);
    } else {
        let i = m - 1;
        lemma_pivot_first_partial(xs, hs, zs, lo, hi, i);
        let sz = lagrange_sum(xs, zs, lo, hi, i);
        let sh = lagrange_sum(xs, hs, lo + 1, hi, i);
        let b = basis_at_zero(xs, i, lo + 1, hi);
        let d = xs[i] - a;
        assert(d != 0);
        lemma_basis_first(xs, i, lo, hi);
        lemma_whole_mul(d, hs[i]);
        lemma_cancel(d, -a, whole(hs[i]), b);
        assert(sz + whole(zs[i]) * (ratio(-a, d) * b) == whole(-a) * (sh + whole(hs[i]) * b))
            by (nonlinear_arith)
            requires
                sz == whole(-a) * sh,
                whole(zs[i]) * (b * ratio(-a, d)) == whole(-a) * (whole(hs[i]) * b),
        ;
    }
}

/// The basis polynomials of distinct points sum to one at zero.
proof fn lemma_constant_one(xs: Seq<int>, ones: Seq<int>, lo: int, hi: int)
    requires
        distinct_between(xs, lo, hi),
        lo < hi,
        ones.len() == xs.len(),
        forall|i: int| lo <= i < hi ==> ones[i] == 1,
    ensures
        lagrange_sum(xs, ones, lo, hi, hi) == 1real,
    decreases hi - lo,
{
    let total = lagrange_sum(xs, ones, lo, hi, hi);
    if hi == lo + 1 {
        assert(lagrange_sum(xs, ones, lo, hi, lo) == 0real);
        assert(basis_at_zero(xs, lo, lo, lo) == 1real);
        assert(basis_at_zero(xs, lo, lo, hi) == 1real);
        assert(0real + whole(1) * 1real == 1real) by (nonlinear_arith);
    } else {
        let a = xs[hi - 1];
        let b = xs[lo];
        assert(a != b);
        let za = Seq::new(xs.len(), |i: int| xs[i] - a);
        let zb = Seq::new(xs.len(), |i: int| xs[i] - b);
        assert forall|i: int| lo <= i < hi implies za[i] == (xs[i] - xs[hi - 1]) * ones[i]
            && zb[i] == (xs[i] - xs[lo]) * ones[i] by {
            assert((xs[i] - a) * 1 == xs[i] - a);
            assert((xs[i] - b) * 1 == xs[i] - b);
        }
        lemma_constant_one(xs, ones, lo, hi - 1);
        lemma_constant_one(xs, ones, lo + 1, hi);
        lemma_pivot_last(xs, ones, za, lo, hi);
        lemma_pivot_first_partial(xs, ones, zb, lo, hi, hi);
        assert forall|i: int| lo <= i < hi implies za[i] == xs[i] + (-a) * ones[i] && zb[i]
            == xs[i] + (-b) * ones[i] by {
            assert((-a) * 1 == -a);
            assert((-b) * 1 == -b);
        }
        lemma_lagrange_sum_linear(xs, xs, -a, ones, za, lo, hi, hi);
        lemma_lagrange_sum_linear(xs, xs, -b, ones, zb, lo, hi, hi);
        let sx = lagrange_sum(xs, xs, lo, hi, hi);
        let ar = whole(-a);
        let br = whole(-b);
        assert(total == 1real) by (nonlinear_arith)
            requires
                sx + ar * total == ar * 1real,
                sx + br * total == br * 1real,
                ar != br,
        ;
    }
}

/// Interpolation at zero through distinct points gives the constant term of
/// a polynomial with no more coefficients than there are points.
proof fn lemma_window(xs: Seq<int>, c: Seq<int>, ys: Seq<int>, lo: int, hi: int)
    requires
        distinct_between(xs, lo, hi),
        c.len() <= hi - lo,
        ys.len() == xs.len(),
        forall|i: int| lo <= i < hi ==> ys[i] == poly_eval(c, xs[i]),
    ensures
        lagrange_sum(xs, ys, lo, hi, hi) == whole(poly_eval(c, 0)),
    decreases hi - lo,
{
    if hi <= lo {
        assert(c.len() == 0);
    } else {
        let a = xs[hi - 1];
        let h = poly_quotient(c, a);
        let r = poly_eval(c, a);
        let hs = poly_values(h, xs);
        let zs = Seq::new(xs.len(), |i: int| (xs[i] - a) * hs[i]);
        let ones = Seq::new(xs.len(), |i: int| 1int);
        lemma_poly_quotient_len(c, a);
        assert forall|i: int| lo <= i < hi implies ys[i] == zs[i] + r * ones[i] by {
            lemma_poly_division(c, a, xs[i]);
            assert(r * 1 == r);
        }
        lemma_lagrange_sum_linear(xs, zs, r, ones, ys, lo, hi, hi);
        lemma_constant_one(xs, ones, lo, hi);
        lemma_pivot_last(xs, hs, zs, lo, hi);
        lemma_window(xs, h, hs, lo, hi - 1);
        lemma_poly_division(c, a, 0);
        let h0 = poly_eval(h, 0);
        lemma_whole_mul(-a, h0);
        assert((0 - a) * h0 == (-a) * h0);
        assert(whole(r) * 1real == whole(r)) by (nonlinear_arith);
    }
}

/// Interpolation at zero through `k` distinct points of a polynomial with at
/// most `k` coefficients gives its constant term.
pub proof fn lemma_interpolation_at_zero(c: Seq<int>, xs: Seq<int>, k: int)
    requires
        distinct_between(xs, 0, k),
        c.len() <= k,
    ensures
        interpolate_at_zero(xs, poly_values(c, xs), k) == whole(poly_eval(c, 0)),
        c.len() > 0 ==> interpolate_at_zero(xs, poly_values(c, xs), k) == whole(c[0]),
{
    lemma_window(xs, c, poly_values(c, xs), 0, k);
    lemma_poly_eval_zero(c);
}

} // verus!
