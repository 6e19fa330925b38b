//! The boundary to `num`'s arbitrary-precision integers.
//!
//! Nothing in this file is proved. `BigInt` is opaque to the verifier; [`val`]
//! names the mathematical integer that a `BigInt` holds, and each function
//! below hands one operation of `BigInt` to verified code, with a contract
//! that restates over [`val`] what the operation computes.

use vstd::prelude::*;
use num::BigInt;

verus! {

/// `num::BigInt`, a signed integer of unbounded size.
#[verifier::external_type_specification]
#[verifier::external_body]
pub struct ExBigInt(BigInt);

/// The integer that `a` holds.
pub uninterp spec fn val(a: &BigInt) -> int;

/// The quotient of `a` by `b`, rounded towards zero.
pub open spec fn trunc_div(a: int, b: int) -> int
    recommends
        b != 0,
{
    if a >= 0 {
        if b > 0 {
            a / b
        } else {
            -(a / (-b))
        }
    } else {
        if b > 0 {
            -((-a) / b)
        } else {
            (-a) / (-b)
        }
    }
}

/// The remainder that goes with [`trunc_div`]: zero, or of the sign of `a`.
pub open spec fn trunc_rem(a: int, b: int) -> int
    recommends
        b != 0,
{
    if a >= 0 {
        if b > 0 {
            a % b
        } else {
            a % (-b)
        }
    } else {
        if b > 0 {
            -((-a) % b)
        } else {
            -((-a) % (-b))
        }
    }
}

/// `BigInt::from` on a `u64`: the `BigInt` that holds `x`.
#[verifier::external_body]
pub(crate) fn big_from_u64(x: u64) -> (r: BigInt)
    ensures
        val(&r) == x,
{
    BigInt::from(x)
}

/// `BigInt::clone`: a second `BigInt` that holds the same integer.
pub assume_specification[ <BigInt as Clone>::clone ](a: &BigInt) -> (r: BigInt)
    ensures
        val(&r) == val(a),
;

/// `&BigInt + &BigInt`: the sum.
#[verifier::external_body]
pub(crate) fn big_add(a: &BigInt, b: &BigInt) -> (r: BigInt)
    ensures
        val(&r) == val(a) + val(b),
{
    a + b
}

/// `&BigInt - &BigInt`: the difference.
#[verifier::external_body]
pub(crate) fn big_sub(a: &BigInt, b: &BigInt) -> (r: BigInt)
    ensures
        val(&r) == val(a) - val(b),
{
    a - b
}

/// `&BigInt * &BigInt`: the product.
#[verifier::external_body]
pub(crate) fn big_mul(a: &BigInt, b: &BigInt) -> (r: BigInt)
    ensures
        val(&r) == val(a) * val(b),
{
    a * b
}

/// `&BigInt / &BigInt`: the quotient rounded towards zero. The operator panics
/// on a zero divisor, which the precondition leaves out.
#[verifier::external_body]
pub(crate) fn big_div(a: &BigInt, b: &BigInt) -> (r: BigInt)
    requires
        val(b) != 0,
    ensures
        val(&r) == trunc_div(val(a), val(b)),
{
    a / b
}

/// `&BigInt % &BigInt`: the remainder of the division rounded towards zero, so
/// a remainder that is not zero has the sign of `a`. The operator panics on a
/// zero divisor, which the precondition leaves out.
#[verifier::external_body]
pub(crate) fn big_rem(a: &BigInt, b: &BigInt) -> (r: BigInt)
    requires
        val(b) != 0,
    ensures
        val(&r) == trunc_rem(val(a), val(b)),
{
    a % b
}

/// `BigInt`'s `==`: whether both hold the same integer.
#[verifier::external_body]
pub(crate) fn big_eq(a: &BigInt, b: &BigInt) -> (r: bool)
    ensures
        r == (val(a) == val(b)),
{
    a == b
}

/// `BigInt`'s `<`: whether `a` holds the smaller integer.
#[verifier::external_body]
pub(crate) fn big_lt(a: &BigInt, b: &BigInt) -> (r: bool)
    ensures
        r == (val(a) < val(b)),
{
    a < b
}

} // verus!
