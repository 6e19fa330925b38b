//! The boundary to the source of randomness.
//!
//! Nothing in this file is proved. The generator is `rand`'s `StdRng`, a
//! cryptographically secure generator that can be seeded; what it hands out
//! is known only to lie in the range asked for.

use vstd::prelude::*;
use num::bigint::RandBigInt;
use num::BigInt;
use rand::rngs::StdRng;
use crate::bigint::val;

verus! {

/// `rand::rngs::StdRng`, the generator that the dealer draws from.
#[verifier::external_type_specification]
#[verifier::external_body]
pub struct ExStdRng(StdRng);

/// `RandBigInt::gen_bigint_range`: an integer drawn from `low <= r < high`.
/// The method panics on an empty range, which the precondition leaves out.
/// Which integer of the range comes back is not stated, and the state that
/// the generator is left in is not either.
#[verifier::external_body]
pub(crate) fn draw_in_range(rng: &mut StdRng, low: &BigInt, high: &BigInt) -> (r: BigInt)
    requires
        val(low) < val(high),
    ensures
        val(low) <= val(&r) < val(high),
{
    rng.gen_bigint_range(low, high)
}

} // verus!
