//! The points that are handed to the holders.

use vstd::prelude::*;
use num::BigInt;
use crate::bigint::val;

verus! {

/// One point `(x, y)` of the dealer's polynomial.
#[derive(Clone, Debug, PartialEq, Eq)]
pub struct Share {
    /// The holder's index.
    pub x: BigInt,
    /// The polynomial's value at `x`.
    pub y: BigInt,
}

impl View for Share {
    type V = (int, int);

    open spec fn view(&self) -> (int, int) {
        (val(&self.x), val(&self.y))
    }
}

/// The `x` of each share.
pub open spec fn share_xs(shares: Seq<Share>) -> Seq<int> {
    Seq::new(shares.len(), |i: int| val(&shares[i].x))
}

/// The `y` of each share.
pub open spec fn share_ys(shares: Seq<Share>) -> Seq<int> {
    Seq::new(shares.len(), |i: int| val(&shares[i].y))
}

/// No two entries are equal.
pub open spec fn pairwise_distinct(xs: Seq<int>) -> bool {
    forall|i: int, j: int| 0 <= i < j < xs.len() ==> xs[i] != xs[j]
}

} // verus!
