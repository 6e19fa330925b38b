//! Threshold secret sharing with verifiable shares, over integers of
//! unbounded size.
//!
//! A dealer hides a secret as the constant term of a polynomial with `k`
//! coefficients, hands the value at `x = 1, ..., n` to one holder each, and
//! publishes a commitment to every coefficient. Any `k` holders interpolate
//! the polynomial at zero and so recover the secret; each holder can check
//! its own share against the commitments.
//!
//! - [`dealer`] makes shares and commitments, [`reconstruct`] recovers the
//!   secret, [`verify`] checks a share.
//! - [`arith`], [`poly`] and [`fraction`] hold the arithmetic they rest on:
//!   greatest common divisor and modular powers, polynomials, and exact
//!   fractions in lowest terms.
//! - [`interpolation`], [`recovery`] and [`consistency`] prove what holds
//!   between them: that interpolation at zero gives back the constant term,
//!   when dealt shares therefore give back the secret, and when a dealt
//!   share passes the check.
//! - [`bigint`] and [`random`] are the boundary to `num` and `rand`. Their
//!   contracts are believed, not proved.
//! - [`models`] and [`config`] hold the plain records of the polling service
//!   that the shares are dealt for.

pub mod arith;
pub mod bigint;
pub mod config;
pub mod consistency;
pub mod dealer;
pub mod error;
pub mod fraction;
pub mod interpolation;
pub mod models;
pub mod poly;
pub mod random;
pub mod reconstruct;
pub mod recovery;
pub mod share;
pub mod verify;
