//! Deterministic fixed-point arithmetic for an automated-market-maker
//! pricing model with time-varying pool weights.
//!
//! The crate has two layers: generic fixed-point transcendental
//! primitives (base-2 and natural logarithm, exponential, powers) in
//! [`transcendental`], and the pricing and weight-interpolation formulas
//! built for a liquidity bootstrapping pool in [`lbp`].

use vstd::prelude::*;

pub mod fxp;
pub mod lbp;
pub mod p12;
pub mod transcendental;
pub mod wide;

verus! {

/// The closed set of failures a pricing or interpolation call can report.
#[derive(Clone, Copy, Debug, PartialEq, Eq, Structural)]
pub enum MathError {
    /// The reserve on the input side is zero, so a denominator would be zero.
    ZeroInReserve,
    /// The weight on the output side is zero, so a power exponent is undefined.
    ZeroOutWeight,
    /// An interpolation interval has zero length.
    ZeroDuration,
    /// A checked arithmetic step overflowed, or the inputs lie outside the
    /// domain of the formula.
    Overflow,
}

} // verus!
