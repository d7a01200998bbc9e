//! Trusted view of the 256-bit unsigned integers of `primitive_types`.
//!
//! The pricing formulas scale 128-bit balances by a fixed decimal unit, so
//! their intermediate products need up to 256 bits. Each wrapper below
//! relies on one operation of `primitive_types::U256` and states its value
//! through the abstract valuation [`u256_val`].

use vstd::prelude::*;

verus! {

#[verifier::external_type_specification]
#[verifier::external_body]
pub struct ExU256(primitive_types::U256);

/// The numeric value held by a 256-bit unsigned integer.
pub uninterp spec fn u256_val(x: primitive_types::U256) -> nat;

/// 2^256, one past the largest value a `U256` holds.
pub open spec fn p256() -> int {
    0x10000000000000000000000000000000000000000000000000000000000000000int
}

/// Relies on `U256::from::<u128>`: widening conversion, value preserved.
#[verifier::external_body]
pub(crate) fn u256_from(v: u128) -> (r: primitive_types::U256)
    ensures
        u256_val(r) == v,
{
    primitive_types::U256::from(v)
}

/// Relies on `u128::try_from::<U256>`: succeeds exactly when the value fits
/// into 128 bits, and then preserves it.
#[verifier::external_body]
pub(crate) fn u256_to_u128(x: primitive_types::U256) -> (r: Option<u128>)
    ensures
        match r {
            Some(v) => u256_val(x) == v,
            None => u256_val(x) > u128::MAX,
        },
{
    match u128::try_from(x) {
        Ok(v) => Some(v),
        Err(_) => None,
    }
}

/// Relies on `U256::checked_add`: the exact sum, or `None` past 2^256 - 1.
#[verifier::external_body]
pub(crate) fn u256_checked_add(
    a: primitive_types::U256,
    b: primitive_types::U256,
) -> (r: Option<primitive_types::U256>)
    ensures
        match r {
            Some(v) => u256_val(v) == u256_val(a) + u256_val(b) && u256_val(a) + u256_val(b)
                < p256(),
            None => u256_val(a) + u256_val(b) >= p256(),
        },
{
    a.checked_add(b)
}

/// Relies on `U256::checked_sub`: the exact difference, or `None` when the
/// subtrahend is larger.
#[verifier::external_body]
pub(crate) fn u256_checked_sub(
    a: primitive_types::U256,
    b: primitive_types::U256,
) -> (r: Option<primitive_types::U256>)
    ensures
        match r {
            Some(v) => u256_val(a) >= u256_val(b) && u256_val(v) == u256_val(a) - u256_val(b),
            None => u256_val(a) < u256_val(b),
        },
{
    a.checked_sub(b)
}

/// Relies on `U256::checked_mul`: the exact product, or `None` past 2^256 - 1.
#[verifier::external_body]
pub(crate) fn u256_checked_mul(
    a: primitive_types::U256,
    b: primitive_types::U256,
) -> (r: Option<primitive_types::U256>)
    ensures
        match r {
            Some(v) => u256_val(v) == u256_val(a) * u256_val(b) && u256_val(a) * u256_val(b)
                < p256(),
            None => u256_val(a) * u256_val(b) >= p256(),
        },
{
    a.checked_mul(b)
}

/// Relies on `U256::checked_div`: the quotient rounded toward zero, or
/// `None` for a zero divisor.
#[verifier::external_body]
pub(crate) fn u256_checked_div(
    a: primitive_types::U256,
    b: primitive_types::U256,
) -> (r: Option<primitive_types::U256>)
    ensures
        match r {
            Some(v) => u256_val(b) != 0 && u256_val(v) == u256_val(a) as int / u256_val(b) as int
                && u256_val(v) <= u256_val(a),
            None => u256_val(b) == 0,
        },
{
    a.checked_div(b)
}

/// Relies on `U256::rem`: the remainder of division by a non-zero divisor.
#[verifier::external_body]
pub(crate) fn u256_rem(a: primitive_types::U256, b: primitive_types::U256) -> (r:
    primitive_types::U256)
    requires
        u256_val(b) != 0,
    ensures
        u256_val(r) == u256_val(a) as int % u256_val(b) as int,
{
    a % b
}

/// Relies on `Ord::lt` of `U256`: comparison agrees with the values.
#[verifier::external_body]
pub(crate) fn u256_lt(a: primitive_types::U256, b: primitive_types::U256) -> (r: bool)
    ensures
        r == (u256_val(a) < u256_val(b)),
{
    a < b
}

/// Whether two 256-bit integers hold the same value.
pub(crate) fn u256_eq(a: primitive_types::U256, b: primitive_types::U256) -> (r: bool)
    ensures
        r == (u256_val(a) == u256_val(b)),
{
    !u256_lt(a, b) && !u256_lt(b, a)
}

/// Whether the first value is at least the second.
pub(crate) fn u256_ge(a: primitive_types::U256, b: primitive_types::U256) -> (r: bool)
    ensures
        r == (u256_val(a) >= u256_val(b)),
{
    !u256_lt(a, b)
}

} // verus!
