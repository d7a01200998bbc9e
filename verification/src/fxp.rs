//! Trusted view of the unsigned fixed-point numbers of the `fixed` crate,
//! and the [`FixedPoint`] abstraction the transcendental routines build on.
//!
//! A value of `FixedU128<Frac>` is its raw 128-bit pattern divided by
//! 2^Frac. Every contract below speaks of that raw pattern, so all
//! reasoning stays in plain integers.

use vstd::prelude::*;

verus! {

use vstd::arithmetic::power2::pow2;

#[verifier::external_type_specification]
#[verifier::external_body]
#[verifier::reject_recursive_types(Frac)]
pub struct ExFixedU128<Frac>(fixed::FixedU128<Frac>);

#[verifier::external_type_specification]
#[verifier::external_body]
pub struct ExUTerm(typenum::UTerm);

#[verifier::external_type_specification]
#[verifier::external_body]
pub struct ExB0(typenum::B0);

#[verifier::external_type_specification]
#[verifier::external_body]
pub struct ExB1(typenum::B1);

#[verifier::external_type_specification]
#[verifier::external_body]
#[verifier::reject_recursive_types(U)]
#[verifier::reject_recursive_types(B)]
pub struct ExUInt<U, B>(typenum::UInt<U, B>);

/// The raw bit pattern of a number with 64 fractional bits.
pub uninterp spec fn u64f64_bits(x: fixed::types::U64F64) -> u128;

/// The raw bit pattern of a number with 39 fractional bits.
pub uninterp spec fn u89f39_bits(x: fixed::types::U89F39) -> u128;

/// The truncated fixed-point product of two raw patterns at scale 2^f.
pub open spec fn mul_down(a: u128, b: u128, f: nat) -> int {
    (a as int) * (b as int) / (pow2(f) as int)
}

/// The truncated fixed-point quotient of two raw patterns at scale 2^f.
pub open spec fn div_down(a: u128, b: u128, f: nat) -> int {
    (a as int) * (pow2(f) as int) / (b as int)
}

/// An unsigned fixed-point representation: a raw 128-bit pattern standing
/// for the value `bits / 2^frac_n()`.
pub trait FixedPoint: Sized + Copy {
    /// The raw bit pattern: the represented value scaled by `2^frac_n()`.
    spec fn bits(self) -> u128;

    /// The number of fractional bits of the representation.
    spec fn frac_n() -> nat;

    /// Raw bits of log2(e) ~ 1.442695, rounded to the nearest representable.
    spec fn log2_e_bits() -> u128;

    /// Raw bits of Euler's number e ~ 2.718281828, rounded to the nearest
    /// representable.
    spec fn e_bits() -> u128;

    proof fn frac_bounds()
        ensures
            2 <= Self::frac_n() <= 64,
    ;

    proof fn constant_bounds()
        ensures
            pow2(Self::frac_n()) < Self::log2_e_bits() <= 2 * pow2(Self::frac_n()),
            2 * pow2(Self::frac_n()) < Self::e_bits() < 3 * pow2(Self::frac_n()),
    ;

    fn fp_from_bits(bits: u128) -> (r: Self)
        ensures
            r.bits() == bits,
    ;

    fn fp_to_bits(self) -> (r: u128)
        ensures
            r == self.bits(),
    ;

    fn fp_frac_nbits() -> (r: u32)
        ensures
            r == Self::frac_n(),
    ;

    fn fp_log2_e() -> (r: Self)
        ensures
            r.bits() == Self::log2_e_bits(),
    ;

    fn fp_euler() -> (r: Self)
        ensures
            r.bits() == Self::e_bits(),
    ;

    /// The fixed-point product, truncated toward zero, or `None` when it
    /// does not fit the representation.
    fn fp_checked_mul(self, rhs: Self) -> (r: Option<Self>)
        ensures
            match r {
                Some(v) => v.bits() == mul_down(self.bits(), rhs.bits(), Self::frac_n())
                    && mul_down(self.bits(), rhs.bits(), Self::frac_n()) <= u128::MAX,
                None => mul_down(self.bits(), rhs.bits(), Self::frac_n()) > u128::MAX,
            },
    ;

    /// The fixed-point quotient, truncated toward zero, or `None` for a
    /// zero divisor or a quotient that does not fit.
    fn fp_checked_div(self, rhs: Self) -> (r: Option<Self>)
        ensures
            match r {
                Some(v) => rhs.bits() != 0 && v.bits() == div_down(self.bits(), rhs.bits(),
                    Self::frac_n()) && div_down(self.bits(), rhs.bits(), Self::frac_n())
                    <= u128::MAX,
                None => rhs.bits() == 0 || div_down(self.bits(), rhs.bits(), Self::frac_n())
                    > u128::MAX,
            },
    ;
}

/// A checked widening between fixed-point representations: the value is
/// preserved exactly, so the raw patterns relate by the two scales.
pub trait FromFixed<S: FixedPoint>: FixedPoint {
    /// The raw pattern of `b` re-scaled from `S` to `Self`.
    spec fn widen(b: u128) -> u128;

    proof fn widen_exact(b: u128)
        ensures
            Self::widen(b) * pow2(S::frac_n()) == (b as int) * pow2(Self::frac_n()),
            Self::widen(b) <= u128::MAX,
    ;

    fn from_fixed(s: S) -> (r: Self)
        ensures
            r.bits() == Self::widen(s.bits()),
    ;
}

pub const LOG2_E_BITS_U64F64: u128 = 26613025441420401569;

pub const E_BITS_U64F64: u128 = 50143449209799256683;

pub const LOG2_E_BITS_U89F39: u128 = 793129963917;

pub const E_BITS_U89F39: u128 = 1494391238981;

/// Relies on `FixedU128::from_bits`: the bit pattern is stored as given.
#[verifier::external_body]
fn u64f64_from_bits(bits: u128) -> (r: fixed::types::U64F64)
    ensures
        u64f64_bits(r) == bits,
{
    fixed::types::U64F64::from_bits(bits)
}

/// Relies on `FixedU128::to_bits`: the stored bit pattern is returned.
#[verifier::external_body]
fn u64f64_to_bits(x: fixed::types::U64F64) -> (r: u128)
    ensures
        r == u64f64_bits(x),
{
    x.to_bits()
}

/// Relies on `FixedU128::checked_mul`: the product truncated toward zero,
/// `None` when it does not fit into 128 bits.
#[verifier::external_body]
fn u64f64_checked_mul(a: fixed::types::U64F64, b: fixed::types::U64F64) -> (r: Option<fixed::types::U64F64>)
    ensures
        match r {
            Some(v) => u64f64_bits(v) == mul_down(u64f64_bits(a), u64f64_bits(b), 64)
                && mul_down(u64f64_bits(a), u64f64_bits(b), 64) <= u128::MAX,
            None => mul_down(u64f64_bits(a), u64f64_bits(b), 64) > u128::MAX,
        },
{
    a.checked_mul(b)
}

/// Relies on `FixedU128::checked_div`: the quotient truncated toward zero,
/// `None` for a zero divisor or a quotient past 128 bits.
#[verifier::external_body]
fn u64f64_checked_div(a: fixed::types::U64F64, b: fixed::types::U64F64) -> (r: Option<fixed::types::U64F64>)
    ensures
        match r {
            Some(v) => u64f64_bits(b) != 0 && u64f64_bits(v) == div_down(u64f64_bits(a), u64f64_bits(b),
                64) && div_down(u64f64_bits(a), u64f64_bits(b), 64) <= u128::MAX,
            None => u64f64_bits(b) == 0 || div_down(u64f64_bits(a), u64f64_bits(b), 64)
                > u128::MAX,
        },
{
    a.checked_div(b)
}

impl FixedPoint for fixed::types::U64F64 {
    open spec fn bits(self) -> u128 {
        u64f64_bits(self)
    }

    open spec fn frac_n() -> nat {
        64
    }

    open spec fn log2_e_bits() -> u128 {
        LOG2_E_BITS_U64F64
    }

    open spec fn e_bits() -> u128 {
        E_BITS_U64F64
    }

    proof fn frac_bounds() {
    }

    proof fn constant_bounds() {
        vstd::arithmetic::power2::lemma2_to64();
        vstd::arithmetic::power2::lemma2_to64_rest();
    }

    fn fp_from_bits(bits: u128) -> (r: Self) {
        u64f64_from_bits(bits)
    }

    fn fp_to_bits(self) -> (r: u128) {
        u64f64_to_bits(self)
    }

    fn fp_frac_nbits() -> (r: u32) {
        64
    }

    fn fp_log2_e() -> (r: Self) {
        u64f64_from_bits(LOG2_E_BITS_U64F64)
    }

    fn fp_euler() -> (r: Self) {
        u64f64_from_bits(E_BITS_U64F64)
    }

    fn fp_checked_mul(self, rhs: Self) -> (r: Option<Self>) {
        u64f64_checked_mul(self, rhs)
    }

    fn fp_checked_div(self, rhs: Self) -> (r: Option<Self>) {
        u64f64_checked_div(self, rhs)
    }
}

impl FromFixed<fixed::types::U64F64> for fixed::types::U64F64 {
    open spec fn widen(b: u128) -> u128 {
        b
    }

    proof fn widen_exact(b: u128) {
    }

    fn from_fixed(s: fixed::types::U64F64) -> (r: Self) {
        s
    }
}

/// Relies on `FixedU128::from_bits`: the bit pattern is stored as given.
#[verifier::external_body]
fn u89f39_from_bits(bits: u128) -> (r: fixed::types::U89F39)
    ensures
        u89f39_bits(r) == bits,
{
    fixed::types::U89F39::from_bits(bits)
}

/// Relies on `FixedU128::to_bits`: the stored bit pattern is returned.
#[verifier::external_body]
fn u89f39_to_bits(x: fixed::types::U89F39) -> (r: u128)
    ensures
        r == u89f39_bits(x),
{
    x.to_bits()
}

/// Relies on `FixedU128::checked_mul`: the product truncated toward zero,
/// `None` when it does not fit into 128 bits.
#[verifier::external_body]
fn u89f39_checked_mul(a: fixed::types::U89F39, b: fixed::types::U89F39) -> (r: Option<fixed::types::U89F39>)
    ensures
        match r {
            Some(v) => u89f39_bits(v) == mul_down(u89f39_bits(a), u89f39_bits(b), 39)
                && mul_down(u89f39_bits(a), u89f39_bits(b), 39) <= u128::MAX,
            None => mul_down(u89f39_bits(a), u89f39_bits(b), 39) > u128::MAX,
        },
{
    a.checked_mul(b)
}

/// Relies on `FixedU128::checked_div`: the quotient truncated toward zero,
/// `None` for a zero divisor or a quotient past 128 bits.
#[verifier::external_body]
fn u89f39_checked_div(a: fixed::types::U89F39, b: fixed::types::U89F39) -> (r: Option<fixed::types::U89F39>)
    ensures
        match r {
            Some(v) => u89f39_bits(b) != 0 && u89f39_bits(v) == div_down(u89f39_bits(a), u89f39_bits(b),
                39) && div_down(u89f39_bits(a), u89f39_bits(b), 39) <= u128::MAX,
            None => u89f39_bits(b) == 0 || div_down(u89f39_bits(a), u89f39_bits(b), 39)
                > u128::MAX,
        },
{
    a.checked_div(b)
}

impl FixedPoint for fixed::types::U89F39 {
    open spec fn bits(self) -> u128 {
        u89f39_bits(self)
    }

    open spec fn frac_n() -> nat {
        39
    }

    open spec fn log2_e_bits() -> u128 {
        LOG2_E_BITS_U89F39
    }

    open spec fn e_bits() -> u128 {
        E_BITS_U89F39
    }

    proof fn frac_bounds() {
    }

    proof fn constant_bounds() {
        vstd::arithmetic::power2::lemma2_to64();
        vstd::arithmetic::power2::lemma2_to64_rest();
    }

    fn fp_from_bits(bits: u128) -> (r: Self) {
        u89f39_from_bits(bits)
    }

    fn fp_to_bits(self) -> (r: u128) {
        u89f39_to_bits(self)
    }

    fn fp_frac_nbits() -> (r: u32) {
        39
    }

    fn fp_log2_e() -> (r: Self) {
        u89f39_from_bits(LOG2_E_BITS_U89F39)
    }

    fn fp_euler() -> (r: Self) {
        u89f39_from_bits(E_BITS_U89F39)
    }

    fn fp_checked_mul(self, rhs: Self) -> (r: Option<Self>) {
        u89f39_checked_mul(self, rhs)
    }

    fn fp_checked_div(self, rhs: Self) -> (r: Option<Self>) {
        u89f39_checked_div(self, rhs)
    }
}

impl FromFixed<fixed::types::U89F39> for fixed::types::U89F39 {
    open spec fn widen(b: u128) -> u128 {
        b
    }

    proof fn widen_exact(b: u128) {
    }

    fn from_fixed(s: fixed::types::U89F39) -> (r: Self) {
        s
    }
}

} // verus!
