//! Fixed-point transcendental primitives: base-2 and natural logarithm,
//! exponential, and real and integer powers.
//!
//! Each executable function is specified against a spec-level mirror of its
//! algorithm over raw bit patterns, so the results are pinned bit for bit.

use crate::fxp::div_down;
use crate::fxp::mul_down;
use crate::fxp::FixedPoint;
use crate::fxp::FromFixed;
use vstd::prelude::*;

verus! {

use vstd::arithmetic::power2::pow2;
use vstd::arithmetic::power2::lemma_pow2_adds;
use vstd::arithmetic::power2::lemma_pow2_pos;
use vstd::arithmetic::power2::lemma_pow2_strictly_increases;
use vstd::arithmetic::power2::lemma2_to64;
use vstd::arithmetic::power2::lemma2_to64_rest;
use vstd::arithmetic::div_mod::lemma_fundamental_div_mod;
use vstd::arithmetic::div_mod::lemma_fundamental_div_mod_converse;
use vstd::arithmetic::mul::lemma_mul_inequality;

// ===== spec-level mirrors of the algorithms =====

/// One rounded halving: shift right by one and add the dropped bit back.
pub open spec fn spec_rs(b: nat) -> nat {
    (b / 2 + b % 2) as nat
}

/// Repeated rounded halving while the value is at least `two`; yields the
/// number of halvings taken and the remainder in `[1, two)`.
pub open spec fn spec_halvings(b: nat, two: nat) -> (nat, nat)
    decreases b,
{
    if two >= 2 && b >= two {
        let r = spec_halvings(spec_rs(b), two);
        ((r.0 + 1) as nat, r.1)
    } else {
        (0nat, b)
    }
}

/// The fractional-bit extraction: square the remainder, emit a bit, and
/// halve back into range when the square reached two.
pub open spec fn spec_frac_steps(x: nat, acc: nat, k: nat, f: nat) -> (nat, nat)
    decreases k,
{
    if k == 0 {
        (x, acc)
    } else {
        let sq = (x * x) / pow2(f);
        if sq >= 2 * pow2(f) {
            spec_frac_steps(spec_rs(sq), acc * 2 + 1, (k - 1) as nat, f)
        } else {
            spec_frac_steps(sq, acc * 2, (k - 1) as nat, f)
        }
    }
}

/// The base-2 logarithm bit pattern of a value of at least one.
pub open spec fn spec_log2_inner(b: nat, f: nat) -> nat {
    let h = spec_halvings(b, 2 * pow2(f));
    if h.1 == pow2(f) {
        (h.0 * pow2(f)) as nat
    } else {
        spec_frac_steps(h.1, h.0, f, f).1
    }
}

/// The truncated fixed-point reciprocal of a positive value below one.
pub open spec fn spec_recip(b: nat, f: nat) -> nat {
    pow2(f) * pow2(f) / b
}

/// What `log2` returns over widened bits: the magnitude pattern and a flag
/// that is set exactly when the operand lies below one. A zero operand is
/// undefined, and an operand below one whose reciprocal does not fit the
/// representation cannot be inverted; both are errors.
pub open spec fn spec_log2(bd: nat, f: nat) -> Result<(nat, bool), ()> {
    if bd == 0 {
        Err(())
    } else if bd < pow2(f) {
        if spec_recip(bd, f) > u128::MAX {
            Err(())
        } else {
            Ok((spec_log2_inner(spec_recip(bd, f), f), true))
        }
    } else {
        Ok((spec_log2_inner(bd, f), false))
    }
}

/// What `ln` returns: the base-2 logarithm divided by the stored log2(e).
pub open spec fn spec_ln(bd: nat, f: nat, lg2e: nat) -> Result<(nat, bool), ()> {
    match spec_log2(bd, f) {
        Err(e) => Err(e),
        Ok(p) => Ok(((p.0 * pow2(f) / lg2e) as nat, p.1)),
    }
}

/// The Taylor summation of exp: term i is the previous term times the
/// operand, divided by i; the sum accumulates until the fractional width.
pub open spec fn spec_taylor(bd: nat, term: nat, acc: nat, i: nat, f: nat) -> Result<nat, ()>
    decreases f - i,
{
    if i >= f {
        Ok(acc)
    } else {
        let t1 = term * bd / pow2(f);
        if t1 > u128::MAX {
            Err(())
        } else {
            let t2 = t1 / i;
            if acc + t2 > u128::MAX {
                Err(())
            } else {
                spec_taylor(bd, t2 as nat, (acc + t2) as nat, i + 1, f)
            }
        }
    }
}

/// What `exp` returns over widened bits.
pub open spec fn spec_exp(bd: nat, f: nat, neg: bool, ebits: nat) -> Result<nat, ()> {
    if bd == 0 {
        Ok(pow2(f))
    } else if bd == pow2(f) && !neg {
        Ok(ebits)
    } else if bd + pow2(f) > u128::MAX {
        Err(())
    } else {
        match spec_taylor(bd, bd, (bd + pow2(f)) as nat, 2, f) {
            Err(e) => Err(e),
            Ok(acc) => if neg {
                Ok((pow2(f) * pow2(f) / acc) as nat)
            } else {
                Ok(acc)
            },
        }
    }
}

/// What `pow` returns over widened bits.
pub open spec fn spec_pow(bop: nat, bexp: nat, f: nat, lg2e: nat, ebits: nat) -> Result<nat, ()> {
    if bop == 0 {
        Ok(0)
    } else if bexp == 0 {
        Ok(pow2(f))
    } else if bexp == pow2(f) {
        Ok(bop)
    } else {
        match spec_ln(bop, f, lg2e) {
            Err(e) => Err(e),
            Ok(p) => {
                let r1 = p.0 * bexp / pow2(f);
                if r1 > u128::MAX {
                    Err(())
                } else {
                    spec_exp(r1 as nat, f, p.1, ebits)
                }
            },
        }
    }
}

/// The iterated truncated products of `powi`.
pub open spec fn spec_powi_steps(acc: nat, b: nat, k: nat, f: nat) -> Result<nat, ()>
    decreases k,
{
    if k == 0 {
        Ok(acc)
    } else {
        let p = acc * b / pow2(f);
        if p > u128::MAX {
            Err(())
        } else {
            spec_powi_steps(p as nat, b, (k - 1) as nat, f)
        }
    }
}

/// What `powi` returns over widened bits: `exponent - 1` truncated
/// multiplications starting from the operand.
pub open spec fn spec_powi(bd: nat, e: nat, f: nat) -> Result<nat, ()> {
    if bd == 0 {
        Ok(0)
    } else if e == 0 {
        Ok(pow2(f))
    } else if e == 1 {
        Ok(bd)
    } else {
        spec_powi_steps(bd, bd, (e - 1) as nat, f)
    }
}

// ===== shared lemmas and helpers =====

proof fn lemma_pow2_values()
    ensures
        pow2(7) == 0x80,
        pow2(32) == 0x100000000,
        pow2(64) == 0x10000000000000000,
        pow2(71) == 0x800000000000000000,
        pow2(127) == 0x80000000000000000000000000000000,
        pow2(128) == 0x100000000000000000000000000000000,
{
    lemma2_to64();
    lemma2_to64_rest();
    lemma_pow2_adds(64, 7);
    lemma_pow2_adds(64, 63);
    lemma_pow2_adds(64, 64);
}

proof fn lemma_pow2_le(a: nat, b: nat)
    requires
        a <= b,
    ensures
        pow2(a) <= pow2(b),
{
    if a < b {
        lemma_pow2_strictly_increases(a, b);
    }
}

/// A common factor of numerator and denominator cancels under truncated
/// division.
proof fn lemma_div_common_factor(a: int, b: int, c: int)
    requires
        b > 0,
        c > 0,
        a >= 0,
    ensures
        (a * c) / (b * c) == a / b,
{
    let q = a / b;
    let r = a % b;
    lemma_fundamental_div_mod(a, b);
    assert(a * c == q * (b * c) + r * c) by (nonlinear_arith)
        requires
            a == q * b + r,
    ;
    assert(0 <= r * c < b * c) by (nonlinear_arith)
        requires
            0 <= r < b,
            c > 0,
    ;
    lemma_fundamental_div_mod_converse(a * c, b * c, q, r * c);
}

/// 2^k as a 128-bit integer.
#[verifier::loop_isolation(false)]
fn pow2_u128(k: u32) -> (r: u128)
    requires
        k < 128,
    ensures
        r == pow2(k as nat),
{
    proof {
        lemma2_to64();
    }
    let mut r: u128 = 1;
    let mut i: u32 = 0;
    while i < k
        invariant
            i <= k,
            k < 128,
            r == pow2(i as nat),
        decreases k - i,
    {
        proof {
            lemma_pow2_values();
            lemma_pow2_le((i + 1) as nat, 127);
            lemma_pow2_adds(i as nat, 1);
            lemma2_to64();
        }
        r = r * 2;
        i = i + 1;
    }
    r
}

/// The fixed-point pattern of a small whole number.
fn from_units<T: FixedPoint>(n: u32) -> (r: T)
    ensures
        r.bits() == (n as int) * pow2(T::frac_n()),
{
    proof {
        T::frac_bounds();
        lemma_pow2_values();
        lemma_pow2_le(T::frac_n(), 64);
        assert((n as int) * pow2(T::frac_n()) <= 0xffffffff * 0x10000000000000000)
            by (nonlinear_arith)
            requires
                n <= 0xffffffffu32,
                pow2(T::frac_n()) <= 0x10000000000000000,
        ;
    }
    let f = T::fp_frac_nbits();
    let p = pow2_u128(f);
    T::fp_from_bits((n as u128) * p)
}

/// Rounded right shift: the halving step of the logarithm, with the
/// dropped bit added back so iterated halving does not drift down.
fn rs_fixed<T: FixedPoint>(x: T) -> (r: T)
    ensures
        r.bits() == spec_rs(x.bits() as nat),
{
    let b = x.fp_to_bits();
    T::fp_from_bits(b / 2 + b % 2)
}

/// Base-2 logarithm of an operand of at least one, by halving out the
/// integer part and then extracting one fractional bit per squaring.
#[verifier::loop_isolation(false)]
fn log2_inner<T: FixedPoint>(operand: T) -> (r: T)
    requires
        operand.bits() >= pow2(T::frac_n()),
    ensures
        r.bits() == spec_log2_inner(operand.bits() as nat, T::frac_n()),
{
    proof {
        T::frac_bounds();
        lemma_pow2_values();
        lemma_pow2_le(T::frac_n(), 64);
        lemma_pow2_pos(T::frac_n());
    }
    let f = T::fp_frac_nbits();
    let one_b = pow2_u128(f);
    let two_b = 2 * one_b;
    let ghost fnat = T::frac_n();
    let ghost twon = (2 * pow2(fnat)) as nat;
    let ghost b0 = operand.bits() as nat;
    let mut x = operand;
    let mut xb = x.fp_to_bits();
    let mut count: u128 = 0;
    proof {
        assert(pow2(0) == 1) by {
            lemma2_to64();
        }
    }
    while xb >= two_b
        invariant
            xb == x.bits(),
            xb >= pow2(fnat),
            fnat == T::frac_n(),
            2 <= fnat <= 64,
            one_b == pow2(fnat),
            two_b == twon,
            twon == 2 * pow2(fnat),
            b0 <= u128::MAX,
            spec_halvings(xb as nat, twon).0 + count == spec_halvings(b0, twon).0,
            spec_halvings(xb as nat, twon).1 == spec_halvings(b0, twon).1,
            (xb - 1) * pow2(count as nat) <= b0 - 1,
            count <= 127,
        decreases xb,
    {
        proof {
            lemma_pow2_values();
            lemma_pow2_pos(fnat);
            lemma_pow2_le(2, fnat);
            lemma2_to64();
            assert(xb >= 8) by {
                assert(pow2(2) == 4);
            }
            // one unfolding of the halving recursion
            assert(spec_halvings(xb as nat, twon) == ((spec_halvings(spec_rs(xb as nat), twon).0
                + 1) as nat, spec_halvings(spec_rs(xb as nat), twon).1));
            // the remainder stays at least one
            assert(spec_rs(xb as nat) >= pow2(fnat));
            // the potential keeps the halving count below 128
            assert(2 * (spec_rs(xb as nat) - 1) <= xb - 1);
            lemma_mul_inequality(
                2 * (spec_rs(xb as nat) - 1),
                xb - 1,
                pow2(count as nat) as int,
            );
            lemma_pow2_adds(count as nat, 1);
            assert((spec_rs(xb as nat) - 1) * pow2((count + 1) as nat) == (2 * (spec_rs(
                xb as nat,
            ) - 1)) * pow2(count as nat)) by (nonlinear_arith)
                requires
                    pow2((count + 1) as nat) == 2 * pow2(count as nat),
            ;
            if count == 127 {
                assert((xb - 1) * pow2(count as nat) >= 3 * pow2(127)) by (nonlinear_arith)
                    requires
                        xb >= 4,
                        pow2(count as nat) == pow2(127),
                ;
                assert(false);
            }
        }
        count = count + 1;
        x = rs_fixed(x);
        xb = x.fp_to_bits();
    }
    proof {
        // past the loop the guard is false, so the recursion stops here
        assert(spec_halvings(xb as nat, twon) == (0nat, xb as nat));
    }
    if xb == one_b {
        proof {
            lemma_pow2_values();
            assert(count * pow2(fnat) <= 127 * pow2(64)) by (nonlinear_arith)
                requires
                    count <= 127,
                    0 <= pow2(fnat) <= pow2(64),
            ;
        }
        return T::fp_from_bits(count * one_b);
    }
    let ghost x1 = xb as nat;
    let ghost c0 = count as nat;
    let mut acc: u128 = count;
    let mut i: u32 = 0;
    proof {
        lemma_pow2_values();
        lemma_pow2_le(7, (8 + i) as nat);
    }
    while i < f
        invariant
            i <= f,
            f == fnat,
            fnat == T::frac_n(),
            2 <= fnat <= 64,
            one_b == pow2(fnat),
            two_b == 2 * pow2(fnat),
            xb == x.bits(),
            pow2(fnat) <= xb <= 2 * pow2(fnat),
            acc < pow2((8 + i) as nat),
            spec_frac_steps(xb as nat, acc as nat, (f - i) as nat, fnat) == spec_frac_steps(
                x1,
                c0,
                fnat,
                fnat,
            ),
        decreases f - i,
    {
        proof {
            lemma_pow2_values();
            lemma_pow2_adds(fnat, fnat);
            assert(xb * xb <= ((4 * pow2(fnat)) * pow2(fnat)) as int) by (nonlinear_arith)
                requires
                    0 <= xb <= 2 * pow2(fnat),
            ;
            lemma_pow2_pos(fnat);
            vstd::arithmetic::div_mod::lemma_div_multiples_vanish(
                4 * (pow2(fnat) as int),
                pow2(fnat) as int,
            );
            assert((pow2(fnat) as int) * (4 * (pow2(fnat) as int)) == (4 * pow2(fnat)) * pow2(
                fnat,
            )) by (nonlinear_arith);
            vstd::arithmetic::div_mod::lemma_div_is_ordered(
                (xb * xb) as int,
                ((4 * pow2(fnat)) * pow2(fnat)) as int,
                pow2(fnat) as int,
            );
            assert(xb * xb >= xb * pow2(fnat)) by (nonlinear_arith)
                requires
                    xb >= pow2(fnat),
            ;
            vstd::arithmetic::div_mod::lemma_div_is_ordered(
                (xb * pow2(fnat)) as int,
                (xb * xb) as int,
                pow2(fnat) as int,
            );
            vstd::arithmetic::div_mod::lemma_div_multiples_vanish(
                xb as int,
                pow2(fnat) as int,
            );
            assert(mul_down(xb, xb, fnat) >= xb);
            assert(mul_down(xb, xb, fnat) <= 4 * pow2(fnat));
            assert(4 * pow2(fnat) <= u128::MAX) by {
                lemma_pow2_le(fnat, 64);
            }
        }
        let sq_opt = x.fp_checked_mul(x);
        let xsq = match sq_opt {
            Some(v) => v,
            None => {
                proof {
                    assert(false);
                }
                x
            },
        };
        let sqb = xsq.fp_to_bits();
        proof {
            lemma_pow2_adds((8 + i) as nat, 1);
            lemma_pow2_le((9 + i) as nat, 73);
            lemma_pow2_values();
            lemma_pow2_adds(64, 9);
            assert(pow2(73) == pow2(64) * pow2(9)) by {
                lemma_pow2_adds(64, 9);
            }
            lemma2_to64();
        }
        acc = acc * 2;
        if sqb >= two_b {
            acc = acc + 1;
            x = rs_fixed(xsq);
        } else {
            x = xsq;
        }
        xb = x.fp_to_bits();
        i = i + 1;
    }
    proof {
        assert(spec_frac_steps(xb as nat, acc as nat, 0, fnat).1 == acc);
    }
    T::fp_from_bits(acc)
}

/// Base-2 logarithm.
///
/// Returns the magnitude and a flag that is true exactly when the operand
/// is below one, where the logical logarithm is negative. Fails exactly
/// when the operand is zero, or lies below one with a reciprocal too
/// large for the representation.
pub fn log2<S: FixedPoint, D: FromFixed<S>>(operand: S) -> (r: Result<(D, bool), ()>)
    ensures
        ({
            let bd = <D as FromFixed<S>>::widen(operand.bits()) as nat;
            match spec_log2(bd, D::frac_n()) {
                Ok(p) => r matches Ok(q) && q.0.bits() == p.0 && q.1 == p.1,
                Err(e) => r is Err,
            }
        }),
{
    proof {
        S::frac_bounds();
        D::frac_bounds();
        lemma_pow2_pos(S::frac_n());
        lemma_pow2_pos(D::frac_n());
        <D as FromFixed<S>>::widen_exact(operand.bits());
        let wb = <D as FromFixed<S>>::widen(operand.bits());
        assert((wb == 0) == (operand.bits() == 0)) by (nonlinear_arith)
            requires
                wb * pow2(S::frac_n()) == (operand.bits() as int) * pow2(D::frac_n()),
                pow2(S::frac_n()) > 0,
                pow2(D::frac_n()) > 0,
                wb >= 0,
        ;
    }
    let sb = operand.fp_to_bits();
    if sb == 0 {
        return Err(());
    }
    let d: D = D::from_fixed(operand);
    let db = d.fp_to_bits();
    let f = D::fp_frac_nbits();
    let one_b = pow2_u128(f);
    if db < one_b {
        let one_d: D = D::fp_from_bits(one_b);
        proof {
            lemma_pow2_pos(D::frac_n());
        }
        let inv_opt = one_d.fp_checked_div(d);
        let inv = match inv_opt {
            Some(v) => v,
            None => {
                proof {
                    // an overflowing quotient of one is an unrepresentable
                    // reciprocal, which the specification maps to an error
                    assert(spec_recip(db as nat, D::frac_n()) > u128::MAX);
                }
                return Err(());
            },
        };
        proof {
            let fd = D::frac_n();
            let q = spec_recip(db as nat, fd);
            assert(q <= u128::MAX);
            lemma_fundamental_div_mod((pow2(fd) * pow2(fd)) as int, db as int);
            assert(q >= pow2(fd)) by (nonlinear_arith)
                requires
                    pow2(fd) * pow2(fd) == (q as int) * db + ((pow2(fd) * pow2(fd)) as int % (
                    db as int)),
                    0 <= (pow2(fd) * pow2(fd)) as int % (db as int) < db,
                    0 < db < pow2(fd),
                    q >= 0,
            ;
        }
        let m = log2_inner::<D>(inv);
        Ok((m, true))
    } else {
        let m = log2_inner::<D>(d);
        Ok((m, false))
    }
}

/// Natural logarithm: the base-2 logarithm scaled by the stored constant
/// log2(e), with the sign flag passed through unchanged. Fails exactly
/// where the base-2 logarithm does.
pub fn ln<S: FixedPoint, D: FromFixed<S>>(operand: S) -> (r: Result<(D, bool), ()>)
    ensures
        ({
            let bd = <D as FromFixed<S>>::widen(operand.bits()) as nat;
            let lg2e = <D as FromFixed<S>>::widen(S::log2_e_bits()) as nat;
            match spec_ln(bd, D::frac_n(), lg2e) {
                Ok(p) => r matches Ok(q) && q.0.bits() == p.0 && q.1 == p.1,
                Err(e) => r is Err,
            }
        }),
{
    let lg_s = S::fp_log2_e();
    let lg_d: D = D::from_fixed(lg_s);
    let res = log2::<S, D>(operand);
    match res {
        Err(e) => Err(e),
        Ok((m, neg)) => {
            proof {
                S::frac_bounds();
                D::frac_bounds();
                S::constant_bounds();
                lemma_pow2_pos(S::frac_n());
                lemma_pow2_pos(D::frac_n());
                <D as FromFixed<S>>::widen_exact(S::log2_e_bits());
                let lw = <D as FromFixed<S>>::widen(S::log2_e_bits());
                assert(lw > pow2(D::frac_n())) by (nonlinear_arith)
                    requires
                        lw * pow2(S::frac_n()) == (S::log2_e_bits() as int) * pow2(D::frac_n()),
                        S::log2_e_bits() > pow2(S::frac_n()),
                        pow2(S::frac_n()) > 0,
                        pow2(D::frac_n()) > 0,
                ;
                let fd = D::frac_n();
                let mb = m.bits();
                assert((mb as int) * pow2(fd) <= (mb as int) * lw) by (nonlinear_arith)
                    requires
                        pow2(fd) <= lw,
                        mb >= 0,
                ;
                vstd::arithmetic::div_mod::lemma_div_is_ordered(
                    (mb as int) * pow2(fd),
                    (mb as int) * lw,
                    lw as int,
                );
                vstd::arithmetic::div_mod::lemma_div_multiples_vanish(mb as int, lw as int);
            }
            let q_opt = m.fp_checked_div(lg_d);
            let q = match q_opt {
                Some(v) => v,
                None => {
                    proof {
                        assert(false);
                    }
                    m
                },
            };
            Ok((q, neg))
        },
    }
}

/// Exponential of the operand, negated first when the flag says so, by a
/// truncated Taylor series with one term per fractional bit.
#[verifier::loop_isolation(false)]
pub fn exp<S: FixedPoint, D: FromFixed<S>>(operand: S, neg: bool) -> (r: Result<D, ()>)
    ensures
        ({
            let bd = <D as FromFixed<S>>::widen(operand.bits()) as nat;
            let ebits = <D as FromFixed<S>>::widen(S::e_bits()) as nat;
            match spec_exp(bd, D::frac_n(), neg, ebits) {
                Ok(v) => r matches Ok(d) && d.bits() == v,
                Err(e) => r is Err,
            }
        }),
{
    proof {
        S::frac_bounds();
        D::frac_bounds();
        lemma_pow2_pos(S::frac_n());
        lemma_pow2_pos(D::frac_n());
        <D as FromFixed<S>>::widen_exact(operand.bits());
        let wb = <D as FromFixed<S>>::widen(operand.bits());
        assert((wb == 0) == (operand.bits() == 0)) by (nonlinear_arith)
            requires
                wb * pow2(S::frac_n()) == (operand.bits() as int) * pow2(D::frac_n()),
                pow2(S::frac_n()) > 0,
                pow2(D::frac_n()) > 0,
                wb >= 0,
        ;
        assert((wb == pow2(D::frac_n())) == (operand.bits() == pow2(S::frac_n())))
            by (nonlinear_arith)
            requires
                wb * pow2(S::frac_n()) == (operand.bits() as int) * pow2(D::frac_n()),
                pow2(S::frac_n()) > 0,
                pow2(D::frac_n()) > 0,
                wb >= 0,
        ;
    }
    let sb = operand.fp_to_bits();
    if sb == 0 {
        let one: D = from_units::<D>(1);
        return Ok(one);
    }
    let one_s = pow2_u128(S::fp_frac_nbits());
    if sb == one_s && !neg {
        let e_s = S::fp_euler();
        return Ok(D::from_fixed(e_s));
    }
    let d: D = D::from_fixed(operand);
    let db = d.fp_to_bits();
    let f = D::fp_frac_nbits();
    let one_b = pow2_u128(f);
    if db > u128::MAX - one_b {
        return Err(());
    }
    let mut acc: D = D::fp_from_bits(db + one_b);
    let mut term: D = d;
    let mut i: u32 = 2;
    let ghost fnat = D::frac_n();
    let ghost bd = db as nat;
    let ghost acc0 = (db + pow2(fnat)) as nat;
    while i < f
        invariant
            2 <= i <= f || (f < 2 && i == 2),
            f == fnat,
            fnat == D::frac_n(),
            2 <= fnat <= 64,
            db == bd,
            bd <= u128::MAX,
            acc.bits() > pow2(fnat),
            spec_taylor(bd, term.bits() as nat, acc.bits() as nat, i as nat, fnat) == spec_taylor(
                bd,
                bd,
                acc0,
                2,
                fnat,
            ),
        decreases f - i,
    {
        let ghost t_old = term.bits() as nat;
        let ghost a_old = acc.bits() as nat;
        let ghost i_old = i as nat;
        let t1_opt = term.fp_checked_mul(d);
        match t1_opt {
            None => {
                proof {
                    assert(spec_taylor(bd, t_old, a_old, i_old, fnat) == Err::<nat, ()>(()));
                }
                return Err(());
            },
            Some(t1) => {
                let divisor: D = from_units::<D>(i);
                proof {
                    lemma_pow2_pos(fnat);
                    assert(divisor.bits() != 0) by (nonlinear_arith)
                        requires
                            divisor.bits() == (i as int) * pow2(fnat),
                            i >= 2,
                            pow2(fnat) > 0,
                    ;
                    lemma_div_common_factor(t1.bits() as int, i as int, pow2(fnat) as int);
                    assert(div_down(t1.bits(), divisor.bits(), fnat) == t1.bits() as int
                        / i as int);
                    vstd::arithmetic::div_mod::lemma_div_is_ordered_by_denominator(
                        t1.bits() as int,
                        1,
                        i as int,
                    );
                }
                let t2_opt = t1.fp_checked_div(divisor);
                let t2 = match t2_opt {
                    Some(v) => v,
                    None => {
                        proof {
                            assert(false);
                        }
                        t1
                    },
                };
                let ab = acc.fp_to_bits();
                let tb = t2.fp_to_bits();
                if ab > u128::MAX - tb {
                    proof {
                        assert(spec_taylor(bd, t_old, a_old, i_old, fnat) == Err::<nat, ()>(()));
                    }
                    return Err(());
                }
                acc = D::fp_from_bits(ab + tb);
                term = t2;
                i = i + 1;
                proof {
                    assert(spec_taylor(bd, t_old, a_old, i_old, fnat) == spec_taylor(
                        bd,
                        term.bits() as nat,
                        acc.bits() as nat,
                        i as nat,
                        fnat,
                    ));
                }
            },
        }
    }
    proof {
        assert(spec_taylor(bd, term.bits() as nat, acc.bits() as nat, i as nat, fnat)
            == Ok::<nat, ()>(acc.bits() as nat));
    }
    if neg {
        let one_d: D = D::fp_from_bits(one_b);
        proof {
            let fd = fnat;
            let ab = acc.bits();
            lemma_pow2_pos(fd);
            assert((pow2(fd) * pow2(fd)) as int <= (ab as int) * pow2(fd)) by (nonlinear_arith)
                requires
                    ab >= pow2(fd),
                    pow2(fd) > 0,
            ;
            vstd::arithmetic::div_mod::lemma_div_is_ordered(
                (pow2(fd) * pow2(fd)) as int,
                (ab as int) * pow2(fd),
                ab as int,
            );
            vstd::arithmetic::div_mod::lemma_div_multiples_vanish(
                pow2(fd) as int,
                ab as int,
            );
            vstd::arithmetic::div_mod::lemma_div_by_multiple(pow2(fd) as int, ab as int);
        }
        let r_opt = one_d.fp_checked_div(acc);
        let rr = match r_opt {
            Some(v) => v,
            None => {
                proof {
                    assert(false);
                }
                one_d
            },
        };
        Ok(rr)
    } else {
        Ok(acc)
    }
}

/// The operand raised to a fixed-point exponent, as exp(exponent * ln(operand)),
/// with the logarithm's sign flag driving the negation. A zero operand
/// yields zero, a zero exponent one, and an exponent of one the operand.
pub fn pow<S: FixedPoint, D: FromFixed<S> + FromFixed<D>>(operand: S, exponent: S) -> (r: Result<
    D,
    (),
>)
    ensures
        ({
            let bop = <D as FromFixed<S>>::widen(operand.bits()) as nat;
            let bexp = <D as FromFixed<S>>::widen(exponent.bits()) as nat;
            let lg2e = <D as FromFixed<S>>::widen(S::log2_e_bits()) as nat;
            match spec_pow(bop, bexp, D::frac_n(), lg2e, D::e_bits() as nat) {
                Ok(v) => r matches Ok(d) && d.bits() == v,
                Err(e) => r is Err,
            }
        }),
{
    proof {
        S::frac_bounds();
        D::frac_bounds();
        lemma_pow2_pos(S::frac_n());
        lemma_pow2_pos(D::frac_n());
        <D as FromFixed<S>>::widen_exact(operand.bits());
        <D as FromFixed<S>>::widen_exact(exponent.bits());
        let wo = <D as FromFixed<S>>::widen(operand.bits());
        let we = <D as FromFixed<S>>::widen(exponent.bits());
        assert((wo == 0) == (operand.bits() == 0) && (we == 0) == (exponent.bits() == 0) && (we
            == pow2(D::frac_n())) == (exponent.bits() == pow2(S::frac_n()))) by (nonlinear_arith)
            requires
                wo * pow2(S::frac_n()) == (operand.bits() as int) * pow2(D::frac_n()),
                we * pow2(S::frac_n()) == (exponent.bits() as int) * pow2(D::frac_n()),
                pow2(S::frac_n()) > 0,
                pow2(D::frac_n()) > 0,
                wo >= 0,
                we >= 0,
        ;
    }
    let ob = operand.fp_to_bits();
    if ob == 0 {
        return Ok(D::fp_from_bits(0));
    }
    let eb = exponent.fp_to_bits();
    if eb == 0 {
        let one: D = from_units::<D>(1);
        return Ok(one);
    }
    let one_s = pow2_u128(S::fp_frac_nbits());
    if eb == one_s {
        return Ok(D::from_fixed(operand));
    }
    let ln_res = ln::<S, D>(operand);
    match ln_res {
        Err(e) => Err(e),
        Ok((m, neg)) => {
            let exp_d: D = D::from_fixed(exponent);
            let r1_opt = m.fp_checked_mul(exp_d);
            match r1_opt {
                None => Err(()),
                Some(r1) => {
                    proof {
                        <D as FromFixed<D>>::widen_exact(r1.bits());
                        <D as FromFixed<D>>::widen_exact(D::e_bits());
                        lemma_pow2_pos(D::frac_n());
                        let w = <D as FromFixed<D>>::widen(r1.bits());
                        assert(w == r1.bits()) by (nonlinear_arith)
                            requires
                                w * pow2(D::frac_n()) == (r1.bits() as int) * pow2(D::frac_n()),
                                pow2(D::frac_n()) > 0,
                                w >= 0,
                        ;
                        let we2 = <D as FromFixed<D>>::widen(D::e_bits());
                        assert(we2 == D::e_bits()) by (nonlinear_arith)
                            requires
                                we2 * pow2(D::frac_n()) == (D::e_bits() as int) * pow2(
                                D::frac_n()),
                                pow2(D::frac_n()) > 0,
                                we2 >= 0,
                        ;
                    }
                    let out = exp::<D, D>(r1, neg);
                    out
                },
            }
        },
    }
}

/// The operand raised to a whole-number exponent by repeated truncated
/// multiplication. A zero operand yields zero, a zero exponent one, and an
/// exponent of one the operand.
#[verifier::loop_isolation(false)]
pub fn powi<S: FixedPoint, D: FromFixed<S>>(operand: S, exponent: u32) -> (r: Result<D, ()>)
    ensures
        ({
            let bd = <D as FromFixed<S>>::widen(operand.bits()) as nat;
            match spec_powi(bd, exponent as nat, D::frac_n()) {
                Ok(v) => r matches Ok(d) && d.bits() == v,
                Err(e) => r is Err,
            }
        }),
{
    proof {
        S::frac_bounds();
        D::frac_bounds();
        lemma_pow2_pos(S::frac_n());
        lemma_pow2_pos(D::frac_n());
        <D as FromFixed<S>>::widen_exact(operand.bits());
        let wb = <D as FromFixed<S>>::widen(operand.bits());
        assert((wb == 0) == (operand.bits() == 0)) by (nonlinear_arith)
            requires
                wb * pow2(S::frac_n()) == (operand.bits() as int) * pow2(D::frac_n()),
                pow2(S::frac_n()) > 0,
                pow2(D::frac_n()) > 0,
                wb >= 0,
        ;
    }
    let sb = operand.fp_to_bits();
    if sb == 0 {
        return Ok(D::fp_from_bits(0));
    }
    if exponent == 0 {
        let one: D = from_units::<D>(1);
        return Ok(one);
    }
    if exponent == 1 {
        return Ok(D::from_fixed(operand));
    }
    let d: D = D::from_fixed(operand);
    let ghost db = d.bits() as nat;
    let ghost fnat = D::frac_n();
    let target = exponent - 1;
    let mut acc: D = d;
    let mut done: u32 = 0;
    while done < target
        invariant
            done <= target,
            fnat == D::frac_n(),
            db == d.bits(),
            spec_powi_steps(acc.bits() as nat, db, (target - done) as nat, fnat)
                == spec_powi_steps(db, db, target as nat, fnat),
        decreases target - done,
    {
        let n_opt = acc.fp_checked_mul(d);
        match n_opt {
            None => {
                return Err(());
            },
            Some(v) => {
                acc = v;
                done = done + 1;
            },
        }
    }
    Ok(acc)
}

/// The logarithm is total and never panics: a zero operand and an operand
/// below one whose reciprocal does not fit the representation are errors,
/// and every other bit pattern yields a magnitude and flag.
pub proof fn lemma_log2_defined(f: nat)
    ensures
        spec_log2(0, f) == Err::<(nat, bool), ()>(()),
        forall|b: nat| b >= pow2(f) ==> #[trigger] spec_log2(b, f) is Ok,
        forall|b: nat|
            0 < b < pow2(f) && spec_recip(b, f) <= u128::MAX ==> #[trigger] spec_log2(b, f) is Ok,
        forall|b: nat|
            0 < b < pow2(f) && spec_recip(b, f) > u128::MAX ==> #[trigger] spec_log2(b, f)
                == Err::<(nat, bool), ()>(()),
{
    lemma_pow2_pos(f);
}

/// An operand of at least one has its flag cleared, and one below one has
/// it set, with the magnitude shared with the reciprocal: the logarithm of
/// the reciprocal is the same magnitude with the flag cleared.
pub proof fn lemma_log2_sign_and_reciprocal(bd: u128, f: nat)
    requires
        2 <= f <= 64,
        0 < bd < pow2(f),
        spec_recip(bd as nat, f) <= u128::MAX,
    ensures
        forall|b: nat| b >= pow2(f) ==> spec_log2(b, f) == Ok::<(nat, bool), ()>(
            (spec_log2_inner(b, f), false),
        ),
        spec_log2(bd as nat, f) == Ok::<(nat, bool), ()>(
            (spec_log2_inner(spec_recip(bd as nat, f), f), true),
        ),
        spec_log2(spec_recip(bd as nat, f), f) == Ok::<(nat, bool), ()>(
            (spec_log2_inner(spec_recip(bd as nat, f), f), false),
        ),
{
    lemma_pow2_pos(f);
    let q = spec_recip(bd as nat, f);
    lemma_fundamental_div_mod((pow2(f) * pow2(f)) as int, bd as int);
    assert(q >= pow2(f)) by (nonlinear_arith)
        requires
            pow2(f) * pow2(f) == (q as int) * bd + ((pow2(f) * pow2(f)) as int % (bd as int)),
            0 <= (pow2(f) * pow2(f)) as int % (bd as int) < bd,
            0 < bd < pow2(f),
            q >= 0,
    ;
}

/// The power shortcuts: a zero base yields zero, a zero exponent one, and
/// an exponent of one the base itself.
pub proof fn lemma_pow_shortcuts(bop: nat, bexp: nat, f: nat, lg2e: nat, ebits: nat)
    requires
        bop > 0,
        bexp > 0,
    ensures
        spec_pow(0, bexp, f, lg2e, ebits) == Ok::<nat, ()>(0),
        spec_pow(bop, 0, f, lg2e, ebits) == Ok::<nat, ()>(pow2(f)),
        spec_pow(bop, pow2(f), f, lg2e, ebits) == Ok::<nat, ()>(bop),
{
    lemma_pow2_pos(f);
}

/// The whole-number power shortcuts, and the step identity: for an
/// exponent of at least two the result is one more truncated
/// multiplication on the next smaller power.
pub proof fn lemma_powi_unfolding(bd: nat, e: nat, f: nat)
    requires
        bd > 0,
        e >= 2,
    ensures
        spec_powi(bd, 0, f) == Ok::<nat, ()>(pow2(f)),
        spec_powi(bd, 1, f) == Ok::<nat, ()>(bd),
        spec_powi(0, e, f) == Ok::<nat, ()>(0),
        spec_powi(bd, 2, f) == (if bd * bd / pow2(f) <= u128::MAX {
            Ok::<nat, ()>((bd * bd / pow2(f)) as nat)
        } else {
            Err::<nat, ()>(())
        }),
        bd * bd / pow2(f) <= u128::MAX ==> spec_powi(bd, 3, f) == spec_powi_steps(
            (bd * bd / pow2(f)) as nat,
            bd,
            1,
            f,
        ),
{
    lemma_pow2_pos(f);
    let p = bd * bd / pow2(f);
    if p <= u128::MAX {
        assert(spec_powi_steps(p as nat, bd, 0, f) == Ok::<nat, ()>(p as nat));
    }
    assert(spec_powi_steps(bd, bd, 1, f) == (if p <= u128::MAX {
        Ok::<nat, ()>(p as nat)
    } else {
        Err::<nat, ()>(())
    }));
}

} // verus!
