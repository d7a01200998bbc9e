//! Pricing and weight interpolation for a liquidity bootstrapping pool:
//! spot price, output for a given input, input for a desired output, and
//! linear interpolation of a pool weight over a block range.

use crate::p12::one12;
use crate::p12::opt_val;
use crate::p12::p12_div;
use crate::p12::p12_mul;
use crate::p12::p12_pow;
use crate::p12::pow_outcome;
use crate::p12::spec_p12_div;
use crate::p12::spec_p12_mul;
use crate::wide::p256;
use crate::wide::u256_checked_add;
use crate::wide::u256_checked_div;
use crate::wide::u256_checked_mul;
use crate::wide::u256_checked_sub;
use crate::wide::u256_from;
use crate::wide::u256_to_u128;
use crate::wide::u256_val;
use crate::MathError;
use primitive_types::U256;
use vstd::prelude::*;

verus! {

use vstd::arithmetic::div_mod::lemma_div_by_multiple;
use vstd::arithmetic::div_mod::lemma_fundamental_div_mod;
use vstd::arithmetic::div_mod::lemma_fundamental_div_mod_converse;

/// What the spot price returns: amount * out_reserve * in_weight divided
/// by in_reserve * out_weight, in checked 128-bit arithmetic.
pub open spec fn spec_spot_price(
    in_r: u128,
    out_r: u128,
    in_w: u128,
    out_w: u128,
    amount: u128,
) -> Result<u128, MathError> {
    if in_r == 0 {
        Err(MathError::ZeroInReserve)
    } else if amount == 0 || out_r == 0 {
        Ok(0u128)
    } else if amount * out_r > u128::MAX {
        Err(MathError::Overflow)
    } else if (amount * out_r) * in_w > u128::MAX {
        Err(MathError::Overflow)
    } else if in_r * out_w > u128::MAX {
        Err(MathError::Overflow)
    } else if in_r * out_w == 0 {
        Err(MathError::Overflow)
    } else {
        Ok((((amount * out_r) * in_w) / (in_r * out_w)) as u128)
    }
}

/// Spot price of a swap: the output amount the current reserves and
/// weights imply for the given input amount, truncated toward zero.
/// Fails with `ZeroInReserve` when the input-side reserve is zero, and
/// with `Overflow` when a product passes 128 bits or the output-side
/// weight is zero.
pub fn calculate_spot_price(
    in_reserve: u128,
    out_reserve: u128,
    in_weight: u128,
    out_weight: u128,
    amount: u128,
) -> (r: Result<u128, MathError>)
    ensures
        r == spec_spot_price(in_reserve, out_reserve, in_weight, out_weight, amount),
{
    if in_reserve == 0 {
        return Err(MathError::ZeroInReserve);
    }
    if amount == 0 || out_reserve == 0 {
        return Ok(0u128);
    }
    let n1 = match amount.checked_mul(out_reserve) {
        Some(v) => v,
        None => {
            return Err(MathError::Overflow);
        },
    };
    let n2 = match n1.checked_mul(in_weight) {
        Some(v) => v,
        None => {
            return Err(MathError::Overflow);
        },
    };
    let den = match in_reserve.checked_mul(out_weight) {
        Some(v) => v,
        None => {
            return Err(MathError::Overflow);
        },
    };
    if den == 0 {
        return Err(MathError::Overflow);
    }
    Ok(n2 / den)
}

/// The spot price is linear in the traded amount wherever the division is
/// exact: scaling the amount by `k` scales the result by `k`, while no
/// step overflows.
pub proof fn lemma_spot_price_linear(
    in_r: u128,
    out_r: u128,
    in_w: u128,
    out_w: u128,
    amount: u128,
    k: u128,
)
    requires
        in_r != 0,
        out_r != 0,
        in_w != 0,
        out_w != 0,
        amount != 0,
        k != 0,
        (k * amount) * out_r * in_w <= u128::MAX,
        in_r * out_w <= u128::MAX,
        (amount * out_r * in_w) % (in_r * out_w) == 0,
    ensures
        spec_spot_price(in_r, out_r, in_w, out_w, (k * amount) as u128) == Ok::<
            u128,
            MathError,
        >((k * spec_spot_price(in_r, out_r, in_w, out_w, amount)->Ok_0) as u128),
{
    let d = (in_r as int) * (out_w as int);
    let x = ((amount as int) * (out_r as int)) * (in_w as int);
    let kx = (((k * amount) as int) * (out_r as int)) * (in_w as int);
    assert(d >= 1 && x >= 1 && kx == (k as int) * x && x <= kx && (amount as int) * (out_r as int)
        <= x && ((k * amount) as int) * (out_r as int) <= kx) by (nonlinear_arith)
        requires
            in_r >= 1,
            out_w >= 1,
            amount >= 1,
            out_r >= 1,
            in_w >= 1,
            k >= 1,
            d == (in_r as int) * (out_w as int),
            x == ((amount as int) * (out_r as int)) * (in_w as int),
            kx == (((k * amount) as int) * (out_r as int)) * (in_w as int),
    ;
    assert(k * amount <= kx) by (nonlinear_arith)
        requires
            out_r >= 1,
            in_w >= 1,
            k >= 1,
            amount >= 1,
            kx == ((k * amount) * (out_r as int)) * (in_w as int),
    ;
    let q = x / d;
    lemma_fundamental_div_mod(x, d);
    assert(x == d * q);
    assert(kx == ((k as int) * q) * d) by (nonlinear_arith)
        requires
            kx == (k as int) * x,
            x == d * q,
    ;
    lemma_div_by_multiple((k as int) * q, d);
    assert(kx / d == (k as int) * q);
    lemma_div_by_multiple(q, d);
    assert(x / d == q);
    assert(q >= 0 && q <= x && (k as int) * q <= kx) by (nonlinear_arith)
        requires
            x == d * q,
            d >= 1,
            x >= 1,
            kx == (k as int) * x,
            k >= 1,
            q == x / d,
            x / d >= 0,
    ;
    assert(k * amount >= 1) by (nonlinear_arith)
        requires
            k >= 1,
            amount >= 1,
    ;
    assert(spec_spot_price(in_r, out_r, in_w, out_w, amount) == Ok::<u128, MathError>(q as u128));
    assert((((k * amount) as u128) as int) == k * amount);
    assert(spec_spot_price(in_r, out_r, in_w, out_w, (k * amount) as u128) == Ok::<u128, MathError>(
        (kx / d) as u128,
    ));
}

/// With equal weights on both sides the spot price reduces to the plain
/// reserve ratio: amount * out_reserve / in_reserve.
pub proof fn lemma_spot_price_equal_weights(in_r: u128, out_r: u128, w: u128, amount: u128)
    requires
        in_r != 0,
        out_r != 0,
        w != 0,
        amount != 0,
        amount * out_r * w <= u128::MAX,
        in_r * w <= u128::MAX,
    ensures
        spec_spot_price(in_r, out_r, w, w, amount) == Ok::<u128, MathError>(
            ((amount * out_r) / (in_r as int)) as u128,
        ),
{
    assert(amount * out_r <= amount * out_r * w) by (nonlinear_arith)
        requires
            w >= 1,
            amount >= 1,
            out_r >= 1,
    ;
    let x = amount * out_r;
    let q = x / (in_r as int);
    let m = x % (in_r as int);
    lemma_fundamental_div_mod(x, in_r as int);
    assert((x * w) == q * ((in_r as int) * w) + m * w) by (nonlinear_arith)
        requires
            x == (in_r as int) * q + m,
    ;
    assert(0 <= m * w < (in_r as int) * w) by (nonlinear_arith)
        requires
            0 <= m < in_r,
            w > 0,
    ;
    lemma_fundamental_div_mod_converse(x * w, (in_r as int) * w, q, m * w);
    assert(q <= x) by (nonlinear_arith)
        requires
            x == (in_r as int) * q + m,
            in_r >= 1,
            m >= 0,
            q >= 0,
    ;
}

/// What selling a given input amount yields: the output reserve scaled by
/// one minus (in_reserve / (in_reserve + amount)) ^ (in_weight / out_weight),
/// all at the decimal scale, with `res` the returned value.
pub open spec fn out_given_in_holds(
    in_r: u128,
    out_r: u128,
    in_w: u128,
    out_w: u128,
    amount: u128,
    r: Result<u128, MathError>,
) -> bool {
    if out_w == 0 {
        r == Err::<u128, MathError>(MathError::ZeroOutWeight)
    } else {
        match spec_p12_div(in_w as int, out_w as int) {
            None => r == Err::<u128, MathError>(MathError::Overflow),
            Some(wr) => match spec_p12_div(in_r as int, in_r + amount) {
                None => r == Err::<u128, MathError>(MathError::Overflow),
                Some(ir) => exists|p: Option<int>|
                    #[trigger] pow_outcome(ir, wr, p) && match p {
                        None => r == Err::<u128, MathError>(MathError::Overflow),
                        Some(pv) => if pv > one12() {
                            r == Err::<u128, MathError>(MathError::Overflow)
                        } else {
                            match spec_p12_mul(out_r as int, one12() - pv) {
                                None => r == Err::<u128, MathError>(MathError::Overflow),
                                Some(v) => if v > u128::MAX {
                                    r == Err::<u128, MathError>(MathError::Overflow)
                                } else {
                                    r == Ok::<u128, MathError>(v as u128)
                                },
                            }
                        },
                    },
            },
        }
    }
}

/// Output amount for a given input amount under the constant weighted
/// product rule. Fails with `ZeroOutWeight` when the output-side weight is
/// zero, and with `Overflow` when a scaled step overflows or the power
/// series fails.
pub fn calculate_out_given_in(
    in_reserve: u128,
    out_reserve: u128,
    in_weight: u128,
    out_weight: u128,
    amount: u128,
) -> (r: Result<u128, MathError>)
    ensures
        out_given_in_holds(in_reserve, out_reserve, in_weight, out_weight, amount, r),
{
    if out_weight == 0 {
        return Err(MathError::ZeroOutWeight);
    }
    let in_w = u256_from(in_weight);
    let out_w = u256_from(out_weight);
    let a = u256_from(amount);
    let in_r = u256_from(in_reserve);
    let out_r = u256_from(out_reserve);
    let wr = match p12_div(in_w, out_w) {
        Some(v) => v,
        None => {
            return Err(MathError::Overflow);
        },
    };
    let s = match u256_checked_add(in_r, a) {
        Some(v) => v,
        None => {
            proof {
                assert(false);
            }
            in_r
        },
    };
    let ir = match p12_div(in_r, s) {
        Some(v) => v,
        None => {
            return Err(MathError::Overflow);
        },
    };
    let p_opt = p12_pow(ir, wr);
    proof {
        let pw = opt_val(p_opt);
        let irs = spec_p12_div(in_reserve as int, in_reserve + amount);
        let wrs = spec_p12_div(in_weight as int, out_weight as int);
        assert(irs == Some(u256_val(ir) as int));
        assert(wrs == Some(u256_val(wr) as int));
        assert(pow_outcome(irs->Some_0, wrs->Some_0, pw));
    }
    let p = match p_opt {
        Some(v) => v,
        None => {
            return Err(MathError::Overflow);
        },
    };
    let one = u256_from(1000000000000u128);
    let t = match u256_checked_sub(one, p) {
        Some(v) => v,
        None => {
            return Err(MathError::Overflow);
        },
    };
    let res = match p12_mul(out_r, t) {
        Some(v) => v,
        None => {
            return Err(MathError::Overflow);
        },
    };
    match u256_to_u128(res) {
        Some(v) => Ok(v),
        None => Err(MathError::Overflow),
    }
}

/// What buying a desired output amount costs: the input reserve scaled by
/// (out_reserve / (out_reserve - amount)) ^ (out_weight / in_weight) minus
/// one, all at the decimal scale, with `res` the returned value.
pub open spec fn in_given_out_holds(
    in_r: u128,
    out_r: u128,
    in_w: u128,
    out_w: u128,
    amount: u128,
    r: Result<u128, MathError>,
) -> bool {
    match spec_p12_div(out_w as int, in_w as int) {
        None => r == Err::<u128, MathError>(MathError::Overflow),
        Some(wr) => if out_r < amount {
            r == Err::<u128, MathError>(MathError::Overflow)
        } else {
            match spec_p12_div(out_r as int, out_r - amount) {
                None => r == Err::<u128, MathError>(MathError::Overflow),
                Some(y) => exists|p: Option<int>|
                    #[trigger] pow_outcome(y, wr, p) && match p {
                        None => r == Err::<u128, MathError>(MathError::Overflow),
                        Some(pv) => if pv < one12() {
                            r == Err::<u128, MathError>(MathError::Overflow)
                        } else {
                            match spec_p12_mul(in_r as int, pv - one12()) {
                                None => r == Err::<u128, MathError>(MathError::Overflow),
                                Some(v) => if v > u128::MAX {
                                    r == Err::<u128, MathError>(MathError::Overflow)
                                } else {
                                    r == Ok::<u128, MathError>(v as u128)
                                },
                            }
                        },
                    },
            }
        },
    }
}

/// Input amount required for a desired output amount under the constant
/// weighted product rule. All failures, including a desired output that
/// reaches the output reserve, surface as `Overflow`.
pub fn calculate_in_given_out(
    in_reserve: u128,
    out_reserve: u128,
    in_weight: u128,
    out_weight: u128,
    amount: u128,
) -> (r: Result<u128, MathError>)
    ensures
        in_given_out_holds(in_reserve, out_reserve, in_weight, out_weight, amount, r),
{
    let in_w = u256_from(in_weight);
    let out_w = u256_from(out_weight);
    let a = u256_from(amount);
    let in_r = u256_from(in_reserve);
    let out_r = u256_from(out_reserve);
    let wr = match p12_div(out_w, in_w) {
        Some(v) => v,
        None => {
            return Err(MathError::Overflow);
        },
    };
    let diff = match u256_checked_sub(out_r, a) {
        Some(v) => v,
        None => {
            return Err(MathError::Overflow);
        },
    };
    let y = match p12_div(out_r, diff) {
        Some(v) => v,
        None => {
            return Err(MathError::Overflow);
        },
    };
    let p_opt = p12_pow(y, wr);
    proof {
        let pw = opt_val(p_opt);
        let ys = spec_p12_div(out_reserve as int, out_reserve - amount);
        let wrs = spec_p12_div(out_weight as int, in_weight as int);
        assert(ys == Some(u256_val(y) as int));
        assert(wrs == Some(u256_val(wr) as int));
        assert(pow_outcome(ys->Some_0, wrs->Some_0, pw));
    }
    let p = match p_opt {
        Some(v) => v,
        None => {
            return Err(MathError::Overflow);
        },
    };
    let one = u256_from(1000000000000u128);
    let t = match u256_checked_sub(p, one) {
        Some(v) => v,
        None => {
            return Err(MathError::Overflow);
        },
    };
    let res = match p12_mul(in_r, t) {
        Some(v) => v,
        None => {
            return Err(MathError::Overflow);
        },
    };
    match u256_to_u128(res) {
        Some(v) => Ok(v),
        None => Err(MathError::Overflow),
    }
}

/// An unsigned block-number coordinate: wide enough for 64 bits, with
/// checked subtraction and narrowing.
pub trait BlockNumber: Sized + Copy {
    /// The block number as an integer.
    spec fn bn_int(self) -> int;

    proof fn bn_bounds(self)
        ensures
            0 <= self.bn_int() <= u64::MAX,
    ;

    fn bn_checked_sub(self, o: Self) -> (r: Option<Self>)
        ensures
            match r {
                Some(v) => self.bn_int() >= o.bn_int() && v.bn_int() == self.bn_int() - o.bn_int(),
                None => self.bn_int() < o.bn_int(),
            },
    ;

    fn bn_to_u32(self) -> (r: Option<u32>)
        ensures
            match r {
                Some(v) => v == self.bn_int(),
                None => self.bn_int() > u32::MAX,
            },
    ;

    fn bn_to_u128(self) -> (r: u128)
        ensures
            r == self.bn_int(),
    ;
}

impl BlockNumber for u32 {
    open spec fn bn_int(self) -> int {
        self as int
    }

    proof fn bn_bounds(self) {
    }

    fn bn_checked_sub(self, o: Self) -> (r: Option<Self>) {
        if self >= o {
            Some(self - o)
        } else {
            None
        }
    }

    fn bn_to_u32(self) -> (r: Option<u32>) {
        Some(self)
    }

    fn bn_to_u128(self) -> (r: u128) {
        self as u128
    }
}

impl BlockNumber for u64 {
    open spec fn bn_int(self) -> int {
        self as int
    }

    proof fn bn_bounds(self) {
    }

    fn bn_checked_sub(self, o: Self) -> (r: Option<Self>) {
        if self >= o {
            Some(self - o)
        } else {
            None
        }
    }

    fn bn_to_u32(self) -> (r: Option<u32>) {
        if self <= 0xffffffffu64 {
            Some(self as u32)
        } else {
            None
        }
    }

    fn bn_to_u128(self) -> (r: u128) {
        self as u128
    }
}

/// What the weight interpolation returns: the weighted mean of the two end
/// weights by the distances to the evaluation block, truncated toward
/// zero, with the domain violations mapped to their errors.
pub open spec fn spec_linear_weights(s: int, e: int, w0: u128, w1: u128, at: int) -> Result<
    u128,
    MathError,
> {
    if at > e {
        Err(MathError::Overflow)
    } else if at < s {
        Err(MathError::Overflow)
    } else if e - s > u32::MAX {
        Err(MathError::Overflow)
    } else if e == s {
        Err(MathError::ZeroDuration)
    } else {
        let q = (w0 * (e - at) + w1 * (at - s)) / (e - s);
        if q > u128::MAX {
            Err(MathError::Overflow)
        } else {
            Ok(q as u128)
        }
    }
}

/// Linear interpolation of a pool weight over a block interval, evaluated
/// at a block inside it. Fails with `ZeroDuration` on an empty interval,
/// and with `Overflow` on an inverted interval, an evaluation point
/// outside it, an interval longer than 32 bits, or a result past 128 bits.
pub fn calculate_linear_weights<B: BlockNumber>(
    start_x: B,
    end_x: B,
    start_y: u128,
    end_y: u128,
    at: B,
) -> (r: Result<u128, MathError>)
    ensures
        r == spec_linear_weights(start_x.bn_int(), end_x.bn_int(), start_y, end_y, at.bn_int()),
{
    proof {
        start_x.bn_bounds();
        end_x.bn_bounds();
        at.bn_bounds();
    }
    let d1 = match end_x.bn_checked_sub(at) {
        Some(v) => v,
        None => {
            return Err(MathError::Overflow);
        },
    };
    let d2 = match at.bn_checked_sub(start_x) {
        Some(v) => v,
        None => {
            return Err(MathError::Overflow);
        },
    };
    let dx = match end_x.bn_checked_sub(start_x) {
        Some(v) => v,
        None => {
            proof {
                assert(false);
            }
            d1
        },
    };
    let dxu = match dx.bn_to_u32() {
        Some(v) => v,
        None => {
            return Err(MathError::Overflow);
        },
    };
    let d1u: u128 = d1.bn_to_u128();
    let d2u: u128 = d2.bn_to_u128();
    if dxu == 0 {
        return Err(MathError::ZeroDuration);
    }
    proof {
        assert(d1u <= 0xffffffffu32 && d2u <= 0xffffffffu32);
        assert((start_y as int) * (d1u as int) < p256() && (end_y as int) * (d2u as int) < p256()
            && (start_y as int) * (d1u as int) + (end_y as int) * (d2u as int) < p256())
            by (nonlinear_arith)
            requires
                start_y <= u128::MAX,
                end_y <= u128::MAX,
                d1u <= 0xffffffffu32,
                d2u <= 0xffffffffu32,
        ;
    }
    let left = match u256_checked_mul(u256_from(start_y), u256_from(d1u)) {
        Some(v) => v,
        None => {
            proof {
                assert(false);
            }
            u256_from(0u128)
        },
    };
    let right = match u256_checked_mul(u256_from(end_y), u256_from(d2u)) {
        Some(v) => v,
        None => {
            proof {
                assert(false);
            }
            u256_from(0u128)
        },
    };
    let total = match u256_checked_add(left, right) {
        Some(v) => v,
        None => {
            proof {
                assert(false);
            }
            left
        },
    };
    let q = match u256_checked_div(total, u256_from(dxu as u128)) {
        Some(v) => v,
        None => {
            proof {
                assert(false);
            }
            total
        },
    };
    match u256_to_u128(q) {
        Some(v) => Ok(v),
        None => Err(MathError::Overflow),
    }
}

/// Interpolation is exact at the interval ends: the start block yields the
/// start weight and the end block the end weight, for every valid
/// interval.
pub proof fn lemma_linear_weights_endpoints(s: int, e: int, w0: u128, w1: u128)
    requires
        0 <= s < e <= u64::MAX,
        e - s <= u32::MAX,
    ensures
        spec_linear_weights(s, e, w0, w1, s) == Ok::<u128, MathError>(w0),
        spec_linear_weights(s, e, w0, w1, e) == Ok::<u128, MathError>(w1),
{
    let d = e - s;
    assert(w0 * d + w1 * 0 == (w0 as int) * d) by (nonlinear_arith);
    assert(w0 * 0 + w1 * d == (w1 as int) * d) by (nonlinear_arith);
    lemma_div_by_multiple(w0 as int, d);
    lemma_div_by_multiple(w1 as int, d);
}

/// The interpolation errors: an empty interval is a zero duration, and an
/// inverted interval or an evaluation block outside the interval is an
/// overflow.
pub proof fn lemma_linear_weights_failures(s: int, e: int, w0: u128, w1: u128, at: int)
    requires
        0 <= s <= u64::MAX,
        0 <= e <= u64::MAX,
        0 <= at <= u64::MAX,
    ensures
        s == e && at == s ==> spec_linear_weights(s, e, w0, w1, at) == Err::<u128, MathError>(
            MathError::ZeroDuration,
        ),
        s > e ==> spec_linear_weights(s, e, w0, w1, at) == Err::<u128, MathError>(
            MathError::Overflow,
        ),
        at < s || at > e ==> spec_linear_weights(s, e, w0, w1, at) == Err::<u128, MathError>(
            MathError::Overflow,
        ),
{
}

} // verus!

