//! Decimal fixed-point arithmetic at twelve fractional digits over 256-bit
//! integers: rounded multiplication and division, and the power function
//! the pricing formulas use.
//!
//! A quantity is an integer number of units of 10^-12. Multiplication and
//! division rescale and round to nearest. The power function splits the
//! exponent into its whole part, handled by square-and-multiply, and its
//! fractional part, handled by a binomial series truncated at a fixed
//! precision threshold.

use crate::wide::p256;
use crate::wide::u256_checked_add;
use crate::wide::u256_checked_div;
use crate::wide::u256_checked_mul;
use crate::wide::u256_checked_sub;
use crate::wide::u256_eq;
use crate::wide::u256_from;
use crate::wide::u256_ge;
use crate::wide::u256_lt;
use crate::wide::u256_rem;
use crate::wide::u256_val;
use primitive_types::U256;
use vstd::prelude::*;

verus! {

/// One whole unit: 10^12.
pub open spec fn one12() -> int {
    1000000000000
}

/// Half a unit, the rounding offset.
pub open spec fn half12() -> int {
    500000000000
}

/// The series cut-off: terms below 10^8 units stop the summation.
pub open spec fn pow_precision() -> int {
    100000000
}

/// The largest base the power function accepts: just under two units.
pub open spec fn max_pow_base() -> int {
    1999999999999
}

/// The value of an optional 256-bit integer.
pub open spec fn opt_val(r: Option<U256>) -> Option<int> {
    match r {
        Some(v) => Some(u256_val(v) as int),
        None => None,
    }
}

/// Scaled division rounded to nearest: (n * ONE + d / 2) / d.
pub open spec fn spec_p12_div(n: int, d: int) -> Option<int> {
    if n * one12() >= p256() {
        None
    } else if n * one12() + d / 2 >= p256() {
        None
    } else if d == 0 {
        None
    } else {
        Some((n * one12() + d / 2) / d)
    }
}

/// Scaled multiplication rounded to nearest: (a * b + ONE / 2) / ONE.
pub open spec fn spec_p12_mul(a: int, b: int) -> Option<int> {
    if a * b >= p256() {
        None
    } else if a * b + half12() >= p256() {
        None
    } else {
        Some((a * b + half12()) / one12())
    }
}

/// Square-and-multiply over the halved exponent: `a` holds the repeated
/// squares and `z` the accumulated product of the squares picked by the
/// exponent's bits.
pub open spec fn spec_powi12_steps(z: int, a: int, cond: int) -> Option<int>
    decreases cond,
{
    if cond <= 0 {
        Some(z)
    } else {
        match spec_p12_mul(a, a) {
            None => None,
            Some(a2) => if cond % 2 != 0 {
                match spec_p12_mul(z, a2) {
                    None => None,
                    Some(z2) => spec_powi12_steps(z2, a2, cond / 2),
                }
            } else {
                spec_powi12_steps(z, a2, cond / 2)
            },
        }
    }
}

/// The whole-exponent power at scale one12.
pub open spec fn spec_p12_powi(op: int, e: int) -> Option<int> {
    spec_powi12_steps(
        if e % 2 != 0 {
            op
        } else {
            one12()
        },
        op,
        e / 2,
    )
}

/// One state of the binomial summation: still running, stopped with a
/// value, or failed on an overflow or underflow.
pub enum SeriesState {
    Run { term: int, acc: int, neg: bool, idx: int },
    Done { value: int },
    Fail,
}

/// One iteration of the binomial series for (1 +/- x)^a: the running term
/// is multiplied by (a - (k - 1)) * x / k with both signs tracked, and is
/// added to or subtracted from the accumulator until it falls below the
/// precision threshold. `Done` and `Fail` are absorbing.
pub open spec fn series_step(x: int, xneg: bool, a: int, st: SeriesState) -> SeriesState {
    match st {
        SeriesState::Fail => SeriesState::Fail,
        SeriesState::Done { value } => SeriesState::Done { value },
        SeriesState::Run { term, acc, neg, idx } => {
            if term < pow_precision() {
                SeriesState::Done { value: acc }
            } else {
                let big_k = idx * one12();
                if big_k >= p256() {
                    SeriesState::Fail
                } else if big_k < one12() {
                    SeriesState::Fail
                } else {
                    let c = if a >= big_k - one12() {
                        a - (big_k - one12())
                    } else {
                        (big_k - one12()) - a
                    };
                    let cneg = a < big_k - one12();
                    match spec_p12_mul(c, x) {
                        None => SeriesState::Fail,
                        Some(m) => match spec_p12_mul(term, m) {
                            None => SeriesState::Fail,
                            Some(t1) => match spec_p12_div(t1, big_k) {
                                None => SeriesState::Fail,
                                Some(t2) => {
                                    if t2 == 0 {
                                        SeriesState::Done { value: acc }
                                    } else {
                                        let neg2 = neg != xneg != cneg;
                                        if neg2 {
                                            if acc >= t2 {
                                                if idx + 1 >= p256() {
                                                    SeriesState::Fail
                                                } else {
                                                    SeriesState::Run {
                                                        term: t2,
                                                        acc: acc - t2,
                                                        neg: neg2,
                                                        idx: idx + 1,
                                                    }
                                                }
                                            } else {
                                                SeriesState::Fail
                                            }
                                        } else {
                                            if acc + t2 >= p256() {
                                                SeriesState::Fail
                                            } else if idx + 1 >= p256() {
                                                SeriesState::Fail
                                            } else {
                                                SeriesState::Run {
                                                    term: t2,
                                                    acc: acc + t2,
                                                    neg: neg2,
                                                    idx: idx + 1,
                                                }
                                            }
                                        }
                                    }
                                },
                            },
                        },
                    }
                }
            }
        },
    }
}

/// The series state after `k` iterations from the start state.
pub open spec fn series_at(x: int, xneg: bool, a: int, k: nat) -> SeriesState
    decreases k,
{
    if k == 0 {
        SeriesState::Run { term: one12(), acc: one12(), neg: false, idx: 1 }
    } else {
        series_step(x, xneg, a, series_at(x, xneg, a, (k - 1) as nat))
    }
}

/// The magnitude of the base's offset from one, and whether it lies below.
pub open spec fn spec_x_of(op: int) -> int {
    if op >= one12() {
        op - one12()
    } else {
        one12() - op
    }
}

/// Whether the base lies below one.
pub open spec fn spec_xneg_of(op: int) -> bool {
    op < one12()
}

/// The iteration cap of the executable series loop. A summation that has
/// neither stopped nor failed after this many terms is reported as an
/// overflow.
pub open spec fn series_fuel() -> nat {
    0x100000000nat
}

/// What the full power function yields: `res` names the value returned for
/// base `op` and exponent `e`, both at scale one12, or `None` for failure.
pub open spec fn pow_outcome(op: int, e: int, res: Option<int>) -> bool {
    if op > max_pow_base() {
        res is None
    } else {
        let whole = e / one12();
        let remain = e % one12();
        match spec_p12_powi(op, whole) {
            None => res is None,
            Some(wp) => if remain == 0 {
                res == Some(wp)
            } else {
                let x = spec_x_of(op);
                let xn = spec_xneg_of(op);
                (exists|k: nat, pr: int|
                    series_at(x, xn, remain, k) == (SeriesState::Done { value: pr }) && res
                        == spec_p12_mul(wp, pr)) || ((exists|k: nat|
                    series_at(x, xn, remain, k) == SeriesState::Fail) && res is None) || (
                series_at(x, xn, remain, series_fuel()) is Run && res is None)
            },
        }
    }
}

fn p12_one() -> (r: U256)
    ensures
        u256_val(r) == one12(),
{
    u256_from(1000000000000u128)
}

/// Division at the decimal scale, rounded to nearest.
pub(crate) fn p12_div(num: U256, den: U256) -> (r: Option<U256>)
    ensures
        opt_val(r) == spec_p12_div(u256_val(num) as int, u256_val(den) as int),
        r matches Some(v) ==> u256_val(v) < p256(),
{
    let one = p12_one();
    let two = u256_from(2u128);
    let t = match u256_checked_mul(num, one) {
        Some(v) => v,
        None => {
            return None;
        },
    };
    let h = match u256_checked_div(den, two) {
        Some(v) => v,
        None => {
            proof {
                assert(false);
            }
            two
        },
    };
    let s = match u256_checked_add(t, h) {
        Some(v) => v,
        None => {
            return None;
        },
    };
    u256_checked_div(s, den)
}

/// Multiplication at the decimal scale, rounded to nearest.
pub(crate) fn p12_mul(a: U256, b: U256) -> (r: Option<U256>)
    ensures
        opt_val(r) == spec_p12_mul(u256_val(a) as int, u256_val(b) as int),
{
    let one = p12_one();
    let half = u256_from(500000000000u128);
    let t = match u256_checked_mul(a, b) {
        Some(v) => v,
        None => {
            return None;
        },
    };
    let s = match u256_checked_add(t, half) {
        Some(v) => v,
        None => {
            return None;
        },
    };
    let q = match u256_checked_div(s, one) {
        Some(v) => v,
        None => {
            proof {
                assert(false);
            }
            one
        },
    };
    Some(q)
}

/// The whole-exponent power by square-and-multiply.
#[verifier::loop_isolation(false)]
fn p12_powi(operand: U256, exponent: U256) -> (r: Option<U256>)
    ensures
        opt_val(r) == spec_p12_powi(u256_val(operand) as int, u256_val(exponent) as int),
{
    let one = p12_one();
    let two = u256_from(2u128);
    let zero = u256_from(0u128);
    let m = u256_rem(exponent, two);
    let mut z = if !u256_eq(m, zero) {
        operand
    } else {
        one
    };
    let mut a = operand;
    let mut cond = match u256_checked_div(exponent, two) {
        Some(v) => v,
        None => {
            proof {
                assert(false);
            }
            two
        },
    };
    let mut cond_pos = u256_lt(zero, cond);
    while cond_pos
        invariant
            cond_pos == (u256_val(cond) > 0),
            spec_powi12_steps(u256_val(z) as int, u256_val(a) as int, u256_val(cond) as int)
                == spec_p12_powi(u256_val(operand) as int, u256_val(exponent) as int),
        decreases u256_val(cond),
    {
        let a2 = match p12_mul(a, a) {
            Some(v) => v,
            None => {
                return None;
            },
        };
        let m2 = u256_rem(cond, two);
        if !u256_eq(m2, zero) {
            let z2 = match p12_mul(z, a2) {
                Some(v) => v,
                None => {
                    return None;
                },
            };
            z = z2;
        }
        a = a2;
        cond = match u256_checked_div(cond, two) {
            Some(v) => v,
            None => {
                proof {
                    assert(false);
                }
                two
            },
        };
        cond_pos = u256_lt(zero, cond);
    }
    Some(z)
}

/// The magnitude of the difference of two quantities, with a flag saying
/// whether the subtraction crossed below zero.
fn sub_sign(a: U256, b: U256) -> (r: (U256, bool))
    ensures
        r.1 == (u256_val(a) < u256_val(b)),
        r.1 ==> u256_val(r.0) == u256_val(b) - u256_val(a),
        !r.1 ==> u256_val(r.0) == u256_val(a) - u256_val(b),
{
    if u256_ge(a, b) {
        let d = match u256_checked_sub(a, b) {
            Some(v) => v,
            None => {
                proof {
                    assert(false);
                }
                a
            },
        };
        (d, false)
    } else {
        let d = match u256_checked_sub(b, a) {
            Some(v) => v,
            None => {
                proof {
                    assert(false);
                }
                a
            },
        };
        (d, true)
    }
}

/// The binomial series for the fractional part of an exponent, summed
/// until a term falls below the precision threshold, and capped at a fixed
/// iteration budget.
#[verifier::loop_isolation(false)]
fn pow_approx(operand: U256, exp: U256) -> (r: Option<U256>)
    ensures
        ({
            let xv = spec_x_of(u256_val(operand) as int);
            let xn = spec_xneg_of(u256_val(operand) as int);
            let av = u256_val(exp) as int;
            match r {
                Some(v) => exists|k: nat|
                    series_at(xv, xn, av, k) == (SeriesState::Done { value: u256_val(v) as int }),
                None => (exists|k: nat| series_at(xv, xn, av, k) == SeriesState::Fail) || series_at(
                    xv,
                    xn,
                    av,
                    series_fuel(),
                ) is Run,
            }
        }),
{
    let one = p12_one();
    let prec = u256_from(100000000u128);
    let zero = u256_from(0u128);
    let ghost xv = spec_x_of(u256_val(operand) as int);
    let ghost xn = spec_xneg_of(u256_val(operand) as int);
    let ghost av = u256_val(exp) as int;
    let (x, xneg) = sub_sign(operand, one);
    let mut term = one;
    let mut acc = one;
    let mut negative = false;
    let mut idx = u256_from(1u128);
    let mut fuel: u64 = 0x100000000u64;
    let ghost mut steps: nat = 0nat;
    let mut go = u256_ge(term, prec);
    while go && fuel > 0
        invariant
            go == (u256_val(term) >= pow_precision()),
            u256_val(idx) >= 1,
            u256_val(x) == xv,
            xneg == xn,
            steps + fuel == series_fuel(),
            series_at(xv, xn, av, steps) == (SeriesState::Run {
                term: u256_val(term) as int,
                acc: u256_val(acc) as int,
                neg: negative,
                idx: u256_val(idx) as int,
            }),
        decreases fuel,
    {
        let ghost st = series_at(xv, xn, av, steps);
        let big_k = match u256_checked_mul(idx, one) {
            Some(v) => v,
            None => {
                proof {
                    assert(series_at(xv, xn, av, steps + 1) == SeriesState::Fail);
                }
                return None;
            },
        };
        let km1 = match u256_checked_sub(big_k, one) {
            Some(v) => v,
            None => {
                proof {
                    assert(u256_val(big_k) >= one12()) by (nonlinear_arith)
                        requires
                            u256_val(big_k) == u256_val(idx) * one12(),
                            u256_val(idx) >= 1,
                    ;
                    assert(false);
                }
                big_k
            },
        };
        proof {
            assert(u256_val(big_k) >= one12()) by (nonlinear_arith)
                requires
                    u256_val(big_k) == u256_val(idx) * one12(),
                    u256_val(idx) >= 1,
            ;
        }
        let (c, cneg) = sub_sign(exp, km1);
        let m = match p12_mul(c, x) {
            Some(v) => v,
            None => {
                proof {
                    assert(series_at(xv, xn, av, steps + 1) == SeriesState::Fail);
                }
                return None;
            },
        };
        let t1 = match p12_mul(term, m) {
            Some(v) => v,
            None => {
                proof {
                    assert(series_at(xv, xn, av, steps + 1) == SeriesState::Fail);
                }
                return None;
            },
        };
        let t2 = match p12_div(t1, big_k) {
            Some(v) => v,
            None => {
                proof {
                    assert(series_at(xv, xn, av, steps + 1) == SeriesState::Fail);
                }
                return None;
            },
        };
        term = t2;
        if u256_eq(term, zero) {
            proof {
                assert(series_at(xv, xn, av, steps + 1) == (SeriesState::Done {
                    value: u256_val(acc) as int,
                }));
            }
            return Some(acc);
        }
        if xneg {
            negative = !negative;
        }
        if cneg {
            negative = !negative;
        }
        if negative {
            acc = match u256_checked_sub(acc, term) {
                Some(v) => v,
                None => {
                    proof {
                        assert(series_at(xv, xn, av, steps + 1) == SeriesState::Fail);
                    }
                    return None;
                },
            };
        } else {
            acc = match u256_checked_add(acc, term) {
                Some(v) => v,
                None => {
                    proof {
                        assert(series_at(xv, xn, av, steps + 1) == SeriesState::Fail);
                    }
                    return None;
                },
            };
        }
        idx = match u256_checked_add(idx, one12_unit()) {
            Some(v) => v,
            None => {
                proof {
                    assert(series_at(xv, xn, av, steps + 1) == SeriesState::Fail);
                }
                return None;
            },
        };
        proof {
            steps = steps + 1;
            assert(series_at(xv, xn, av, steps) == (SeriesState::Run {
                term: u256_val(term) as int,
                acc: u256_val(acc) as int,
                neg: negative,
                idx: u256_val(idx) as int,
            }));
        }
        fuel = fuel - 1;
        go = u256_ge(term, prec);
    }
    if go {
        proof {
            assert(steps == series_fuel());
        }
        return None;
    }
    proof {
        assert(series_at(xv, xn, av, steps + 1) == (SeriesState::Done {
            value: u256_val(acc) as int,
        }));
    }
    Some(acc)
}

fn one12_unit() -> (r: U256)
    ensures
        u256_val(r) == 1,
{
    u256_from(1u128)
}

/// The power function at the decimal scale: the base must stay below two
/// units; the exponent splits into a whole part taken by square-and-multiply
/// and a fractional part taken by the binomial series.
#[verifier::loop_isolation(false)]
pub(crate) fn p12_pow(operand: U256, exp: U256) -> (r: Option<U256>)
    requires
        u256_val(exp) < p256(),
    ensures
        pow_outcome(u256_val(operand) as int, u256_val(exp) as int, opt_val(r)),
{
    let one = p12_one();
    let max_base = u256_from(1999999999999u128);
    if u256_lt(max_base, operand) {
        return None;
    }
    let toi = match u256_checked_div(exp, one) {
        Some(v) => v,
        None => {
            proof {
                assert(false);
            }
            one
        },
    };
    let whole = match u256_checked_mul(toi, one) {
        Some(v) => v,
        None => {
            proof {
                vstd::arithmetic::div_mod::lemma_fundamental_div_mod(
                    u256_val(exp) as int,
                    one12(),
                );
                vstd::arithmetic::div_mod::lemma_mod_bound(u256_val(exp) as int, one12());
                assert(false);
            }
            one
        },
    };
    let remain = match u256_checked_sub(exp, whole) {
        Some(v) => v,
        None => {
            proof {
                vstd::arithmetic::div_mod::lemma_fundamental_div_mod(
                    u256_val(exp) as int,
                    one12(),
                );
                vstd::arithmetic::div_mod::lemma_mod_bound(u256_val(exp) as int, one12());
                assert(false);
            }
            one
        },
    };
    proof {
        vstd::arithmetic::div_mod::lemma_fundamental_div_mod(u256_val(exp) as int, one12());
        vstd::arithmetic::div_mod::lemma_mod_bound(u256_val(exp) as int, one12());
        assert(u256_val(remain) == u256_val(exp) as int % one12());
    }
    let whole_pow = match p12_powi(operand, toi) {
        Some(v) => v,
        None => {
            return None;
        },
    };
    let zero = u256_from(0u128);
    if u256_eq(remain, zero) {
        return Some(whole_pow);
    }
    let partial = match pow_approx(operand, remain) {
        Some(v) => v,
        None => {
            return None;
        },
    };
    p12_mul(whole_pow, partial)
}

} // verus!
