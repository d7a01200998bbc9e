use core::str::FromStr;
use fixed::traits::LossyInto;
use fixed::types::U64F64;
use fixed::types::U89F39;

use lbp_math::transcendental::{exp, log2, ln, pow, powi};

type FixedBalance = U89F39;

#[test]
fn exp_works() {
    type S = U64F64;
    type D = U64F64;

    let e = S::from_str("2.718281828459045235360287471352662497757").unwrap();

    let zero = S::from_num(0);
    let one = S::from_num(1);
    let two = S::from_num(2);

    assert_eq!(exp::<S, D>(zero, false), Ok(D::from_num(one)));
    assert_eq!(exp::<S, D>(one, false), Ok(D::from_num(e)));
    assert_eq!(
        exp::<S, D>(two, false),
        Ok(D::from_str("7.3890560989306502265").unwrap())
    );
    assert_eq!(
        exp::<S, D>(two, true),
        Ok(D::from_str("0.13533528323661269186").unwrap())
    );
}

#[test]
fn log2_works() {
    type S = U64F64;
    type D = U64F64;

    let zero = S::from_num(0);
    let one = S::from_num(1);
    let two = S::from_num(2);
    let four = S::from_num(4);

    assert_eq!(log2::<S, D>(zero), Err(()));

    assert_eq!(log2(two), Ok((D::from_num(one), false)));
    assert_eq!(log2(one / four), Ok((D::from_num(two), true)));
    assert_eq!(log2(S::from_num(0.5)), Ok((D::from_num(one), true)));
    assert_eq!(log2(S::from_num(1.0 / 0.5)), Ok((D::from_num(one), false)));
}

#[test]
fn powi_works() {
    type S = U64F64;
    type D = U64F64;

    let zero = S::from_num(0);
    let one = S::from_num(1);
    let two = S::from_num(2);
    let four = S::from_num(4);

    assert_eq!(powi(two, 0), Ok(D::from_num(one)));
    assert_eq!(powi(zero, 2), Ok(D::from_num(zero)));
    assert_eq!(powi(two, 1), Ok(D::from_num(2)));
    assert_eq!(powi(two, 3), Ok(D::from_num(8)));
    assert_eq!(powi(one / four, 2), Ok(D::from_num(0.0625)));
    assert_eq!(powi(S::from_num(2), 2), Ok(D::from_num(4)));
}

#[test]
fn pow_works() {
    type S = FixedBalance;
    type D = FixedBalance;
    let zero = S::from_num(0);
    let one = S::from_num(1);
    let two = S::from_num(2);
    let three = S::from_num(3);
    let four = S::from_num(4);

    assert_eq!(pow::<S, D>(two, zero), Ok(one.into()));
    assert_eq!(pow::<S, D>(zero, two), Ok(zero.into()));

    let result: f64 = pow::<S, D>(two, three).unwrap().lossy_into();
    assert!((result - 8.0).abs() <= 1.0e-6);

    let result: f64 = pow::<S, D>(one / four, two).unwrap().lossy_into();
    assert!((result - 0.0625).abs() <= 1.0e-6);

    assert_eq!(pow::<S, D>(two, one), Ok(two.into()));

    let result: f64 = pow::<S, D>(one / four, one / two).unwrap().lossy_into();
    assert!((result - 0.5).abs() <= 1.0e-6);

    assert_eq!(
        pow(S::from_num(22.1234), S::from_num(2.1)),
        Ok(D::from_num(667.097035126091))
    );

    assert_eq!(
        pow(S::from_num(0.986069911074), S::from_num(1.541748732743)),
        Ok(D::from_num(0.978604513883))
    );
}

#[test]
fn ln_works() {
    type S = U64F64;
    type D = U64F64;

    // ln 1 is zero, with the flag cleared
    assert_eq!(ln::<S, D>(S::from_num(1)), Ok((D::from_num(0), false)));
    // ln fails exactly on a zero operand
    assert_eq!(ln::<S, D>(S::from_num(0)), Err(()));
    // ln 2 to the precision the truncated log2(e) constant gives
    let (v, neg) = ln::<S, D>(S::from_num(2)).unwrap();
    assert!(!neg);
    let approx: f64 = v.lossy_into();
    assert!((approx - 0.6931471805599453).abs() < 1.0e-6);
}

#[test]
fn log2_reciprocal_mirrors_sign() {
    type S = U64F64;
    type D = U64F64;

    // the logarithm of a value below one equals the logarithm of its
    // reciprocal with the flag swapped
    let a = S::from_num(0.125);
    let inv = S::from_num(8);
    let below = log2::<S, D>(a).unwrap();
    let above = log2::<S, D>(inv).unwrap();
    assert!(below.1);
    assert!(!above.1);
    assert_eq!(below.0, above.0);
    assert_eq!(below.0, D::from_num(3));
}

#[test]
fn powi_matches_repeated_multiplication() {
    type S = U64F64;
    type D = U64F64;

    let x = S::from_num(1.5);
    let mut acc = x;
    for n in 2u32..6 {
        acc = acc * x;
        assert_eq!(powi::<S, D>(x, n), Ok(acc));
    }
}

#[test]
fn powi_overflow_is_reported() {
    type S = U64F64;
    type D = U64F64;

    // squaring a value with a 33-bit whole part passes 64 bits
    let big = S::from_num(u64::MAX / 2);
    assert_eq!(powi::<S, D>(big, 2), Err(()));
}

#[test]
fn log2_rejects_unrepresentable_reciprocal() {
    type S = U64F64;
    type D = U64F64;

    // the smallest positive operand: its reciprocal 2^64 does not fit, so
    // the call reports an error instead of a wrong magnitude
    let tiny = S::from_bits(1);
    assert_eq!(log2::<S, D>(tiny), Err(()));
    assert_eq!(ln::<S, D>(tiny), Err(()));
    assert_eq!(pow::<S, D>(tiny, S::from_num(2)), Err(()));
}
