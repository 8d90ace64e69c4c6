//! The reduced rational type underneath the engine.

use matheriser::eval::EvalError;
use matheriser::rat::Rat;

#[test]
fn rationals_reduce_on_construction() {
    let q = Rat::new(6, 4).unwrap();
    assert_eq!(q.numer(), 3);
    assert_eq!(q.denom(), 2);
    // the sign lives in the numerator
    let n = Rat::new(3, -6).unwrap();
    assert_eq!(n.numer(), -1);
    assert_eq!(n.denom(), 2);
    assert_eq!(Rat::new(1, 0), Err(EvalError::DivideByZero));
}

#[test]
fn rational_operations_are_exact() {
    let half = Rat::new(1, 2).unwrap();
    let third = Rat::new(1, 3).unwrap();
    assert_eq!(half.add(&third).unwrap(), Rat::new(5, 6).unwrap());
    assert_eq!(half.sub(&third).unwrap(), Rat::new(1, 6).unwrap());
    assert_eq!(half.mul(&third).unwrap(), Rat::new(1, 6).unwrap());
    assert_eq!(half.div(&third).unwrap(), Rat::new(3, 2).unwrap());
    assert_eq!(half.neg().unwrap(), Rat::new(-1, 2).unwrap());
    assert_eq!(half.recip().unwrap(), Rat::from_int(2));
    assert_eq!(Rat::new(-3, 4).unwrap().abs().unwrap(), Rat::new(3, 4).unwrap());
    assert_eq!(half.pow_u32(3).unwrap(), Rat::new(1, 8).unwrap());
}

#[test]
fn rational_comparison_is_by_value() {
    let half = Rat::new(1, 2).unwrap();
    let third = Rat::new(1, 3).unwrap();
    assert_eq!(half.compare(&third), std::cmp::Ordering::Greater);
    assert_eq!(third.compare(&half), std::cmp::Ordering::Less);
    assert_eq!(half.compare(&Rat::new(2, 4).unwrap()), std::cmp::Ordering::Equal);
}

#[test]
fn rational_overflow_is_reported() {
    let max = Rat::from_int(i64::MAX);
    assert_eq!(max.add(&Rat::from_int(1)), Err(EvalError::Overflow));
    assert_eq!(Rat::from_int(i64::MIN).neg(), Err(EvalError::Overflow));
}
