//! End-to-end evaluation scenarios and the arithmetic operators.

use matheriser::eval::op::add::Add;
use matheriser::eval::op::calculate_fn::CalculateFn;
use matheriser::eval::op::mul::Mul;
use matheriser::eval::op::pow::Pow;
use matheriser::eval::radical::Radical;
use matheriser::eval::{EvalError, Number, Symbol, Symbolic};
use matheriser::parser::parse_string;
use matheriser::rat::Rat;

fn eval_str(s: &str) -> Result<Number, EvalError> {
    parse_string(s).unwrap().eval()
}

fn rational(n: i64, d: i64) -> Number {
    Number::Rational(Rat::new(n, d).unwrap())
}

fn radical_raw(cn: i64, cd: i64, index: u32, radicand: i64) -> Number {
    Number::Radical(Box::new(Radical::new_raw(
        match Rat::new(cn, cd) {
            Ok(q) => q,
            Err(_) => panic!(),
        },
        index,
        Number::Int(radicand),
    )))
}

#[test]
fn exact_radical_arithmetic() {
    // the square root of eight simplifies to two root two, and adding
    // one more root two makes three root two
    let sqrt8 = Number::Int(8).nth_root(2).unwrap();
    let sqrt2 = Number::Int(2).nth_root(2).unwrap();
    assert_eq!(sqrt8, radical_raw(2, 1, 2, 2));
    let sum = sqrt8.add(&sqrt2).unwrap();
    assert_eq!(sum, radical_raw(3, 1, 2, 2));
}

#[test]
fn division_by_zero_fails() {
    assert_eq!(eval_str("5/0"), Err(EvalError::DivideByZero));
}

#[test]
fn symbolic_linear_combination() {
    // two pi plus three minus pi leaves pi plus three
    let expected = Number::Symbolic(Box::new(Symbolic {
        coeff: None,
        symbol: Symbol::Pi,
        constant: Some(Number::Int(3)),
    }));
    assert_eq!(eval_str("2*:pi+3-:pi"), Ok(expected));
}

#[test]
fn trig_identities() {
    assert_eq!(eval_str("sin(:pi/6)"), Ok(rational(1, 2)));
    assert_eq!(eval_str("cos(:pi/4)"), Ok(radical_raw(1, 2, 2, 2)));
    assert_eq!(eval_str("tan(:pi/2)"), Err(EvalError::TangentUndefined));
    assert_eq!(eval_str("sin(:pi)"), Ok(Number::Int(0)));
}

#[test]
fn log_identities() {
    assert_eq!(eval_str("ln(:e)"), Ok(Number::Int(1)));
    assert_eq!(eval_str("ln(:e^3)"), Ok(Number::Int(3)));
    assert_eq!(eval_str("log(1000)"), Ok(Number::Int(3)));
    assert_eq!(eval_str("ln(-1)"), Err(EvalError::NonPositiveLog));
}

#[test]
fn exactness_of_division() {
    // an even division gives a whole number
    assert_eq!(eval_str("12/4"), Ok(Number::Int(3)));
    // anything else gives a reduced fraction, never an approximation
    assert_eq!(eval_str("10/4"), Ok(rational(5, 2)));
    assert_eq!(eval_str("7/3"), Ok(rational(7, 3)));
}

#[test]
fn rational_arithmetic_reduces_and_demotes() {
    let half = rational(1, 2);
    let sum = half.add(&half).unwrap();
    assert_eq!(sum, Number::Int(1));
    let third = rational(1, 3);
    assert_eq!(half.mul(&third).unwrap(), rational(1, 6));
    assert_eq!(half.sub(&third).unwrap(), rational(1, 6));
    assert_eq!(half.div(&third).unwrap(), rational(3, 2));
}

#[test]
fn addition_overflow_is_reported() {
    let big = Number::Int(i64::MAX);
    assert_eq!(big.add(&Number::Int(1)), Err(EvalError::Overflow));
}

#[test]
fn inexact_sums_are_reported() {
    // one plus root two has no exact representation here
    let sqrt2 = Number::Int(2).nth_root(2).unwrap();
    assert_eq!(Number::Int(1).add(&sqrt2), Err(EvalError::Inexact));
}

#[test]
fn unknown_function_fails() {
    assert_eq!(eval_str("frob(3)"), Err(EvalError::UnknownFunction));
}

#[test]
fn simplify_is_idempotent() {
    // simplifying an already simplified radical returns it unchanged
    let simplified = Radical::new(Rat::from_int(1), 2, Number::Int(8)).unwrap();
    let again = simplified.clone().simplify().unwrap();
    assert_eq!(again, simplified);
}

#[test]
fn sanity_check_collapses_trivial_parts() {
    let disguised = Symbolic {
        coeff: Some(Number::Int(1)),
        symbol: Symbol::Pi,
        constant: Some(Number::Int(0)),
    };
    assert_eq!(disguised.sanity_check(), Err(Symbol::Pi));
    let fine = Symbolic {
        coeff: Some(Number::Int(2)),
        symbol: Symbol::Pi,
        constant: Some(Number::Int(0)),
    };
    let cleaned = fine.sanity_check().unwrap();
    assert_eq!(cleaned.coeff, Some(Number::Int(2)));
    assert_eq!(cleaned.constant, None);
}

#[test]
fn divisibility_oracle() {
    assert!(Number::Int(6).divisible_by(&Number::Int(3)));
    assert!(!Number::Int(7).divisible_by(&Number::Int(3)));
    assert!(!Number::Int(6).divisible_by(&Number::Int(0)));
    assert!(Number::Symbol(Symbol::Pi).divisible_by(&Number::Symbol(Symbol::Pi)));
    assert!(!Number::Symbol(Symbol::Pi).divisible_by(&Number::Symbol(Symbol::E)));
    assert!(!Number::Int(4).divisible_by(&Number::Symbol(Symbol::Pi)));
}

#[test]
fn symbol_products_and_powers() {
    // one times pi collapses to the bare constant
    assert_eq!(eval_str("1*:pi"), Ok(Number::Symbol(Symbol::Pi)));
    // pi over pi is one
    assert_eq!(eval_str(":pi/:pi"), Ok(Number::Int(1)));
    // dividing a constant by two makes a half coefficient
    let half_pi = Number::Symbolic(Box::new(Symbolic {
        coeff: Some(rational(1, 2)),
        symbol: Symbol::Pi,
        constant: None,
    }));
    assert_eq!(eval_str(":pi/2"), Ok(half_pi));
}

#[test]
fn power_operator() {
    assert_eq!(eval_str("2^10"), Ok(Number::Int(1024)));
    assert_eq!(eval_str("2^(0-2)"), Ok(rational(1, 4)));
    // a square root squared comes back whole
    let sqrt2 = Number::Int(2).nth_root(2).unwrap();
    assert_eq!(sqrt2.pow(&Number::Int(2)), Ok(Number::Int(2)));
}

#[test]
fn calculate_fn_dispatches_by_name() {
    let name = "sin".to_string();
    assert_eq!(Number::Int(0).calculate_fn(&name), Ok(Number::Int(0)));
    let unknown = "sinh".to_string();
    assert_eq!(Number::Int(0).calculate_fn(&unknown), Err(EvalError::UnknownFunction));
}

#[test]
fn quadrant_reduction() {
    // second quadrant: sine keeps its sign, cosine flips
    assert_eq!(eval_str("sin(5*:pi/6)"), Ok(rational(1, 2)));
    assert_eq!(eval_str("cos(2*:pi/3)"), Ok(rational(-1, 2)));
    // third quadrant: sine flips
    assert_eq!(eval_str("sin(7*:pi/6)"), Ok(rational(-1, 2)));
    // the tangent mirrors about the half turn
    assert_eq!(eval_str("tan(3*:pi/4)"), Ok(Number::Int(-1)));
    // negative angles fold in from below
    assert_eq!(eval_str("sin(0-:pi/6)"), Ok(rational(-1, 2)));
    // whole turns land back on the axis values
    assert_eq!(eval_str("cos(2*:pi)"), Ok(Number::Int(1)));
    assert_eq!(eval_str("cos(3*:pi)"), Ok(Number::Int(-1)));
}

#[test]
fn large_perfect_power() {
    let base: i64 = 1 << 31;
    let square = Number::Int(base * base);
    assert_eq!(square.nth_root(2), Ok(Number::Int(base)));
}

#[test]
fn root_of_fraction() {
    // the square root of one quarter is one half
    let quarter = rational(1, 4);
    let root = quarter.nth_root(2).unwrap();
    // the radicand collapses to one under simplification and the
    // radical demotes to its plain coefficient
    assert_eq!(root, rational(1, 2));
}

#[test]
fn operator_traits_agree_with_the_operators() {
    let two = Number::Int(2);
    let three = Number::Int(3);
    assert_eq!(Add::add(&two, &three), Ok(Number::Int(5)));
    assert_eq!(Mul::mul(&two, &three), Ok(Number::Int(6)));
    assert_eq!(Pow::pow(&two, &three), Ok(Number::Int(8)));
}

#[test]
fn even_root_of_negative_symbolic_fails() {
    // the sign of minus pi is decided exactly, so its square root fails
    assert_eq!(eval_str("(0-:pi)^(1/2)"), Err(EvalError::EvenRootOfNegative));
    let minus_pi = Number::Symbolic(Box::new(Symbolic {
        coeff: Some(Number::Int(-1)),
        symbol: Symbol::Pi,
        constant: None,
    }));
    assert_eq!(minus_pi.nth_root(2), Err(EvalError::EvenRootOfNegative));
}

#[test]
fn even_root_of_undecided_sign_is_inexact() {
    // a coefficient the exact comparison cannot read leaves the sign
    // open, so no exact even root is produced
    let sqrt2 = Number::Int(2).nth_root(2).unwrap();
    let sqrt2_pi = Number::Symbolic(Box::new(Symbolic {
        coeff: Some(sqrt2),
        symbol: Symbol::Pi,
        constant: None,
    }));
    assert_eq!(sqrt2_pi.nth_root(2), Err(EvalError::Inexact));
}

#[test]
fn radical_division_cancels_the_root() {
    // root eight over root two is exactly two
    assert_eq!(eval_str("8^(1/2)/2^(1/2)"), Ok(Number::Int(2)));
}

#[test]
fn comparison_is_reflexive_on_every_kind() {
    let sqrt2 = Number::Int(2).nth_root(2).unwrap();
    let tower = Number::Symbolic(Box::new(Symbolic {
        coeff: Some(sqrt2),
        symbol: Symbol::Pi,
        constant: Some(Number::Int(3)),
    }));
    let again = tower.clone();
    assert_eq!(tower.partial_cmp(&again), Some(std::cmp::Ordering::Equal));
}

#[test]
fn decimal_literals_are_not_exact() {
    assert_eq!(eval_str("1.5+1"), Err(EvalError::Inexact));
}
