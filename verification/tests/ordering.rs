//! The cross-representation comparison.

use matheriser::eval::radical::Radical;
use matheriser::eval::{Number, Symbol, Symbolic};
use matheriser::rat::Rat;
use rand::Rng;

#[test]
fn ints() {
    let mut rng = rand::thread_rng();

    for i in 1..30 {
        let k: i64 = rng.gen_range(-256..255);
        if k == 0 {
            continue;
        }
        assert_eq!(
            i.partial_cmp(&(i * k)),
            Number::from(i).partial_cmp(&Number::from(i * k))
        )
    }
}

#[test]
fn symbolics() {
    assert!(
        Number::Symbolic(Box::new(Symbolic {
            coeff: Some(Number::from(2)),
            symbol: Symbol::Pi,
            constant: None
        })) > Number::Symbol(Symbol::Pi)
    );

    assert!(
        Number::Symbolic(Box::new(Symbolic {
            coeff: Some(Number::from(4)),
            symbol: Symbol::Pi,
            constant: None
        })) > Number::Symbolic(Box::new(Symbolic {
            coeff: Some(Number::from(2)),
            symbol: Symbol::Pi,
            constant: None
        }))
    );
    assert!(
        Number::Symbolic(Box::new(Symbolic {
            coeff: Some(Number::from(2)),
            symbol: Symbol::Pi,
            constant: None
        })) > Number::from(6)
    );
}

#[test]
fn symbols_against_fractions() {
    // pi sits between 3 and 4
    assert!(Number::Symbol(Symbol::Pi) > Number::Int(3));
    assert!(Number::Symbol(Symbol::Pi) < Number::Int(4));
    // root two sits between 7/5 and 3/2
    let seven_fifths = Number::Rational(Rat::new(7, 5).unwrap());
    let three_halves = Number::Rational(Rat::new(3, 2).unwrap());
    assert!(Number::Symbol(Symbol::Sqrt2) > seven_fifths);
    assert!(Number::Symbol(Symbol::Sqrt2) < three_halves);
}

#[test]
fn symbols_against_radicals() {
    let two_root_two = Number::Radical(Box::new(Radical::new_raw(
        Rat::from_int(2),
        2,
        Number::Int(2),
    )));
    let root_two = Number::Radical(Box::new(Radical::new_raw(
        Rat::from_int(1),
        2,
        Number::Int(2),
    )));
    assert!(Number::Symbol(Symbol::Sqrt2) < two_root_two);
    assert!(Number::Symbol(Symbol::Pi) > root_two);
}

#[test]
fn comparison_matches_equality() {
    let half = Number::Rational(Rat::new(1, 2).unwrap());
    let two_quarters = Number::Rational(Rat::new(2, 4).unwrap());
    assert_eq!(half.partial_cmp(&two_quarters), Some(std::cmp::Ordering::Equal));
    assert!(half == two_quarters);
}
