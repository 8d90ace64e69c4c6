//! The perfect-power search, the binomial row generator, and ordering
//! of radicals.

use matheriser::eval::op::root::{generate_pascals_row_inners, NthRoot};
use matheriser::eval::EvalError;
use matheriser::eval::radical::Radical;
use matheriser::eval::Number;
use matheriser::rat::Rat;

fn radical(coeff: i64, index: u32, radicand: i64) -> Number {
    Number::Radical(Box::new(
        Radical::new(Rat::from_int(coeff), index, Number::Int(radicand)).unwrap(),
    ))
}

fn radical_raw(coeff: i64, index: u32, radicand: i64) -> Number {
    Number::Radical(Box::new(Radical::new_raw(
        Rat::from_int(coeff),
        index,
        Number::Int(radicand),
    )))
}

#[test]
fn pascals_triangle() {
    assert_eq!(generate_pascals_row_inners(2), vec![2]);
    assert_eq!(generate_pascals_row_inners(4), vec![4, 6, 4])
}

#[test]
fn root_u32() {
    assert_eq!(125_u32.nth_root(3), Some(5_u32));
    assert_eq!(9.nth_root(2), Some(3_u32))
}

#[test]
fn roots() {
    assert!(
        radical(3, 2, 2).partial_cmp(&radical(4, 2, 2)) == Some(std::cmp::Ordering::Less)
    ); // distinguish by coefficient
    assert!(Number::Int(2) > radical(1, 2, 2)); // distinguish from int
    assert!(radical(1, 2, 19) > radical(3, 2, 2)); // distinguish complex
}

#[test]
fn roots_negatives_cursory() {
    assert!(radical_raw(-1, 2, 2) < radical_raw(1, 2, 2));
    assert!(radical_raw(-90, 3, -2) > radical_raw(-1, 3, 2));
}

#[test]
fn roots_negatives_thorough() {
    // negatives work correctly
    let signs: [(i64, i64, i64, i64); 9] = [
        (1, 1, 1, 1),
        (-1, -1, 1, 1),
        (1, -1, -1, 1),
        (1, -1, 1, -1),
        (-1, 1, 1, -1),
        (-1, -1, 1, 1),
        (-1, -1, -1, -1),
        (1, -1, -1, -1),
        (-1, 1, 1, 1),
    ];
    let signs_with_ordering: Vec<_> = signs
        .iter()
        .map(|&(m, a, n, b)| ((m, a, n, b), (2 * m * a).partial_cmp(&(n * b))))
        .collect();
    println!("got signs");
    for ((m, a, n, b), ordering) in signs_with_ordering {
        println!("round");
        assert_eq!(
            {
                let lhs = radical(2 * m, 3, 2 * a);
                let rhs = radical(n, 3, 2 * b);
                lhs.partial_cmp(&rhs)
            },
            ordering
        )
    }
}

#[test]
fn perfect_power_round_trip() {
    // r^n comes back as the whole number r, for a spread of bases
    for r in 1..=12_i64 {
        let cube = Number::Int(r * r * r);
        assert_eq!(cube.nth_root(3), Ok(Number::Int(r)));
        let square = Number::Int(r * r);
        assert_eq!(square.nth_root(2), Ok(Number::Int(r)));
    }
}

#[test]
fn odd_root_of_negative_is_negative() {
    // an odd root of a negative number negates the root of the magnitude
    assert_eq!(Number::Int(-27).nth_root(3), Ok(Number::Int(-3)));
    // a non-perfect magnitude keeps a radical with a negative coefficient
    assert_eq!(Number::Int(-2).nth_root(3), Ok(radical_raw(-1, 3, 2)));
    // and raising it back recombines to the operand
    let root = Number::Int(-27).nth_root(3).unwrap();
    assert_eq!(root.pow(&Number::Int(3)), Ok(Number::Int(-27)));
}

#[test]
fn even_root_of_negative_fails() {
    assert_eq!(Number::Int(-4).nth_root(2), Err(EvalError::EvenRootOfNegative));
}

#[test]
fn zeroth_root_fails() {
    assert_eq!(Number::Int(5).nth_root(0), Err(EvalError::ZerothRoot));
}

#[test]
fn root_simplifies_radicand() {
    // the eighth's square root leaves in normal form: two times root two
    let expected = Number::Radical(Box::new(Radical::new_raw(
        Rat::from_int(2),
        2,
        Number::Int(2),
    )));
    assert_eq!(Number::Int(8).nth_root(2), Ok(expected));
}
