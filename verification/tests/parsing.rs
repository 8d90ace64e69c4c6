//! The tokenizer and recursive-descent parser.

use matheriser::parser::{parse_string, BinaryOp, ExprTree, ParseError, UnaryOp};

#[test]
fn correctly_parses_value() {
    assert_eq!(Ok(ExprTree::Val(3.into())), parse_string("3"))
}

#[test]
fn correctly_parses_simple_tree() {
    assert_eq!(
        Ok(ExprTree::BNode(
            BinaryOp::Plus,
            Box::new(ExprTree::Val(3.into())),
            Box::new(ExprTree::Val(4.into()))
        )),
        parse_string("3+4")
    )
}

#[test]
fn parses_precedence_and_unary() {
    // multiplication binds tighter than addition
    assert_eq!(
        Ok(ExprTree::BNode(
            BinaryOp::Plus,
            Box::new(ExprTree::Val(1.into())),
            Box::new(ExprTree::BNode(
                BinaryOp::Mul,
                Box::new(ExprTree::Val(2.into())),
                Box::new(ExprTree::Val(3.into()))
            ))
        )),
        parse_string("1+2*3")
    );
    assert_eq!(
        Ok(ExprTree::UNode(UnaryOp::Neg, Box::new(ExprTree::Val(7.into())))),
        parse_string("-7")
    );
}

#[test]
fn parses_decimal_literal_as_approx() {
    assert_eq!(Ok(ExprTree::Approx("3.5".to_string())), parse_string("3.5"));
}

#[test]
fn rejects_trailing_input() {
    assert_eq!(parse_string("3 4"), Err(ParseError::TrailingInput));
}

#[test]
fn rejects_unknown_constant() {
    assert_eq!(parse_string(":bogus"), Err(ParseError::UnknownConstant));
}
