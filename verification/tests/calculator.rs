//! The pipeline exercised end to end with double-precision arithmetic.

use calculator::eval::calculate_postfix;
use calculator::postfix::infix_to_postfix;
use calculator::render::tokens_to_string;
use calculator::token::{Operator, Token};
use calculator::tokenize::tokenize;

fn to_f64_tokens(tokens: Vec<Token<String>>) -> Vec<Token<f64>> {
    tokens
        .into_iter()
        .map(|t| match t {
            Token::Number(s) => Token::Number(s.parse::<f64>().unwrap()),
            Token::Operator(op) => Token::Operator(op),
        })
        .collect()
}

fn apply_op(op: Operator, a: f64, b: f64) -> f64 {
    match op {
        Operator::Add => a + b,
        Operator::Sub => a - b,
        Operator::Mul => a * b,
        Operator::Div => a / b,
        Operator::OpenP | Operator::CloseP => panic!("parenthesis has no evaluation rule"),
    }
}

fn calculate(input: &str) -> f64 {
    let tokens = to_f64_tokens(tokenize(input));
    let postfix = infix_to_postfix(tokens).unwrap();
    calculate_postfix(postfix, &apply_op).unwrap()
}

#[test]
fn single_argument() {
    assert_eq!(calculate("1"), 1.0);
}

#[test]
fn add_two() {
    assert_eq!(calculate("1 + 2"), 3.0);
}

#[test]
fn minus_two() {
    assert_eq!(calculate("3 - 1"), 2.0);
}

#[test]
fn calc_with_parenthesis() {
    assert_eq!(calculate("( 1 + 2 ) * ( ( 3 - 4 ) - 5 )"), -18.0);
}

#[test]
fn tokenize_add() {
    let tokens = tokenize("+");
    assert_eq!(tokens.len(), 1);
    assert_eq!(tokens[0], Token::Operator(Operator::Add));
}

#[test]
fn tokenize_number_and_add() {
    let tokens = tokenize("1 + 2");
    assert_eq!(tokens.len(), 3);
    assert_eq!(
        to_f64_tokens(tokens),
        vec![
            Token::Number(1.0),
            Token::Operator(Operator::Add),
            Token::Number(2.0)
        ]
    );
}

#[test]
fn infix_to_postfix_test1() {
    let tokens = tokenize("1 + 2 * 3");
    let postfix = infix_to_postfix(tokens).unwrap();
    assert_eq!(tokens_to_string(&postfix), "1 2 3 * +");
}

#[test]
fn infix_to_postfix_test2() {
    let tokens = tokenize("1 + 2 * 3 - 4 / 5");
    let postfix = infix_to_postfix(tokens).unwrap();
    assert_eq!(tokens_to_string(&postfix), "1 2 3 * + 4 5 / -");
}

#[test]
fn infix_to_postfix_with_parenthesis() {
    let tokens = tokenize("( 1 + 2 ) * ( ( 3 - 4 ) - 5 )");
    let postfix = infix_to_postfix(tokens).unwrap();
    assert_eq!(tokens_to_string(&postfix), "1 2 + 3 4 - 5 - *");
}
