//! Edge cases: associativity, precedence, malformed input, leniency of
//! the tokenizer, and the numeric-literal grammar.

use calculator::eval::{calculate_postfix, evaluate_infix};
use calculator::number::check_float_literal;
use calculator::postfix::infix_to_postfix;
use calculator::render::{postfix_rendering, tokens_to_string};
use calculator::token::{CalcError, Operator, Token};
use calculator::tokenize::{split_words, tokenize};

fn to_f64_tokens(tokens: Vec<Token<String>>) -> Vec<Token<f64>> {
    tokens
        .into_iter()
        .map(|t| match t {
            Token::Number(s) => Token::Number(s.parse::<f64>().unwrap()),
            Token::Operator(op) => Token::Operator(op),
        })
        .collect()
}

fn apply_op(op: Operator, a: f64, b: f64) -> f64 {
    match op {
        Operator::Add => a + b,
        Operator::Sub => a - b,
        Operator::Mul => a * b,
        Operator::Div => a / b,
        Operator::OpenP | Operator::CloseP => panic!("parenthesis has no evaluation rule"),
    }
}

fn try_calculate(input: &str) -> Result<f64, CalcError> {
    evaluate_infix(to_f64_tokens(tokenize(input)), &apply_op)
}

#[test]
fn single_number_round_trips() {
    assert_eq!(try_calculate("2.5"), Ok(2.5));
    assert_eq!(try_calculate("-3"), Ok(-3.0));
}

#[test]
fn binary_operations() {
    assert_eq!(try_calculate("7 - 5"), Ok(2.0));
    assert_eq!(try_calculate("6 * 7"), Ok(42.0));
    assert_eq!(try_calculate("4 / 5"), Ok(0.8));
}

#[test]
fn division_by_zero_propagates_infinity() {
    assert_eq!(try_calculate("1 / 0"), Ok(f64::INFINITY));
}

#[test]
fn subtraction_is_left_associative() {
    assert_eq!(try_calculate("3 - 1 - 1"), Ok(1.0));
}

#[test]
fn multiplication_binds_tighter() {
    assert_eq!(try_calculate("1 + 2 * 3"), Ok(7.0));
}

#[test]
fn rendering_is_stable() {
    let first = tokens_to_string(&infix_to_postfix(tokenize("1 + 2 * 3")).unwrap());
    let second = tokens_to_string(&infix_to_postfix(tokenize("1 + 2 * 3")).unwrap());
    assert_eq!(first, second);
    assert_eq!(tokens_to_string(&tokenize("1 + 2")), "1 + 2");
    assert_eq!(tokens_to_string(&tokenize("")), "");
}

#[test]
fn lone_close_paren_is_unbalanced() {
    assert_eq!(
        infix_to_postfix(tokenize(")")),
        Err(CalcError::UnbalancedParens)
    );
    assert_eq!(try_calculate(")"), Err(CalcError::UnbalancedParens));
}

#[test]
fn unclosed_open_paren_is_unbalanced() {
    assert_eq!(try_calculate("( 1 + 2"), Err(CalcError::UnbalancedParens));
}

#[test]
fn dangling_operator_starves_the_evaluator() {
    assert_eq!(try_calculate("1 +"), Err(CalcError::OperandStarvation));
}

#[test]
fn wrong_final_arity_is_fatal() {
    assert_eq!(try_calculate(""), Err(CalcError::ResultArity));
    assert_eq!(try_calculate("1 2"), Err(CalcError::ResultArity));
}

#[test]
fn paren_handed_to_the_evaluator_is_fatal() {
    let tokens: Vec<Token<f64>> = vec![Token::Operator(Operator::OpenP)];
    assert_eq!(
        calculate_postfix(tokens, &apply_op),
        Err(CalcError::ParenInPostfix)
    );
}

#[test]
fn unrecognized_words_are_dropped() {
    assert_eq!(tokenize("1 foo + 2"), tokenize("1 + 2"));
    assert_eq!(try_calculate("1 bogus + 2"), Ok(3.0));
}

#[test]
fn whitespace_variants_split_alike() {
    assert_eq!(tokenize("1\t+\n2"), tokenize("1 + 2"));
    assert_eq!(split_words("  a  bc "), vec!["a".to_string(), "bc".to_string()]);
    assert_eq!(split_words(""), Vec::<String>::new());
}

#[test]
fn unicode_whitespace_also_separates() {
    // Vertical tab, no-break space, and the ideographic space all split,
    // exactly as str::split_whitespace would.
    assert_eq!(tokenize("1\u{b}2"), tokenize("1 2"));
    assert_eq!(tokenize("1\u{a0}+\u{3000}2"), tokenize("1 + 2"));
    for (input, expected) in [("a\u{b}b", 2), ("a\u{85}b", 2), ("a\u{2009}b", 2), ("a_b", 1)] {
        assert_eq!(split_words(input).len(), expected, "input: {:?}", input);
        assert_eq!(input.split_whitespace().count(), expected, "std disagrees: {:?}", input);
    }
}

#[test]
fn literal_grammar_accepts_the_standard_forms() {
    for ok in ["1", "1.", ".5", "1.5", "+3", "-0.5", "1e5", "1.5E-3", "+1.e2"] {
        assert!(check_float_literal(ok), "expected accept: {}", ok);
        assert!(ok.parse::<f64>().is_ok(), "std disagrees on: {}", ok);
    }
}

#[test]
fn literal_grammar_rejects_the_rest() {
    for bad in ["", ".", "+", "-", "1.2.3", "e5", "1e", "1e+", "--1", "info", "na", "0x10",
        "1 2", "1f"] {
        assert!(!check_float_literal(bad), "expected reject: {}", bad);
        assert!(bad.parse::<f64>().is_err(), "std disagrees on: {}", bad);
    }
}

#[test]
fn non_finite_words_are_not_numbers() {
    // The standard parser would accept these, but tokenization must not
    // inject a NaN or an infinity: they are dropped like any other
    // unrecognized word.
    for word in ["inf", "-inf", "Infinity", "nan", "NaN"] {
        assert!(!check_float_literal(word), "expected reject: {}", word);
        assert!(!word.parse::<f64>().unwrap().is_finite());
    }
    assert_eq!(tokenize("1 inf + 2"), tokenize("1 + 2"));
    assert_eq!(try_calculate("nan"), Err(CalcError::ResultArity));
}

#[test]
fn magnitude_overflow_is_not_filtered() {
    // The grammar bounds form, not magnitude: an overflowing decimal
    // literal is still a number token, and its downstream parse rounds
    // to infinity.
    assert!(check_float_literal("1e999"));
    assert_eq!(try_calculate("1e999"), Ok(f64::INFINITY));
}

#[test]
fn operator_table() {
    assert_eq!(Operator::Add.precedence(), 2);
    assert_eq!(Operator::Sub.precedence(), 2);
    assert_eq!(Operator::Mul.precedence(), 4);
    assert_eq!(Operator::Div.precedence(), 4);
    assert_eq!(Operator::OpenP.precedence(), 1);
    assert_eq!(Operator::CloseP.precedence(), 1);
    assert!(Operator::Add.lower_precedence(&Operator::Mul));
    assert!(!Operator::Mul.lower_precedence(&Operator::Mul));
    assert!(!Operator::Mul.lower_precedence(&Operator::Add));
    assert_eq!(Operator::Add.to_str(), "+");
    assert_eq!(Operator::Sub.to_str(), "-");
    assert_eq!(Operator::Mul.to_str(), "*");
    assert_eq!(Operator::Div.to_str(), "/");
    assert_eq!(Operator::OpenP.to_str(), "(");
    assert_eq!(Operator::CloseP.to_str(), ")");
}

#[test]
fn one_call_rendering_matches_the_composition() {
    assert_eq!(
        postfix_rendering("1 + 2 * 3 - 4 / 5"),
        Ok("1 2 3 * + 4 5 / -".to_string())
    );
    assert_eq!(postfix_rendering(")"), Err(CalcError::UnbalancedParens));
}

#[test]
fn nested_parens_override_precedence() {
    assert_eq!(try_calculate("( 1 + 2 ) * 2"), Ok(6.0));
    assert_eq!(try_calculate("2 * ( 3 - ( 1 + 1 ) )"), Ok(2.0));
}
