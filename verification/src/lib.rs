//! A verified arithmetic-expression calculator core.
//!
//! The pipeline has three stages: [`tokenize::tokenize`] splits a line of
//! text into tokens, [`postfix::infix_to_postfix`] reorders them into
//! Reverse Polish form with the shunting-yard algorithm, and
//! [`eval::calculate_postfix`] reduces a postfix sequence with an operand
//! stack. Number tokens are carried opaquely: the tokenizer keeps each
//! numeric literal as the text it was written with, and the evaluator is
//! generic over the operand type, taking the binary arithmetic itself as a
//! closure. A caller that wants double-precision arithmetic maps the
//! literals to its own numeric type and passes the four operations in.

pub mod token;
pub mod number;
pub mod tokenize;
pub mod postfix;
pub mod eval;
pub mod render;
pub mod laws;
