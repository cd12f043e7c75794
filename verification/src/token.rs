//! The token vocabulary shared by every stage of the pipeline.
//!
//! An expression is a sequence of [`Token`]s: numeric operands and
//! [`Operator`] symbols. The pipeline never looks inside an operand, so
//! `Token` is generic over the operand payload `V`: the tokenizer produces
//! `Token<String>` (the literal text of each number), and a caller that
//! evaluates with some numeric type `N` works with `Token<N>`.

use vstd::prelude::*;

verus! {

/// One of the recognized operator symbols.
///
/// `Add` and `Sub` share the lower precedence tier, `Mul` and `Div` the
/// higher one. The parentheses `OpenP` and `CloseP` are grouping markers:
/// they sit on a barrier tier below both, carry no evaluation rule, and
/// never appear in the converter's postfix output.
#[derive(Clone, Copy, Debug, PartialEq, Eq, Structural)]
pub enum Operator {
    Add,
    Sub,
    Mul,
    Div,
    OpenP,
    CloseP,
}

impl Operator {
    /// The precedence rank of this operator; a higher rank binds tighter.
    pub open spec fn spec_precedence(self) -> i8 {
        match self {
            Operator::Add => 2,
            Operator::Sub => 2,
            Operator::Mul => 4,
            Operator::Div => 4,
            Operator::OpenP => 1,
            Operator::CloseP => 1,
        }
    }

    /// Whether this operator carries an evaluation rule, i.e. is one of
    /// the four arithmetic symbols rather than a parenthesis.
    pub open spec fn spec_is_arith(self) -> bool {
        self != Operator::OpenP && self != Operator::CloseP
    }

    /// The canonical one-character textual symbol of this operator.
    pub open spec fn spec_symbol(self) -> Seq<char> {
        match self {
            Operator::Add => seq!['+'],
            Operator::Sub => seq!['-'],
            Operator::Mul => seq!['*'],
            Operator::Div => seq!['/'],
            Operator::OpenP => seq!['('],
            Operator::CloseP => seq![')'],
        }
    }

    /// The precedence rank of this operator; a higher rank binds tighter.
    pub fn precedence(&self) -> (r: i8)
        ensures
            r == self.spec_precedence(),
    {
        match self {
            Operator::Add => 2,
            Operator::Sub => 2,
            Operator::Mul => 4,
            Operator::Div => 4,
            Operator::OpenP => 1,
            Operator::CloseP => 1,
        }
    }

    /// Whether `self` binds strictly less tightly than `other`.
    pub fn lower_precedence(&self, other: &Operator) -> (r: bool)
        ensures
            r == (self.spec_precedence() < other.spec_precedence()),
    {
        self.precedence() < other.precedence()
    }

    /// The canonical textual symbol, for round-trip rendering.
    pub fn to_str(&self) -> (r: &'static str)
        ensures
            r@ == self.spec_symbol(),
    {
        proof {
            reveal_strlit("+");
            reveal_strlit("-");
            reveal_strlit("*");
            reveal_strlit("/");
            reveal_strlit("(");
            reveal_strlit(")");
        }
        match self {
            Operator::Add => "+",
            Operator::Sub => "-",
            Operator::Mul => "*",
            Operator::Div => "/",
            Operator::OpenP => "(",
            Operator::CloseP => ")",
        }
    }
}

/// One element of an expression: a numeric operand carrying a payload of
/// type `V`, or an operator symbol.
#[derive(Clone, Copy, Debug, PartialEq, Eq)]
pub enum Token<V> {
    Number(V),
    Operator(Operator),
}

/// Whether `t` is a parenthesis token. The converter guarantees that no
/// such token survives into its postfix output.
pub open spec fn is_paren_token<V>(t: Token<V>) -> bool {
    match t {
        Token::Number(_) => false,
        Token::Operator(op) => !op.spec_is_arith(),
    }
}

/// The mathematical shape of a text-payload token: the operand text is
/// abstracted to its character sequence.
pub open spec fn token_text(t: Token<String>) -> Token<Seq<char>> {
    match t {
        Token::Number(s) => Token::Number(s@),
        Token::Operator(op) => Token::Operator(op),
    }
}

/// Why a `calculate` run failed; every variant is a malformed-input
/// condition, and arithmetic edge cases such as division by zero are
/// deliberately not among them.
#[derive(Clone, Copy, Debug, PartialEq, Eq, Structural)]
pub enum CalcError {
    /// A close parenthesis had no matching open parenthesis on the
    /// converter's stack, or an open parenthesis was never closed.
    UnbalancedParens,
    /// An operator reached the evaluator with fewer than two operands on
    /// the stack.
    OperandStarvation,
    /// The evaluator consumed the whole sequence without ending on exactly
    /// one value.
    ResultArity,
    /// A parenthesis token was handed to the evaluator, which a correct
    /// converter never produces.
    ParenInPostfix,
}

} // verus!
