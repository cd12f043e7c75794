//! Infix-to-postfix conversion by the shunting-yard algorithm.
//!
//! The converter walks the infix token sequence once, keeping a stack of
//! pending operators. Numbers go straight to the output; an arithmetic
//! operator first pops every stacked operator of greater or equal
//! precedence (the non-strict comparison is what makes equal-precedence
//! chains associate left-to-right); an open parenthesis is pushed as a
//! barrier, and a close parenthesis pops down to its matching barrier,
//! discarding both. A close parenthesis with no barrier below it, or a
//! barrier still on the stack at the end of the input, is an unbalanced
//! expression and is reported as an error, so parenthesis tokens never
//! reach the postfix output.

use vstd::prelude::*;

use crate::token::{CalcError, Operator, Token, is_paren_token};

verus! {

/// Pop every operator of precedence greater than or equal to `op` from the
/// top of `stack` into `out`. An open parenthesis sits on the barrier tier
/// below every arithmetic operator, so it is never popped here.
pub open spec fn drain_ge<V>(stack: Seq<Operator>, out: Seq<Token<V>>, op: Operator) -> (
    Seq<Operator>,
    Seq<Token<V>>,
)
    decreases stack.len(),
{
    if stack.len() > 0 && stack.last().spec_precedence() >= op.spec_precedence() {
        drain_ge(stack.drop_last(), out.push(Token::Operator(stack.last())), op)
    } else {
        (stack, out)
    }
}

/// Pop operators from `stack` into `out` until an open parenthesis is
/// popped and discarded; `None` when the stack runs out first, which means
/// a close parenthesis had no matching open one.
pub open spec fn drain_to_open<V>(stack: Seq<Operator>, out: Seq<Token<V>>) -> Option<
    (Seq<Operator>, Seq<Token<V>>),
>
    decreases stack.len(),
{
    if stack.len() == 0 {
        None
    } else if stack.last() == Operator::OpenP {
        Some((stack.drop_last(), out))
    } else {
        drain_to_open(stack.drop_last(), out.push(Token::Operator(stack.last())))
    }
}

/// Pop the whole remaining `stack` into `out`, in pop order.
pub open spec fn drain_all<V>(stack: Seq<Operator>, out: Seq<Token<V>>) -> Seq<Token<V>>
    decreases stack.len(),
{
    if stack.len() == 0 {
        out
    } else {
        drain_all(stack.drop_last(), out.push(Token::Operator(stack.last())))
    }
}

/// One shunting-yard run over `infix`, starting from the given operator
/// `stack` and already-emitted `out`.
pub open spec fn shunt<V>(
    infix: Seq<Token<V>>,
    stack: Seq<Operator>,
    out: Seq<Token<V>>,
) -> Result<Seq<Token<V>>, CalcError>
    decreases infix.len(),
{
    if infix.len() == 0 {
        if stack.contains(Operator::OpenP) {
            Err(CalcError::UnbalancedParens)
        } else {
            Ok(drain_all(stack, out))
        }
    } else {
        match infix.first() {
            Token::Number(v) => shunt(infix.drop_first(), stack, out.push(Token::Number(v))),
            Token::Operator(op) => {
                if op == Operator::CloseP {
                    match drain_to_open(stack, out) {
                        None => Err(CalcError::UnbalancedParens),
                        Some(so) => shunt(infix.drop_first(), so.0, so.1),
                    }
                } else if op == Operator::OpenP {
                    shunt(infix.drop_first(), stack.push(op), out)
                } else {
                    let so = drain_ge(stack, out, op);
                    shunt(infix.drop_first(), so.0.push(op), so.1)
                }
            },
        }
    }
}

/// What the converter returns on `infix`: the postfix reordering, or the
/// error for an unbalanced expression.
pub open spec fn postfix_spec<V>(infix: Seq<Token<V>>) -> Result<Seq<Token<V>>, CalcError> {
    shunt(infix, Seq::<Operator>::empty(), Seq::<Token<V>>::empty())
}

proof fn lemma_contains_drop_last(s: Seq<Operator>, x: Operator)
    requires
        s.len() > 0,
        s.last() != x,
    ensures
        s.contains(x) <==> s.drop_last().contains(x),
{
    if s.contains(x) {
        let i = choose|i: int| 0 <= i < s.len() && s[i] == x;
        assert(s.drop_last()[i] == x);
    }
    if s.drop_last().contains(x) {
        let i = choose|i: int| 0 <= i < s.drop_last().len() && s.drop_last()[i] == x;
        assert(s[i] == x);
    }
}

proof fn lemma_drain_ge_parens<V>(stack: Seq<Operator>, out: Seq<Token<V>>, op: Operator)
    requires
        op.spec_is_arith(),
        forall|k: int| 0 <= k < stack.len() ==> stack[k] != Operator::CloseP,
        forall|k: int| 0 <= k < out.len() ==> !is_paren_token(out[k]),
    ensures
        forall|k: int|
            0 <= k < drain_ge(stack, out, op).0.len() ==> drain_ge(stack, out, op).0[k]
                != Operator::CloseP,
        forall|k: int|
            0 <= k < drain_ge(stack, out, op).1.len() ==> !is_paren_token(
                drain_ge(stack, out, op).1[k],
            ),
    decreases stack.len(),
{
    if stack.len() > 0 && stack.last().spec_precedence() >= op.spec_precedence() {
        assert(stack.last().spec_is_arith());
        lemma_drain_ge_parens(stack.drop_last(), out.push(Token::Operator(stack.last())), op);
    }
}

proof fn lemma_drain_to_open_parens<V>(stack: Seq<Operator>, out: Seq<Token<V>>)
    requires
        forall|k: int| 0 <= k < stack.len() ==> stack[k] != Operator::CloseP,
        forall|k: int| 0 <= k < out.len() ==> !is_paren_token(out[k]),
    ensures
        drain_to_open(stack, out) matches Some(so) ==> (forall|k: int|
            0 <= k < so.0.len() ==> so.0[k] != Operator::CloseP) && (forall|k: int|
            0 <= k < so.1.len() ==> !is_paren_token(so.1[k])),
    decreases stack.len(),
{
    if stack.len() == 0 {
    } else if stack.last() == Operator::OpenP {
    } else {
        assert(stack.last().spec_is_arith());
        lemma_drain_to_open_parens(stack.drop_last(), out.push(Token::Operator(stack.last())));
    }
}

proof fn lemma_drain_all_parens<V>(stack: Seq<Operator>, out: Seq<Token<V>>)
    requires
        !stack.contains(Operator::OpenP),
        forall|k: int| 0 <= k < stack.len() ==> stack[k] != Operator::CloseP,
        forall|k: int| 0 <= k < out.len() ==> !is_paren_token(out[k]),
    ensures
        forall|k: int| 0 <= k < drain_all(stack, out).len() ==> !is_paren_token(
            drain_all(stack, out)[k],
        ),
    decreases stack.len(),
{
    if stack.len() > 0 {
        assert(stack[stack.len() - 1] != Operator::OpenP);
        assert(stack.last().spec_is_arith());
        lemma_contains_drop_last(stack, Operator::OpenP);
        lemma_drain_all_parens(stack.drop_last(), out.push(Token::Operator(stack.last())));
        assert(drain_all(stack, out) == drain_all(
            stack.drop_last(),
            out.push(Token::Operator(stack.last())),
        ));
    }
}

/// No parenthesis token survives into a successful shunting-yard output.
proof fn lemma_shunt_parens<V>(
    infix: Seq<Token<V>>,
    stack: Seq<Operator>,
    out: Seq<Token<V>>,
    p: Seq<Token<V>>,
)
    requires
        forall|k: int| 0 <= k < stack.len() ==> stack[k] != Operator::CloseP,
        forall|k: int| 0 <= k < out.len() ==> !is_paren_token(out[k]),
        shunt(infix, stack, out) == Ok::<Seq<Token<V>>, CalcError>(p),
    ensures
        forall|k: int| 0 <= k < p.len() ==> !is_paren_token(p[k]),
    decreases infix.len(),
{
    if infix.len() == 0 {
        if !stack.contains(Operator::OpenP) {
            lemma_drain_all_parens(stack, out);
        }
    } else {
        match infix.first() {
            Token::Number(v) => {
                lemma_shunt_parens(infix.drop_first(), stack, out.push(Token::Number(v)), p);
            },
            Token::Operator(op) => {
                if op == Operator::CloseP {
                    lemma_drain_to_open_parens(stack, out);
                    match drain_to_open(stack, out) {
                        None => {},
                        Some(so) => {
                            lemma_shunt_parens(infix.drop_first(), so.0, so.1, p);
                        },
                    }
                } else if op == Operator::OpenP {
                    lemma_shunt_parens(infix.drop_first(), stack.push(op), out, p);
                } else {
                    lemma_drain_ge_parens(stack, out, op);
                    let so = drain_ge(stack, out, op);
                    lemma_shunt_parens(infix.drop_first(), so.0.push(op), so.1, p);
                }
            },
        }
    }
}

/// Reorder an infix token sequence into postfix (Reverse Polish) form.
///
/// Returns exactly what the shunting-yard specification [`postfix_spec`]
/// gives: the reordered tokens on success, and
/// [`CalcError::UnbalancedParens`] if and only if some close parenthesis
/// has no matching open one before it or some open parenthesis is never
/// closed. A successful output contains no parenthesis token.
pub fn infix_to_postfix<V>(infix: Vec<Token<V>>) -> (r: Result<Vec<Token<V>>, CalcError>)
    ensures
        match r {
            Ok(p) => postfix_spec(infix@) == Ok::<Seq<Token<V>>, CalcError>(p@) && (forall|k: int|
                0 <= k < p@.len() ==> !is_paren_token(p@[k])),
            Err(e) => postfix_spec(infix@) == Err::<Seq<Token<V>>, CalcError>(e),
        },
{
    let mut rest = infix;
    let mut op_stack: Vec<Operator> = Vec::new();
    let mut out: Vec<Token<V>> = Vec::new();

    proof {
        assert(rest@ =~= infix@);
    }

    while rest.len() > 0
        invariant
            postfix_spec(infix@) == shunt(rest@, op_stack@, out@),
        decreases rest@.len(),
    {
        let ghost pre = rest@;
        let t = rest.remove(0);
        proof {
            assert(rest@ =~= pre.drop_first());
        }
        match t {
            Token::Number(v) => {
                out.push(Token::Number(v));
            },
            Token::Operator(op) => {
                if op == Operator::CloseP {
                    let mut matched = false;
                    while !matched
                        invariant
                            matched ==> postfix_spec(infix@) == shunt(rest@, op_stack@, out@),
                            !matched ==> postfix_spec(infix@) == match drain_to_open(
                                op_stack@,
                                out@,
                            ) {
                                None => Err::<Seq<Token<V>>, CalcError>(
                                    CalcError::UnbalancedParens,
                                ),
                                Some(so) => shunt(rest@, so.0, so.1),
                            },
                        decreases op_stack@.len() + (if matched {
                            0int
                        } else {
                            1int
                        }),
                    {
                        match op_stack.pop() {
                            None => {
                                return Err(CalcError::UnbalancedParens);
                            },
                            Some(top) => {
                                if top == Operator::OpenP {
                                    matched = true;
                                } else {
                                    out.push(Token::Operator(top));
                                }
                            },
                        }
                    }
                } else if op == Operator::OpenP {
                    op_stack.push(op);
                } else {
                    while op_stack.len() > 0 && op_stack[op_stack.len() - 1].precedence()
                        >= op.precedence()
                        invariant
                            postfix_spec(infix@) == ({
                                let so = drain_ge(op_stack@, out@, op);
                                shunt(rest@, so.0.push(op), so.1)
                            }),
                        decreases op_stack@.len(),
                    {
                        let top = op_stack.pop().unwrap();
                        out.push(Token::Operator(top));
                    }
                    op_stack.push(op);
                }
            },
        }
    }

    while op_stack.len() > 0
        invariant
            rest@.len() == 0,
            postfix_spec(infix@) == shunt(rest@, op_stack@, out@),
        decreases op_stack@.len(),
    {
        let ghost s = op_stack@;
        let top = op_stack.pop().unwrap();
        if top == Operator::OpenP {
            proof {
                assert(s.contains(Operator::OpenP)) by {
                    assert(s[s.len() - 1] == Operator::OpenP);
                }
            }
            return Err(CalcError::UnbalancedParens);
        }
        out.push(Token::Operator(top));
        proof {
            lemma_contains_drop_last(s, Operator::OpenP);
        }
    }

    proof {
        assert(op_stack@.len() == 0);
        assert(!op_stack@.contains(Operator::OpenP));
        assert(shunt(rest@, op_stack@, out@) == Ok::<Seq<Token<V>>, CalcError>(
            drain_all(op_stack@, out@),
        ));
        assert(drain_all(op_stack@, out@) == out@);
        lemma_shunt_parens(infix@, Seq::<Operator>::empty(), Seq::<Token<V>>::empty(), out@);
    }
    Ok(out)
}

} // verus!
