//! Postfix (Reverse Polish) evaluation with an operand stack.
//!
//! The evaluator pushes numbers and, for each arithmetic operator, pops the
//! right operand, then the left one, and pushes the operator's result. The
//! arithmetic itself is not fixed here: the caller passes a closure that
//! maps an operator and two operands to a result, so the stack discipline
//! is verified once for every operand type. A run is well formed exactly
//! when no operator finds fewer than two operands, no parenthesis token
//! appears, and exactly one value remains at the end; anything else is a
//! fatal malformed-expression error, never a silently wrong result.

use vstd::prelude::*;

use crate::token::{CalcError, Operator, Token};
use crate::postfix::{infix_to_postfix, postfix_spec};

verus! {

/// Arity discipline of a postfix run over `tokens`, starting with `depth`
/// operands already stacked: `Ok` when the run ends with exactly one value
/// on the stack, otherwise the first fatal condition encountered.
pub open spec fn eval_status<V>(tokens: Seq<Token<V>>, depth: nat) -> Result<(), CalcError>
    decreases tokens.len(),
{
    if tokens.len() == 0 {
        if depth == 1 {
            Ok(())
        } else {
            Err(CalcError::ResultArity)
        }
    } else {
        match tokens.first() {
            Token::Number(_) => eval_status(tokens.drop_first(), depth + 1),
            Token::Operator(op) => {
                if !op.spec_is_arith() {
                    Err(CalcError::ParenInPostfix)
                } else if depth < 2 {
                    Err(CalcError::OperandStarvation)
                } else {
                    eval_status(tokens.drop_first(), (depth - 1) as nat)
                }
            },
        }
    }
}

/// Whether `result` is a possible outcome of evaluating `tokens` on top of
/// the operand `stack`, when each operator application `op l r = c` is
/// constrained only by the relation `app(op, l, r, c)`.
pub open spec fn eval_rel<V>(
    tokens: Seq<Token<V>>,
    stack: Seq<V>,
    result: V,
    app: spec_fn(Operator, V, V, V) -> bool,
) -> bool
    decreases tokens.len(),
{
    if tokens.len() == 0 {
        stack == seq![result]
    } else {
        match tokens.first() {
            Token::Number(v) => eval_rel(tokens.drop_first(), stack.push(v), result, app),
            Token::Operator(op) => stack.len() >= 2 && exists|c: V|
                app(op, stack[stack.len() - 2], stack[stack.len() - 1], c) && eval_rel(
                    tokens.drop_first(),
                    stack.drop_last().drop_last().push(c),
                    result,
                    app,
                ),
        }
    }
}

/// The input-output relation of an arithmetic closure, in the shape
/// [`eval_rel`] expects.
pub open spec fn rel_of<V, F: Fn(Operator, V, V) -> V>(apply: F) -> spec_fn(
    Operator,
    V,
    V,
    V,
) -> bool {
    |op: Operator, a: V, b: V, c: V| call_ensures(apply, (op, a, b), c)
}

/// Evaluate a postfix token sequence with the binary arithmetic `apply`
/// (arguments: operator, left operand, right operand).
///
/// Fails with exactly the error [`eval_status`] assigns to a malformed
/// sequence; on a well-formed sequence it returns a value related to the
/// input by [`eval_rel`], i.e. the stack-machine fold of `apply` over the
/// tokens. Parenthesis tokens are rejected, so division by zero or any
/// other behaviour of `apply` itself is the only way the outcome can
/// depend on the operand type.
pub fn calculate_postfix<V, F: Fn(Operator, V, V) -> V>(tokens: Vec<Token<V>>, apply: &F) -> (r:
    Result<V, CalcError>)
    requires
        forall|op: Operator, a: V, b: V|
            op.spec_is_arith() ==> #[trigger] call_requires(*apply, (op, a, b)),
    ensures
        match eval_status(tokens@, 0) {
            Ok(()) => r matches Ok(v) && eval_rel(tokens@, Seq::<V>::empty(), v, rel_of(*apply)),
            Err(e) => r == Err::<V, CalcError>(e),
        },
{
    let mut rest = tokens;
    let mut stack: Vec<V> = Vec::new();

    proof {
        assert(rest@ =~= tokens@);
    }

    while rest.len() > 0
        invariant
            forall|op: Operator, a: V, b: V|
                op.spec_is_arith() ==> #[trigger] call_requires(*apply, (op, a, b)),
            eval_status(tokens@, 0) == eval_status(rest@, stack@.len() as nat),
            forall|res: V|
                eval_rel(rest@, stack@, res, rel_of(*apply)) ==> #[trigger] eval_rel(
                    tokens@,
                    Seq::<V>::empty(),
                    res,
                    rel_of(*apply),
                ),
        decreases rest@.len(),
    {
        let ghost pre = rest@;
        let ghost prestack = stack@;
        let t = rest.remove(0);
        proof {
            assert(rest@ =~= pre.drop_first());
        }
        match t {
            Token::Number(v) => {
                stack.push(v);
                proof {
                    assert(eval_status(pre, prestack.len() as nat) == eval_status(
                        rest@,
                        stack@.len() as nat,
                    ));
                    assert forall|res: V| eval_rel(rest@, stack@, res, rel_of(*apply)) implies
                        #[trigger] eval_rel(
                        tokens@,
                        Seq::<V>::empty(),
                        res,
                        rel_of(*apply),
                    ) by {
                        assert(eval_rel(pre, prestack, res, rel_of(*apply)));
                    };
                }
            },
            Token::Operator(op) => {
                if op == Operator::OpenP || op == Operator::CloseP {
                    proof {
                        assert(eval_status(pre, prestack.len() as nat) == Err::<(), CalcError>(
                            CalcError::ParenInPostfix,
                        ));
                    }
                    return Err(CalcError::ParenInPostfix);
                }
                if stack.len() < 2 {
                    proof {
                        assert(eval_status(pre, prestack.len() as nat) == Err::<(), CalcError>(
                            CalcError::OperandStarvation,
                        ));
                    }
                    return Err(CalcError::OperandStarvation);
                }
                let b = stack.pop().unwrap();
                let a = stack.pop().unwrap();
                let v = apply(op, a, b);
                stack.push(v);
                proof {
                    assert(stack@ =~= prestack.drop_last().drop_last().push(v));
                    assert(eval_status(pre, prestack.len() as nat) == eval_status(
                        rest@,
                        stack@.len() as nat,
                    ));
                    assert forall|res: V| eval_rel(rest@, stack@, res, rel_of(*apply)) implies
                        #[trigger] eval_rel(
                        tokens@,
                        Seq::<V>::empty(),
                        res,
                        rel_of(*apply),
                    ) by {
                        assert(rel_of(*apply)(
                            op,
                            prestack[prestack.len() - 2],
                            prestack[prestack.len() - 1],
                            v,
                        ));
                        assert(eval_rel(pre, prestack, res, rel_of(*apply)));
                    };
                }
            },
        }
    }

    if stack.len() == 1 {
        let ghost s = stack@;
        let v = stack.pop().unwrap();
        proof {
            assert(s =~= seq![v]);
            assert(eval_rel(rest@, s, v, rel_of(*apply)));
        }
        Ok(v)
    } else {
        Err(CalcError::ResultArity)
    }
}

/// Convert an infix token sequence to postfix and evaluate it with the
/// binary arithmetic `apply`: the whole pipeline after tokenization.
///
/// Fails exactly when the converter or the evaluator does, with that
/// stage's error; otherwise returns a value related by [`eval_rel`] to the
/// postfix form [`postfix_spec`] gives.
pub fn evaluate_infix<V, F: Fn(Operator, V, V) -> V>(infix: Vec<Token<V>>, apply: &F) -> (r: Result<
    V,
    CalcError,
>)
    requires
        forall|op: Operator, a: V, b: V|
            op.spec_is_arith() ==> #[trigger] call_requires(*apply, (op, a, b)),
    ensures
        match postfix_spec(infix@) {
            Ok(p) => match eval_status(p, 0) {
                Ok(()) => r matches Ok(v) && eval_rel(p, Seq::<V>::empty(), v, rel_of(*apply)),
                Err(e) => r == Err::<V, CalcError>(e),
            },
            Err(e) => r == Err::<V, CalcError>(e),
        },
{
    match infix_to_postfix(infix) {
        Ok(p) => calculate_postfix(p, apply),
        Err(e) => Err(e),
    }
}

} // verus!
