//! The general laws of the pipeline, stated and proved once for every
//! operand type and every arithmetic.

use vstd::prelude::*;

use crate::token::{CalcError, Operator, Token, token_text};
use crate::postfix::{drain_all, drain_ge, drain_to_open, postfix_spec, shunt};
use crate::eval::{eval_rel, eval_status};
use crate::tokenize::{spec_classify, tokens_of_words};

verus! {

/// A single number is its own postfix form and evaluates to itself, for
/// every operand type and every arithmetic relation.
pub proof fn lemma_single_number<V>(v: V, app: spec_fn(Operator, V, V, V) -> bool)
    ensures
        postfix_spec(seq![Token::<V>::Number(v)]) == Ok::<Seq<Token<V>>, CalcError>(
            seq![Token::<V>::Number(v)],
        ),
        eval_status(seq![Token::<V>::Number(v)], 0) == Ok::<(), CalcError>(()),
        forall|res: V|
            eval_rel(seq![Token::<V>::Number(v)], Seq::<V>::empty(), res, app) <==> res == v,
{
    let n = Token::<V>::Number(v);
    let s = seq![n];
    let e_op = Seq::<Operator>::empty();
    let e_tok = Seq::<Token<V>>::empty();
    assert(s[0] == n);
    assert(s.drop_first() =~= e_tok);
    assert(shunt(s, e_op, e_tok) == shunt(e_tok, e_op, e_tok.push(n)));
    assert(!e_op.contains(Operator::OpenP));
    assert(shunt(e_tok, e_op, e_tok.push(n)) == Ok::<Seq<Token<V>>, CalcError>(
        drain_all(e_op, e_tok.push(n)),
    ));
    assert(drain_all(e_op, e_tok.push(n)) == e_tok.push(n));
    assert(e_tok.push(n) =~= s);

    assert(eval_status(s, 0) == eval_status(s.drop_first(), 1));
    assert(eval_status(e_tok, 1) == Ok::<(), CalcError>(()));

    assert forall|res: V| eval_rel(s, Seq::<V>::empty(), res, app) <==> res == v by {
        assert(eval_rel(s, Seq::<V>::empty(), res, app) == eval_rel(
            e_tok,
            Seq::<V>::empty().push(v),
            res,
            app,
        ));
        if res == v {
            assert(Seq::<V>::empty().push(v) =~= seq![res]);
        }
        if eval_rel(e_tok, Seq::<V>::empty().push(v), res, app) {
            assert(Seq::<V>::empty().push(v) == seq![res]);
            assert(Seq::<V>::empty().push(v)[0] == v);
            assert(seq![res][0] == res);
        }
    }
}

/// `a op b` converts to `a b op`, and evaluates to exactly the values the
/// arithmetic relation allows for `op` applied to `a` (left) and `b`
/// (right).
pub proof fn lemma_binary_expression<V>(
    a: V,
    b: V,
    op: Operator,
    app: spec_fn(Operator, V, V, V) -> bool,
)
    requires
        op.spec_is_arith(),
    ensures
        postfix_spec(seq![Token::<V>::Number(a), Token::<V>::Operator(op), Token::<V>::Number(b)])
            == Ok::<Seq<Token<V>>, CalcError>(
            seq![Token::<V>::Number(a), Token::<V>::Number(b), Token::<V>::Operator(op)],
        ),
        eval_status(
            seq![Token::<V>::Number(a), Token::<V>::Number(b), Token::<V>::Operator(op)],
            0,
        ) == Ok::<(), CalcError>(()),
        forall|res: V|
            eval_rel(
                seq![Token::<V>::Number(a), Token::<V>::Number(b), Token::<V>::Operator(op)],
                Seq::<V>::empty(),
                res,
                app,
            ) <==> app(op, a, b, res),
{
    let na = Token::<V>::Number(a);
    let nb = Token::<V>::Number(b);
    let to = Token::<V>::Operator(op);
    let e_op = Seq::<Operator>::empty();
    let e_tok = Seq::<Token<V>>::empty();
    let s = seq![na, to, nb];
    let s1 = s.drop_first();
    let s2 = s1.drop_first();
    assert(s[0] == na && s1[0] == to && s2[0] == nb);
    assert(s1.len() == 2 && s2.len() == 1);
    assert(s2.drop_first() =~= e_tok);

    let out1 = e_tok.push(na);
    assert(shunt(s, e_op, e_tok) == shunt(s1, e_op, out1));
    assert(drain_ge(e_op, out1, op) == (e_op, out1));
    assert(shunt(s1, e_op, out1) == shunt(s2, e_op.push(op), out1));
    let out2 = out1.push(nb);
    assert(shunt(s2, e_op.push(op), out1) == shunt(e_tok, e_op.push(op), out2));
    assert(!e_op.push(op).contains(Operator::OpenP)) by {
        if e_op.push(op).contains(Operator::OpenP) {
            let idx = choose|idx: int|
                0 <= idx < e_op.push(op).len() && e_op.push(op)[idx] == Operator::OpenP;
            assert(idx == 0);
            assert(false);
        }
    }
    assert(e_op.push(op).last() == op);
    assert(e_op.push(op).drop_last() =~= e_op);
    assert(drain_all(e_op.push(op), out2) == drain_all(e_op, out2.push(to)));
    assert(drain_all(e_op, out2.push(to)) == out2.push(to));
    let p = seq![na, nb, to];
    assert(out2.push(to) =~= p);

    let p1 = p.drop_first();
    let p2 = p1.drop_first();
    assert(p[0] == na && p1[0] == nb && p2[0] == to);
    assert(p1.len() == 2 && p2.len() == 1);
    assert(p2.drop_first() =~= e_tok);
    assert(eval_status(p, 0) == eval_status(p1, 1));
    assert(eval_status(p1, 1) == eval_status(p2, 2));
    assert(eval_status(p2, 2) == eval_status(e_tok, 1));
    assert(eval_status(e_tok, 1) == Ok::<(), CalcError>(()));

    let st2 = Seq::<V>::empty().push(a).push(b);
    assert(st2[st2.len() - 2] == a && st2[st2.len() - 1] == b);
    assert forall|res: V| eval_rel(p, Seq::<V>::empty(), res, app) <==> app(op, a, b, res) by {
        assert(eval_rel(p, Seq::<V>::empty(), res, app) == eval_rel(
            p1,
            Seq::<V>::empty().push(a),
            res,
            app,
        ));
        assert(eval_rel(p1, Seq::<V>::empty().push(a), res, app) == eval_rel(p2, st2, res, app));
        if app(op, a, b, res) {
            assert(st2.drop_last().drop_last().push(res) =~= seq![res]);
            assert(eval_rel(e_tok, seq![res], res, app));
            assert(eval_rel(p2, st2, res, app));
        }
        if eval_rel(p2, st2, res, app) {
            let c = choose|c: V|
                app(op, st2[st2.len() - 2], st2[st2.len() - 1], c) && eval_rel(
                    e_tok,
                    st2.drop_last().drop_last().push(c),
                    res,
                    app,
                );
            assert(st2.drop_last().drop_last().push(c) == seq![res]);
            assert(st2.drop_last().drop_last().push(c).last() == c);
            assert(seq![res][0] == res);
            assert(c == res);
        }
    }
}

/// Operators of equal precedence chain left-to-right: in `a op1 b op2 c`
/// the earlier operator is applied first.
pub proof fn lemma_left_associative<V>(a: V, b: V, c: V, op1: Operator, op2: Operator)
    requires
        op1.spec_is_arith(),
        op2.spec_is_arith(),
        op1.spec_precedence() == op2.spec_precedence(),
    ensures
        postfix_spec(
            seq![
                Token::<V>::Number(a),
                Token::<V>::Operator(op1),
                Token::<V>::Number(b),
                Token::<V>::Operator(op2),
                Token::<V>::Number(c),
            ],
        ) == Ok::<Seq<Token<V>>, CalcError>(
            seq![
                Token::<V>::Number(a),
                Token::<V>::Number(b),
                Token::<V>::Operator(op1),
                Token::<V>::Number(c),
                Token::<V>::Operator(op2),
            ],
        ),
{
    let na = Token::<V>::Number(a);
    let nb = Token::<V>::Number(b);
    let nc = Token::<V>::Number(c);
    let t1 = Token::<V>::Operator(op1);
    let t2 = Token::<V>::Operator(op2);
    let e_op = Seq::<Operator>::empty();
    let e_tok = Seq::<Token<V>>::empty();
    let s = seq![na, t1, nb, t2, nc];
    let s1 = s.drop_first();
    let s2 = s1.drop_first();
    let s3 = s2.drop_first();
    let s4 = s3.drop_first();
    assert(s[0] == na && s1[0] == t1 && s2[0] == nb && s3[0] == t2 && s4[0] == nc);
    assert(s1.len() == 4 && s2.len() == 3 && s3.len() == 2 && s4.len() == 1);
    assert(s4.drop_first() =~= e_tok);

    let out1 = e_tok.push(na);
    assert(shunt(s, e_op, e_tok) == shunt(s1, e_op, out1));
    assert(drain_ge(e_op, out1, op1) == (e_op, out1));
    let st1 = e_op.push(op1);
    assert(shunt(s1, e_op, out1) == shunt(s2, st1, out1));
    let out2 = out1.push(nb);
    assert(shunt(s2, st1, out1) == shunt(s3, st1, out2));
    assert(st1.last() == op1 && st1.drop_last() =~= e_op);
    assert(drain_ge(st1, out2, op2) == drain_ge(e_op, out2.push(t1), op2));
    assert(drain_ge(e_op, out2.push(t1), op2) == (e_op, out2.push(t1)));
    let st2 = e_op.push(op2);
    let out3 = out2.push(t1);
    assert(shunt(s3, st1, out2) == shunt(s4, st2, out3));
    let out4 = out3.push(nc);
    assert(shunt(s4, st2, out3) == shunt(e_tok, st2, out4));
    assert(!st2.contains(Operator::OpenP)) by {
        if st2.contains(Operator::OpenP) {
            let idx = choose|idx: int| 0 <= idx < st2.len() && st2[idx] == Operator::OpenP;
            assert(idx == 0);
            assert(false);
        }
    }
    assert(st2.last() == op2 && st2.drop_last() =~= e_op);
    assert(drain_all(st2, out4) == drain_all(e_op, out4.push(t2)));
    assert(drain_all(e_op, out4.push(t2)) == out4.push(t2));
    assert(out4.push(t2) =~= seq![na, nb, t1, nc, t2]);
}

/// A tighter-binding operator after a looser one is applied first: in
/// `a low b high c` the postfix order applies `high` to `b` and `c`.
pub proof fn lemma_precedence<V>(a: V, b: V, c: V, low: Operator, high: Operator)
    requires
        low.spec_is_arith(),
        high.spec_is_arith(),
        low.spec_precedence() < high.spec_precedence(),
    ensures
        postfix_spec(
            seq![
                Token::<V>::Number(a),
                Token::<V>::Operator(low),
                Token::<V>::Number(b),
                Token::<V>::Operator(high),
                Token::<V>::Number(c),
            ],
        ) == Ok::<Seq<Token<V>>, CalcError>(
            seq![
                Token::<V>::Number(a),
                Token::<V>::Number(b),
                Token::<V>::Number(c),
                Token::<V>::Operator(high),
                Token::<V>::Operator(low),
            ],
        ),
{
    let na = Token::<V>::Number(a);
    let nb = Token::<V>::Number(b);
    let nc = Token::<V>::Number(c);
    let tl = Token::<V>::Operator(low);
    let th = Token::<V>::Operator(high);
    let e_op = Seq::<Operator>::empty();
    let e_tok = Seq::<Token<V>>::empty();
    let s = seq![na, tl, nb, th, nc];
    let s1 = s.drop_first();
    let s2 = s1.drop_first();
    let s3 = s2.drop_first();
    let s4 = s3.drop_first();
    assert(s[0] == na && s1[0] == tl && s2[0] == nb && s3[0] == th && s4[0] == nc);
    assert(s1.len() == 4 && s2.len() == 3 && s3.len() == 2 && s4.len() == 1);
    assert(s4.drop_first() =~= e_tok);

    let out1 = e_tok.push(na);
    assert(shunt(s, e_op, e_tok) == shunt(s1, e_op, out1));
    assert(drain_ge(e_op, out1, low) == (e_op, out1));
    let st1 = e_op.push(low);
    assert(shunt(s1, e_op, out1) == shunt(s2, st1, out1));
    let out2 = out1.push(nb);
    assert(shunt(s2, st1, out1) == shunt(s3, st1, out2));
    assert(st1.last() == low);
    assert(drain_ge(st1, out2, high) == (st1, out2));
    let st2 = st1.push(high);
    assert(shunt(s3, st1, out2) == shunt(s4, st2, out2));
    let out3 = out2.push(nc);
    assert(shunt(s4, st2, out2) == shunt(e_tok, st2, out3));
    assert(!st2.contains(Operator::OpenP)) by {
        if st2.contains(Operator::OpenP) {
            let idx = choose|idx: int| 0 <= idx < st2.len() && st2[idx] == Operator::OpenP;
            assert(idx == 0 || idx == 1);
            assert(st2[0] == low && st2[1] == high);
            assert(false);
        }
    }
    assert(st2.last() == high && st2.drop_last() =~= st1);
    assert(drain_all(st2, out3) == drain_all(st1, out3.push(th)));
    assert(st1.last() == low && st1.drop_last() =~= e_op);
    assert(drain_all(st1, out3.push(th)) == drain_all(e_op, out3.push(th).push(tl)));
    assert(drain_all(e_op, out3.push(th).push(tl)) == out3.push(th).push(tl));
    assert(out3.push(th).push(tl) =~= seq![na, nb, nc, th, tl]);
}

/// A lone close parenthesis is rejected by the converter as unbalanced.
pub proof fn lemma_close_paren_rejected<V>()
    ensures
        postfix_spec(seq![Token::<V>::Operator(Operator::CloseP)]) == Err::<
            Seq<Token<V>>,
            CalcError,
        >(CalcError::UnbalancedParens),
{
    let s = seq![Token::<V>::Operator(Operator::CloseP)];
    assert(s[0] == Token::<V>::Operator(Operator::CloseP));
    assert(drain_to_open(Seq::<Operator>::empty(), Seq::<Token<V>>::empty()) is None);
}

/// A dangling binary operator, as in a two-token expression `a op`,
/// passes the converter unchanged but starves the evaluator.
pub proof fn lemma_dangling_operator<V>(a: V, op: Operator)
    requires
        op.spec_is_arith(),
    ensures
        postfix_spec(seq![Token::<V>::Number(a), Token::<V>::Operator(op)]) == Ok::<
            Seq<Token<V>>,
            CalcError,
        >(seq![Token::<V>::Number(a), Token::<V>::Operator(op)]),
        eval_status(seq![Token::<V>::Number(a), Token::<V>::Operator(op)], 0) == Err::<
            (),
            CalcError,
        >(CalcError::OperandStarvation),
{
    let na = Token::<V>::Number(a);
    let to = Token::<V>::Operator(op);
    let e_op = Seq::<Operator>::empty();
    let e_tok = Seq::<Token<V>>::empty();
    let s = seq![na, to];
    let s1 = s.drop_first();
    assert(s[0] == na && s1[0] == to && s1.len() == 1);
    assert(s1.drop_first() =~= e_tok);

    let out1 = e_tok.push(na);
    assert(shunt(s, e_op, e_tok) == shunt(s1, e_op, out1));
    assert(drain_ge(e_op, out1, op) == (e_op, out1));
    let st1 = e_op.push(op);
    assert(shunt(s1, e_op, out1) == shunt(e_tok, st1, out1));
    assert(!st1.contains(Operator::OpenP)) by {
        if st1.contains(Operator::OpenP) {
            let idx = choose|idx: int| 0 <= idx < st1.len() && st1[idx] == Operator::OpenP;
            assert(idx == 0);
            assert(false);
        }
    }
    assert(st1.last() == op && st1.drop_last() =~= e_op);
    assert(drain_all(st1, out1) == drain_all(e_op, out1.push(to)));
    assert(drain_all(e_op, out1.push(to)) == out1.push(to));
    assert(out1.push(to) =~= s);

    assert(eval_status(s, 0) == eval_status(s1, 1));
    assert(eval_status(s1, 1) == Err::<(), CalcError>(CalcError::OperandStarvation));
}

/// A word that is neither an operator symbol nor a numeric literal
/// contributes nothing: dropping it from the word sequence leaves the
/// token stream unchanged.
pub proof fn lemma_junk_word_dropped(ws1: Seq<Seq<char>>, w: Seq<char>, ws2: Seq<Seq<char>>)
    requires
        spec_classify(w) is None,
    ensures
        tokens_of_words(ws1 + seq![w] + ws2) == tokens_of_words(ws1 + ws2),
    decreases ws1.len(),
{
    if ws1.len() == 0 {
        assert((ws1 + seq![w] + ws2)[0] == w);
        assert((ws1 + seq![w] + ws2).drop_first() =~= ws2);
        assert(ws1 + ws2 =~= ws2);
    } else {
        assert((ws1 + seq![w] + ws2)[0] == ws1[0]);
        assert((ws1 + seq![w] + ws2).drop_first() =~= ws1.drop_first() + seq![w] + ws2);
        assert((ws1 + ws2)[0] == ws1[0]);
        assert((ws1 + ws2).drop_first() =~= ws1.drop_first() + ws2);
        lemma_junk_word_dropped(ws1.drop_first(), w, ws2);
    }
}

/// A token's payload plays no part in conversion: abstracting every
/// number to its text and then converting gives the converted tokens'
/// texts.
pub open spec fn map_token<V, W>(f: spec_fn(V) -> W, t: Token<V>) -> Token<W> {
    match t {
        Token::Number(v) => Token::Number(f(v)),
        Token::Operator(op) => Token::Operator(op),
    }
}

proof fn lemma_drain_ge_map<V, W>(
    f: spec_fn(V) -> W,
    stack: Seq<Operator>,
    out: Seq<Token<V>>,
    op: Operator,
)
    ensures
        drain_ge(stack, out.map_values(|t: Token<V>| map_token(f, t)), op).0 == drain_ge(
            stack,
            out,
            op,
        ).0,
        drain_ge(stack, out.map_values(|t: Token<V>| map_token(f, t)), op).1 == drain_ge(
            stack,
            out,
            op,
        ).1.map_values(|t: Token<V>| map_token(f, t)),
    decreases stack.len(),
{
    let m = |t: Token<V>| map_token(f, t);
    if stack.len() > 0 && stack.last().spec_precedence() >= op.spec_precedence() {
        assert(out.map_values(m).push(Token::Operator(stack.last())) =~= out.push(
            Token::Operator(stack.last()),
        ).map_values(m));
        lemma_drain_ge_map(f, stack.drop_last(), out.push(Token::Operator(stack.last())), op);
    }
}

proof fn lemma_drain_to_open_map<V, W>(f: spec_fn(V) -> W, stack: Seq<Operator>, out: Seq<Token<V>>)
    ensures
        drain_to_open(stack, out.map_values(|t: Token<V>| map_token(f, t))) is Some
            <==> drain_to_open(stack, out) is Some,
        drain_to_open(stack, out) matches Some(so) ==> drain_to_open(
            stack,
            out.map_values(|t: Token<V>| map_token(f, t)),
        ) == Some((so.0, so.1.map_values(|t: Token<V>| map_token(f, t)))),
    decreases stack.len(),
{
    let m = |t: Token<V>| map_token(f, t);
    if stack.len() == 0 {
    } else if stack.last() == Operator::OpenP {
    } else {
        assert(out.map_values(m).push(Token::Operator(stack.last())) =~= out.push(
            Token::Operator(stack.last()),
        ).map_values(m));
        lemma_drain_to_open_map(f, stack.drop_last(), out.push(Token::Operator(stack.last())));
    }
}

proof fn lemma_drain_all_map<V, W>(f: spec_fn(V) -> W, stack: Seq<Operator>, out: Seq<Token<V>>)
    ensures
        drain_all(stack, out.map_values(|t: Token<V>| map_token(f, t))) == drain_all(
            stack,
            out,
        ).map_values(|t: Token<V>| map_token(f, t)),
    decreases stack.len(),
{
    let m = |t: Token<V>| map_token(f, t);
    if stack.len() > 0 {
        assert(out.map_values(m).push(Token::Operator(stack.last())) =~= out.push(
            Token::Operator(stack.last()),
        ).map_values(m));
        lemma_drain_all_map(f, stack.drop_last(), out.push(Token::Operator(stack.last())));
    }
}

proof fn lemma_shunt_map<V, W>(
    f: spec_fn(V) -> W,
    infix: Seq<Token<V>>,
    stack: Seq<Operator>,
    out: Seq<Token<V>>,
)
    ensures
        shunt(infix.map_values(|t: Token<V>| map_token(f, t)), stack, out.map_values(
            |t: Token<V>| map_token(f, t),
        )) == (match shunt(infix, stack, out) {
            Ok(p) => Ok::<Seq<Token<W>>, CalcError>(p.map_values(|t: Token<V>| map_token(f, t))),
            Err(e) => Err::<Seq<Token<W>>, CalcError>(e),
        }),
    decreases infix.len(),
{
    let m = |t: Token<V>| map_token(f, t);
    let mi = infix.map_values(m);
    if infix.len() == 0 {
        assert(mi.len() == 0);
        if !stack.contains(Operator::OpenP) {
            lemma_drain_all_map(f, stack, out);
        }
    } else {
        assert(mi[0] == map_token(f, infix[0]));
        assert(mi.drop_first() =~= infix.drop_first().map_values(m));
        match infix.first() {
            Token::Number(v) => {
                assert(out.map_values(m).push(Token::Number(f(v))) =~= out.push(
                    Token::Number(v),
                ).map_values(m));
                lemma_shunt_map(f, infix.drop_first(), stack, out.push(Token::Number(v)));
            },
            Token::Operator(op) => {
                if op == Operator::CloseP {
                    lemma_drain_to_open_map(f, stack, out);
                    match drain_to_open(stack, out) {
                        None => {},
                        Some(so) => {
                            lemma_shunt_map(f, infix.drop_first(), so.0, so.1);
                        },
                    }
                } else if op == Operator::OpenP {
                    lemma_shunt_map(f, infix.drop_first(), stack.push(op), out);
                } else {
                    lemma_drain_ge_map(f, stack, out, op);
                    let so = drain_ge(stack, out, op);
                    lemma_shunt_map(f, infix.drop_first(), so.0.push(op), so.1);
                }
            },
        }
    }
}

/// Conversion commutes with taking each token's text: the postfix form of
/// a token sequence is determined by the texts alone. Together with the
/// exact contracts of the tokenizer, the converter and the renderer, this
/// makes the rendered pipeline output a function of the input line: two
/// runs on the same line render the same text.
pub proof fn lemma_postfix_determined_by_text(infix: Seq<Token<String>>)
    ensures
        postfix_spec(infix.map_values(|t: Token<String>| token_text(t))) == (match postfix_spec(
            infix,
        ) {
            Ok(p) => Ok::<Seq<Token<Seq<char>>>, CalcError>(
                p.map_values(|t: Token<String>| token_text(t)),
            ),
            Err(e) => Err::<Seq<Token<Seq<char>>>, CalcError>(e),
        }),
{
    let f = |s: String| s@;
    assert(infix.map_values(|t: Token<String>| token_text(t)) =~= infix.map_values(
        |t: Token<String>| map_token(f, t),
    ));
    lemma_shunt_map(f, infix, Seq::<Operator>::empty(), Seq::<Token<String>>::empty());
    assert(Seq::<Token<String>>::empty().map_values(|t: Token<String>| map_token(f, t)) =~= Seq::<
        Token<Seq<char>>,
    >::empty());
    match postfix_spec(infix) {
        Ok(p) => {
            assert(p.map_values(|t: Token<String>| token_text(t)) =~= p.map_values(
                |t: Token<String>| map_token(f, t),
            ));
        },
        Err(_) => {},
    }
}

} // verus!
