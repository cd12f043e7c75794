//! Rendering a token sequence back to text.
//!
//! The canonical form is the tokens' texts joined by single spaces: an
//! operator renders as its symbol, a number as the literal text it was
//! tokenized from. This is the round-trip surface used to inspect a
//! converter result without depending on the internal representation.

use vstd::prelude::*;

use crate::laws::lemma_postfix_determined_by_text;
use crate::postfix::{infix_to_postfix, postfix_spec};
use crate::token::{CalcError, Token, token_text};
use crate::tokenize::{spec_tokenize, tokenize};

verus! {

/// The canonical text of one token.
pub open spec fn text_of(t: Token<Seq<char>>) -> Seq<char> {
    match t {
        Token::Number(s) => s,
        Token::Operator(op) => op.spec_symbol(),
    }
}

/// The texts of `ts`, each preceded by one space.
pub open spec fn render_tail(ts: Seq<Token<Seq<char>>>) -> Seq<char>
    decreases ts.len(),
{
    if ts.len() == 0 {
        Seq::empty()
    } else {
        seq![' '] + text_of(ts[0]) + render_tail(ts.drop_first())
    }
}

/// The canonical space-separated rendering of a token sequence.
pub open spec fn render(ts: Seq<Token<Seq<char>>>) -> Seq<char> {
    if ts.len() == 0 {
        Seq::empty()
    } else {
        text_of(ts[0]) + render_tail(ts.drop_first())
    }
}

proof fn lemma_render_tail_push(ts: Seq<Token<Seq<char>>>, t: Token<Seq<char>>)
    ensures
        render_tail(ts.push(t)) == render_tail(ts) + seq![' '] + text_of(t),
    decreases ts.len(),
{
    if ts.len() == 0 {
        assert(ts.push(t).drop_first() =~= Seq::<Token<Seq<char>>>::empty());
        assert(ts.push(t)[0] == t);
        assert(render_tail(ts.push(t)) == seq![' '] + text_of(t) + render_tail(
            Seq::<Token<Seq<char>>>::empty(),
        ));
        assert(render_tail(Seq::<Token<Seq<char>>>::empty()) == Seq::<char>::empty());
        assert(render_tail(ts.push(t)) =~= render_tail(ts) + seq![' '] + text_of(t));
    } else {
        assert(ts.push(t).drop_first() =~= ts.drop_first().push(t));
        lemma_render_tail_push(ts.drop_first(), t);
        assert(ts.push(t)[0] == ts[0]);
        assert(render_tail(ts.push(t)) =~= render_tail(ts) + seq![' '] + text_of(t));
    }
}

proof fn lemma_render_push(ts: Seq<Token<Seq<char>>>, t: Token<Seq<char>>)
    ensures
        render(ts.push(t)) == if ts.len() == 0 {
            text_of(t)
        } else {
            render(ts) + seq![' '] + text_of(t)
        },
{
    if ts.len() == 0 {
        assert(ts.push(t)[0] == t);
        assert(ts.push(t).drop_first() =~= Seq::<Token<Seq<char>>>::empty());
        assert(render(ts.push(t)) =~= text_of(t));
    } else {
        assert(ts.push(t)[0] == ts[0]);
        assert(ts.push(t).drop_first() =~= ts.drop_first().push(t));
        lemma_render_tail_push(ts.drop_first(), t);
        assert(render(ts.push(t)) =~= render(ts) + seq![' '] + text_of(t));
    }
}

/// Render `tokens` to their canonical space-separated text.
pub fn tokens_to_string(tokens: &Vec<Token<String>>) -> (r: String)
    ensures
        r@ == render(tokens@.map_values(|t: Token<String>| token_text(t))),
{
    let ghost tv = tokens@.map_values(|t: Token<String>| token_text(t));
    let mut result = String::new();
    let mut i: usize = 0;
    proof {
        reveal_strlit(" ");
        assert(tv.take(0) =~= Seq::<Token<Seq<char>>>::empty());
    }
    while i < tokens.len()
        invariant
            i <= tokens@.len(),
            tv == tokens@.map_values(|t: Token<String>| token_text(t)),
            result@ == render(tv.take(i as int)),
            i > 0 ==> tv.take(i as int).len() > 0,
        decreases tokens@.len() - i,
    {
        proof {
            reveal_strlit(" ");
            lemma_render_push(tv.take(i as int), tv[i as int]);
            assert(tv.take(i as int).push(tv[i as int]) =~= tv.take(i + 1));
        }
        if i > 0 {
            result.append(" ");
        }
        match &tokens[i] {
            Token::Number(s) => {
                result.append(s.as_str());
            },
            Token::Operator(op) => {
                result.append(op.to_str());
            },
        }
        proof {
            assert(result@ =~= render(tv.take(i + 1)));
        }
        i += 1;
    }
    proof {
        assert(tv.take(tokens@.len() as int) =~= tv);
    }
    result
}

/// Tokenize `input`, convert it to postfix and render the result: the
/// inspection surface for the converter.
///
/// The returned text is pinned down as a function of the input line
/// alone — the rendering of the postfix form of the input's token
/// stream — so repeated runs on one line are equal. Fails exactly when
/// the converter finds the parentheses unbalanced.
pub fn postfix_rendering(input: &str) -> (r: Result<String, CalcError>)
    ensures
        match postfix_spec(spec_tokenize(input@)) {
            Ok(p) => r matches Ok(s) && s@ == render(p),
            Err(e) => r == Err::<String, CalcError>(e),
        },
{
    let tokens = tokenize(input);
    proof {
        lemma_postfix_determined_by_text(tokens@);
    }
    match infix_to_postfix(tokens) {
        Ok(p) => Ok(tokens_to_string(&p)),
        Err(e) => Err(e),
    }
}

} // verus!
