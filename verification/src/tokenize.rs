//! Splitting a line of text into tokens.
//!
//! The input is split on runs of Unicode whitespace; each word is then
//! either one of the six operator symbols, a numeric literal (kept
//! together with the exact text it was written with), or neither — in
//! which case it is silently dropped. Dropping unrecognized words is a
//! deliberate leniency of the tokenizer, not a validation gate.

use vstd::prelude::*;

use crate::number::{check_float_literal, is_float_literal};
use crate::token::{Operator, Token, token_text};

verus! {

/// A character with Unicode's White_Space property, the separators the
/// tokenizer splits on: the ASCII whitespace controls and space, next
/// line, no-break space, the Ogham space mark, the typographic spaces,
/// the line and paragraph separators, the narrow no-break and medium
/// mathematical spaces, and the ideographic space.
pub open spec fn is_space(c: char) -> bool {
    ||| ('\u{9}' <= c && c <= '\u{d}')
    ||| c == ' '
    ||| c == '\u{85}'
    ||| c == '\u{a0}'
    ||| c == '\u{1680}'
    ||| ('\u{2000}' <= c && c <= '\u{200a}')
    ||| c == '\u{2028}'
    ||| c == '\u{2029}'
    ||| c == '\u{202f}'
    ||| c == '\u{205f}'
    ||| c == '\u{3000}'
}

/// Whether `c` is one of the whitespace separators.
fn space_char(c: char) -> (r: bool)
    ensures
        r == is_space(c),
{
    ('\u{9}' <= c && c <= '\u{d}') || c == ' ' || c == '\u{85}' || c == '\u{a0}' || c == '\u{1680}'
        || ('\u{2000}' <= c && c <= '\u{200a}') || c == '\u{2028}' || c == '\u{2029}' || c
        == '\u{202f}' || c == '\u{205f}' || c == '\u{3000}'
}

/// The length of the run of non-whitespace characters at the front of
/// `s`.
pub open spec fn word_len(s: Seq<char>) -> int
    decreases s.len(),
{
    if s.len() == 0 || is_space(s[0]) {
        0
    } else {
        1 + word_len(s.drop_first())
    }
}

proof fn lemma_word_len_bounds(s: Seq<char>)
    ensures
        0 <= word_len(s) <= s.len(),
    decreases s.len(),
{
    if !(s.len() == 0 || is_space(s[0])) {
        lemma_word_len_bounds(s.drop_first());
    }
}

/// `word_len` is pinned down by its characteristic properties: everything
/// before it is non-space, and it ends at a space or at the end of `s`.
proof fn lemma_word_len_eq(s: Seq<char>, w: int)
    requires
        0 <= w <= s.len(),
        forall|k: int| 0 <= k < w ==> !is_space(s[k]),
        w < s.len() ==> is_space(s[w]),
    ensures
        word_len(s) == w,
    decreases s.len(),
{
    if w == 0 {
    } else {
        assert(!is_space(s[0]));
        let t = s.drop_first();
        assert forall|k: int| 0 <= k < w - 1 implies !is_space(t[k]) by {
            assert(t[k] == s[k + 1]);
        }
        assert(w - 1 < t.len() ==> is_space(t[w - 1])) by {
            if w - 1 < t.len() {
                assert(t[w - 1] == s[w]);
            }
        }
        lemma_word_len_eq(t, w - 1);
    }
}

/// The whitespace-separated words of `s`, in order.
pub open spec fn words_of(s: Seq<char>) -> Seq<Seq<char>>
    decreases s.len(),
    via words_of_decreases
{
    if s.len() == 0 {
        Seq::empty()
    } else if is_space(s[0]) {
        words_of(s.drop_first())
    } else {
        seq![s.take(word_len(s))] + words_of(s.skip(word_len(s)))
    }
}

#[via_fn]
proof fn words_of_decreases(s: Seq<char>) {
    if s.len() != 0 && !is_space(s[0]) {
        lemma_word_len_bounds(s.drop_first());
        assert(word_len(s) == 1 + word_len(s.drop_first()));
    }
}

/// What a single word contributes to the token stream: an operator for
/// the six symbols, a number for a literal, nothing otherwise.
pub open spec fn spec_classify(w: Seq<char>) -> Option<Token<Seq<char>>> {
    if w.len() == 1 && w[0] == '+' {
        Some(Token::Operator(Operator::Add))
    } else if w.len() == 1 && w[0] == '-' {
        Some(Token::Operator(Operator::Sub))
    } else if w.len() == 1 && w[0] == '*' {
        Some(Token::Operator(Operator::Mul))
    } else if w.len() == 1 && w[0] == '/' {
        Some(Token::Operator(Operator::Div))
    } else if w.len() == 1 && w[0] == '(' {
        Some(Token::Operator(Operator::OpenP))
    } else if w.len() == 1 && w[0] == ')' {
        Some(Token::Operator(Operator::CloseP))
    } else if is_float_literal(w) {
        Some(Token::Number(w))
    } else {
        None
    }
}

/// The tokens contributed by a sequence of words, in order.
pub open spec fn tokens_of_words(ws: Seq<Seq<char>>) -> Seq<Token<Seq<char>>>
    decreases ws.len(),
{
    if ws.len() == 0 {
        Seq::empty()
    } else {
        match spec_classify(ws[0]) {
            Some(t) => seq![t] + tokens_of_words(ws.drop_first()),
            None => tokens_of_words(ws.drop_first()),
        }
    }
}

/// The token stream of a whole input line.
pub open spec fn spec_tokenize(s: Seq<char>) -> Seq<Token<Seq<char>>> {
    tokens_of_words(words_of(s))
}

/// Split `s` on runs of Unicode whitespace into its words, in order.
pub fn split_words(s: &str) -> (words: Vec<String>)
    ensures
        words@.map_values(|w: String| w@) == words_of(s@),
{
    let n = s.unicode_len();
    let mut words: Vec<String> = Vec::new();
    let mut i: usize = 0;
    proof {
        assert(s@.skip(0) =~= s@);
        assert(words@.map_values(|w: String| w@) + words_of(s@) =~= words_of(s@));
    }
    while i < n
        invariant
            i <= n,
            n == s@.len(),
            words_of(s@) == words@.map_values(|w: String| w@) + words_of(s@.skip(i as int)),
        decreases n - i,
    {
        let c = s.get_char(i);
        if space_char(c) {
            proof {
                assert(s@.skip(i as int)[0] == s@[i as int]);
                assert(s@.skip(i as int).drop_first() =~= s@.skip(i + 1));
            }
            i += 1;
        } else {
            let mut e = i + 1;
            let mut stop = false;
            while !stop && e < n
                invariant
                    i < e <= n,
                    n == s@.len(),
                    forall|k: int| i <= k < e ==> !is_space(s@[k]),
                    stop ==> e < n && is_space(s@[e as int]),
                decreases 2 * (n - e) + (if stop {
                    0int
                } else {
                    1int
                }),
            {
                let c2 = s.get_char(e);
                if space_char(c2) {
                    stop = true;
                } else {
                    e += 1;
                }
            }
            let ghost oldwords = words@;
            let piece = s.substring_char(i, e);
            words.push(String::from_str(piece));
            proof {
                let t = s@.skip(i as int);
                assert(t[0] == s@[i as int]);
                assert(!is_space(t[0]));
                assert forall|k: int| 0 <= k < e - i implies !is_space(t[k]) by {
                    assert(t[k] == s@[i + k]);
                }
                assert(e - i < t.len() ==> is_space(t[e - i])) by {
                    if e - i < t.len() {
                        assert(t[e - i] == s@[e as int]);
                    }
                }
                lemma_word_len_eq(t, e - i);
                assert(t.take(e - i) =~= s@.subrange(i as int, e as int));
                assert(t.skip(e - i) =~= s@.skip(e as int));
                assert(words@.map_values(|w: String| w@) =~= oldwords.map_values(
                    |w: String| w@,
                ).push(piece@));
                assert(oldwords.map_values(|w: String| w@).push(piece@) + words_of(
                    s@.skip(e as int),
                ) =~= oldwords.map_values(|w: String| w@) + (seq![piece@] + words_of(
                    s@.skip(e as int),
                )));
            }
            i = e;
        }
    }
    proof {
        assert(s@.skip(i as int).len() == 0);
        assert(words_of(s@.skip(i as int)) =~= Seq::<Seq<char>>::empty());
        assert(words@.map_values(|w: String| w@) + Seq::<Seq<char>>::empty() =~= words@.map_values(
            |w: String| w@,
        ));
    }
    words
}

/// Split `input` into tokens: operator symbols and numeric literals, in
/// input order, with every other word silently dropped. A number token
/// keeps the exact text of its literal.
pub fn tokenize(input: &str) -> (tokens: Vec<Token<String>>)
    ensures
        tokens@.map_values(|t: Token<String>| token_text(t)) == spec_tokenize(input@),
{
    let mut words = split_words(input);
    let mut tokens: Vec<Token<String>> = Vec::new();
    proof {
        assert(tokens@.map_values(|t: Token<String>| token_text(t)) + tokens_of_words(
            words@.map_values(|w: String| w@),
        ) =~= tokens_of_words(words@.map_values(|w: String| w@)));
    }
    while words.len() > 0
        invariant
            spec_tokenize(input@) == tokens@.map_values(|t: Token<String>| token_text(t))
                + tokens_of_words(words@.map_values(|w: String| w@)),
        decreases words@.len(),
    {
        let ghost oldwords = words@;
        let ghost oldtokens = tokens@;
        let w = words.remove(0);
        proof {
            assert(oldwords.map_values(|w: String| w@)[0] == w@);
            assert(words@.map_values(|w: String| w@) =~= oldwords.map_values(
                |w: String| w@,
            ).drop_first());
        }
        let wl = w.as_str().unicode_len();
        let mut tok: Option<Token<String>> = None;
        if wl == 1 {
            let c = w.as_str().get_char(0);
            if c == '+' {
                tok = Some(Token::Operator(Operator::Add));
            } else if c == '-' {
                tok = Some(Token::Operator(Operator::Sub));
            } else if c == '*' {
                tok = Some(Token::Operator(Operator::Mul));
            } else if c == '/' {
                tok = Some(Token::Operator(Operator::Div));
            } else if c == '(' {
                tok = Some(Token::Operator(Operator::OpenP));
            } else if c == ')' {
                tok = Some(Token::Operator(Operator::CloseP));
            }
        }
        if tok.is_none() {
            if check_float_literal(w.as_str()) {
                tok = Some(Token::Number(w));
            }
        }
        proof {
            assert(match tok {
                Some(t) => spec_classify(oldwords.map_values(|w: String| w@)[0]) == Some(
                    token_text(t),
                ),
                None => spec_classify(oldwords.map_values(|w: String| w@)[0]) is None,
            });
        }
        match tok {
            Some(t) => {
                tokens.push(t);
                proof {
                    assert(tokens@.map_values(|t: Token<String>| token_text(t))
                        =~= oldtokens.map_values(|t: Token<String>| token_text(t)).push(
                        token_text(tokens@.last()),
                    ));
                    assert(oldtokens.map_values(|t: Token<String>| token_text(t)).push(
                        token_text(tokens@.last()),
                    ) + tokens_of_words(words@.map_values(|w: String| w@)) =~= oldtokens.map_values(
                        |t: Token<String>| token_text(t),
                    ) + (seq![token_text(tokens@.last())] + tokens_of_words(
                        words@.map_values(|w: String| w@),
                    )));
                }
            },
            None => {},
        }
    }
    proof {
        assert(words@.map_values(|w: String| w@).len() == 0);
        assert(tokens_of_words(words@.map_values(|w: String| w@)) =~= Seq::<
            Token<Seq<char>>,
        >::empty());
        assert(tokens@.map_values(|t: Token<String>| token_text(t)) + Seq::<
            Token<Seq<char>>,
        >::empty() =~= tokens@.map_values(|t: Token<String>| token_text(t)));
    }
    tokens
}

} // verus!
