//! The grammar of numeric literals.
//!
//! The tokenizer keeps a whitespace-delimited word as a number exactly
//! when it is a standard decimal floating-point literal: an optional
//! sign, then a decimal mantissa with an optional `e`/`E` exponent.
//! Rust's standard numeric parser also accepts the words `inf`,
//! `infinity` and `nan` in any letter case; those are deliberately not
//! numbers here, because tokenization must not inject a NaN or an
//! infinity — such words fall under the tokenizer's silent-drop rule
//! instead. The grammar bounds form, not magnitude: an overflowing
//! literal such as `1e999` is still a number token, and only its
//! downstream parse rounds it to infinity.

use vstd::prelude::*;

verus! {

/// A decimal digit.
pub open spec fn is_digit(c: char) -> bool {
    '0' <= c && c <= '9'
}

/// The mantissa of a decimal literal: one or more digits and at most one
/// dot, in any arrangement (`1`, `1.`, `1.5` and `.5` all qualify).
pub open spec fn is_mantissa(m: Seq<char>) -> bool {
    &&& forall|k: int| 0 <= k < m.len() ==> is_digit(m[k]) || m[k] == '.'
    &&& exists|k: int| 0 <= k < m.len() && is_digit(m[k])
    &&& forall|k1: int, k2: int|
        0 <= k1 < m.len() && 0 <= k2 < m.len() && m[k1] == '.' && m[k2] == '.' ==> k1 == k2
}

/// Nothing but digits.
pub open spec fn all_digits(u: Seq<char>) -> bool {
    forall|k: int| 0 <= k < u.len() ==> is_digit(u[k])
}

/// One or more digits, optionally preceded by a sign.
pub open spec fn is_signed_digits(t: Seq<char>) -> bool {
    if t.len() > 0 && (t[0] == '+' || t[0] == '-') {
        t.drop_first().len() > 0 && all_digits(t.drop_first())
    } else {
        t.len() > 0 && all_digits(t)
    }
}

/// The exponent part of a literal: nothing at all, or `e`/`E` followed by
/// an optionally signed digit run.
pub open spec fn is_exponent(t: Seq<char>) -> bool {
    t.len() == 0 || ((t[0] == 'e' || t[0] == 'E') && is_signed_digits(t.drop_first()))
}

/// A decimal number: a mantissa followed by an exponent part.
pub open spec fn is_decimal_number(t: Seq<char>) -> bool {
    exists|i: int| 0 <= i <= t.len() && is_mantissa(t.take(i)) && is_exponent(t.skip(i))
}

/// A numeric literal: an optional sign, then a decimal number. A word
/// spelling a non-finite value (`inf`, `infinity`, `nan`) is not one.
pub open spec fn is_float_literal(s: Seq<char>) -> bool {
    let t = if s.len() > 0 && (s[0] == '+' || s[0] == '-') {
        s.drop_first()
    } else {
        s
    };
    is_decimal_number(t)
}

/// When the characters of `s` from `i` up to `j` are digits or dots and
/// the character at `j` (if any) is neither, a decimal-number split of
/// `s.skip(i)` can only sit at `j`.
proof fn lemma_split_forced(s: Seq<char>, i: int, j: int)
    requires
        0 <= i <= j <= s.len(),
        forall|k: int| i <= k < j ==> is_digit(s[k]) || s[k] == '.',
        j < s.len() ==> !(is_digit(s[j]) || s[j] == '.'),
    ensures
        is_decimal_number(s.skip(i)) == (is_mantissa(s.skip(i).take(j - i)) && is_exponent(
            s.skip(j),
        )),
{
    let t = s.skip(i);
    assert(t.skip(j - i) =~= s.skip(j));
    assert forall|k: int| 0 <= k < t.len() implies t[k] == s[i + k] by {}
    if is_mantissa(t.take(j - i)) && is_exponent(s.skip(j)) {
        assert(is_decimal_number(t));
    }
    if is_decimal_number(t) {
        let x = choose|x: int| 0 <= x <= t.len() && is_mantissa(t.take(x)) && is_exponent(t.skip(x));
        if x < j - i {
            assert(t.skip(x)[0] == t[x]);
            assert(is_digit(t[x]) || t[x] == '.');
            assert(t.skip(x).len() > 0);
            assert(false);
        }
        if x > j - i {
            assert(t.take(x)[j - i] == t[j - i]);
            assert(t[j - i] == s[j]);
            assert(false);
        }
        assert(x == j - i);
    }
}

/// The scanned digit-and-dot region is a mantissa exactly when it holds a
/// digit and no second dot.
proof fn lemma_scan_mantissa(s: Seq<char>, i: int, j: int, seen_digit: bool, dup_dot: bool)
    requires
        0 <= i <= j <= s.len(),
        forall|k: int| i <= k < j ==> is_digit(s[k]) || s[k] == '.',
        seen_digit == exists|k: int| i <= k < j && is_digit(s[k]),
        dup_dot == exists|k1: int, k2: int| i <= k1 < k2 < j && s[k1] == '.' && s[k2] == '.',
    ensures
        is_mantissa(s.skip(i).take(j - i)) == (seen_digit && !dup_dot),
{
    let m = s.skip(i).take(j - i);
    assert(m.len() == j - i);
    assert forall|k: int| 0 <= k < m.len() implies m[k] == s[i + k] by {
        assert(m[k] == s.skip(i)[k]);
    }
    if seen_digit && !dup_dot {
        let k = choose|k: int| i <= k < j && is_digit(s[k]);
        assert(m[k - i] == s[k]);
        assert forall|k1: int, k2: int|
            0 <= k1 < m.len() && 0 <= k2 < m.len() && m[k1] == '.' && m[k2] == '.' implies k1
            == k2 by {
            assert(s[i + k1] == '.');
            assert(s[i + k2] == '.');
            if k1 < k2 {
                assert(false);
            }
            if k2 < k1 {
                assert(false);
            }
        }
        assert(is_mantissa(m));
    }
    if is_mantissa(m) {
        assert(seen_digit) by {
            let k = choose|k: int| 0 <= k < m.len() && is_digit(m[k]);
            assert(is_digit(s[i + k]));
        }
        assert(!dup_dot) by {
            if dup_dot {
                let (k1, k2) = choose|k1: int, k2: int|
                    i <= k1 < k2 < j && s[k1] == '.' && s[k2] == '.';
                assert(m[k1 - i] == s[k1]);
                assert(m[k2 - i] == s[k2]);
                assert(false);
            }
        }
    }
}

/// From an `e`/`E` at position `j`, with `k0` just past the optional sign,
/// the tail is a well-formed exponent exactly when everything from `k0` to
/// the end is at least one digit.
proof fn lemma_scan_exponent(s: Seq<char>, j: int, k0: int, exp_ok: bool)
    requires
        0 <= j < s.len(),
        s[j] == 'e' || s[j] == 'E',
        k0 == j + 1 || k0 == j + 2,
        k0 == j + 2 ==> j + 1 < s.len() && (s[j + 1] == '+' || s[j + 1] == '-'),
        k0 == j + 1 ==> !(j + 1 < s.len() && (s[j + 1] == '+' || s[j + 1] == '-')),
        exp_ok == (k0 < s.len() && forall|q: int| k0 <= q < s.len() ==> is_digit(s[q])),
    ensures
        is_exponent(s.skip(j)) == exp_ok,
{
    let e = s.skip(j);
    assert(e.len() == s.len() - j);
    assert forall|k: int| 0 <= k < e.len() implies e[k] == s[j + k] by {}
    let u = e.drop_first();
    assert(u.len() == s.len() - j - 1);
    assert forall|k: int| 0 <= k < u.len() implies u[k] == s[j + 1 + k] by {
        assert(u[k] == e[k + 1]);
    }
    assert(e[0] == s[j]);
    if k0 == j + 2 {
        assert(u.len() > 0);
        assert(u[0] == s[j + 1]);
        let w = u.drop_first();
        assert(w.len() == s.len() - k0);
        assert forall|k: int| 0 <= k < w.len() implies w[k] == s[k0 + k] by {
            assert(w[k] == u[k + 1]);
        }
        if exp_ok {
            assert forall|k: int| 0 <= k < w.len() implies is_digit(w[k]) by {
                assert(w[k] == s[k0 + k]);
            }
            assert(is_signed_digits(u));
            assert(is_exponent(s.skip(j)));
        } else {
            if is_signed_digits(u) {
                assert(w.len() > 0);
                assert(k0 < s.len());
                let q = choose|q: int| k0 <= q < s.len() && !is_digit(s[q]);
                assert(is_digit(w[q - k0]));
                assert(w[q - k0] == s[q]);
                assert(false);
            }
            assert(!is_exponent(s.skip(j)));
        }
    } else {
        assert(u.len() > 0 ==> u[0] == s[j + 1]);
        assert(u.len() > 0 ==> !(u[0] == '+' || u[0] == '-'));
        if exp_ok {
            assert(u.len() == s.len() - k0);
            assert(u.len() > 0);
            assert forall|k: int| 0 <= k < u.len() implies is_digit(u[k]) by {
                assert(u[k] == s[k0 + k]);
            }
            assert(is_signed_digits(u));
            assert(is_exponent(s.skip(j)));
        } else {
            if is_signed_digits(u) {
                assert(u.len() > 0);
                assert(k0 < s.len());
                let q = choose|q: int| k0 <= q < s.len() && !is_digit(s[q]);
                assert(is_digit(u[q - k0]));
                assert(u[q - k0] == s[q]);
                assert(false);
            }
            assert(!is_exponent(s.skip(j)));
        }
    }
}

/// Whether `s` is a numeric literal in the sense of [`is_float_literal`].
pub fn check_float_literal(s: &str) -> (r: bool)
    ensures
        r == is_float_literal(s@),
{
    let n = s.unicode_len();
    let mut i: usize = 0;
    if n > 0 {
        let c0 = s.get_char(0);
        if c0 == '+' || c0 == '-' {
            i = 1;
        }
    }
    let ghost t = s@.skip(i as int);
    proof {
        assert(is_float_literal(s@) == is_decimal_number(t)) by {
            if i == 1 {
                assert(t =~= s@.drop_first());
            } else {
                assert(t =~= s@);
            }
        }
        assert forall|k: int| 0 <= k < t.len() implies t[k] == s@[i + k] by {}
    }

    let mut j = i;
    let mut seen_digit = false;
    let mut seen_dot = false;
    let mut dup_dot = false;
    let mut stop = false;
    while !stop && j < n
        invariant
            i <= j <= n,
            n == s@.len(),
            seen_digit == exists|k: int| i <= k < j && is_digit(s@[k]),
            seen_dot == exists|k: int| i <= k < j && s@[k] == '.',
            dup_dot == exists|k1: int, k2: int|
                i <= k1 < k2 < j && s@[k1] == '.' && s@[k2] == '.',
            forall|k: int| i <= k < j ==> is_digit(s@[k]) || s@[k] == '.',
            stop ==> j < n && !(is_digit(s@[j as int]) || s@[j as int] == '.'),
        decreases 2 * (n - j) + (if stop {
            0int
        } else {
            1int
        }),
    {
        let c = s.get_char(j);
        if ('0' <= c && c <= '9') || c == '.' {
            proof {
                if c == '.' && seen_dot {
                    let k = choose|k: int| i <= k < j && s@[k] == '.';
                    assert(i <= k < j + 1 && k < j && s@[k] == '.' && s@[j as int] == '.');
                }
            }
            if c == '.' {
                if seen_dot {
                    dup_dot = true;
                }
                seen_dot = true;
            } else {
                seen_digit = true;
            }
            j += 1;
        } else {
            stop = true;
        }
    }

    let mantissa_ok = seen_digit && !dup_dot;
    proof {
        lemma_scan_mantissa(s@, i as int, j as int, seen_digit, dup_dot);
        assert(t.take(j - i) == s@.skip(i as int).take(j - i));
    }

    if !stop {
        // The whole tail was digits and dots: the split can only put all
        // of it in the mantissa, with an empty exponent.
        proof {
            lemma_split_forced(s@, i as int, j as int);
            assert(s@.skip(j as int).len() == 0);
            assert(is_exponent(s@.skip(j as int)));
            assert(t.take(t.len() as int) =~= t);
            assert(is_decimal_number(t) == mantissa_ok);
        }
        return mantissa_ok;
    }

    // The scan stopped at a character that is neither a digit nor a dot.
    let c = s.get_char(j);
    if c == 'e' || c == 'E' {
        // The decimal split is forced to sit exactly here.
        let mut k = j + 1;
        if k < n {
            let c2 = s.get_char(k);
            if c2 == '+' || c2 == '-' {
                k = k + 1;
            }
        }
        let ghost k0 = k as int;
        proof {
            assert(k0 == j + 1 || k0 == j + 2);
            assert(k0 == j + 2 ==> j + 1 < n && (s@[j + 1] == '+' || s@[j + 1] == '-'));
            assert(k0 == j + 1 ==> !(j + 1 < n && (s@[j + 1] == '+' || s@[j + 1] == '-')));
        }
        let mut ok = k < n;
        let mut m = k;
        while m < n && ok
            invariant
                k0 <= m <= n,
                n == s@.len(),
                ok ==> k0 < n,
                ok ==> forall|q: int| k0 <= q < m ==> is_digit(s@[q]),
                !ok ==> (k0 >= n || exists|q: int| k0 <= q < n && !is_digit(s@[q])),
            decreases 2 * (n - m) + (if ok {
                1int
            } else {
                0int
            }),
        {
            let c3 = s.get_char(m);
            if '0' <= c3 && c3 <= '9' {
                m = m + 1;
            } else {
                ok = false;
            }
        }
        let exp_ok = ok;
        proof {
            assert(exp_ok == (k0 < n && forall|q: int| k0 <= q < n ==> is_digit(s@[q]))) by {
                if !exp_ok && k0 < n {
                    let q = choose|q: int| k0 <= q < n && !is_digit(s@[q]);
                    assert(!is_digit(s@[q]));
                }
            }
            lemma_scan_exponent(s@, j as int, k0, exp_ok);
            lemma_split_forced(s@, i as int, j as int);
            assert(is_decimal_number(t) == (mantissa_ok && exp_ok));
        }
        return mantissa_ok && exp_ok;
    }

    // Stopped at a character that can open neither an exponent nor a
    // mantissa: no decimal split exists.
    proof {
        lemma_split_forced(s@, i as int, j as int);
        assert(!is_exponent(s@.skip(j as int))) by {
            assert(s@.skip(j as int)[0] == s@[j as int]);
            assert(s@.skip(j as int).len() > 0);
        }
        assert(!is_decimal_number(t));
    }
    false
}

} // verus!
