//! Token-stream idempotence: re-lexing the canonical text of tokens.
//!
//! Each token other than an unrecognized fragment has a canonical textual
//! form, `render_token`. Tokens in a stream are written one after another,
//! a space between any two (`render_tokens`): without a separator two
//! adjacent tokens could fuse into one, as the digits of two numbers
//! would. `lemma_render_tokens_idempotent` is the law: lexing the rendered
//! text yields exactly the token sequence it was rendered from.

use vstd::prelude::*;
use crate::json_value::SpecNumber;
use crate::text::{all_digits, is_alnum_char, is_digit_char, is_ws_char};
use crate::lexer::{
    LexError, SpecToken, alnum_end, digits_end, escape_decode, next_token_at, scan_number,
    scan_string, ws_end, lemma_next_token_progress,
};

verus! {

/// The canonical text of one decoded string character.
pub open spec fn escape_char(c: char) -> Seq<char> {
    if c == '"' {
        seq!['\\', '"']
    } else if c == '\\' {
        seq!['\\', '\\']
    } else if c == '\u{0008}' {
        seq!['\\', 'b']
    } else if c == '\u{000c}' {
        seq!['\\', 'f']
    } else if c == '\n' {
        seq!['\\', 'n']
    } else if c == '\r' {
        seq!['\\', 'r']
    } else if c == '\t' {
        seq!['\\', 't']
    } else {
        seq![c]
    }
}

/// The canonical escaped form of a decoded string body.
pub open spec fn escape_seq(d: Seq<char>) -> Seq<char>
    decreases d.len(),
{
    if d.len() == 0 {
        Seq::empty()
    } else {
        escape_char(d[0]) + escape_seq(d.drop_first())
    }
}

/// The canonical text of a number: sign, integer digits, fraction and
/// exponent where present.
pub open spec fn render_number(n: SpecNumber) -> Seq<char> {
    let sign: Seq<char> = if n.neg {
        seq!['-']
    } else {
        Seq::empty()
    };
    let frac: Seq<char> = if n.frac_digits.len() > 0 {
        seq!['.'] + n.frac_digits
    } else {
        Seq::empty()
    };
    let exp: Seq<char> = if n.exp_digits.len() > 0 {
        seq!['e'] + (if n.exp_neg {
            seq!['-']
        } else {
            Seq::empty()
        }) + n.exp_digits
    } else {
        Seq::empty()
    };
    sign + n.int_digits + frac + exp
}

/// Whether a token has a canonical textual form: every token but an
/// unrecognized fragment.
pub open spec fn renderable(t: SpecToken) -> bool {
    !(t is Unknown)
}

/// The canonical text of a token.
pub open spec fn render_token(t: SpecToken) -> Seq<char> {
    match t {
        SpecToken::LBrace => seq!['{'],
        SpecToken::RBrace => seq!['}'],
        SpecToken::LBracket => seq!['['],
        SpecToken::RBracket => seq![']'],
        SpecToken::Colon => seq![':'],
        SpecToken::Comma => seq![','],
        SpecToken::Str(d) => seq!['"'] + escape_seq(d) + seq!['"'],
        SpecToken::Number(n) => render_number(n),
        SpecToken::Bool(b) => if b {
            seq!['t', 'r', 'u', 'e']
        } else {
            seq!['f', 'a', 'l', 's', 'e']
        },
        SpecToken::Null => seq!['n', 'u', 'l', 'l'],
        SpecToken::Unknown(_) => Seq::empty(),
    }
}

/// The canonical text of the rest of a token stream: a space before each
/// token.
pub open spec fn render_rest(ts: Seq<SpecToken>) -> Seq<char>
    decreases ts.len(),
{
    if ts.len() == 0 {
        Seq::empty()
    } else {
        seq![' '] + render_token(ts[0]) + render_rest(ts.drop_first())
    }
}

/// The canonical text of a token stream.
pub open spec fn render_tokens(ts: Seq<SpecToken>) -> Seq<char> {
    if ts.len() == 0 {
        Seq::empty()
    } else {
        render_token(ts[0]) + render_rest(ts.drop_first())
    }
}

/// The whole token stream of the text from position `i` on, where lexing
/// succeeds.
pub open spec fn lex_all(s: Seq<char>, i: int) -> Result<Seq<SpecToken>, LexError>
    decreases s.len() - i,
{
    proof {
        lemma_next_token_progress(s, i);
    }
    match next_token_at(s, i) {
        Err(e) => Err(e),
        Ok(None) => Ok(Seq::empty()),
        Ok(Some((t, p))) => {
            if p <= i || s.len() < p {
                // never reached: a token always makes progress
                Ok(seq![t])
            } else {
                match lex_all(s, p) {
                    Err(e) => Err(e),
                    Ok(rest) => Ok(seq![t] + rest),
                }
            }
        },
    }
}

/// The text from `i` on splits as `a + b`: then `a` stands at `i`
/// character for character, and the text from `i + a.len()` on is `b`.
proof fn lemma_peel(s: Seq<char>, i: int, a: Seq<char>, b: Seq<char>)
    requires
        0 <= i <= s.len(),
        s.subrange(i, s.len() as int) =~= a + b,
    ensures
        i + a.len() + b.len() == s.len(),
        forall|k: int| 0 <= k < a.len() ==> s[i + k] == #[trigger] a[k],
        a.len() > 0 ==> s[i] == a[0],
        a.len() > 1 ==> s[i + 1] == a[1],
        s.subrange(i + a.len() as int, s.len() as int) =~= b,
{
    let t = s.subrange(i, s.len() as int);
    assert(t.len() == a.len() + b.len());
    assert forall|k: int| 0 <= k < a.len() implies s[i + k] == #[trigger] a[k] by {
        assert(t[k] == s[i + k]);
        assert((a + b)[k] == a[k]);
    }
    let t2 = s.subrange(i + a.len() as int, s.len() as int);
    assert forall|k: int| 0 <= k < b.len() implies t2[k] == #[trigger] b[k] by {
        assert(t2[k] == s[i + a.len() + k]);
        assert(t[a.len() + k] == s[i + a.len() + k]);
        assert((a + b)[a.len() + k] == b[k]);
    }
    assert(t2 =~= b);
    if a.len() > 0 {
        assert(t[0] == s[i]);
        assert((a + b)[0] == a[0]);
    }
    if a.len() > 1 {
        assert(t[1] == s[i + 1]);
        assert((a + b)[1] == a[1]);
    }
}

proof fn lemma_scan_escaped(s: Seq<char>, i: int, acc: Seq<char>, d: Seq<char>, rest: Seq<char>)
    requires
        0 <= i <= s.len(),
        s.subrange(i, s.len() as int) =~= escape_seq(d) + seq!['"'] + rest,
    ensures
        scan_string(s, i, acc) == Ok::<(Seq<char>, int), LexError>(
            (acc + d, i + escape_seq(d).len() + 1),
        ),
    decreases d.len(),
{
    if d.len() == 0 {
        assert(s.subrange(i, s.len() as int) =~= seq!['"'] + rest);
        lemma_peel(s, i, seq!['"'], rest);
        assert(s[i] == '"');
        assert(acc + d =~= acc);
    } else {
        let c = d[0];
        let head = escape_char(c);
        let hl = head.len() as int;
        assert(escape_seq(d) == head + escape_seq(d.drop_first()));
        assert(s.subrange(i, s.len() as int) =~= head + (escape_seq(d.drop_first()) + seq!['"']
            + rest));
        lemma_peel(s, i, head, escape_seq(d.drop_first()) + seq!['"'] + rest);
        lemma_scan_escaped(s, i + hl, acc.push(c), d.drop_first(), rest);
        assert(acc.push(c) + d.drop_first() =~= acc + d);
        if hl == 2 {
            assert(s[i] == head[0] && s[i + 1] == head[1]);
            assert(s[i] == '\\');
            assert(escape_decode(s[i + 1]) == Some(c));
            assert(scan_string(s, i, acc) == scan_string(s, i + 2, acc.push(c)));
        } else {
            assert(s[i] == head[0]);
            assert(s[i] == c && c != '"' && c != '\\');
            assert(scan_string(s, i, acc) == scan_string(s, i + 1, acc.push(c)));
        }
    }
}

proof fn lemma_digits_end_exact(s: Seq<char>, i: int, d: Seq<char>)
    requires
        0 <= i,
        i + d.len() <= s.len(),
        all_digits(d),
        forall|k: int| 0 <= k < d.len() ==> s[i + k] == #[trigger] d[k],
        i + d.len() == s.len() || !is_digit_char(s[i + d.len()]),
    ensures
        digits_end(s, i) == i + d.len(),
    decreases d.len(),
{
    if d.len() == 0 {
    } else {
        assert(s[i] == d[0] && is_digit_char(d[0]));
        assert(forall|k: int| 0 <= k < d.len() - 1 ==> s[i + 1 + k] == #[trigger] d.drop_first()[k]);
        assert(all_digits(d.drop_first())) by {
            assert(forall|k: int| 0 <= k < d.len() - 1 ==> is_digit_char(
                #[trigger] d.drop_first()[k],
            ));
        }
        lemma_digits_end_exact(s, i + 1, d.drop_first());
    }
}

proof fn lemma_alnum_end_exact(s: Seq<char>, i: int, d: Seq<char>)
    requires
        0 <= i,
        i + d.len() <= s.len(),
        forall|k: int| 0 <= k < d.len() ==> s[i + k] == #[trigger] d[k] && is_alnum_char(d[k]),
        i + d.len() == s.len() || !is_alnum_char(s[i + d.len()]),
    ensures
        alnum_end(s, i) == i + d.len(),
    decreases d.len(),
{
    if d.len() == 0 {
    } else {
        assert(s[i] == d[0] && is_alnum_char(d[0]));
        assert(forall|k: int| 0 <= k < d.len() - 1 ==> s[i + 1 + k] == #[trigger] d.drop_first()[k]
            && is_alnum_char(d.drop_first()[k]));
        lemma_alnum_end_exact(s, i + 1, d.drop_first());
    }
}

#[verifier::rlimit(100)]
#[verifier::spinoff_prover]
proof fn lemma_scan_rendered_number(s: Seq<char>, i: int, n: SpecNumber, rest: Seq<char>)
    requires
        0 <= i <= s.len(),
        n.wf(),
        s.subrange(i, s.len() as int) =~= render_number(n) + rest,
        rest.len() == 0 || rest[0] == ' ',
    ensures
        scan_number(s, i) == Ok::<(SpecNumber, int), LexError>(
            (n, i + render_number(n).len()),
        ),
{
    let r = render_number(n);
    let il = n.int_digits.len() as int;
    let fl = n.frac_digits.len() as int;
    let el = n.exp_digits.len() as int;
    let sign: Seq<char> = if n.neg {
        seq!['-']
    } else {
        Seq::empty()
    };
    let fracseq: Seq<char> = if fl > 0 {
        seq!['.'] + n.frac_digits
    } else {
        Seq::empty()
    };
    let esign: Seq<char> = if n.exp_neg {
        seq!['-']
    } else {
        Seq::empty()
    };
    let expseq: Seq<char> = if el > 0 {
        seq!['e'] + esign + n.exp_digits
    } else {
        Seq::empty()
    };
    assert(r == sign + n.int_digits + fracseq + expseq);
    if fl == 0 {
        assert(n.frac_digits =~= Seq::<char>::empty());
    }
    if el == 0 {
        assert(n.exp_digits =~= Seq::<char>::empty());
    }
    // peel the sign, then the integer digits
    assert(s.subrange(i, s.len() as int) =~= sign + (n.int_digits + (fracseq + (expseq + rest))));
    lemma_peel(s, i, sign, n.int_digits + (fracseq + (expseq + rest)));
    let j = i + sign.len() as int;
    if n.neg {
        assert(s[i] == '-');
    }
    lemma_peel(s, j, n.int_digits, fracseq + (expseq + rest));
    let k = j + il;
    if !n.neg {
        assert(s[i] == n.int_digits[0]);
        assert(is_digit_char(s[i]));
        assert(s[i] != '-' && s[i] != '+');
    }
    // peel the fraction
    let q = k + fracseq.len() as int;
    if fl > 0 {
        assert(fracseq + (expseq + rest) =~= seq!['.'] + (n.frac_digits + (expseq + rest)));
        lemma_peel(s, k, seq!['.'], n.frac_digits + (expseq + rest));
        assert(s[k] == '.');
        lemma_peel(s, k + 1, n.frac_digits, expseq + rest);
    } else {
        lemma_peel(s, k, fracseq, expseq + rest);
    }
    // peel the exponent
    if el > 0 {
        assert(expseq + rest =~= seq!['e'] + (esign + (n.exp_digits + rest)));
        lemma_peel(s, q, seq!['e'], esign + (n.exp_digits + rest));
        assert(s[q] == 'e');
        lemma_peel(s, q + 1, esign, n.exp_digits + rest);
        let w = q + 1 + esign.len() as int;
        if n.exp_neg {
            assert(s[q + 1] == '-');
        }
        lemma_peel(s, w, n.exp_digits, rest);
        let z = w + el;
        if !n.exp_neg {
            assert(s[q + 1] == n.exp_digits[0]);
            assert(is_digit_char(s[q + 1]));
            assert(s[q + 1] != '-' && s[q + 1] != '+');
        }
        // boundary after the exponent digits
        assert(z == s.len() || !is_digit_char(s[z])) by {
            if rest.len() > 0 {
                lemma_peel(s, z, rest, Seq::empty());
                assert(s[z] == ' ');
            }
        }
        lemma_digits_end_exact(s, w, n.exp_digits);
        // boundaries after the integer and fraction digits
        if fl > 0 {
            assert(s[k] == '.' && !is_digit_char('.'));
            assert(s[q] == 'e' && !is_digit_char('e'));
            lemma_digits_end_exact(s, j, n.int_digits);
            lemma_digits_end_exact(s, k + 1, n.frac_digits);
            assert(s.subrange(k + 1, q) =~= n.frac_digits);
        } else {
            assert(s[k] == 'e' && !is_digit_char('e'));
            lemma_digits_end_exact(s, j, n.int_digits);
        }
        assert(s.subrange(j, k) =~= n.int_digits);
        assert(s.subrange(w, z) =~= n.exp_digits);
        assert(z == i + r.len());
    } else {
        lemma_peel(s, q, expseq, rest);
        // boundary after the last digits: the separator or the end
        assert(q == s.len() || (!is_digit_char(s[q]) && s[q] != '.' && s[q] != 'e' && s[q] != 'E'))
            by {
            if rest.len() > 0 {
                lemma_peel(s, q, rest, Seq::empty());
                assert(s[q] == ' ');
            }
        }
        if fl > 0 {
            assert(s[k] == '.' && !is_digit_char('.'));
            lemma_digits_end_exact(s, j, n.int_digits);
            lemma_digits_end_exact(s, k + 1, n.frac_digits);
            assert(s.subrange(k + 1, q) =~= n.frac_digits);
        } else {
            lemma_digits_end_exact(s, j, n.int_digits);
        }
        assert(s.subrange(j, k) =~= n.int_digits);
        assert(q == i + r.len());
        assert(!n.exp_neg);
    }
}

/// Re-lexing one rendered token: in a text that holds the canonical form
/// of a well-formed token at position `i`, either at the end of the input
/// or with a space after it, the tokenizer reads back exactly that token.
pub proof fn lemma_render_token_idempotent(s: Seq<char>, i: int, t: SpecToken, rest: Seq<char>)
    requires
        0 <= i <= s.len(),
        t.wf(),
        renderable(t),
        s.subrange(i, s.len() as int) =~= render_token(t) + rest,
        rest.len() == 0 || rest[0] == ' ',
    ensures
        next_token_at(s, i) == Ok::<Option<(SpecToken, int)>, LexError>(
            Some((t, i + render_token(t).len())),
        ),
{
    let r = render_token(t);
    lemma_peel(s, i, r, rest);
    assert(s[i] == r[0]) by {
        match t {
            SpecToken::Number(n) => {
                assert(r == render_number(n));
                if n.neg {
                    assert(r[0] == '-');
                } else {
                    assert(r[0] == n.int_digits[0]);
                }
            },
            _ => {},
        }
    }
    assert(!is_ws_char(s[i])) by {
        match t {
            SpecToken::Number(n) => {
                if !n.neg {
                    assert(is_digit_char(r[0]));
                }
            },
            _ => {},
        }
    }
    assert(ws_end(s, i) == i);
    match t {
        SpecToken::LBrace => {},
        SpecToken::RBrace => {},
        SpecToken::LBracket => {},
        SpecToken::RBracket => {},
        SpecToken::Colon => {},
        SpecToken::Comma => {},
        SpecToken::Str(d) => {
            assert(s[i] == '"');
            assert(s.subrange(i, s.len() as int) =~= seq!['"'] + (escape_seq(d) + seq!['"']
                + rest));
            lemma_peel(s, i, seq!['"'], escape_seq(d) + seq!['"'] + rest);
            lemma_scan_escaped(s, i + 1, Seq::empty(), d, rest);
            assert(Seq::empty() + d =~= d);
        },
        SpecToken::Number(n) => {
            lemma_scan_rendered_number(s, i, n, rest);
            assert(s[i] == '+' || s[i] == '-' || is_digit_char(s[i]));
            assert(s[i] != '{' && s[i] != '}' && s[i] != '[' && s[i] != ']' && s[i] != ','
                && s[i] != ':' && s[i] != '"') by {
                if n.neg {
                    assert(s[i] == '-');
                } else {
                    assert(is_digit_char(s[i]));
                }
            }
        },
        SpecToken::Bool(b) => {
            let w: Seq<char> = if b {
                seq!['t', 'r', 'u', 'e']
            } else {
                seq!['f', 'a', 'l', 's', 'e']
            };
            assert(r =~= w);
            assert(forall|k: int| 0 <= k < w.len() ==> s[i + k] == #[trigger] w[k]
                && is_alnum_char(w[k]));
            assert(i + w.len() == s.len() || !is_alnum_char(s[i + w.len()])) by {
                if rest.len() > 0 {
                    lemma_peel(s, i + w.len() as int, rest, Seq::empty());
                    assert(s[i + w.len()] == ' ');
                }
            }
            lemma_alnum_end_exact(s, i, w);
            assert(s.subrange(i, i + w.len() as int) =~= w);
            if b {
                reveal_strlit("true");
                assert(w =~= "true"@);
            } else {
                reveal_strlit("false");
                assert(w =~= "false"@);
                reveal_strlit("true");
                assert(w.len() != "true"@.len());
            }
        },
        SpecToken::Null => {
            let w: Seq<char> = seq!['n', 'u', 'l', 'l'];
            assert(r =~= w);
            assert(forall|k: int| 0 <= k < w.len() ==> s[i + k] == #[trigger] w[k]
                && is_alnum_char(w[k]));
            assert(i + w.len() == s.len() || !is_alnum_char(s[i + w.len()])) by {
                if rest.len() > 0 {
                    lemma_peel(s, i + w.len() as int, rest, Seq::empty());
                    assert(s[i + w.len()] == ' ');
                }
            }
            lemma_alnum_end_exact(s, i, w);
            assert(s.subrange(i, i + w.len() as int) =~= w);
            reveal_strlit("null");
            assert(w =~= "null"@);
            reveal_strlit("true");
            reveal_strlit("false");
            assert(w != "true"@ && w != "false"@);
        },
        SpecToken::Unknown(_) => {},
    }
}

#[verifier::rlimit(100)]
#[verifier::spinoff_prover]
proof fn lemma_render_rest_idempotent(s: Seq<char>, i: int, ts: Seq<SpecToken>)
    requires
        0 <= i <= s.len(),
        forall|k: int| 0 <= k < ts.len() ==> (#[trigger] ts[k]).wf() && renderable(ts[k]),
        s.subrange(i, s.len() as int) =~= render_rest(ts),
    ensures
        lex_all(s, i) == Ok::<Seq<SpecToken>, LexError>(ts),
    decreases ts.len(),
{
    if ts.len() == 0 {
        lemma_peel(s, i, Seq::empty(), Seq::empty());
        assert(i == s.len());
        assert(ws_end(s, i) == i);
        assert(next_token_at(s, i) == Ok::<Option<(SpecToken, int)>, LexError>(None));
        assert(ts =~= Seq::<SpecToken>::empty());
    } else {
        let t = ts[0];
        let r = render_token(t);
        let rr = render_rest(ts.drop_first());
        assert(s.subrange(i, s.len() as int) =~= seq![' '] + (r + rr));
        lemma_peel(s, i, seq![' '], r + rr);
        // the leading space is skipped
        assert(s[i] == ' ' && is_ws_char(' '));
        assert(ws_end(s, i) == ws_end(s, i + 1));
        assert(rr.len() == 0 || rr[0] == ' ');
        lemma_render_token_idempotent(s, i + 1, t, rr);
        assert(next_token_at(s, i) == next_token_at(s, i + 1));
        let p = i + 1 + r.len() as int;
        lemma_next_token_progress(s, i);
        lemma_peel(s, i + 1, r, rr);
        assert(s.subrange(p, s.len() as int) =~= rr);
        assert(forall|k: int| 0 <= k < ts.len() - 1 ==> (#[trigger] ts.drop_first()[k]).wf()
            && renderable(ts.drop_first()[k]));
        lemma_render_rest_idempotent(s, p, ts.drop_first());
        assert(next_token_at(s, i) == Ok::<Option<(SpecToken, int)>, LexError>(Some((t, p))));
        assert(i < p <= s.len());
        assert(lex_all(s, i) == Ok::<Seq<SpecToken>, LexError>(seq![t] + ts.drop_first()));
        assert(seq![t] + ts.drop_first() =~= ts);
    }
}

/// Token-stream idempotence: lexing the canonical text of any stream of
/// well-formed, renderable tokens yields exactly that stream.
#[verifier::rlimit(100)]
#[verifier::spinoff_prover]
pub proof fn lemma_render_tokens_idempotent(s: Seq<char>, ts: Seq<SpecToken>)
    requires
        forall|k: int| 0 <= k < ts.len() ==> (#[trigger] ts[k]).wf() && renderable(ts[k]),
        s =~= render_tokens(ts),
    ensures
        lex_all(s, 0) == Ok::<Seq<SpecToken>, LexError>(ts),
{
    assert(s.subrange(0, s.len() as int) =~= s);
    if ts.len() == 0 {
        assert(ws_end(s, 0) == 0);
        assert(next_token_at(s, 0) == Ok::<Option<(SpecToken, int)>, LexError>(None));
        assert(ts =~= Seq::<SpecToken>::empty());
    } else {
        let t = ts[0];
        let r = render_token(t);
        let rr = render_rest(ts.drop_first());
        assert(s.subrange(0, s.len() as int) =~= r + rr);
        assert(rr.len() == 0 || rr[0] == ' ');
        lemma_render_token_idempotent(s, 0, t, rr);
        let p = r.len() as int;
        lemma_next_token_progress(s, 0);
        lemma_peel(s, 0, r, rr);
        assert(s.subrange(p, s.len() as int) =~= rr);
        assert(forall|k: int| 0 <= k < ts.len() - 1 ==> (#[trigger] ts.drop_first()[k]).wf()
            && renderable(ts.drop_first()[k]));
        lemma_render_rest_idempotent(s, p, ts.drop_first());
        assert(next_token_at(s, 0) == Ok::<Option<(SpecToken, int)>, LexError>(Some((t, p))));
        assert(0 < p <= s.len());
        assert(lex_all(s, 0) == Ok::<Seq<SpecToken>, LexError>(seq![t] + ts.drop_first()));
        assert(seq![t] + ts.drop_first() =~= ts);
    }
}

} // verus!
