//! The lexer: a forward-only cursor over a character buffer producing one
//! token at a time.
//!
//! The specification-level tokenizer is `next_token_at`: given the text and
//! a position it says exactly which token starts there, where the next one
//! begins, or which lexical error the text holds. `Lexer::next_token` is
//! proved to return exactly that.

use vstd::prelude::*;
use crate::json_value::{JsonNumber, SpecNumber};
use crate::text::{
    alnum_char_test, alpha_char_test, chars_to_string, digit_char_test, is_alnum_char,
    is_alpha_char, is_digit_char, is_ws_char, ws_char,
};

verus! {

/// A single lexical unit.
#[derive(PartialEq, Debug, Clone)]
pub enum Token {
    LBrace,
    RBrace,
    LBracket,
    RBracket,
    Str(String),
    Number(JsonNumber),
    Colon,
    Comma,
    Bool(bool),
    Null,
    Unknown(String),
}

/// Model of a token: strings as character sequences, numbers in their
/// exact decimal form.
pub enum SpecToken {
    LBrace,
    RBrace,
    LBracket,
    RBracket,
    Str(Seq<char>),
    Number(SpecNumber),
    Colon,
    Comma,
    Bool(bool),
    Null,
    Unknown(Seq<char>),
}

impl SpecToken {
    pub open spec fn wf(self) -> bool {
        match self {
            SpecToken::Number(n) => n.wf(),
            _ => true,
        }
    }
}

impl View for Token {
    type V = SpecToken;

    open spec fn view(&self) -> SpecToken {
        match self {
            Token::LBrace => SpecToken::LBrace,
            Token::RBrace => SpecToken::RBrace,
            Token::LBracket => SpecToken::LBracket,
            Token::RBracket => SpecToken::RBracket,
            Token::Str(s) => SpecToken::Str(s@),
            Token::Number(n) => SpecToken::Number(n@),
            Token::Colon => SpecToken::Colon,
            Token::Comma => SpecToken::Comma,
            Token::Bool(b) => SpecToken::Bool(*b),
            Token::Null => SpecToken::Null,
            Token::Unknown(s) => SpecToken::Unknown(s@),
        }
    }
}

#[derive(Debug, Clone, Copy, PartialEq, Eq, Structural)]
pub enum LexErrorKind {
    /// No digit where the integer part of a number must start.
    MissingIntDigits,
    /// A decimal point not followed by a digit.
    MissingFracDigits,
    /// An exponent marker not followed by a digit.
    MissingExpDigits,
    /// The input ended inside a string literal.
    UnterminatedString,
    /// A backslash followed by a character outside the supported escapes.
    UnsupportedEscape,
}

/// A lexical error, with the character position at which it was found.
#[derive(Debug, Clone, Copy, PartialEq, Eq, Structural)]
pub struct LexError {
    pub kind: LexErrorKind,
    pub pos: usize,
}

/// The decoding of the character after a backslash; `None` for the
/// unsupported escapes, the Unicode escape among them.
pub open spec fn escape_decode(c: char) -> Option<char> {
    if c == '"' {
        Some('"')
    } else if c == '\\' {
        Some('\\')
    } else if c == '/' {
        Some('/')
    } else if c == 'b' {
        Some('\u{0008}')
    } else if c == 'f' {
        Some('\u{000c}')
    } else if c == 'n' {
        Some('\n')
    } else if c == 'r' {
        Some('\r')
    } else if c == 't' {
        Some('\t')
    } else {
        None
    }
}

/// First position at or after `i` holding no whitespace.
pub open spec fn ws_end(s: Seq<char>, i: int) -> int
    decreases s.len() - i,
{
    if i < s.len() && is_ws_char(s[i]) {
        ws_end(s, i + 1)
    } else {
        i
    }
}

/// First position at or after `i` holding no digit.
pub open spec fn digits_end(s: Seq<char>, i: int) -> int
    decreases s.len() - i,
{
    if i < s.len() && is_digit_char(s[i]) {
        digits_end(s, i + 1)
    } else {
        i
    }
}

/// First position at or after `i` holding no letter or digit.
pub open spec fn alnum_end(s: Seq<char>, i: int) -> int
    decreases s.len() - i,
{
    if i < s.len() && is_alnum_char(s[i]) {
        alnum_end(s, i + 1)
    } else {
        i
    }
}

/// Scan of a string literal body from position `i` (just past the opening
/// quote), `acc` holding what was decoded so far: the decoded text and the
/// position past the closing quote, or the lexical error.
pub open spec fn scan_string(s: Seq<char>, i: int, acc: Seq<char>) -> Result<
    (Seq<char>, int),
    LexError,
>
    decreases s.len() - i,
{
    if i >= s.len() {
        Err(LexError { kind: LexErrorKind::UnterminatedString, pos: s.len() as usize })
    } else if s[i] == '"' {
        Ok((acc, i + 1))
    } else if s[i] == '\\' {
        if i + 1 >= s.len() {
            Err(LexError { kind: LexErrorKind::UnterminatedString, pos: s.len() as usize })
        } else {
            match escape_decode(s[i + 1]) {
                Some(e) => scan_string(s, i + 2, acc.push(e)),
                None => Err(LexError { kind: LexErrorKind::UnsupportedEscape, pos: (i + 1) as usize }),
            }
        }
    } else {
        scan_string(s, i + 1, acc.push(s[i]))
    }
}

/// Scan of a number starting at position `i` (at its sign or first digit):
/// the number in decimal form and the position past it, or the error.
pub open spec fn scan_number(s: Seq<char>, i: int) -> Result<(SpecNumber, int), LexError> {
    let neg = s[i] == '-';
    let j = if s[i] == '-' || s[i] == '+' {
        i + 1
    } else {
        i
    };
    let k = digits_end(s, j);
    if k == j {
        Err(LexError { kind: LexErrorKind::MissingIntDigits, pos: j as usize })
    } else {
        let int_digits = s.subrange(j, k);
        if k < s.len() && s[k] == '.' {
            let q = digits_end(s, k + 1);
            if q == k + 1 {
                Err(LexError { kind: LexErrorKind::MissingFracDigits, pos: (k + 1) as usize })
            } else {
                scan_number_exp(s, neg, int_digits, s.subrange(k + 1, q), q)
            }
        } else {
            scan_number_exp(s, neg, int_digits, Seq::empty(), k)
        }
    }
}

/// Scan of the optional exponent of a number at position `q`.
pub open spec fn scan_number_exp(
    s: Seq<char>,
    neg: bool,
    int_digits: Seq<char>,
    frac_digits: Seq<char>,
    q: int,
) -> Result<(SpecNumber, int), LexError> {
    if q < s.len() && (s[q] == 'e' || s[q] == 'E') {
        let exp_neg = q + 1 < s.len() && s[q + 1] == '-';
        let w = if q + 1 < s.len() && (s[q + 1] == '-' || s[q + 1] == '+') {
            q + 2
        } else {
            q + 1
        };
        let z = digits_end(s, w);
        if z == w {
            Err(LexError { kind: LexErrorKind::MissingExpDigits, pos: w as usize })
        } else {
            Ok(
                (
                    SpecNumber {
                        neg,
                        int_digits,
                        frac_digits,
                        exp_neg,
                        exp_digits: s.subrange(w, z),
                    },
                    z,
                ),
            )
        }
    } else {
        Ok(
            (
                SpecNumber { neg, int_digits, frac_digits, exp_neg: false, exp_digits: Seq::empty() },
                q,
            ),
        )
    }
}

/// The token a keyword scan yields for the word `w`.
pub open spec fn keyword_token(w: Seq<char>) -> SpecToken {
    if w == "true"@ {
        SpecToken::Bool(true)
    } else if w == "false"@ {
        SpecToken::Bool(false)
    } else if w == "null"@ {
        SpecToken::Null
    } else {
        SpecToken::Unknown(w)
    }
}

/// The specification-level tokenizer: the token starting at or after
/// position `i` together with the position past it, `None` at the end of
/// the input, or the lexical error the text holds there.
pub open spec fn next_token_at(s: Seq<char>, i: int) -> Result<
    Option<(SpecToken, int)>,
    LexError,
> {
    let j = ws_end(s, i);
    if j >= s.len() {
        Ok(None)
    } else {
        let c = s[j];
        if c == '{' {
            Ok(Some((SpecToken::LBrace, j + 1)))
        } else if c == '}' {
            Ok(Some((SpecToken::RBrace, j + 1)))
        } else if c == '[' {
            Ok(Some((SpecToken::LBracket, j + 1)))
        } else if c == ']' {
            Ok(Some((SpecToken::RBracket, j + 1)))
        } else if c == ',' {
            Ok(Some((SpecToken::Comma, j + 1)))
        } else if c == ':' {
            Ok(Some((SpecToken::Colon, j + 1)))
        } else if c == '"' {
            match scan_string(s, j + 1, Seq::empty()) {
                Ok((st, p)) => Ok(Some((SpecToken::Str(st), p))),
                Err(e) => Err(e),
            }
        } else if c == '+' || c == '-' || is_digit_char(c) {
            match scan_number(s, j) {
                Ok((n, p)) => Ok(Some((SpecToken::Number(n), p))),
                Err(e) => Err(e),
            }
        } else if is_alpha_char(c) {
            Ok(Some((keyword_token(s.subrange(j, alnum_end(s, j))), alnum_end(s, j))))
        } else {
            Ok(Some((SpecToken::Unknown(seq![c]), j + 1)))
        }
    }
}

pub proof fn lemma_ws_end(s: Seq<char>, i: int)
    ensures
        i <= ws_end(s, i),
        i <= s.len() ==> ws_end(s, i) <= s.len(),
    decreases s.len() - i,
{
    if i < s.len() && is_ws_char(s[i]) {
        lemma_ws_end(s, i + 1);
    }
}

pub proof fn lemma_digits_end(s: Seq<char>, i: int)
    ensures
        i <= digits_end(s, i),
        i <= s.len() ==> digits_end(s, i) <= s.len(),
        forall|k: int| i <= k < digits_end(s, i) ==> is_digit_char(#[trigger] s[k]),
    decreases s.len() - i,
{
    if i < s.len() && is_digit_char(s[i]) {
        lemma_digits_end(s, i + 1);
    }
}

pub proof fn lemma_alnum_end(s: Seq<char>, i: int)
    ensures
        i <= alnum_end(s, i),
        i <= s.len() ==> alnum_end(s, i) <= s.len(),
    decreases s.len() - i,
{
    if i < s.len() && is_alnum_char(s[i]) {
        lemma_alnum_end(s, i + 1);
    }
}

pub proof fn lemma_scan_string_progress(s: Seq<char>, i: int, acc: Seq<char>)
    ensures
        match scan_string(s, i, acc) {
            Ok((st, p)) => i < p <= s.len(),
            Err(e) => true,
        },
    decreases s.len() - i,
{
    if i >= s.len() {
    } else if s[i] == '"' {
    } else if s[i] == '\\' {
        if i + 1 < s.len() {
            match escape_decode(s[i + 1]) {
                Some(e) => {
                    lemma_scan_string_progress(s, i + 2, acc.push(e));
                },
                None => {},
            }
        }
    } else {
        lemma_scan_string_progress(s, i + 1, acc.push(s[i]));
    }
}

pub proof fn lemma_scan_number_progress(s: Seq<char>, i: int)
    requires
        i < s.len(),
    ensures
        match scan_number(s, i) {
            Ok((n, p)) => i < p <= s.len(),
            Err(e) => true,
        },
{
    let j = if s[i] == '-' || s[i] == '+' {
        i + 1
    } else {
        i
    };
    lemma_digits_end(s, j);
    let k = digits_end(s, j);
    if k != j {
        if k < s.len() && s[k] == '.' {
            lemma_digits_end(s, k + 1);
            let q = digits_end(s, k + 1);
            if q != k + 1 {
                lemma_scan_number_exp_progress(s, q, i);
            }
        } else {
            lemma_scan_number_exp_progress(s, k, i);
        }
    }
}

proof fn lemma_scan_number_exp_progress(s: Seq<char>, q: int, i: int)
    requires
        i < q <= s.len(),
    ensures
        forall|neg: bool, int_digits: Seq<char>, frac_digits: Seq<char>|
            match #[trigger] scan_number_exp(s, neg, int_digits, frac_digits, q) {
                Ok((n, p)) => i < p <= s.len(),
                Err(e) => true,
            },
{
    if q < s.len() && (s[q] == 'e' || s[q] == 'E') {
        let w = if q + 1 < s.len() && (s[q + 1] == '-' || s[q + 1] == '+') {
            q + 2
        } else {
            q + 1
        };
        lemma_digits_end(s, w);
    }
}

/// A successful step of the tokenizer lands strictly later, within bounds.
pub proof fn lemma_next_token_progress(s: Seq<char>, i: int)
    ensures
        match next_token_at(s, i) {
            Ok(Some((t, p))) => i < p <= s.len(),
            _ => true,
        },
{
    lemma_ws_end(s, i);
    let j = ws_end(s, i);
    if j < s.len() {
        let c = s[j];
        if c == '"' {
            lemma_scan_string_progress(s, j + 1, Seq::empty());
        } else if c == '+' || c == '-' || is_digit_char(c) {
            lemma_scan_number_progress(s, j);
        } else if is_alpha_char(c) && !(c == '{' || c == '}' || c == '[' || c == ']' || c == ','
            || c == ':') {
            lemma_alnum_end(s, j);
            assert(is_alnum_char(s[j]));
            assert(alnum_end(s, j) == alnum_end(s, j + 1));
            lemma_alnum_end(s, j + 1);
        }
    }
}

/// The lexer: the character buffer and the cursor, which only moves
/// forward.
pub struct Lexer {
    chars: Vec<char>,
    pos: usize,
}

impl Lexer {
    /// The whole input.
    pub closed spec fn text(&self) -> Seq<char> {
        self.chars@
    }

    /// The current position.
    pub closed spec fn cursor(&self) -> int {
        self.pos as int
    }

    pub open spec fn wf(&self) -> bool {
        0 <= self.cursor() <= self.text().len()
    }

    pub fn new(source: &str) -> (r: Lexer)
        ensures
            r.wf(),
            r.text() == source@,
            r.cursor() == 0,
    {
        let len = source.unicode_len();
        let mut chars: Vec<char> = Vec::new();
        for i in 0..len
            invariant
                len == source@.len(),
                chars@ == source@.subrange(0, i as int),
        {
            chars.push(source.get_char(i));
            proof {
                assert(source@.subrange(0, i + 1) =~= source@.subrange(0, i as int).push(
                    source@[i as int],
                ));
            }
        }
        proof {
            assert(source@.subrange(0, source@.len() as int) =~= source@);
        }
        Self::from_chars(chars)
    }

    pub fn from_chars(input: Vec<char>) -> (r: Lexer)
        ensures
            r.wf(),
            r.text() == input@,
            r.cursor() == 0,
    {
        Lexer { chars: input, pos: 0 }
    }

    /// The character under the cursor, `None` at the end of the input.
    pub fn current(&self) -> (r: Option<char>)
        requires
            self.wf(),
        ensures
            r == (if self.cursor() < self.text().len() {
                Some(self.text()[self.cursor()])
            } else {
                None::<char>
            }),
    {
        if self.pos < self.chars.len() {
            Some(self.chars[self.pos])
        } else {
            None
        }
    }

    /// Move the cursor one character forward and look at the new position.
    pub fn advance(&mut self) -> (r: Option<char>)
        requires
            old(self).wf(),
        ensures
            final(self).wf(),
            final(self).text() == old(self).text(),
            final(self).cursor() == (if old(self).cursor() < old(self).text().len() {
                old(self).cursor() + 1
            } else {
                old(self).cursor()
            }),
            r == (if final(self).cursor() < final(self).text().len() {
                Some(final(self).text()[final(self).cursor()])
            } else {
                None::<char>
            }),
    {
        if self.pos < self.chars.len() {
            self.pos = self.pos + 1;
        }
        self.current()
    }

    /// Move the cursor past any whitespace.
    #[verifier::loop_isolation(false)]
    pub fn skip_whitespace(&mut self)
        requires
            old(self).wf(),
        ensures
            final(self).wf(),
            final(self).text() == old(self).text(),
            final(self).cursor() == ws_end(old(self).text(), old(self).cursor()),
    {
        let ghost t = self.text();
        let ghost c0 = self.cursor();
        loop
            invariant
                self.wf(),
                self.text() == t,
                c0 <= self.cursor(),
                ws_end(t, c0) == ws_end(t, self.cursor()),
            decreases t.len() - self.cursor(),
        {
            match self.current() {
                Some(c) => {
                    if ws_char(c) {
                        self.advance();
                    } else {
                        break;
                    }
                },
                None => {
                    break;
                },
            }
        }
    }

    /// Consume a possibly empty run of digits.
    #[verifier::loop_isolation(false)]
    pub fn consume_int_string(&mut self) -> (r: Option<String>)
        requires
            old(self).wf(),
        ensures
            final(self).wf(),
            final(self).text() == old(self).text(),
            final(self).cursor() == digits_end(old(self).text(), old(self).cursor()),
            match r {
                Some(st) => st@ == old(self).text().subrange(
                    old(self).cursor(),
                    final(self).cursor(),
                ),
                None => false,
            },
    {
        let ghost t = self.text();
        let ghost c0 = self.cursor();
        let mut digits: Vec<char> = Vec::new();
        proof {
            assert(digits@ =~= t.subrange(c0, c0));
        }
        loop
            invariant
                self.wf(),
                self.text() == t,
                c0 <= self.cursor(),
                digits@ == t.subrange(c0, self.cursor()),
                digits_end(t, c0) == digits_end(t, self.cursor()),
            decreases t.len() - self.cursor(),
        {
            match self.current() {
                Some(c) => {
                    if digit_char_test(c) {
                        digits.push(c);
                        self.advance();
                        proof {
                            assert(t.subrange(c0, self.cursor()) =~= t.subrange(
                                c0,
                                self.cursor() - 1,
                            ).push(t[self.cursor() - 1]));
                        }
                    } else {
                        break;
                    }
                },
                None => {
                    break;
                },
            }
        }
        Some(chars_to_string(&digits))
    }

    /// The decoding of the character under the cursor, read as the body of
    /// an escape sequence; `None` at the end of the input or on an
    /// unsupported escape.
    pub fn handle_escape_char(&self) -> (r: Option<char>)
        requires
            self.wf(),
        ensures
            r == (if self.cursor() < self.text().len() {
                escape_decode(self.text()[self.cursor()])
            } else {
                None::<char>
            }),
    {
        match self.current() {
            Some('"') => Some('"'),
            Some('\\') => Some('\\'),
            Some('/') => Some('/'),
            Some('b') => Some('\u{0008}'),
            Some('f') => Some('\u{000c}'),
            Some('n') => Some('\n'),
            Some('r') => Some('\r'),
            Some('t') => Some('\t'),
            _ => None,
        }
    }

    /// Lex a string literal; the cursor stands on the opening quote.
    #[verifier::loop_isolation(false)]
    fn lex_string(&mut self) -> (r: Result<Token, LexError>)
        requires
            old(self).wf(),
            old(self).cursor() < old(self).text().len(),
            old(self).text()[old(self).cursor()] == '"',
        ensures
            final(self).wf(),
            final(self).text() == old(self).text(),
            match r {
                Ok(t) => match t@ {
                    SpecToken::Str(st) => scan_string(
                        old(self).text(),
                        old(self).cursor() + 1,
                        Seq::empty(),
                    ) == Ok::<_, LexError>((st, final(self).cursor())),
                    _ => false,
                },
                Err(e) => scan_string(old(self).text(), old(self).cursor() + 1, Seq::empty())
                    == Err::<(Seq<char>, int), LexError>(e),
            },
    {
        let ghost t = self.text();
        self.advance();
        let ghost start = self.cursor();
        let mut acc: Vec<char> = Vec::new();
        loop
            invariant
                self.wf(),
                self.text() == t,
                start <= self.cursor(),
                scan_string(t, start, Seq::empty()) == scan_string(t, self.cursor(), acc@),
            decreases t.len() - self.cursor(),
        {
            match self.current() {
                None => {
                    return Err(
                        LexError { kind: LexErrorKind::UnterminatedString, pos: self.chars.len() },
                    );
                },
                Some(c) => {
                    if c == '"' {
                        self.advance();
                        let st = chars_to_string(&acc);
                        return Ok(Token::Str(st));
                    } else if c == '\\' {
                        let ghost i = self.cursor();
                        self.advance();
                        match self.handle_escape_char() {
                            Some(e) => {
                                proof {
                                    assert(scan_string(t, i, acc@) == scan_string(
                                        t,
                                        i + 2,
                                        acc@.push(e),
                                    ));
                                }
                                acc.push(e);
                                self.advance();
                            },
                            None => {
                                if self.pos == self.chars.len() {
                                    return Err(
                                        LexError {
                                            kind: LexErrorKind::UnterminatedString,
                                            pos: self.chars.len(),
                                        },
                                    );
                                } else {
                                    return Err(
                                        LexError {
                                            kind: LexErrorKind::UnsupportedEscape,
                                            pos: self.pos,
                                        },
                                    );
                                }
                            },
                        }
                    } else {
                        proof {
                            assert(scan_string(t, self.cursor(), acc@) == scan_string(
                                t,
                                self.cursor() + 1,
                                acc@.push(c),
                            ));
                        }
                        acc.push(c);
                        self.advance();
                    }
                },
            }
        }
    }

    /// Lex a keyword or unrecognized word; the cursor stands on a letter.
    #[verifier::loop_isolation(false)]
    fn lex_keywords(&mut self) -> (r: Token)
        requires
            old(self).wf(),
            old(self).cursor() < old(self).text().len(),
            is_alpha_char(old(self).text()[old(self).cursor()]),
        ensures
            final(self).wf(),
            final(self).text() == old(self).text(),
            final(self).cursor() == alnum_end(old(self).text(), old(self).cursor()),
            r@ == keyword_token(
                old(self).text().subrange(old(self).cursor(), final(self).cursor()),
            ),
    {
        let ghost t = self.text();
        let ghost c0 = self.cursor();
        let mut id: Vec<char> = Vec::new();
        proof {
            assert(id@ =~= t.subrange(c0, c0));
        }
        loop
            invariant
                self.wf(),
                self.text() == t,
                c0 <= self.cursor(),
                id@ == t.subrange(c0, self.cursor()),
                alnum_end(t, c0) == alnum_end(t, self.cursor()),
            decreases t.len() - self.cursor(),
        {
            match self.current() {
                Some(c) => {
                    if alnum_char_test(c) {
                        id.push(c);
                        self.advance();
                        proof {
                            assert(t.subrange(c0, self.cursor()) =~= t.subrange(
                                c0,
                                self.cursor() - 1,
                            ).push(t[self.cursor() - 1]));
                        }
                    } else {
                        break;
                    }
                },
                None => {
                    break;
                },
            }
        }
        let word = chars_to_string(&id);
        if word == "true".to_owned() {
            Token::Bool(true)
        } else if word == "false".to_owned() {
            Token::Bool(false)
        } else if word == "null".to_owned() {
            Token::Null
        } else {
            Token::Unknown(word)
        }
    }

    /// Lex a number; the cursor stands on its sign or first digit.
    fn lex_number(&mut self) -> (r: Result<Token, LexError>)
        requires
            old(self).wf(),
            old(self).cursor() < old(self).text().len(),
            ({
                let c = old(self).text()[old(self).cursor()];
                c == '+' || c == '-' || is_digit_char(c)
            }),
        ensures
            final(self).wf(),
            final(self).text() == old(self).text(),
            match r {
                Ok(t) => match t@ {
                    SpecToken::Number(n) => scan_number(old(self).text(), old(self).cursor())
                        == Ok::<_, LexError>((n, final(self).cursor())) && n.wf(),
                    _ => false,
                },
                Err(e) => scan_number(old(self).text(), old(self).cursor())
                    == Err::<(SpecNumber, int), LexError>(e),
            },
    {
        let ghost t = self.text();
        let ghost c0 = self.cursor();
        let mut neg = false;
        match self.current() {
            Some('-') => {
                neg = true;
                self.advance();
            },
            Some('+') => {
                self.advance();
            },
            _ => {},
        }
        let ghost j = self.cursor();
        proof {
            lemma_digits_end(t, j);
        }
        let int_str = match self.consume_int_string() {
            Some(st) => st,
            None => {
                return Err(LexError { kind: LexErrorKind::MissingIntDigits, pos: self.pos });
            },
        };
        if int_str.as_str().unicode_len() == 0 {
            return Err(LexError { kind: LexErrorKind::MissingIntDigits, pos: self.pos });
        }
        let ghost k = self.cursor();
        let mut frac_str = String::new();
        let has_frac = match self.current() {
            Some('.') => true,
            _ => false,
        };
        if has_frac {
            self.advance();
            proof {
                lemma_digits_end(t, k + 1);
            }
            frac_str = match self.consume_int_string() {
                Some(st) => st,
                None => {
                    return Err(LexError { kind: LexErrorKind::MissingFracDigits, pos: self.pos });
                },
            };
            if frac_str.as_str().unicode_len() == 0 {
                return Err(LexError { kind: LexErrorKind::MissingFracDigits, pos: self.pos });
            }
        }
        let ghost q = self.cursor();
        let has_exp = match self.current() {
            Some('e') => true,
            Some('E') => true,
            _ => false,
        };
        let mut exp_neg = false;
        let mut exp_str = String::new();
        if has_exp {
            self.advance();
            match self.current() {
                Some('-') => {
                    exp_neg = true;
                    self.advance();
                },
                Some('+') => {
                    self.advance();
                },
                _ => {},
            }
            let ghost w = self.cursor();
            proof {
                lemma_digits_end(t, w);
            }
            exp_str = match self.consume_int_string() {
                Some(st) => st,
                None => {
                    return Err(LexError { kind: LexErrorKind::MissingExpDigits, pos: self.pos });
                },
            };
            if exp_str.as_str().unicode_len() == 0 {
                return Err(LexError { kind: LexErrorKind::MissingExpDigits, pos: self.pos });
            }
        }
        let num = JsonNumber::from_checked_parts(neg, int_str, frac_str, exp_neg, exp_str);
        Ok(Token::Number(num))
    }

    /// The next token of the input, `Ok(None)` once it is exhausted:
    /// exactly what `next_token_at` says of the text at the cursor.
    pub fn next_token(&mut self) -> (r: Result<Option<Token>, LexError>)
        requires
            old(self).wf(),
        ensures
            final(self).wf(),
            final(self).text() == old(self).text(),
            match r {
                Ok(Some(t)) => next_token_at(old(self).text(), old(self).cursor())
                    == Ok::<_, LexError>(Some((t@, final(self).cursor()))) && t@.wf(),
                Ok(None) => next_token_at(old(self).text(), old(self).cursor())
                    == Ok::<Option<(SpecToken, int)>, LexError>(None)
                    && final(self).cursor() == final(self).text().len(),
                Err(e) => next_token_at(old(self).text(), old(self).cursor())
                    == Err::<Option<(SpecToken, int)>, LexError>(e),
            },
    {
        let ghost t = self.text();
        let ghost c0 = self.cursor();
        self.skip_whitespace();
        let ghost j = self.cursor();
        match self.current() {
            None => Ok(None),
            Some(c) => {
                if c == '{' {
                    self.advance();
                    Ok(Some(Token::LBrace))
                } else if c == '}' {
                    self.advance();
                    Ok(Some(Token::RBrace))
                } else if c == '[' {
                    self.advance();
                    Ok(Some(Token::LBracket))
                } else if c == ']' {
                    self.advance();
                    Ok(Some(Token::RBracket))
                } else if c == ',' {
                    self.advance();
                    Ok(Some(Token::Comma))
                } else if c == ':' {
                    self.advance();
                    Ok(Some(Token::Colon))
                } else if c == '"' {
                    match self.lex_string() {
                        Ok(tok) => Ok(Some(tok)),
                        Err(e) => Err(e),
                    }
                } else if c == '+' || c == '-' || digit_char_test(c) {
                    match self.lex_number() {
                        Ok(tok) => Ok(Some(tok)),
                        Err(e) => Err(e),
                    }
                } else if alpha_char_test(c) {
                    let tok = self.lex_keywords();
                    Ok(Some(tok))
                } else {
                    self.advance();
                    let mut s: Vec<char> = Vec::new();
                    s.push(c);
                    proof {
                        assert(s@ =~= seq![c]);
                    }
                    Ok(Some(Token::Unknown(chars_to_string(&s))))
                }
            },
        }
    }
}

} // verus!
