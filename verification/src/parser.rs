//! The recursive-descent parser: one buffered lookahead token over the
//! lexer, building a `JsonValue` tree.
//!
//! The grammar lives in the specification functions `parse_value_at`,
//! `parse_object_at` and `parse_array_at`: given the text and a position
//! they say exactly which value is parsed, where parsing ends, or which
//! error the text holds. `JsonParser::parse` is proved to return exactly
//! that.

use vstd::prelude::*;
use crate::json_value::{
    JsonValue, SpecValue, lemma_model_pairs, lemma_model_elems, model_elems, model_pairs,
    wf_elems, wf_pairs,
};
use crate::lexer::{
    LexError, Lexer, SpecToken, Token, lemma_next_token_progress, next_token_at,
};

verus! {

/// A parse error: either a lexical error of the underlying lexer, carried
/// through, or a structural error of the grammar.
#[derive(Debug, Clone, Copy, PartialEq, Eq, Structural)]
pub enum ParseError {
    /// The lexer found malformed text.
    Lex(LexError),
    /// A token that cannot start a value where a value was expected.
    ExpectedValue,
    /// A missing comma between members or elements.
    ExpectedComma,
    /// A missing colon after an object key.
    ExpectedColon,
    /// An object key that is not a string.
    ExpectedKey,
    /// The input ended inside an open object or array, or where a value
    /// was expected.
    UnexpectedEnd,
}

/// The value starting at or after position `i`, with the position past it;
/// or the error the text holds there.
pub open spec fn parse_value_at(s: Seq<char>, i: int) -> Result<(SpecValue, int), ParseError>
    decreases s.len() - i, 0int,
{
    proof {
        lemma_next_token_progress(s, i);
    }
    match next_token_at(s, i) {
        Err(le) => Err(ParseError::Lex(le)),
        Ok(None) => Err(ParseError::UnexpectedEnd),
        Ok(Some((t, p))) => match t {
            SpecToken::LBrace => parse_object_at(s, p, Seq::empty()),
            SpecToken::LBracket => parse_array_at(s, p, Seq::empty()),
            SpecToken::Str(st) => Ok((SpecValue::String(st), p)),
            SpecToken::Number(n) => Ok((SpecValue::Number(n), p)),
            SpecToken::Bool(b) => Ok((SpecValue::Bool(b), p)),
            SpecToken::Null => Ok((SpecValue::Null, p)),
            _ => Err(ParseError::ExpectedValue),
        },
    }
}

/// The remainder of an object whose opening brace stands before position
/// `i`, `acc` holding the members collected so far.
pub open spec fn parse_object_at(
    s: Seq<char>,
    i: int,
    acc: Seq<(Seq<char>, SpecValue)>,
) -> Result<(SpecValue, int), ParseError>
    decreases s.len() - i, 1int,
{
    proof {
        lemma_next_token_progress(s, i);
    }
    match next_token_at(s, i) {
        Err(le) => Err(ParseError::Lex(le)),
        Ok(None) => Err(ParseError::UnexpectedEnd),
        Ok(Some((t, p))) => {
            if t is RBrace {
                Ok((SpecValue::Object(acc), p))
            } else if acc.len() > 0 && !(t is Comma) {
                Err(ParseError::ExpectedComma)
            } else {
                let j = if acc.len() > 0 {
                    p
                } else {
                    i
                };
                match parse_value_at(s, j) {
                    Err(e) => Err(e),
                    Ok((k, q)) => {
                        if q <= j {
                            // never reached: a parsed value always makes progress
                            Err(ParseError::ExpectedKey)
                        } else {
                            match k {
                                SpecValue::String(key) => {
                                    proof {
                                        lemma_next_token_progress(s, q);
                                    }
                                    match next_token_at(s, q) {
                                        Err(le) => Err(ParseError::Lex(le)),
                                        Ok(None) => Err(ParseError::ExpectedColon),
                                        Ok(Some((ct, w))) => {
                                            if ct is Colon {
                                                match parse_value_at(s, w) {
                                                    Err(e) => Err(e),
                                                    Ok((v, u)) => {
                                                        if u <= w || s.len() < u {
                                                            // never reached, as above
                                                            Err(ParseError::ExpectedValue)
                                                        } else {
                                                            parse_object_at(
                                                                s,
                                                                u,
                                                                acc.push((key, v)),
                                                            )
                                                        }
                                                    },
                                                }
                                            } else {
                                                Err(ParseError::ExpectedColon)
                                            }
                                        },
                                    }
                                },
                                _ => Err(ParseError::ExpectedKey),
                            }
                        }
                    },
                }
            }
        },
    }
}

/// The remainder of an array whose opening bracket stands before position
/// `i`, `acc` holding the elements collected so far.
pub open spec fn parse_array_at(s: Seq<char>, i: int, acc: Seq<SpecValue>) -> Result<
    (SpecValue, int),
    ParseError,
>
    decreases s.len() - i, 1int,
{
    proof {
        lemma_next_token_progress(s, i);
    }
    match next_token_at(s, i) {
        Err(le) => Err(ParseError::Lex(le)),
        Ok(None) => Err(ParseError::UnexpectedEnd),
        Ok(Some((t, p))) => {
            if t is RBracket {
                Ok((SpecValue::Array(acc), p))
            } else if acc.len() > 0 && !(t is Comma) {
                Err(ParseError::ExpectedComma)
            } else {
                let j = if acc.len() > 0 {
                    p
                } else {
                    i
                };
                match parse_value_at(s, j) {
                    Err(e) => Err(e),
                    Ok((v, u)) => {
                        if u <= j || s.len() < u {
                            // never reached: a parsed value always makes progress
                            Err(ParseError::ExpectedValue)
                        } else {
                            parse_array_at(s, u, acc.push(v))
                        }
                    },
                }
            }
        },
    }
}

/// The parser: the lexer and one buffered lookahead token.
pub struct JsonParser {
    lexer: Lexer,
    current_token: Result<Option<Token>, LexError>,
    start: Ghost<int>,
}

impl JsonParser {
    /// The whole input.
    pub closed spec fn text(&self) -> Seq<char> {
        self.lexer.text()
    }

    /// The position before the buffered lookahead token.
    pub closed spec fn start(&self) -> int {
        self.start@
    }

    /// The lexer stands past the lookahead token, which is exactly what
    /// the tokenizer yields at `start()`.
    pub closed spec fn wf(&self) -> bool {
        &&& self.lexer.wf()
        &&& 0 <= self.start@ <= self.text().len()
        &&& match self.current_token {
            Ok(Some(t)) => next_token_at(self.text(), self.start@) == Ok::<_, LexError>(
                Some((t@, self.lexer.cursor())),
            ) && t@.wf(),
            Ok(None) => next_token_at(self.text(), self.start@) == Ok::<
                Option<(SpecToken, int)>,
                LexError,
            >(None),
            Err(e) => next_token_at(self.text(), self.start@) == Err::<
                Option<(SpecToken, int)>,
                LexError,
            >(e),
        }
    }

    pub fn new(input: &str) -> (r: JsonParser)
        ensures
            r.wf(),
            r.text() == input@,
            r.start() == 0,
    {
        Self::from_lexer(Lexer::new(input))
    }

    pub fn from_lexer(lexer: Lexer) -> (r: JsonParser)
        requires
            lexer.wf(),
        ensures
            r.wf(),
            r.text() == lexer.text(),
            r.start() == lexer.cursor(),
    {
        let mut lexer = lexer;
        let ghost st = lexer.cursor();
        let current_token = lexer.next_token();
        JsonParser { lexer, current_token, start: Ghost(st) }
    }

    /// The buffered lookahead token, left in place.
    fn peek(&self) -> (r: Option<&Token>)
        requires
            self.wf(),
        ensures
            match r {
                Some(t) => (next_token_at(self.text(), self.start()) matches Ok(Some(pair))
                    && pair.0 == t@) && t@.wf(),
                None => !(next_token_at(self.text(), self.start()) matches Ok(Some(_))),
            },
    {
        match &self.current_token {
            Ok(Some(t)) => Some(t),
            _ => None,
        }
    }

    /// The lexical error under the cursor, if the lookahead hit one.
    fn lex_error(&self) -> (r: Option<LexError>)
        requires
            self.wf(),
        ensures
            match r {
                Some(e) => next_token_at(self.text(), self.start()) == Err::<
                    Option<(SpecToken, int)>,
                    LexError,
                >(e),
                None => !(next_token_at(self.text(), self.start()) is Err),
            },
    {
        match &self.current_token {
            Err(e) => Some(*e),
            _ => None,
        }
    }

    /// Take the lookahead token and buffer the next one.
    fn consume(&mut self) -> (r: Option<Token>)
        requires
            old(self).wf(),
            next_token_at(old(self).text(), old(self).start()) matches Ok(Some(_)),
        ensures
            final(self).wf(),
            final(self).text() == old(self).text(),
            match r {
                Some(t) => next_token_at(old(self).text(), old(self).start()) == Ok::<_, LexError>(
                    Some((t@, final(self).start())),
                ) && t@.wf(),
                None => false,
            },
            old(self).start() < final(self).start(),
    {
        proof {
            lemma_next_token_progress(self.text(), self.start@);
        }
        let mut taken: Result<Option<Token>, LexError> = Ok(None);
        core::mem::swap(&mut taken, &mut self.current_token);
        let ghost st = self.lexer.cursor();
        self.current_token = self.lexer.next_token();
        self.start = Ghost(st);
        match taken {
            Ok(Some(t)) => Some(t),
            _ => None,
        }
    }

    /// Parse one value: exactly what `parse_value_at` says of the text at
    /// the current position.
    fn parse_value(&mut self) -> (r: Result<JsonValue, ParseError>)
        requires
            old(self).wf(),
        ensures
            final(self).wf(),
            final(self).text() == old(self).text(),
            match r {
                Ok(v) => v.wf() && parse_value_at(old(self).text(), old(self).start()) == Ok::<
                    _,
                    ParseError,
                >((v.model(), final(self).start())) && old(self).start() < final(self).start(),
                Err(e) => parse_value_at(old(self).text(), old(self).start()) == Err::<
                    (SpecValue, int),
                    ParseError,
                >(e),
            },
        decreases old(self).text().len() - old(self).start(), 0int,
    {
        if self.peek().is_none() {
            if let Some(le) = self.lex_error() {
                return Err(ParseError::Lex(le));
            } else {
                return Err(ParseError::UnexpectedEnd);
            }
        }
        let tok = match self.consume() {
            Some(t) => t,
            None => {
                proof {
                    assert(false);
                }
                return Err(ParseError::ExpectedValue);
            },
        };
        match tok {
            Token::LBrace => self.parse_object(),
            Token::LBracket => self.parse_array(),
            Token::Str(s) => Ok(JsonValue::String(s)),
            Token::Number(n) => Ok(JsonValue::Number(n)),
            Token::Bool(b) => Ok(JsonValue::Bool(b)),
            Token::Null => Ok(JsonValue::Null),
            Token::RBrace => Err(ParseError::ExpectedValue),
            Token::RBracket => Err(ParseError::ExpectedValue),
            Token::Colon => Err(ParseError::ExpectedValue),
            Token::Comma => Err(ParseError::ExpectedValue),
            Token::Unknown(_) => Err(ParseError::ExpectedValue),
        }
    }

    /// Parse the members of an object whose opening brace was consumed.
    #[verifier::loop_isolation(false)]
    fn parse_object(&mut self) -> (r: Result<JsonValue, ParseError>)
        requires
            old(self).wf(),
        ensures
            final(self).wf(),
            final(self).text() == old(self).text(),
            match r {
                Ok(v) => v.wf() && parse_object_at(
                    old(self).text(),
                    old(self).start(),
                    Seq::empty(),
                ) == Ok::<_, ParseError>((v.model(), final(self).start())) && old(self).start()
                    < final(self).start(),
                Err(e) => parse_object_at(old(self).text(), old(self).start(), Seq::empty())
                    == Err::<(SpecValue, int), ParseError>(e),
            },
        decreases old(self).text().len() - old(self).start(), 1int,
    {
        let ghost t = self.text();
        let ghost p0 = self.start();
        let mut result: Vec<(String, JsonValue)> = Vec::new();
        proof {
            assert(model_pairs(result@) =~= Seq::<(Seq<char>, SpecValue)>::empty());
        }
        loop
            invariant
                self.wf(),
                self.text() == t,
                p0 <= self.start(),
                result@.len() > 0 ==> p0 < self.start(),
                parse_object_at(t, p0, Seq::empty()) == parse_object_at(
                    t,
                    self.start(),
                    model_pairs(result@),
                ),
                wf_pairs(model_pairs(result@)),
            decreases t.len() - self.start(),
        {
            let ghost i = self.start();
            let ghost acc = model_pairs(result@);
            proof {
                lemma_model_pairs(result@);
            }
            let (is_rbrace, is_comma) = match self.peek() {
                None => {
                    if let Some(le) = self.lex_error() {
                        return Err(ParseError::Lex(le));
                    } else {
                        return Err(ParseError::UnexpectedEnd);
                    }
                },
                Some(tok) => (matches!(tok, Token::RBrace), matches!(tok, Token::Comma)),
            };
            if is_rbrace {
                self.consume();
                let v = JsonValue::Object(result);
                return Ok(v);
            }
            if result.len() > 0 {
                if is_comma {
                    self.consume();
                } else {
                    return Err(ParseError::ExpectedComma);
                }
            }
            let key = match self.parse_value() {
                Ok(JsonValue::String(s)) => s,
                Ok(_) => {
                    return Err(ParseError::ExpectedKey);
                },
                Err(e) => {
                    return Err(e);
                },
            };
            let got_colon = match self.peek() {
                None => {
                    if let Some(le) = self.lex_error() {
                        return Err(ParseError::Lex(le));
                    } else {
                        return Err(ParseError::ExpectedColon);
                    }
                },
                Some(tok) => matches!(tok, Token::Colon),
            };
            if !got_colon {
                return Err(ParseError::ExpectedColon);
            }
            self.consume();
            let val = match self.parse_value() {
                Ok(v) => v,
                Err(e) => {
                    return Err(e);
                },
            };
            let ghost old_pairs = result@;
            result.push((key, val));
            proof {
                assert(old_pairs =~= result@.subrange(0, result@.len() - 1));
                assert(model_pairs(result@) =~= acc.push((key@, val.model())));
                let newacc = acc.push((key@, val.model()));
                assert(newacc.subrange(0, newacc.len() - 1) =~= acc);
                assert(newacc[newacc.len() - 1].1.wf());
                assert(wf_pairs(newacc));
            }
        }
    }

    /// Parse the elements of an array whose opening bracket was consumed.
    #[verifier::loop_isolation(false)]
    fn parse_array(&mut self) -> (r: Result<JsonValue, ParseError>)
        requires
            old(self).wf(),
        ensures
            final(self).wf(),
            final(self).text() == old(self).text(),
            match r {
                Ok(v) => v.wf() && parse_array_at(
                    old(self).text(),
                    old(self).start(),
                    Seq::empty(),
                ) == Ok::<_, ParseError>((v.model(), final(self).start())) && old(self).start()
                    < final(self).start(),
                Err(e) => parse_array_at(old(self).text(), old(self).start(), Seq::empty())
                    == Err::<(SpecValue, int), ParseError>(e),
            },
        decreases old(self).text().len() - old(self).start(), 1int,
    {
        let ghost t = self.text();
        let ghost p0 = self.start();
        let mut result: Vec<JsonValue> = Vec::new();
        proof {
            assert(model_elems(result@) =~= Seq::<SpecValue>::empty());
        }
        loop
            invariant
                self.wf(),
                self.text() == t,
                p0 <= self.start(),
                result@.len() > 0 ==> p0 < self.start(),
                parse_array_at(t, p0, Seq::empty()) == parse_array_at(
                    t,
                    self.start(),
                    model_elems(result@),
                ),
                wf_elems(model_elems(result@)),
            decreases t.len() - self.start(),
        {
            let ghost i = self.start();
            let ghost acc = model_elems(result@);
            proof {
                lemma_model_elems(result@);
            }
            let (is_rbracket, is_comma) = match self.peek() {
                None => {
                    if let Some(le) = self.lex_error() {
                        return Err(ParseError::Lex(le));
                    } else {
                        return Err(ParseError::UnexpectedEnd);
                    }
                },
                Some(tok) => (matches!(tok, Token::RBracket), matches!(tok, Token::Comma)),
            };
            if is_rbracket {
                self.consume();
                let v = JsonValue::Array(result);
                return Ok(v);
            }
            if result.len() > 0 {
                if is_comma {
                    self.consume();
                } else {
                    return Err(ParseError::ExpectedComma);
                }
            }
            let val = match self.parse_value() {
                Ok(v) => v,
                Err(e) => {
                    return Err(e);
                },
            };
            let ghost old_elems = result@;
            result.push(val);
            proof {
                assert(old_elems =~= result@.subrange(0, result@.len() - 1));
                assert(model_elems(result@) =~= acc.push(val.model()));
                let newacc = acc.push(val.model());
                assert(newacc.subrange(0, newacc.len() - 1) =~= acc);
                assert(newacc[newacc.len() - 1].wf());
                assert(wf_elems(newacc));
            }
        }
    }

    /// Parse the top-level value: exactly what `parse_value_at` says of
    /// the input at the parser's position. Text after the value is left
    /// unconsumed.
    pub fn parse(&mut self) -> (r: Result<JsonValue, ParseError>)
        requires
            old(self).wf(),
        ensures
            final(self).wf(),
            final(self).text() == old(self).text(),
            match r {
                Ok(v) => v.wf() && parse_value_at(old(self).text(), old(self).start()) == Ok::<
                    _,
                    ParseError,
                >((v.model(), final(self).start())),
                Err(e) => parse_value_at(old(self).text(), old(self).start()) == Err::<
                    (SpecValue, int),
                    ParseError,
                >(e),
            },
    {
        self.parse_value()
    }
}

} // verus!
