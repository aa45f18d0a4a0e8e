//! Lexical scanner: turns a formula string into a stream of tokens.
//!
//! Each non-space character maps to exactly one token; a space produces
//! no token, and any other character is a lexical error carrying the
//! offending character.  The resulting token stream supports one-token
//! lookahead and destructive consumption from the front.

use std::collections::VecDeque;
use vstd::prelude::*;

verus! {

/// A lexical token of the formula language.
#[derive(Debug, PartialEq, Eq, Clone, Copy)]
pub enum Token {
    /// A propositional variable, a single lowercase letter.
    Var(char),
    /// The false constant.
    Bottom,
    /// The true constant.
    Top,
    /// Logical negation.
    Not,
    LParen,
    RParen,
    /// Material implication.
    Arrow,
    /// Biconditional; recognized by the scanner, reserved for the grammar.
    LRArrow,
    And,
    Or,
}

/// The single lexical error: an unrecognized character, carried verbatim.
#[derive(Debug, PartialEq, Eq, Clone, Copy)]
pub struct InvalidCharacterError(pub char);

/// The token that a single character scans to, or `None` for an
/// unrecognized character.  A space never reaches this map.
pub open spec fn token_of(c: char) -> Option<Token> {
    if c == '\u{ac}' {
        Some(Token::Not)
    } else if c == '\u{2227}' {
        Some(Token::And)
    } else if c == '\u{2228}' {
        Some(Token::Or)
    } else if c == '(' {
        Some(Token::LParen)
    } else if c == ')' {
        Some(Token::RParen)
    } else if c == '\u{2192}' {
        Some(Token::Arrow)
    } else if c == '\u{22a5}' {
        Some(Token::Bottom)
    } else if c == 'T' {
        Some(Token::Top)
    } else if c == '\u{2194}' {
        Some(Token::LRArrow)
    } else if 'a' <= c && c <= 'z' {
        Some(Token::Var(c))
    } else {
        None
    }
}

/// What scanning a character sequence yields: the full token sequence,
/// or the first unrecognized character.  Spaces are skipped.
pub open spec fn lex_spec(s: Seq<char>) -> Result<Seq<Token>, char>
    decreases s.len(),
{
    if s.len() == 0 {
        Ok(Seq::empty())
    } else if s[0] == ' ' {
        lex_spec(s.drop_first())
    } else {
        match token_of(s[0]) {
            Some(t) => match lex_spec(s.drop_first()) {
                Ok(ts) => Ok(seq![t] + ts),
                Err(c) => Err(c),
            },
            None => Err(s[0]),
        }
    }
}

/// The token stream: tokens are taken from the front as parsing proceeds.
#[derive(Debug)]
pub struct Lexer(pub VecDeque<Token>);

impl View for Lexer {
    type V = Seq<Token>;

    open spec fn view(&self) -> Seq<Token> {
        self.0@
    }
}

impl Lexer {
    /// Scans the whole input, producing the token stream or the first
    /// unrecognized character.
    pub fn new(input: &str) -> (r: Result<Self, InvalidCharacterError>)
        ensures
            match r {
                Ok(lexer) => lex_spec(input@) == Ok::<Seq<Token>, char>(lexer@),
                Err(e) => lex_spec(input@) == Err::<Seq<Token>, char>(e.0),
            },
    {
        let n = input.unicode_len();
        let mut v: VecDeque<Token> = VecDeque::new();
        let mut i: usize = 0;
        proof {
            assert(input@.skip(0) =~= input@);
            assert(lex_rest(v@, input@.skip(0)) == lex_spec(input@));
        }
        while i < n
            invariant
                n == input@.len(),
                i <= n,
                lex_rest(v@, input@.skip(i as int)) == lex_spec(input@),
            decreases n - i,
        {
            let ghost rest = input@.skip(i as int);
            let c = input.get_char(i);
            proof {
                assert(rest[0] == c);
                assert(rest.drop_first() =~= input@.skip(i + 1));
            }
            if c == ' ' {
                // no token: scanning the suffix skips the space
            } else {
                let tok: Token;
                if c == '\u{ac}' {
                    tok = Token::Not;
                } else if c == '\u{2227}' {
                    tok = Token::And;
                } else if c == '\u{2228}' {
                    tok = Token::Or;
                } else if c == '(' {
                    tok = Token::LParen;
                } else if c == ')' {
                    tok = Token::RParen;
                } else if c == '\u{2192}' {
                    tok = Token::Arrow;
                } else if c == '\u{22a5}' {
                    tok = Token::Bottom;
                } else if c == 'T' {
                    tok = Token::Top;
                } else if c == '\u{2194}' {
                    tok = Token::LRArrow;
                } else if 'a' <= c && c <= 'z' {
                    tok = Token::Var(c);
                } else {
                    proof {
                        assert(token_of(c) is None);
                        assert(lex_spec(rest) == Err::<Seq<Token>, char>(c));
                    }
                    return Err(InvalidCharacterError(c));
                }
                proof {
                    assert(token_of(c) == Some(tok));
                    lemma_lex_rest_step(v@, rest);
                }
                let ghost done0 = v@;
                v.push_back(tok);
                proof {
                    assert(v@ =~= done0 + seq![tok]);
                }
            }
            i = i + 1;
        }
        proof {
            assert(input@.skip(n as int) =~= Seq::<char>::empty());
            assert(lex_spec(input@) == Ok::<Seq<Token>, char>(v@));
        }
        Ok(Lexer(v))
    }

    /// Non-destructive one-token lookahead.
    pub fn lookahead1(&self) -> (r: Option<&Token>)
        ensures
            match r {
                Some(t) => self@.len() > 0 && *t == self@[0],
                None => self@.len() == 0,
            },
    {
        if self.0.len() != 0 {
            Some(&self.0[0])
        } else {
            None
        }
    }

    /// Whether every token has been consumed.
    pub fn is_empty(&self) -> (r: bool)
        ensures
            r == (self@.len() == 0),
    {
        self.0.len() == 0
    }

    /// Takes the next token out of the stream, if one remains.
    pub fn peek(&mut self) -> (r: Option<Token>)
        ensures
            match r {
                Some(t) => old(self)@.len() > 0 && t == old(self)@[0] && final(self)@
                    == old(self)@.drop_first(),
                None => old(self)@.len() == 0 && final(self)@ == old(self)@,
            },
    {
        self.0.pop_front()
    }
}

/// Scanning the suffix `rest` after the tokens `done` were already
/// produced: the quantity that the scan loop keeps constant.
pub open spec fn lex_rest(done: Seq<Token>, rest: Seq<char>) -> Result<Seq<Token>, char> {
    match lex_spec(rest) {
        Ok(ts) => Ok(done + ts),
        Err(c) => Err(c),
    }
}

/// Moving one scanned token from the suffix to the accumulator keeps
/// `lex_rest` unchanged.
proof fn lemma_lex_rest_step(done: Seq<Token>, rest: Seq<char>)
    requires
        rest.len() > 0,
        rest[0] != ' ',
        token_of(rest[0]) is Some,
    ensures
        lex_rest(done, rest) == lex_rest(
            done + seq![token_of(rest[0]).unwrap()],
            rest.drop_first(),
        ),
{
    let t = token_of(rest[0]).unwrap();
    match lex_spec(rest.drop_first()) {
        Ok(ts) => {
            assert(done + (seq![t] + ts) =~= (done + seq![t]) + ts);
        },
        Err(_) => {},
    }
}

} // verus!
