//! Recursive-descent parser: turns the token stream into a syntax tree.
//!
//! The grammar carries no operator precedence; every binary connective
//! is written inside its own pair of parentheses:
//!
//! ```text
//! Expr  ::= Variable | Constant | '¬' Expr | '(' Expr BinOp Expr ')'
//! BinOp ::= '∧' | '∨' | '→'
//! ```
//!
//! The meaning of every parsing function is fixed by a specification
//! parser written over token sequences.  The specification parser takes
//! a fuel argument so that its recursion terminates syntactically; the
//! fuel is irrelevant once it exceeds twice the stream length, which
//! lets the fuel-free forms [`spec_parse`] and [`spec_parser_new`] stand
//! in every contract.

use crate::lexer::{lex_spec, token_of, InvalidCharacterError, Lexer, Token};
use vstd::prelude::*;

verus! {

/// A parse error, carrying the token that provoked it where one did.
#[derive(Debug, PartialEq, Eq, Clone, Copy)]
pub enum ParseError {
    /// A token stood where the grammar did not permit it.  For a
    /// missing closing parenthesis this carries the expected token.
    UnexpectedToken(Token),
    /// The stream ran out while more input was grammatically required.
    NoTokensLeft,
    /// A fully valid expression was parsed but tokens remained.
    RedundantToken(Token),
}

/// Everything that can go wrong between a raw string and a syntax tree.
#[derive(Debug, PartialEq, Eq, Clone, Copy)]
pub enum ParseOrLexError {
    Lex(InvalidCharacterError),
    Parse(ParseError),
}

/// The syntax tree of a formula.
#[derive(Debug)]
pub enum Expr {
    /// An atomic proposition: a single variable.
    Sole(SoleExpr),
    /// A constant: `false` for the bottom symbol, `true` for the top.
    Const(bool),
    /// A unary application.
    UnOp(UnOpExpr),
    /// A fully parenthesized binary application.
    BinOp(BinOpExpr),
}

/// A leaf holding one variable letter.
#[derive(Debug)]
pub struct SoleExpr(pub char);

/// A unary application; negation is the only unary operator.
#[derive(Debug)]
pub struct UnOpExpr {
    pub op: UnOp,
    pub expr: Box<Expr>,
}

/// A binary application.
#[derive(Debug)]
pub struct BinOpExpr {
    pub lhs: Box<Expr>,
    pub op: BinOp,
    pub rhs: Box<Expr>,
}

#[derive(Debug, PartialEq, Eq, Clone, Copy)]
pub enum UnOp {
    Not,
}

#[derive(Debug, PartialEq, Eq, Clone, Copy)]
pub enum BinOp {
    And,
    Or,
    Imp,
}

/// A successfully parsed formula: the tree of the whole input.
#[derive(Debug)]
pub struct Parser(pub Expr);

/// The binary operator that a token denotes, if any.
pub open spec fn binop_of(t: Token) -> Option<BinOp> {
    match t {
        Token::And => Some(BinOp::And),
        Token::Or => Some(BinOp::Or),
        Token::Arrow => Some(BinOp::Imp),
        _ => None,
    }
}

/// The token that denotes a binary operator.
pub open spec fn binop_token(op: BinOp) -> Token {
    match op {
        BinOp::And => Token::And,
        BinOp::Or => Token::Or,
        BinOp::Imp => Token::Arrow,
    }
}

/// The canonical token sequence of an expression: the sequence that the
/// parser consumes to produce exactly this tree.
pub open spec fn tokens_of(e: Expr) -> Seq<Token>
    decreases e,
{
    match e {
        Expr::Sole(s) => seq![Token::Var(s.0)],
        Expr::Const(b) => if b {
            seq![Token::Top]
        } else {
            seq![Token::Bottom]
        },
        Expr::UnOp(u) => seq![Token::Not] + tokens_of(*u.expr),
        Expr::BinOp(b) => seq![Token::LParen] + tokens_of(*b.lhs) + seq![binop_token(b.op)]
            + tokens_of(*b.rhs) + seq![Token::RParen],
    }
}

/// The set of free variables of an expression.
pub open spec fn vars_of(e: Expr) -> Set<char>
    decreases e,
{
    match e {
        Expr::Sole(s) => Set::empty().insert(s.0),
        Expr::Const(_) => Set::empty(),
        Expr::UnOp(u) => vars_of(*u.expr),
        Expr::BinOp(b) => vars_of(*b.lhs).union(vars_of(*b.rhs)),
    }
}

/// Every variable of the expression is a lowercase letter.  Trees that
/// the parser builds always satisfy this; the evaluator requires it.
pub open spec fn wf_expr(e: Expr) -> bool
    decreases e,
{
    match e {
        Expr::Sole(s) => 'a' <= s.0 && s.0 <= 'z',
        Expr::Const(_) => true,
        Expr::UnOp(u) => wf_expr(*u.expr),
        Expr::BinOp(b) => wf_expr(*b.lhs) && wf_expr(*b.rhs),
    }
}

/// The specification parser for one expression, with explicit fuel.
/// On success it yields the tree and the unconsumed suffix; an error
/// stops parsing at once.  Fuel 0 is never reached when the fuel
/// exceeds twice the stream length (see [`lemma_parse_fuel`]).
pub open spec fn spec_parse_at(ts: Seq<Token>, fuel: nat) -> Result<(Expr, Seq<Token>), ParseError>
    decreases fuel,
{
    if fuel == 0 {
        Err(ParseError::NoTokensLeft)
    } else if ts.len() == 0 {
        Err(ParseError::NoTokensLeft)
    } else {
        match ts[0] {
            Token::Var(c) => Ok((Expr::Sole(SoleExpr(c)), ts.drop_first())),
            Token::Bottom => Ok((Expr::Const(false), ts.drop_first())),
            Token::Top => Ok((Expr::Const(true), ts.drop_first())),
            Token::Not => match spec_parse_at(ts.drop_first(), (fuel - 1) as nat) {
                Ok((e, rest)) => Ok(
                    (Expr::UnOp(UnOpExpr { op: UnOp::Not, expr: Box::new(e) }), rest),
                ),
                Err(err) => Err(err),
            },
            Token::LParen => match spec_parse_binop_at(ts.drop_first(), (fuel - 1) as nat) {
                Ok((b, rest)) => if rest.len() == 0 {
                    Err(ParseError::NoTokensLeft)
                } else if rest[0] == Token::RParen {
                    Ok((Expr::BinOp(b), rest.drop_first()))
                } else {
                    Err(ParseError::UnexpectedToken(Token::RParen))
                },
                Err(err) => Err(err),
            },
            t => Err(ParseError::UnexpectedToken(t)),
        }
    }
}

/// The specification parser for the inside of a parenthesized binary
/// application: left operand, operator token, right operand.
pub open spec fn spec_parse_binop_at(ts: Seq<Token>, fuel: nat) -> Result<
    (BinOpExpr, Seq<Token>),
    ParseError,
>
    decreases fuel,
{
    if fuel == 0 {
        Err(ParseError::NoTokensLeft)
    } else {
        match spec_parse_at(ts, (fuel - 1) as nat) {
            Ok((lhs, rest1)) => if rest1.len() == 0 {
                Err(ParseError::NoTokensLeft)
            } else {
                match binop_of(rest1[0]) {
                    Some(op) => match spec_parse_at(rest1.drop_first(), (fuel - 1) as nat) {
                        Ok((rhs, rest2)) => Ok(
                            (BinOpExpr { lhs: Box::new(lhs), op, rhs: Box::new(rhs) }, rest2),
                        ),
                        Err(err) => Err(err),
                    },
                    None => Err(ParseError::UnexpectedToken(rest1[0])),
                }
            },
            Err(err) => Err(err),
        }
    }
}

/// Fuel that always suffices for [`spec_parse_at`] on a given stream.
pub open spec fn enough_fuel(ts: Seq<Token>) -> nat {
    (2 * ts.len() + 2) as nat
}

/// What parsing one expression from a token stream yields.
pub open spec fn spec_parse(ts: Seq<Token>) -> Result<(Expr, Seq<Token>), ParseError> {
    spec_parse_at(ts, enough_fuel(ts))
}

/// A successful parse consumes at least one token, whatever the fuel.
pub proof fn lemma_parse_consumes(ts: Seq<Token>, fuel: nat)
    ensures
        spec_parse_at(ts, fuel) matches Ok((e, rest)) ==> rest.len() < ts.len(),
        spec_parse_binop_at(ts, fuel) matches Ok((b, rest)) ==> rest.len() + 2 <= ts.len(),
    decreases fuel,
{
    if fuel > 0 {
        lemma_parse_consumes(ts.drop_first(), (fuel - 1) as nat);
        lemma_parse_consumes(ts, (fuel - 1) as nat);
        if let Ok((lhs, rest1)) = spec_parse_at(ts, (fuel - 1) as nat) {
            lemma_parse_consumes(rest1.drop_first(), (fuel - 1) as nat);
        }
    }
}

/// Above the `enough_fuel` threshold the fuel does not matter: the
/// specification parser has one well-defined answer for each stream.
pub proof fn lemma_parse_fuel(ts: Seq<Token>, f1: nat, f2: nat)
    requires
        f1 >= 2 * ts.len() + 2,
        f2 >= 2 * ts.len() + 2,
    ensures
        spec_parse_at(ts, f1) == spec_parse_at(ts, f2),
    decreases ts.len(), 0int,
{
    if ts.len() > 0 {
        match ts[0] {
            Token::Not => {
                lemma_parse_fuel(ts.drop_first(), (f1 - 1) as nat, (f2 - 1) as nat);
            },
            Token::LParen => {
                lemma_parse_binop_fuel(ts.drop_first(), (f1 - 1) as nat, (f2 - 1) as nat);
            },
            _ => {},
        }
    }
}

/// The binary-application form of [`lemma_parse_fuel`].
pub proof fn lemma_parse_binop_fuel(ts: Seq<Token>, f1: nat, f2: nat)
    requires
        f1 >= 2 * ts.len() + 3,
        f2 >= 2 * ts.len() + 3,
    ensures
        spec_parse_binop_at(ts, f1) == spec_parse_binop_at(ts, f2),
    decreases ts.len(), 1int,
{
    lemma_parse_fuel(ts, (f1 - 1) as nat, (f2 - 1) as nat);
    lemma_parse_consumes(ts, (f1 - 1) as nat);
    if let Ok((lhs, rest1)) = spec_parse_at(ts, (f1 - 1) as nat) {
        if rest1.len() > 0 && binop_of(rest1[0]) is Some {
            lemma_parse_fuel(rest1.drop_first(), (f1 - 1) as nat, (f2 - 1) as nat);
        }
    }
}

/// Parsing with any adequate fuel agrees with [`spec_parse`].
pub proof fn lemma_parse_enough(ts: Seq<Token>, fuel: nat)
    requires
        fuel >= 2 * ts.len() + 2,
    ensures
        spec_parse_at(ts, fuel) == spec_parse(ts),
{
    lemma_parse_fuel(ts, fuel, enough_fuel(ts));
}

impl SoleExpr {
    /// Takes the next token, which must be a variable, and builds the leaf.
    fn parse(lexer: &mut Lexer) -> (r: Result<Self, ParseError>)
        ensures
            match r {
                Ok(se) => old(lexer)@.len() > 0 && old(lexer)@[0] == Token::Var(se.0)
                    && final(lexer)@ == old(lexer)@.drop_first(),
                Err(ParseError::NoTokensLeft) => old(lexer)@.len() == 0,
                Err(ParseError::UnexpectedToken(t)) => old(lexer)@.len() > 0
                    && t == old(lexer)@[0] && !(t matches Token::Var(_)),
                Err(ParseError::RedundantToken(_)) => false,
            },
    {
        match lexer.peek() {
            Some(token) => match token {
                Token::Var(c) => Ok(SoleExpr(c)),
                _ => Err(ParseError::UnexpectedToken(token)),
            },
            None => Err(ParseError::NoTokensLeft),
        }
    }
}

/// One unfolding step of [`spec_parse`], stated without fuel so that
/// callers can reason about the head token directly.
proof fn lemma_spec_parse_unfold(ts: Seq<Token>)
    ensures
        ts.len() == 0 ==> spec_parse(ts) == Err::<(Expr, Seq<Token>), ParseError>(
            ParseError::NoTokensLeft,
        ),
        ts.len() > 0 ==> match ts[0] {
            Token::Var(c) => spec_parse(ts) == Ok::<(Expr, Seq<Token>), ParseError>(
                (Expr::Sole(SoleExpr(c)), ts.drop_first()),
            ),
            Token::Bottom => spec_parse(ts) == Ok::<(Expr, Seq<Token>), ParseError>(
                (Expr::Const(false), ts.drop_first()),
            ),
            Token::Top => spec_parse(ts) == Ok::<(Expr, Seq<Token>), ParseError>(
                (Expr::Const(true), ts.drop_first()),
            ),
            Token::Not => spec_parse(ts) == (match spec_parse(ts.drop_first()) {
                Ok((e, rest)) => Ok(
                    (Expr::UnOp(UnOpExpr { op: UnOp::Not, expr: Box::new(e) }), rest),
                ),
                Err(err) => Err(err),
            }),
            Token::LParen => spec_parse(ts) == (match spec_parse_binop(ts.drop_first()) {
                Ok((b, rest)) => if rest.len() == 0 {
                    Err(ParseError::NoTokensLeft)
                } else if rest[0] == Token::RParen {
                    Ok((Expr::BinOp(b), rest.drop_first()))
                } else {
                    Err(ParseError::UnexpectedToken(Token::RParen))
                },
                Err(err) => Err::<(Expr, Seq<Token>), ParseError>(err),
            }),
            t => spec_parse(ts) == Err::<(Expr, Seq<Token>), ParseError>(
                ParseError::UnexpectedToken(t),
            ),
        },
{
    if ts.len() > 0 {
        match ts[0] {
            Token::Not => {
                lemma_parse_enough(ts.drop_first(), (enough_fuel(ts) - 1) as nat);
            },
            Token::LParen => {
                lemma_parse_binop_enough(ts.drop_first(), (enough_fuel(ts) - 1) as nat);
            },
            _ => {},
        }
    }
}

/// What parsing the inside of a parenthesized binary application yields.
pub open spec fn spec_parse_binop(ts: Seq<Token>) -> Result<(BinOpExpr, Seq<Token>), ParseError> {
    spec_parse_binop_at(ts, (2 * ts.len() + 3) as nat)
}

/// The binary-application form of [`lemma_parse_enough`].
pub proof fn lemma_parse_binop_enough(ts: Seq<Token>, fuel: nat)
    requires
        fuel >= 2 * ts.len() + 3,
    ensures
        spec_parse_binop_at(ts, fuel) == spec_parse_binop(ts),
{
    lemma_parse_binop_fuel(ts, fuel, (2 * ts.len() + 3) as nat);
}

/// One unfolding step of [`spec_parse_binop`], stated without fuel.
proof fn lemma_spec_parse_binop_unfold(ts: Seq<Token>)
    ensures
        spec_parse_binop(ts) == (match spec_parse(ts) {
            Ok((lhs, rest1)) => if rest1.len() == 0 {
                Err(ParseError::NoTokensLeft)
            } else {
                match binop_of(rest1[0]) {
                    Some(op) => match spec_parse(rest1.drop_first()) {
                        Ok((rhs, rest2)) => Ok(
                            (BinOpExpr { lhs: Box::new(lhs), op, rhs: Box::new(rhs) }, rest2),
                        ),
                        Err(err) => Err(err),
                    },
                    None => Err(ParseError::UnexpectedToken(rest1[0])),
                }
            },
            Err(err) => Err::<(BinOpExpr, Seq<Token>), ParseError>(err),
        }),
{
    let fuel = (2 * ts.len() + 3) as nat;
    lemma_parse_enough(ts, (fuel - 1) as nat);
    lemma_parse_consumes(ts, (fuel - 1) as nat);
    if let Ok((lhs, rest1)) = spec_parse_at(ts, (fuel - 1) as nat) {
        if rest1.len() > 0 && binop_of(rest1[0]) is Some {
            lemma_parse_enough(rest1.drop_first(), (fuel - 1) as nat);
        }
    }
}

impl UnOp {
    /// Takes the next token, which must be the negation operator.
    fn parse(lexer: &mut Lexer) -> (r: Result<Self, ParseError>)
        ensures
            match r {
                Ok(op) => old(lexer)@.len() > 0 && old(lexer)@[0] == Token::Not && op == UnOp::Not
                    && final(lexer)@ == old(lexer)@.drop_first(),
                Err(ParseError::NoTokensLeft) => old(lexer)@.len() == 0,
                Err(ParseError::UnexpectedToken(t)) => old(lexer)@.len() > 0
                    && t == old(lexer)@[0] && t != Token::Not,
                Err(ParseError::RedundantToken(_)) => false,
            },
    {
        match lexer.peek() {
            Some(token) => match token {
                Token::Not => Ok(UnOp::Not),
                _ => Err(ParseError::UnexpectedToken(token)),
            },
            None => Err(ParseError::NoTokensLeft),
        }
    }
}

impl BinOp {
    /// Takes the next token, which must be a binary operator.
    fn parse(lexer: &mut Lexer) -> (r: Result<Self, ParseError>)
        ensures
            match r {
                Ok(op) => old(lexer)@.len() > 0 && binop_of(old(lexer)@[0]) == Some(op)
                    && final(lexer)@ == old(lexer)@.drop_first(),
                Err(ParseError::NoTokensLeft) => old(lexer)@.len() == 0,
                Err(ParseError::UnexpectedToken(t)) => old(lexer)@.len() > 0
                    && t == old(lexer)@[0] && binop_of(t) is None,
                Err(ParseError::RedundantToken(_)) => false,
            },
    {
        match lexer.peek() {
            Some(token) => match token {
                Token::And => Ok(BinOp::And),
                Token::Or => Ok(BinOp::Or),
                Token::Arrow => Ok(BinOp::Imp),
                _ => Err(ParseError::UnexpectedToken(token)),
            },
            None => Err(ParseError::NoTokensLeft),
        }
    }
}

impl UnOpExpr {
    /// Parses a negation: the operator, then its operand.
    fn parse(lexer: &mut Lexer) -> (r: Result<Self, ParseError>)
        requires
            old(lexer)@.len() > 0,
            old(lexer)@[0] == Token::Not,
        ensures
            match r {
                Ok(ue) => spec_parse(old(lexer)@) matches Ok((e, rest)) && e == Expr::UnOp(ue)
                    && final(lexer)@ == rest,
                Err(err) => spec_parse(old(lexer)@) == Err::<(Expr, Seq<Token>), ParseError>(err),
            },
        decreases old(lexer)@.len(), 0int,
    {
        proof {
            lemma_spec_parse_unfold(old(lexer)@);
        }
        let op = match UnOp::parse(lexer) {
            Ok(op) => op,
            Err(err) => {
                return Err(err);
            },
        };
        let expr = match Expr::parse(lexer) {
            Ok(e) => e,
            Err(err) => {
                return Err(err);
            },
        };
        Ok(UnOpExpr { op, expr: Box::new(expr) })
    }
}

impl BinOpExpr {
    /// Parses the inside of a parenthesized binary application:
    /// left operand, operator, right operand.
    fn parse(lexer: &mut Lexer) -> (r: Result<Self, ParseError>)
        ensures
            match r {
                Ok(be) => spec_parse_binop(old(lexer)@) matches Ok((b, rest)) && b == be
                    && final(lexer)@ == rest,
                Err(err) => spec_parse_binop(old(lexer)@) == Err::<
                    (BinOpExpr, Seq<Token>),
                    ParseError,
                >(err),
            },
        decreases old(lexer)@.len(), 2int,
    {
        proof {
            lemma_spec_parse_binop_unfold(old(lexer)@);
        }
        let lhs = match Expr::parse(lexer) {
            Ok(e) => e,
            Err(err) => {
                return Err(err);
            },
        };
        let op = match BinOp::parse(lexer) {
            Ok(op) => op,
            Err(err) => {
                return Err(err);
            },
        };
        proof {
            lemma_parse_consumes(old(lexer)@, enough_fuel(old(lexer)@));
        }
        let rhs = match Expr::parse(lexer) {
            Ok(e) => e,
            Err(err) => {
                return Err(err);
            },
        };
        Ok(BinOpExpr { lhs: Box::new(lhs), op, rhs: Box::new(rhs) })
    }
}

impl Expr {
    /// Parses one expression, dispatching on the leading token.
    fn parse(lexer: &mut Lexer) -> (r: Result<Self, ParseError>)
        ensures
            match r {
                Ok(e) => spec_parse(old(lexer)@) matches Ok((e0, rest)) && e0 == e && final(lexer)@
                    == rest,
                Err(err) => spec_parse(old(lexer)@) == Err::<(Expr, Seq<Token>), ParseError>(err),
            },
        decreases old(lexer)@.len(), 1int,
    {
        proof {
            lemma_spec_parse_unfold(old(lexer)@);
        }
        let head = match lexer.lookahead1() {
            Some(t) => *t,
            None => {
                return Err(ParseError::NoTokensLeft);
            },
        };
        match head {
            Token::Var(_) => match SoleExpr::parse(lexer) {
                Ok(se) => Ok(Expr::Sole(se)),
                Err(err) => Err(err),
            },
            Token::Bottom => {
                let _ = lexer.peek();
                Ok(Expr::Const(false))
            },
            Token::Top => {
                let _ = lexer.peek();
                Ok(Expr::Const(true))
            },
            Token::Not => match UnOpExpr::parse(lexer) {
                Ok(ue) => Ok(Expr::UnOp(ue)),
                Err(err) => Err(err),
            },
            Token::LParen => {
                let _ = lexer.peek();
                let inner = match BinOpExpr::parse(lexer) {
                    Ok(be) => be,
                    Err(err) => {
                        return Err(err);
                    },
                };
                match lexer.peek() {
                    None => Err(ParseError::NoTokensLeft),
                    Some(Token::RParen) => Ok(Expr::BinOp(inner)),
                    Some(_) => Err(ParseError::UnexpectedToken(Token::RParen)),
                }
            },
            t => Err(ParseError::UnexpectedToken(t)),
        }
    }
}

/// What [`Parser::new`] yields from a token stream: the parsed tree,
/// provided the whole stream is consumed.
pub open spec fn spec_parser_new(ts: Seq<Token>) -> Result<Expr, ParseError> {
    match spec_parse(ts) {
        Ok((e, rest)) => if rest.len() == 0 {
            Ok(e)
        } else {
            Err(ParseError::RedundantToken(rest[0]))
        },
        Err(err) => Err(err),
    }
}

impl Parser {
    /// Parses one expression and requires the stream to be exhausted;
    /// a leftover token is reported rather than silently ignored.
    pub fn new(lexer: Lexer) -> (r: Result<Self, ParseError>)
        ensures
            match r {
                Ok(p) => spec_parser_new(lexer@) == Ok::<Expr, ParseError>(p.0),
                Err(err) => spec_parser_new(lexer@) == Err::<Expr, ParseError>(err),
            },
    {
        let mut lexer = lexer;
        let expr = match Expr::parse(&mut lexer) {
            Ok(e) => e,
            Err(err) => {
                return Err(err);
            },
        };
        if !lexer.is_empty() {
            let t = match lexer.lookahead1() {
                Some(t) => *t,
                None => {
                    return Err(ParseError::NoTokensLeft);
                },
            };
            return Err(ParseError::RedundantToken(t));
        }
        Ok(Parser(expr))
    }
}

/// What [`generate`] yields from a raw string: scan, parse, and demand
/// full consumption of the token stream.
pub open spec fn spec_generate(s: Seq<char>) -> Result<Expr, ParseOrLexError> {
    match lex_spec(s) {
        Err(c) => Err(ParseOrLexError::Lex(InvalidCharacterError(c))),
        Ok(ts) => match spec_parser_new(ts) {
            Ok(e) => Ok(e),
            Err(err) => Err(ParseOrLexError::Parse(err)),
        },
    }
}

/// Scans and parses a whole formula string.
///
/// On success the tree is exactly what the specification parser reads
/// from the scanned tokens, every one of its variables is a lowercase
/// letter, and every one of them occurs in the input string.
pub fn generate(input: &str) -> (r: Result<Parser, ParseOrLexError>)
    ensures
        match r {
            Ok(p) => spec_generate(input@) == Ok::<Expr, ParseOrLexError>(p.0),
            Err(err) => spec_generate(input@) == Err::<Expr, ParseOrLexError>(err),
        },
        r matches Ok(p) ==> wf_expr(p.0),
        r matches Ok(p) ==> forall|c: char| vars_of(p.0).contains(c) ==> input@.contains(c),
        r matches Ok(p) ==> lex_spec(input@) == Ok::<Seq<Token>, char>(tokens_of(p.0)),
{
    let lexer = match Lexer::new(input) {
        Ok(lexer) => lexer,
        Err(e) => {
            return Err(ParseOrLexError::Lex(e));
        },
    };
    let ghost toks = lexer@;
    let parser = match Parser::new(lexer) {
        Ok(p) => p,
        Err(err) => {
            return Err(ParseOrLexError::Parse(err));
        },
    };
    proof {
        lemma_generate_wf(input@, toks, parser.0);
        lemma_parse_sound(toks, enough_fuel(toks));
        assert(toks =~= tokens_of(parser.0));
    }
    Ok(parser)
}

/// The token sequence that the inside of a binary application reads:
/// left operand, operator token, right operand.
pub open spec fn tokens_of_binop(b: BinOpExpr) -> Seq<Token> {
    tokens_of(*b.lhs) + seq![binop_token(b.op)] + tokens_of(*b.rhs)
}

/// Soundness of the parser: a parsed tree prints back to exactly the
/// tokens that were consumed, whatever fuel the parse ran on.
#[verifier::rlimit(60)]
pub proof fn lemma_parse_sound(ts: Seq<Token>, fuel: nat)
    ensures
        spec_parse_at(ts, fuel) matches Ok((e, rest)) ==> ts == tokens_of(e) + rest,
        spec_parse_binop_at(ts, fuel) matches Ok((b, rest)) ==> ts == tokens_of_binop(b) + rest,
    decreases fuel,
{
    if fuel > 0 {
        let f1 = (fuel - 1) as nat;
        if ts.len() > 0 {
            lemma_parse_sound(ts.drop_first(), f1);
            match ts[0] {
                Token::Var(c) => {
                    assert(ts =~= seq![Token::Var(c)] + ts.drop_first());
                },
                Token::Bottom => {
                    assert(ts =~= seq![Token::Bottom] + ts.drop_first());
                },
                Token::Top => {
                    assert(ts =~= seq![Token::Top] + ts.drop_first());
                },
                Token::Not => {
                    if let Ok((e, rest)) = spec_parse_at(ts.drop_first(), f1) {
                        assert(ts =~= seq![Token::Not] + ts.drop_first());
                        assert((seq![Token::Not] + tokens_of(e)) + rest =~= seq![Token::Not] + (
                        tokens_of(e) + rest));
                    }
                },
                Token::LParen => {
                    if let Ok((b, rest)) = spec_parse_binop_at(ts.drop_first(), f1) {
                        if rest.len() > 0 && rest[0] == Token::RParen {
                            assert(ts =~= seq![Token::LParen] + ts.drop_first());
                            assert(rest =~= seq![Token::RParen] + rest.drop_first());
                            assert(tokens_of(Expr::BinOp(b)) =~= (seq![Token::LParen]
                                + tokens_of_binop(b)) + seq![Token::RParen]);
                            assert(ts =~= (seq![Token::LParen] + tokens_of_binop(b)
                                + seq![Token::RParen]) + rest.drop_first());
                        }
                    }
                },
                _ => {},
            }
        }
        // the binary-application side
        lemma_parse_sound(ts, f1);
        if let Ok((lhs, rest1)) = spec_parse_at(ts, f1) {
            if rest1.len() > 0 && binop_of(rest1[0]) is Some {
                let op = binop_of(rest1[0]).unwrap();
                lemma_parse_sound(rest1.drop_first(), f1);
                if let Ok((rhs, rest2)) = spec_parse_at(rest1.drop_first(), f1) {
                    assert(rest1 =~= seq![binop_token(op)] + rest1.drop_first());
                    assert(tokens_of_binop(BinOpExpr {
                        lhs: Box::new(lhs),
                        op,
                        rhs: Box::new(rhs),
                    }) =~= (tokens_of(lhs) + seq![binop_token(op)]) + tokens_of(rhs));
                    assert(ts =~= ((tokens_of(lhs) + seq![binop_token(op)]) + tokens_of(rhs))
                        + rest2);
                }
            }
        }
    }
}

/// Completeness of the parser, and unambiguity of the grammar: the
/// token sequence of any tree, followed by anything, parses back to
/// exactly that tree with exactly that remainder.  Together with
/// [`lemma_parse_sound`] this makes parsing and printing mutually
/// inverse.
pub proof fn lemma_parse_complete(e: Expr, rest: Seq<Token>)
    ensures
        spec_parse(tokens_of(e) + rest) == Ok::<(Expr, Seq<Token>), ParseError>((e, rest)),
    decreases e,
{
    let ts = tokens_of(e) + rest;
    lemma_spec_parse_unfold(ts);
    match e {
        Expr::Sole(s) => {
            assert(ts[0] == Token::Var(s.0));
            assert(ts.drop_first() =~= rest);
        },
        Expr::Const(b) => {
            assert(ts.drop_first() =~= rest);
        },
        Expr::UnOp(u) => {
            assert(ts[0] == Token::Not);
            assert(ts.drop_first() =~= tokens_of(*u.expr) + rest);
            lemma_parse_complete(*u.expr, rest);
            assert(u.op == UnOp::Not);
            assert(Expr::UnOp(UnOpExpr { op: UnOp::Not, expr: Box::new(*u.expr) }) == e);
        },
        Expr::BinOp(b) => {
            let lt = tokens_of(*b.lhs);
            let ot = seq![binop_token(b.op)];
            let rt = tokens_of(*b.rhs);
            assert(ts[0] == Token::LParen);
            let ts1 = ts.drop_first();
            assert(ts1 =~= lt + (ot + rt + seq![Token::RParen] + rest));
            lemma_spec_parse_binop_unfold(ts1);
            lemma_parse_complete(*b.lhs, ot + rt + seq![Token::RParen] + rest);
            let rest1 = ot + rt + seq![Token::RParen] + rest;
            assert(spec_parse(ts1) == Ok::<(Expr, Seq<Token>), ParseError>((*b.lhs, rest1)));
            assert(rest1[0] == binop_token(b.op));
            assert(binop_of(binop_token(b.op)) == Some(b.op));
            assert(rest1.drop_first() =~= rt + (seq![Token::RParen] + rest));
            lemma_parse_complete(*b.rhs, seq![Token::RParen] + rest);
            assert(spec_parse_binop(ts1) == Ok::<(BinOpExpr, Seq<Token>), ParseError>(
                (BinOpExpr { lhs: Box::new(*b.lhs), op: b.op, rhs: Box::new(*b.rhs) },
                seq![Token::RParen] + rest),
            ));
            assert(BinOpExpr { lhs: Box::new(*b.lhs), op: b.op, rhs: Box::new(*b.rhs) } == b);
            assert((seq![Token::RParen] + rest)[0] == Token::RParen);
            assert((seq![Token::RParen] + rest).drop_first() =~= rest);
        },
    }
}

/// A variable occurs free in a tree exactly when its token occurs in
/// the tree's token sequence.
pub proof fn lemma_tokens_vars(e: Expr)
    ensures
        forall|c: char|
            #![trigger vars_of(e).contains(c)]
            #![trigger tokens_of(e).contains(Token::Var(c))]
            vars_of(e).contains(c) <==> tokens_of(e).contains(Token::Var(c)),
    decreases e,
{
    match e {
        Expr::Sole(s) => {
            assert forall|c: char| vars_of(e).contains(c) implies tokens_of(e).contains(
                Token::Var(c),
            ) by {
                assert(tokens_of(e)[0] == Token::Var(c));
            }
            assert forall|c: char| tokens_of(e).contains(Token::Var(c)) implies vars_of(
                e,
            ).contains(c) by {
                lemma_var_in_singleton(Token::Var(s.0), c);
            }
        },
        Expr::Const(b) => {
            let t = if b {
                Token::Top
            } else {
                Token::Bottom
            };
            assert forall|c: char| tokens_of(e).contains(Token::Var(c)) implies vars_of(
                e,
            ).contains(c) by {
                lemma_var_in_singleton(t, c);
            }
        },
        Expr::UnOp(u) => {
            lemma_tokens_vars(*u.expr);
            assert(tokens_of(e) == seq![Token::Not] + tokens_of(*u.expr));
            assert forall|c: char| vars_of(e).contains(c) implies tokens_of(e).contains(
                Token::Var(c),
            ) by {
                assert(vars_of(*u.expr).contains(c));
                lemma_var_in_concat(seq![Token::Not], tokens_of(*u.expr), c);
            }
            assert forall|c: char| tokens_of(e).contains(Token::Var(c)) implies vars_of(
                e,
            ).contains(c) by {
                lemma_var_in_concat(seq![Token::Not], tokens_of(*u.expr), c);
                lemma_var_in_singleton(Token::Not, c);
                assert(tokens_of(*u.expr).contains(Token::Var(c)));
            }
        },
        Expr::BinOp(b) => {
            lemma_tokens_vars(*b.lhs);
            lemma_tokens_vars(*b.rhs);
            let a1 = seq![Token::LParen] + tokens_of(*b.lhs);
            let a2 = a1 + seq![binop_token(b.op)];
            let a3 = a2 + tokens_of(*b.rhs);
            assert(tokens_of(e) == a3 + seq![Token::RParen]);
            assert forall|c: char| vars_of(e).contains(c) implies tokens_of(e).contains(
                Token::Var(c),
            ) by {
                lemma_var_in_concat(a3, seq![Token::RParen], c);
                lemma_var_in_concat(a2, tokens_of(*b.rhs), c);
                lemma_var_in_concat(a1, seq![binop_token(b.op)], c);
                lemma_var_in_concat(seq![Token::LParen], tokens_of(*b.lhs), c);
                if vars_of(*b.lhs).contains(c) {
                    assert(tokens_of(*b.lhs).contains(Token::Var(c)));
                } else {
                    assert(vars_of(*b.rhs).contains(c));
                    assert(tokens_of(*b.rhs).contains(Token::Var(c)));
                }
            }
            assert forall|c: char| tokens_of(e).contains(Token::Var(c)) implies vars_of(
                e,
            ).contains(c) by {
                lemma_var_in_concat(a3, seq![Token::RParen], c);
                lemma_var_in_concat(a2, tokens_of(*b.rhs), c);
                lemma_var_in_concat(a1, seq![binop_token(b.op)], c);
                lemma_var_in_concat(seq![Token::LParen], tokens_of(*b.lhs), c);
                lemma_var_in_singleton(Token::RParen, c);
                lemma_var_in_singleton(binop_token(b.op), c);
                lemma_var_in_singleton(Token::LParen, c);
                assert(!(binop_token(b.op) matches Token::Var(_)));
                assert(tokens_of(*b.lhs).contains(Token::Var(c)) || tokens_of(
                    *b.rhs,
                ).contains(Token::Var(c)));
            }
        },
    }
}

/// A variable token occurs in a concatenation exactly when it occurs
/// in one of the parts.
proof fn lemma_var_in_concat(a: Seq<Token>, b: Seq<Token>, c: char)
    ensures
        (a + b).contains(Token::Var(c)) <==> a.contains(Token::Var(c)) || b.contains(
            Token::Var(c),
        ),
{
    if (a + b).contains(Token::Var(c)) {
        let i = choose|i: int| 0 <= i < (a + b).len() && (a + b)[i] == Token::Var(c);
        if i < a.len() {
            assert(a[i] == Token::Var(c));
        } else {
            assert(b[i - a.len()] == Token::Var(c));
        }
    }
    if a.contains(Token::Var(c)) {
        let i = choose|i: int| 0 <= i < a.len() && a[i] == Token::Var(c);
        assert((a + b)[i] == Token::Var(c));
    }
    if b.contains(Token::Var(c)) {
        let i = choose|i: int| 0 <= i < b.len() && b[i] == Token::Var(c);
        assert((a + b)[a.len() + i] == Token::Var(c));
    }
}

/// A variable token occurs in a one-token sequence exactly when it is
/// that token.
proof fn lemma_var_in_singleton(t: Token, c: char)
    ensures
        seq![t].contains(Token::Var(c)) <==> t == Token::Var(c),
{
    if seq![t].contains(Token::Var(c)) {
        let i = choose|i: int| 0 <= i < seq![t].len() && seq![t][i] == Token::Var(c);
        assert(seq![t][0] == t);
    }
    if t == Token::Var(c) {
        assert(seq![t][0] == Token::Var(c));
    }
}

/// Every variable token that scanning yields is a lowercase letter that
/// occurs in the scanned string.
pub proof fn lemma_lex_tokens(s: Seq<char>)
    ensures
        lex_spec(s) matches Ok(ts) ==> forall|i: int|
            0 <= i < ts.len() ==> ((#[trigger] ts[i]) matches Token::Var(c) ==> 'a' <= c && c
                <= 'z' && s.contains(c)),
    decreases s.len(),
{
    if s.len() > 0 {
        lemma_lex_tokens(s.drop_first());
        assert forall|c: char| s.drop_first().contains(c) implies s.contains(c) by {
            let i = choose|i: int| 0 <= i < s.drop_first().len() && s.drop_first()[i] == c;
            assert(s[i + 1] == c);
        }
        if s[0] != ' ' && token_of(s[0]) is Some {
            let t = token_of(s[0]).unwrap();
            if let Ok(ts0) = lex_spec(s.drop_first()) {
                assert(lex_spec(s) == Ok::<Seq<Token>, char>(seq![t] + ts0));
                assert(s.contains(s[0])) by {
                    assert(s[0] == s[0]);
                }
                assert(forall|i: int| 1 <= i < (seq![t] + ts0).len() ==> (seq![t] + ts0)[i]
                    == ts0[i - 1]);
            }
        }
    }
}

/// A tree whose variables are all lowercase letters is well formed.
proof fn lemma_wf_from_vars(e: Expr)
    requires
        forall|c: char| #[trigger] vars_of(e).contains(c) ==> 'a' <= c && c <= 'z',
    ensures
        wf_expr(e),
    decreases e,
{
    match e {
        Expr::Sole(s) => {
            assert(vars_of(e).contains(s.0));
        },
        Expr::Const(_) => {},
        Expr::UnOp(u) => {
            assert forall|c: char| vars_of(*u.expr).contains(c) implies 'a' <= c && c <= 'z' by {
                assert(vars_of(e).contains(c));
            }
            lemma_wf_from_vars(*u.expr);
        },
        Expr::BinOp(b) => {
            assert forall|c: char| vars_of(*b.lhs).contains(c) implies 'a' <= c && c <= 'z' by {
                assert(vars_of(e).contains(c));
            }
            assert forall|c: char| vars_of(*b.rhs).contains(c) implies 'a' <= c && c <= 'z' by {
                assert(vars_of(e).contains(c));
            }
            lemma_wf_from_vars(*b.lhs);
            lemma_wf_from_vars(*b.rhs);
        },
    }
}

/// A tree parsed from tokens that were scanned from `s` only mentions
/// lowercase variables, each occurring in `s`.
proof fn lemma_generate_wf(s: Seq<char>, ts: Seq<Token>, e: Expr)
    requires
        lex_spec(s) == Ok::<Seq<Token>, char>(ts),
        spec_parse(ts) matches Ok((e0, rest)) && e0 == e,
    ensures
        wf_expr(e),
        forall|c: char| vars_of(e).contains(c) ==> s.contains(c),
{
    let rest = spec_parse(ts).unwrap().1;
    lemma_parse_sound(ts, enough_fuel(ts));
    lemma_tokens_vars(e);
    lemma_lex_tokens(s);
    assert forall|c: char| #[trigger] vars_of(e).contains(c) implies 'a' <= c && c <= 'z'
        && s.contains(c) by {
        assert(tokens_of(e).contains(Token::Var(c)));
        let i = choose|i: int| 0 <= i < tokens_of(e).len() && tokens_of(e)[i] == Token::Var(c);
        assert(ts[i] == (tokens_of(e) + rest)[i]);
        assert(ts[i] == Token::Var(c));
    }
    assert(forall|c: char| #[trigger] vars_of(e).contains(c) ==> 'a' <= c && c <= 'z');
    lemma_wf_from_vars(e);
}

} // verus!

