use tautology::lexer::{InvalidCharacterError, Lexer, Token};
use tautology::parser::{generate, BinOp, Expr, ParseError, ParseOrLexError, UnOp};

#[test]
fn a() {
    generate("(¬(a → b) → (a → ¬b))").unwrap();
}

#[test]
fn b() {
    generate("(((p → q) ∨ (q → r)) → (p → (q ∨ r)))").unwrap();
}

#[test]
fn c() {
    generate("¬a").unwrap();
}

#[test]
fn d() {
    generate("a").unwrap();
}

#[test]
fn lexer_scans_every_symbol() {
    let lexer = Lexer::new("¬∧∨()→⊥T↔x z").unwrap();
    let tokens: Vec<Token> = lexer.0.into_iter().collect();
    assert_eq!(
        tokens,
        vec![
            Token::Not,
            Token::And,
            Token::Or,
            Token::LParen,
            Token::RParen,
            Token::Arrow,
            Token::Bottom,
            Token::Top,
            Token::LRArrow,
            Token::Var('x'),
            Token::Var('z'),
        ]
    );
}

#[test]
fn lexer_rejects_unrecognized_character() {
    let err = Lexer::new("(a ? b)").unwrap_err();
    assert_eq!(err, InvalidCharacterError('?'));
}

#[test]
fn lexer_reports_first_bad_character() {
    let err = Lexer::new("a # $").unwrap_err();
    assert_eq!(err, InvalidCharacterError('#'));
}

#[test]
fn lexer_lookahead_and_consumption() {
    let mut lexer = Lexer::new("¬a").unwrap();
    assert!(!lexer.is_empty());
    assert_eq!(lexer.lookahead1(), Some(&Token::Not));
    assert_eq!(lexer.lookahead1(), Some(&Token::Not));
    assert_eq!(lexer.peek(), Some(Token::Not));
    assert_eq!(lexer.peek(), Some(Token::Var('a')));
    assert!(lexer.is_empty());
    assert_eq!(lexer.lookahead1(), None);
    assert_eq!(lexer.peek(), None);
}

#[test]
fn parse_builds_negation_over_leaf() {
    let parser = generate("¬a").unwrap();
    match parser.0 {
        Expr::UnOp(u) => {
            assert!(matches!(u.op, UnOp::Not));
            match *u.expr {
                Expr::Sole(s) => assert_eq!(s.0, 'a'),
                _ => panic!("expected a variable leaf"),
            }
        }
        _ => panic!("expected a negation"),
    }
}

#[test]
fn parse_builds_binary_application() {
    let parser = generate("(p ∧ q)").unwrap();
    match parser.0 {
        Expr::BinOp(b) => {
            assert!(matches!(b.op, BinOp::And));
            assert!(matches!(*b.lhs, Expr::Sole(_)));
            assert!(matches!(*b.rhs, Expr::Sole(_)));
        }
        _ => panic!("expected a binary application"),
    }
}

#[test]
fn parse_builds_constants() {
    let parser = generate("(⊥ → T)").unwrap();
    match parser.0 {
        Expr::BinOp(b) => {
            assert!(matches!(b.op, BinOp::Imp));
            assert!(matches!(*b.lhs, Expr::Const(false)));
            assert!(matches!(*b.rhs, Expr::Const(true)));
        }
        _ => panic!("expected a binary application"),
    }
}

#[test]
fn unbalanced_parenthesis_is_rejected() {
    let err = generate("(a ∧ b").unwrap_err();
    assert_eq!(err, ParseOrLexError::Parse(ParseError::NoTokensLeft));
}

#[test]
fn missing_operator_is_rejected() {
    let err = generate("(a b)").unwrap_err();
    assert_eq!(
        err,
        ParseOrLexError::Parse(ParseError::UnexpectedToken(Token::Var('b')))
    );
}

#[test]
fn missing_closing_parenthesis_names_expected_token() {
    let err = generate("(a ∧ b c").unwrap_err();
    assert_eq!(
        err,
        ParseOrLexError::Parse(ParseError::UnexpectedToken(Token::RParen))
    );
}

#[test]
fn trailing_token_is_rejected() {
    let err = generate("a b").unwrap_err();
    assert_eq!(
        err,
        ParseOrLexError::Parse(ParseError::RedundantToken(Token::Var('b')))
    );
}

#[test]
fn extra_closing_parenthesis_is_rejected() {
    let err = generate("(a ∧ b))").unwrap_err();
    assert_eq!(
        err,
        ParseOrLexError::Parse(ParseError::RedundantToken(Token::RParen))
    );
}

#[test]
fn empty_input_is_rejected() {
    let err = generate("").unwrap_err();
    assert_eq!(err, ParseOrLexError::Parse(ParseError::NoTokensLeft));
}

#[test]
fn spaces_only_input_is_rejected() {
    let err = generate("   ").unwrap_err();
    assert_eq!(err, ParseOrLexError::Parse(ParseError::NoTokensLeft));
}

#[test]
fn biconditional_is_lexed_but_not_grammatical() {
    let err = generate("(a ↔ b)").unwrap_err();
    assert_eq!(
        err,
        ParseOrLexError::Parse(ParseError::UnexpectedToken(Token::LRArrow))
    );
}

#[test]
fn bare_operator_is_rejected() {
    let err = generate("∧").unwrap_err();
    assert_eq!(
        err,
        ParseOrLexError::Parse(ParseError::UnexpectedToken(Token::And))
    );
}

#[test]
fn lexical_error_wins_over_parsing() {
    let err = generate("(a ∧ B)").unwrap_err();
    assert_eq!(err, ParseOrLexError::Lex(InvalidCharacterError('B')));
}
