//! A propositional-logic tautology checker.
//!
//! A formula is built from single-letter variables, the constants for
//! false and true, negation, and fully parenthesized binary connectives
//! (conjunction, disjunction, material implication).  The library lexes
//! a formula string into tokens, parses the tokens into a syntax tree,
//! and decides whether the formula is a tautology by checking every
//! assignment of truth values to its free variables, reporting the first
//! falsifying assignment when one exists.

pub mod lexer;
pub mod evaluator;
pub mod parser;
