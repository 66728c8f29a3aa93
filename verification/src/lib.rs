//! Postfix arithmetic turned into ranked, minimally parenthesized infix lines.
//!
//! A line of postfix text is split into tokens, each token is classified as a
//! number or one of the four operators, and one pass over the tokens computes
//! the value of the expression together with its infix writing. A batch of
//! evaluated expressions is ranked by value and rendered as `infix = value`
//! lines.
//!
//! Numbers are binary64 values held as their bit patterns ([`value::Value`]).
//! The library never computes with them: reading a literal, applying an
//! operator and writing a value down are functions that the caller hands in.
//! Everything else is proved here: which tokens are numbers, when a token
//! sequence is a postfix expression, which operand stands on the left, where
//! parentheses go, and the order in which a batch comes out. That the infix
//! writing says what was evaluated is proved too: the usual reader of infix
//! expressions takes the writing of an expression that groups from the left
//! for that expression ([`infix`]).
pub mod arithmetic;
pub mod batch;
pub mod error;
pub mod evaluator;
pub mod expression;
pub mod fragment;
pub mod infix;
pub mod literal;
pub mod operator;
pub mod postfix;
pub mod rank;
pub mod term;
pub mod text;
pub mod token;
pub mod value;
