//! The core of an interpreter for a small dynamically typed scripting
//! language: a lexer, a recursive-descent parser, a lexical scope chain and a
//! tree-walking evaluator, each with its contract proved.
//!
//! Numbers are IEEE-754 doubles that the embedding host supplies through the
//! [`literal::Number`] trait; everything else is computed here.
pub mod context;
pub mod environment;
pub mod expression;
pub mod literal;
pub mod parser;
pub mod round_trip;
pub mod scanner;
pub mod statement;
