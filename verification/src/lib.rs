//! A verified library for spreadsheet-style formula parsing.
//!
//! The heart of the crate is a lexer that turns a borrowed character buffer
//! into a pull-based token stream ([`token`]), and a recursive-descent parser
//! that consumes that stream and builds a typed abstract syntax tree while
//! enforcing operator precedence and reporting structured errors ([`parser`],
//! [`ast`]). A small delimited-text scanner that splits raw input into rows
//! and fields lives in [`csv`].
//!
//! Every executable function is specified against a mathematical model of the
//! input (sequences of characters) and verified with Verus: the lexer against
//! a character-level token model, the parser against a ghost recursive-descent
//! grammar, and the row scanner against a token-driven state machine. Laws
//! that relate whole parses — determinism, rejection of unmarked input,
//! bracket nesting, the quoted-string round trip — are proved in [`laws`].

pub mod ast;
pub mod csv;
pub mod laws;
pub mod parser;
pub mod token;
