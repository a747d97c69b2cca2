//! A small numeric expression language: integers, floats, vectors, variables and
//! one-parameter functions.
//!
//! Source text goes through three stages. [`lexer::lex`] turns it into tokens,
//! [`parser::parse`] builds a syntax tree from the tokens, and
//! [`interpreter::interpret`] evaluates the tree against a [`interpreter::Context`].
//! [`interpreter::run`] chains the three.
//!
//! Floats are held as IEEE 754 binary64 bit patterns in a `u64`; see [`float`].
//! Messages are built in [`render`] as sequences of parts, so that a float in a
//! message is written out by the caller. [`laws`] holds what is proved of the
//! stages together.
//!
//! Every function states what it returns over models of the data: [`lexer::TokenModel`],
//! [`parser::NodeModel`], [`interpreter::ValueModel`] and [`error::ErrorModel`] hold
//! sequences where the data holds vectors and strings.
pub mod context;
pub mod error;
pub mod float;
pub mod interpreter;
pub mod laws;
pub mod lexer;
pub mod operators;
pub mod parser;
pub mod position;
pub mod render;
pub mod text;

pub use position::Position;
