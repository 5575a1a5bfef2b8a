//! A compiler for a small hardware-description language.
//!
//! A chip is a list of statements: pins, rails, instances of other chips
//! and connections between them. The resolver checks such a list against a
//! registry of known chips, the tree builder and the synthesizer turn every
//! output pin into a boolean expression, and a backend renders the result.

pub mod ast;
pub mod backend;
pub mod depth;
pub mod error;
pub mod expr;
pub mod lexer;
pub mod resolve;
pub mod scope;
pub mod standard;
pub mod text;
pub mod tree;
