//! The grammar of the Terbium language: tokens, the syntax tree, and the parser from one to the
//! other, with a proof that the parser computes what the grammar says.

pub mod ast;
pub mod combining;
mod copy;
pub mod cutting;
pub mod derivation;
pub mod embedding;
pub mod error;
pub mod faithful;
pub mod grammar;
pub mod inversion;
pub mod joining;
pub mod laws;
pub mod lexer;
pub mod lexical;
pub mod nesting;
pub mod parser;
pub mod shape;
pub mod spelling;
pub mod token;
pub mod writing;
