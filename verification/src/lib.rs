//! Lexical-analysis front-end for a small interpreted scripting language.
//!
//! The core is the tokenizer in [`lexer`]: a single-pass scanner that turns
//! source text into a stream of typed [`token::Token`] values, with a proved
//! correspondence to the mathematical tokenization function
//! [`lexer::spec_tokens`]. A minimal parser over bare literal expressions
//! lives in [`parser`], with its abstract syntax in [`ast`]. General
//! properties of the tokenizer are stated and proved in [`laws`].

pub mod ast;
pub mod laws;
pub mod lexer;
pub mod parser;
pub mod token;
