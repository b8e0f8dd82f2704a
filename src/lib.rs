//! The front end of a small scripting language: a tokenizer from source
//! text to tokens with byte spans, and a parser from tokens to a syntax
//! tree, both verified against their rules.
pub mod text;
pub mod token;
pub mod lexer;
pub mod ast;
pub mod parser;
pub mod trivia;
