//! A tokenizer for a small line-oriented scripting notation: numbers,
//! strings, arithmetic operators, `print`, and `if`/`def` blocks closed by
//! `end`, turned into a tree of tokens.

pub mod token;
pub mod reader;
pub mod grammar;
pub mod tokenizer;
pub mod laws;

pub use token::{Token, ParseError};
pub use reader::Reader;
pub use tokenizer::{Tokenizer, tokenize};
