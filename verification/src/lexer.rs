//! Lexer for the configuration language: a one-pass state machine that turns
//! source text into a lazy stream of tokens and per-token errors.

pub mod cursor;
pub mod grammar;
pub mod laws;
pub mod report;
pub mod state;
pub mod token;
pub mod tokenizer;

pub use self::token::{BlockType, EqualityType, Error, ErrorKind, Token};
pub use self::tokenizer::{tokenize, Tokenizer};
