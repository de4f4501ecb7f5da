//! A lexical analyzer for a small curly-brace scripting language.
//!
//! The language is whitespace-insensitive and has dash-style comments
//! (`--- block ---` and `-- line`), a closed keyword set, identifiers
//! with hyphen and underscore, single-character punctuation, a small
//! operator set with longest-match disambiguation, double-quoted string
//! literals, decimal integer and floating literals, and the boolean
//! literals `true` and `false`.
//!
//! The tokenizer consumes a whole input buffer and produces the ordered
//! token sequence together with the position where consumption stopped:
//! a clean run consumes everything (up to trailing whitespace), while a
//! lexical failure reports the first position no recognizer accepts.

pub mod laws;
pub mod lexer;
pub mod render;
pub mod tokens;
