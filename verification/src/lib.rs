//! A small, dependency-free JSON reader.
//!
//! Bytes flow one way through three layers: a UTF-8 codepoint decoder over a
//! byte buffer ([`utf8`]), a streaming lexer with a single character of
//! pushback, and a recursive-descent parser with two tokens of lookahead
//! ([`json`]).  The grammar accepts documents rooted at a JSON object and
//! builds a tagged-union value tree.
//!
//! Every layer carries a functional model: spec functions describe exactly
//! which token, character, or value a given input yields, and the executable
//! code is proved equal to that model.

pub mod json;
pub mod utf8;
