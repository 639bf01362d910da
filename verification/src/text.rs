//! Text handling: character classes, normalization and tokenization.

pub mod bytes;
pub mod chars;
pub mod processing;

pub use processing::{normalize_text, tokenize, TokenizerOptions};
