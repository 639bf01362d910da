//! N-gram text generation.
//!
//! The library trains a statistical model on a text and generates new text
//! from it:
//!
//! - [`text`] normalizes a text and cuts it into tokens;
//! - [`model`] holds the n-gram model (which tokens followed which context,
//!   and how often), its trainer, and the generator that walks the model at
//!   random and renders the walk as prose;
//! - [`output`] counts the words of a generated text, for figures and for a
//!   word cloud;
//! - [`scrapers`] holds the settings of the content sources and what they
//!   decide between their requests;
//! - [`random`] is where chance enters, and [`error`] what can go wrong.
//!
//! Reading files, talking to the network, printing and drawing are left to
//! the program that uses the library.

pub mod error;
pub mod model;
pub mod output;
pub mod random;
pub mod scrapers;
pub mod text;

pub use error::TextGenError;
pub use model::{Generator, ModelStats, NGramModel, Trainer};
pub use text::{normalize_text, tokenize, TokenizerOptions};
