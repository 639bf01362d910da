//! The errors of the library.

use vstd::prelude::*;
use vstd::string::StringExecFns;

verus! {

/// What can go wrong, each kind with a description of the instance.
#[derive(Debug)]
pub enum TextGenError {
    /// Reading or writing failed.
    Io(String),
    /// A request over the network failed.
    Http(String),
    /// JSON could not be read or written.
    Json(String),
    /// An image could not be produced.
    Image(String),
    /// A content source gave no usable text.
    Scraper(String),
    /// The model cannot be built or used as asked.
    Model(String),
    /// The text cannot be tokenized.
    Tokenization(String),
    /// The configuration is not usable.
    Config(String),
    /// Anything else.
    Unknown(String),
}

impl TextGenError {
    /// The words that introduce an error of this kind.
    pub open spec fn label(&self) -> Seq<char> {
        match self {
            TextGenError::Io(_) => "I/O error: "@,
            TextGenError::Http(_) => "HTTP error: "@,
            TextGenError::Json(_) => "JSON error: "@,
            TextGenError::Image(_) => "Image error: "@,
            TextGenError::Scraper(_) => "Scraper error: "@,
            TextGenError::Model(_) => "Model error: "@,
            TextGenError::Tokenization(_) => "Tokenization error: "@,
            TextGenError::Config(_) => "Configuration error: "@,
            TextGenError::Unknown(_) => "Unknown error: "@,
        }
    }

    /// The description of the instance.
    pub open spec fn detail(&self) -> Seq<char> {
        match self {
            TextGenError::Io(detail) => detail@,
            TextGenError::Http(detail) => detail@,
            TextGenError::Json(detail) => detail@,
            TextGenError::Image(detail) => detail@,
            TextGenError::Scraper(detail) => detail@,
            TextGenError::Model(detail) => detail@,
            TextGenError::Tokenization(detail) => detail@,
            TextGenError::Config(detail) => detail@,
            TextGenError::Unknown(detail) => detail@,
        }
    }

    /// The error as one line of text: the kind's label, then the
    /// description.
    pub fn message(&self) -> (text: String)
        ensures
            text@ == self.label() + self.detail(),
    {
        let mut text = match self {
            TextGenError::Io(_) => "I/O error: ".to_owned(),
            TextGenError::Http(_) => "HTTP error: ".to_owned(),
            TextGenError::Json(_) => "JSON error: ".to_owned(),
            TextGenError::Image(_) => "Image error: ".to_owned(),
            TextGenError::Scraper(_) => "Scraper error: ".to_owned(),
            TextGenError::Model(_) => "Model error: ".to_owned(),
            TextGenError::Tokenization(_) => "Tokenization error: ".to_owned(),
            TextGenError::Config(_) => "Configuration error: ".to_owned(),
            TextGenError::Unknown(_) => "Unknown error: ".to_owned(),
        };
        match self {
            TextGenError::Io(detail) => text.append(detail.as_str()),
            TextGenError::Http(detail) => text.append(detail.as_str()),
            TextGenError::Json(detail) => text.append(detail.as_str()),
            TextGenError::Image(detail) => text.append(detail.as_str()),
            TextGenError::Scraper(detail) => text.append(detail.as_str()),
            TextGenError::Model(detail) => text.append(detail.as_str()),
            TextGenError::Tokenization(detail) => text.append(detail.as_str()),
            TextGenError::Config(detail) => text.append(detail.as_str()),
            TextGenError::Unknown(detail) => text.append(detail.as_str()),
        }
        text
    }
}

} // verus!
