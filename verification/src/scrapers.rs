//! Content sources: what they are set up with, and what they decide
//! between one request and the next. The requests themselves are made by
//! the program that uses the library.

pub mod address;
pub mod providers;
pub mod texts;
