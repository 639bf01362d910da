//! What is told about a generated text: its words and how often they
//! occur. Printing the figures and drawing the picture is left to the
//! program that uses the library.

pub mod insights;
pub mod wordcloud;
pub mod words;
