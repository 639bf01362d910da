//! The content sources that the library knows how to set up.

pub mod basic;
pub mod lyrics;
pub mod wikipedia;

pub use basic::BasicScraper;
pub use lyrics::LyricsScraper;
pub use wikipedia::WikipediaScraper;
