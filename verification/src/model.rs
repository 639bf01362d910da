//! The n-gram frequency model, its trainer and its generator.

pub mod format;
pub mod generator;
pub mod ngram;
pub mod store;
pub mod table;
pub mod trainer;
pub mod walk;

pub use generator::Generator;
pub use ngram::{ModelStats, NGramModel};
pub use trainer::Trainer;
