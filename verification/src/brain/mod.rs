//! # Brain
//!
//! The associative "brain": n-gram count tables updated by Hebbian counting,
//! and a count-min sketch for approximate counting.

pub mod codec;
pub mod count_min;
pub mod count_table;
pub mod ngram;
pub mod table_laws;
pub mod error;

pub use count_min::CountMinSketch;
pub use count_table::CountTable;
pub use ngram::NgramBrain;
pub use error::BrainError;
