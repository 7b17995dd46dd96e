//! A word-bucket text classifier: it counts how often each word was seen
//! under each label, and labels new text by the sum of those counts.

pub mod classifier;
pub mod guess;
pub mod matrix;
pub mod order;
pub mod scores;
pub mod table;
pub mod words;

pub use crate::classifier::{Bayes, BuildError};
pub use crate::matrix::Categorization;
