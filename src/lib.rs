//! Evaluation of a predicted protein-complex clustering against a reference
//! clustering: overlap scores between complexes, the score and overlap
//! matrices, and the summary quality metrics derived from them.
//!
//! All quantities are exact: scores and metrics are fractions of integers.
pub mod analysis;
pub mod complex;
pub mod loader;
pub mod metrics;
pub mod ratio;

