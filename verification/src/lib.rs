//! A right-biased deep-merge engine.
//!
//! Two values of the same shape are combined into one: the right value
//! overrides or extends the left one, and structural conflicts found during
//! the recursive walk are collected into an accumulating validation result
//! instead of stopping at the first.

pub mod laws;
pub mod merge_right;
pub mod valid;
pub mod value;

pub use merge_right::MergeRight;
pub use valid::Valid;
pub use valid::ValidationError;
