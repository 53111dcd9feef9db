//! Constraints between two integer variables.

pub mod binary_ops;
