//! The stores that own the variables of a problem.

pub mod default_handler;
