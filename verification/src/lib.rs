//! A finite-domain constraint solver: sparse integer domains, propagators that
//! narrow them to a fixed point, and a depth-first search that branches on the
//! variables left open.

pub mod variables;
pub mod graph;
pub mod constraints;
pub mod branchers;
pub mod spaces;
pub mod search;
