//! Visibility-filtered to-do trees.
//!
//! The library computes, from a flat collection of to-do rows and a
//! parent/child edge relation, the closure of "relevant" items (an item is
//! relevant when it is unfinished, recently created, or connected to such an
//! item), and materializes the relevant items as a forest of display nodes
//! ordered by recency.

pub mod errors;
pub mod select;
pub mod todos;
