//! Reusable contest data structures.

pub mod red_black_tree;
