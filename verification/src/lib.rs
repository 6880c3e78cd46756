//! Parsing and serialization of phylogenetic binary trees in the Newick
//! grammar, together with a line-oriented reader for the PACE 2026 instance
//! container format.
//!
//! The crate is organised around a pluggable tree-construction interface
//! ([`binary_tree::TreeBuilder`]): the Newick parser builds trees through it,
//! so downstream code chooses its own in-memory representation.

pub mod binary_tree;
pub mod newick;
pub mod pace;
