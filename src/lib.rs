//! A scalar reverse-mode automatic-differentiation engine with a small
//! neural-network layer built on top of it.
//!
//! The computation graph is an arena: every node lives in a [`engine::Graph`]
//! and is named by its index, so sharing a node between several parents is
//! sharing an index. A node's children always have smaller indices than the
//! node itself, which makes the graph acyclic by construction and gives a
//! reverse-topological order for free (descending index).
pub mod engine;
pub mod nn;
