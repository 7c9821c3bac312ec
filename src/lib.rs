//! An ordered, labelled tree with lookup, insertion and subtree removal by
//! identifier, every operation resolving to the first match in pre-order.
//!
//! `model` gives the mathematical tree and the operations on it as mathematical functions,
//! `node` the owned node type and its verified traversals, `tree` the public tree,
//! and `laws` the properties that relate the operations to one another.
pub mod laws;
pub mod model;
pub mod node;
pub mod tree;
