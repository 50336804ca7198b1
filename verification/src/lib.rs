//! Recursive data held as one flat, index-addressed store, with traversals
//! that build such a store from a seed and reduce it to a value in a single
//! pass, without recursion.

pub mod examples;
pub mod map_layer;
pub mod recursive_tree;
