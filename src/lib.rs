//! Array-backed priority heap with a caller-supplied ordering, and a binary
//! tree with an iterative depth-first traversal.
pub mod bheap;
pub mod binary_tree;
