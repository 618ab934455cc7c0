pub mod intro_algorithm;
pub mod searching;
pub mod sorting;
pub mod graph_traversal;
pub mod tree_traversal;
