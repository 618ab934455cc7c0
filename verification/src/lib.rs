//! Classic data structures and algorithms, with machine-checked contracts:
//! an undirected adjacency-list graph with breadth-first, depth-first,
//! Dijkstra and Bellman-Ford searches, together with the surrounding
//! textbook structures (stacks, queues, linked lists, heaps, binary trees)
//! and routines (sorting, searching, greatest common divisor).
#![verifier::loop_isolation(false)]

pub mod algorithms;
pub mod data_structures;
pub mod values;
