pub mod graph;
pub mod heap;
pub mod linked_list;
pub mod node;
pub mod queue;
pub mod stack;
pub mod tree;
