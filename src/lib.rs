pub mod node;
pub mod tree;
pub mod tree_store;
