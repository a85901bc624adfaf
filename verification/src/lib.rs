pub mod binary_tree;
pub mod shared;
