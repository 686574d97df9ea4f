//! Binary and multiway search trees.
pub mod node;
pub mod node_ref;
pub mod binary_search_tree;
pub mod arena_store;
pub mod arena_tree;
pub mod bin_tree;
pub mod avl_tree;
pub mod splay_tree;
pub mod red_black_tree;
pub mod b_tree;
