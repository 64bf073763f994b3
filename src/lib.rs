//! A rooted tree whose nodes are named by labels, with label swaps and
//! subtree moves that keep it a tree.
//!
//! `tree` holds the mutable tree and its operations, `model` its abstract
//! state and the facts that keep a tree a tree, `ancestry` the parent
//! chains those facts are built on, `ops` the star and chain builders,
//! `parts` the ordered flat form used for writing a tree out, `laws` the
//! properties that relate several operations, and `owned_tree` a separate
//! tree whose nodes own their children.
pub mod ancestry;
pub mod laws;
pub mod model;
pub mod ops;
pub mod owned_tree;
pub mod parts;
pub mod tree;

pub use model::{Node, TreeModel};
pub use ops::{create_chain_tree, create_star_tree};
pub use tree::{Tree, TreeError};
