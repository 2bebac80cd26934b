//! In-memory ordered symbol tables: unique, totally-ordered keys mapped to
//! values, with lookup, insertion, deletion and order-statistics queries
//! (rank, select, floor).
//!
//! [`BinarySearchTree`] is a plain binary search tree with subtree-size
//! metadata and the full operation set; deletion is Hibbard deletion, so
//! the shape depends on the operation order. [`BalancedSearchTree`] is a
//! left-leaning red-black tree whose insertion rebalances with rotations
//! and color flips; its height stays within twice the logarithm of the key
//! count, which `BalancedSearchTree::lemma_balanced_height` proves.
//!
//! Every operation's contract pins its result over the table's abstract
//! state: the key/value map and the sorted key sequence.

pub mod balanced_search_tree;
pub mod binary_search_tree;

pub use balanced_search_tree::BalancedSearchTree;
pub use binary_search_tree::BTNode;
pub use binary_search_tree::BinarySearchTree;
