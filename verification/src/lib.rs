//! Containers for a fleet of IoT devices, with machine-checked contracts.
//!
//! The centre of the crate is [`btree::database::DeviceDatabase`], an ordered
//! store built on a B-tree whose balance and fill rules are proved to survive
//! every insertion. Around it stand smaller containers over the same kind of
//! record: a transaction log, a binary search tree, a heap of notifications,
//! a trie of paths and a graph of connections.
pub mod binary_search_tree;
pub mod btree;
pub mod device;
pub mod graph;
pub mod heap;
pub mod singly_linked_list;
pub mod trie;
