//! The in-memory write buffer of a log-structured key-value store.
//!
//! Writes go to a [`mem_table::MemTable`]: a red-black tree of entries, kept
//! in an arena and addressed by index, with a running estimate of the bytes
//! it holds. A deletion leaves a tombstone. When a write would pass the
//! budget of the [`engine::Engine`], the memtable is flushed: its entries
//! are listed in key order by a traversal that needs no stack, and encoded
//! for a table file.
//!
//! Every function is verified against its contract. The contracts speak of
//! the tree as a map from keys to entries (its view), of the listing of its
//! entries in key order, and of the red-black invariants in
//! [`tree::RedBlackTree::wf`]. The module [`laws`] states what follows for
//! sequences of calls.

pub mod balance;
pub mod engine;
pub mod handle;
pub mod inorder_iterator;
pub mod insert;
pub mod laws;
pub mod mem_table;
pub mod node;
pub mod order;
pub mod rotation;
pub mod search;
pub mod sstable;
pub mod threads;
pub mod tree;
