//! A single-threaded, in-memory key-value store with a Redis-style binary
//! wire protocol.
//!
//! The crate provides the storage and protocol machinery: a chained hash
//! table, a two-table map that rehashes incrementally, an AVL ordered set,
//! the request parser, the response serializer, and the per-connection
//! state machine.  Socket handling lives outside the library.

pub mod avl_tree;
pub mod commands;
pub mod connection;
pub mod entry;
pub mod hashtable;
pub mod scalablehashmap;
pub mod serialization;
pub mod wire;
