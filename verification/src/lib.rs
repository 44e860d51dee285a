//! Paged-storage node layer of an append-only event database.
//!
//! The on-disk format is built from seven node shapes: event-tree leaves,
//! internals and overflow pages, and free-list-tree leaves, internals and the
//! nested per-transaction subtree nodes. Each shape carries a binary codec
//! (`calc_serialized_size`, `serialize_into`, `from_slice`) whose behaviour is
//! pinned to a byte-level specification, together with the small mutation
//! helpers that the copy-on-write trees use when appending and splitting.

pub mod common;
pub mod errors;
pub mod wire;

pub mod events_tree_nodes;
pub mod free_lists_tree_nodes;
pub mod superblock;
