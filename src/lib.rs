//! Persistent key-value storage structures laid out in a flat byte region.
//!
//! Every stored value goes through the fixed-width [`codec::Codec`] encoding,
//! and every link between records is a byte offset into the region.
//!
//! - [`codec`]: fixed-width big-endian encodings and the key order.
//! - [`storage`]: the region interface, an in-memory region, record access.
//! - [`header`], [`node`]: the records of a search tree.
//! - [`bst`]: the search tree engine.
//! - [`vector`]: an append-only array at a fixed offset.

pub mod bst;
pub mod codec;
pub mod header;
pub mod node;
pub mod storage;
pub mod vector;
