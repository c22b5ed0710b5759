//! An on-disk key-indexed record store built around a persistent B-tree.
//!
//! The store keeps two byte images: a *heap file*, an append-only sequence of
//! fixed-width `key ‖ value` records, and an *index file* holding a B-tree
//! whose entries map fixed-width keys to byte offsets into the heap file.
//! Both images are modelled here as in-memory byte vectors / node arenas with
//! exact, verified layouts; reading and writing the actual files is left to
//! the surrounding application.

pub mod bytes;
pub mod btree;
pub mod table;
