//! Packaging of search-index segment data into self-describing split
//! archives, and partial reads back out of them.
//!
//! A split is a directory of segment files, one of which (the `.store`
//! file) carries a binary footer holding the split's "hotcache": compact
//! sidecar metadata (document counts, per-field byte ranges, a schema
//! hash) that lets a reader answer byte-range queries without loading the
//! whole index. This crate holds the verified core: the hotcache binary
//! format and its round-trip guarantees, the footer layout, the split
//! generation and reading logic over in-memory images of the split
//! directory, and the handle registry that manages live generator and
//! reader instances for callers across a foreign-function boundary.

pub mod codec;
pub mod error;
pub mod footer;
pub mod hotcache;
pub mod posting;
pub mod registry;
pub mod split_generator;
pub mod split_reader;
pub mod text;
