//! Cross-shard query execution core for a sharded vector search engine.
//!
//! The crate has two independent parts:
//!
//! * the query pipeline: a k-way ordered merge over per-shard ranked lists,
//!   an index transpose between shard-major and query-major layouts,
//!   reciprocal-rank fusion, and pagination;
//! * property persistence: an atomically saved, JSON-backed mapping from
//!   `(collection, property name)` to a property value.
//!
//! Everything here is pure computation with contracts; the surrounding I/O
//! (shard RPCs, file system) lives outside the library.

pub mod batch;
pub mod fusion;
pub mod json;
pub mod merge;
pub mod persistence;
pub mod pipeline;
pub mod properties;
pub mod request;
pub mod transpose;
pub mod types;
