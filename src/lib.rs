//! Core of a local-first personal document search engine: chunking,
//! deduplication and ingest gates; the record store's embedding codec and
//! the vector index's slot map; score fusion, reranking order, snippets and
//! the per-stage trace of a hybrid query. Each part carries a contract
//! proved by Verus; storage engines, models and I/O stay with the caller.

pub mod types;
pub mod support;
pub mod chunker;
pub mod dedup;
pub mod ingest;
pub mod batch;
pub mod fusion;
pub mod snippet;
pub mod codec;
pub mod search;
pub mod vector;
pub mod eval;
