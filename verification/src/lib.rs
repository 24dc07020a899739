//! A BM25 relevance-ranking engine over an inverted index: incremental
//! document insertion, one-shot score freezing, ranked retrieval, per-document
//! deletion, and a byte-level persistence format that round-trips exactly.

pub mod bm25;
pub mod codec;
pub mod io;
pub mod io_utils;
pub mod laws;
pub mod score;
