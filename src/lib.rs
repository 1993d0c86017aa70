//! A small full-text search engine: text normalization and tokenization, an
//! ordered inverted index with BM25 evidence gathering, and a hash-sharded
//! segment dictionary.

pub mod engine;
pub mod ordmap;
pub mod segment;
pub mod text;
pub mod tokenizer;
pub mod types;
