//! An in-memory full text search engine: tokenizer, document store,
//! inverted index, query planning for BM25 ranking, and snippets.

pub mod assoc;
pub mod order;
pub mod text;
pub mod tokenizer;
pub mod index;
pub mod document;
pub mod store;
pub mod search;
pub mod engine;
pub mod api;
pub mod laws;
pub mod outcomes;
