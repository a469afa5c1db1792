# crabby-search

An in-memory full text search engine with a verified core.

- `src/` is the library, with machine-checked contracts and proofs: the tokenizer, the document
  store, the inverted index, query planning for BM25, ranking by score,
  snippets and previews, and what the REST handlers compute.
- `app/` is the HTTP server (actix-web on Tokio). It holds what the library
  cannot: request and response bodies (serde), the lock around the engine,
  and the floating-point parts of search — BM25 scores, the average
  document length and rounding.
- `tests/` exercises the library.

BM25 is computed in `app/ranking.rs` from the integer statistics that
`SearchEngine::plan_query` gathers; the documents are then ordered by
`search::rank`, highest score first, ties by lower id.
