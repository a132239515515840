# rapid_fuzzy

Fuzzy search and string distances, with the search logic proved in Verus.

## Layout

- `src/` — the verified library.
  - `distance.rs` — Levenshtein, Damerau-Levenshtein, Indel and Hamming
    distances (computed by `rapidfuzz`), their batch and one-to-many forms,
    and laws of the distances (identity, symmetry, triangle inequality).
  - `text.rs` — word splitting, query terms, character-presence masks and
    bigram keys used as pre-filters.
  - `sorted.rs`, `bigram.rs` — sorted index lists and the inverted bigram
    index over the items.
  - `ranking.rs` — the result order (score, then length, then index),
    top-k selection and match classification.
  - `search.rs` — fuzzy search over a list of items with `nucleo-matcher`.
  - `index.rs` — the persistent index with its incremental-search cache.
  - `keyed.rs` — per-key scores for multi-key search.
  - `serialization.rs`, `keyed_format.rs` — the binary formats of the
    indexes, with round-trip laws.
  - `tokens.rs` — token normalization and the token-set comparison plan.
- `tests/` — tests of the library.
- `app/` — Node.js (napi) and browser (wasm-bindgen) bindings, and the
  similarity ratios and score combinations computed in `f64`.
