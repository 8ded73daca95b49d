# semhash_rs

Semantic deduplication, outlier filtering and representative sampling of text and dictionary
records, with the decisions verified in Verus.

- `src/` is the library. Records, keys, grouping, exact duplicates, threshold and top-k queries,
  deduplication, ranking, outliers and diversification carry exact contracts over mathematical
  models, and the laws that relate them are public proof functions (`record_laws.rs`,
  `neighbor_laws.rs`, `deduplication_laws.rs`, `sampling_laws.rs`, `semhash_laws.rs`, and the law
  sections of the other modules).
- `app/` computes what the library takes as given: similarities of vectors, means, and objectives,
  in single precision.
- `tests/` runs the library on concrete values.

Floating-point numbers enter the library as bit patterns (`float.rs`). It compares them, and scales
counts by them (`scaling.rs`); all other arithmetic on them is left to its callers. An operation
that needs similarities therefore comes in two steps: the first returns the embeddings to compare
with the vectors of the index, the second takes the similarities.
