# vesto

A small vector database: collections hold named vector fields, each field a
store of fixed-length vectors under sequential entity ids, searched through
exhaustive (flat) or HNSW indexes by L2 or cosine distance, with optional
metadata per entity and a binary file format for stores.

## Layout

- `src/` is the library, verified with Verus. Vectors and scores are carried
  as the bit patterns of their `f32` components; every distance is asked of a
  kernel that the caller supplies, and HNSW levels of a level-drawing function.
  - `store.rs`, `store/file.rs`: the vector store and its file format.
  - `flat.rs`, `hnsw.rs`, `hnsw_index.rs`, `index.rs`: the indexes.
  - `vector_field.rs`, `collection.rs`, `lib.rs`: fields, collections and the
    database.
  - `ranking.rs`, `metrics.rs`, `kernel.rs`, `params.rs`, `types.rs`,
    `error.rs`: shared pieces.
  - `laws.rs`: properties that relate several operations; `hnsw_laws.rs`:
    what every HNSW insert keeps of the graph (its nodes, and neighbour lists
    without repeats or, when lists are reselected without extension,
    self-links).
- `app/` is ordinary Rust around it: the floating-point distance kernel and
  level drawing, file I/O, JSON parameters, serialisable records and the
  Python module.
- `tests/` exercises the library with a floating-point kernel.
