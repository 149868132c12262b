# kelvin

A Merkle-tree toolkit with its behaviour proved by Verus: map collections
over `u64` and byte-string keys, the annotations that summarise their
subtrees, a content encoding with a content-addressed store, and Merkle
proofs of membership for the hash tries.

## Layout

- `src/` — the verified library.
  - `two3.rs`, `btree.rs` — 2-3 trees ordered by key; `walk.rs` and
    `branch.rs` walk them (`nth`, `iter`, branches and leaf iterators).
  - `hamt.rs` — hash array mapped tries (16 and 4 slots per node);
    `hamt/merkle.rs` hashes their nodes and builds and checks proofs.
  - `radix.rs`, `nibbles.rs` — radix tries over the nibbles of byte keys.
  - `annotations.rs` — associative annotations and their combination.
  - `content.rs`, `store.rs` — encodings of values, sinks and sources, the
    in-memory store and the `Erased` reference into it.
  - `hashing.rs` — the calls into `bytehash` and `byteorder`, with the
    contracts the library relies on.
  - `laws.rs` — laws that relate several operations: each collection
    against the map model over any sequence of operations, the folds of
    the annotations, and the content encodings (one value per encoding).
- `tests/` — tests of the library, run against the compiled crate.
- `app/` — an on-disk backend and a persistent root, in plain Rust.
