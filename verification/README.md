# slate

A stratified hash tree: an append-only list with a Merkle tree over it, stored as one entry per
value. Every earlier generation of the tree stays readable, an entry is reached from the latest one
by reading at most as many entries as the tree is high, and a sample of a value (the value and the
hash values beside its path) tells whether two trees are the same, or below which nodes they differ.

- `src/` is the library, verified with Verus. What it relies on without proof are the hash functions
  (`src/hash.rs`), the reading of little-endian numbers (`src/serialize.rs`), `String::push`
  (`src/text.rs`), `Arc::clone` and `Arc::make_mut` (`src/shared.rs`).
- A reader, and a query with it, keeps the entries that were stored when it was made. It does not see
  what is appended later, and in memory it does not see what is removed later either: a removed entry
  can still be read through it. Views of files and of RocksDB share what is stored with the others,
  and reading a removed entry through them fails.
- `tests/` holds the tests.
- `app/` puts the library on files and on RocksDB, prints reports, and gives errors their sources.
