# mini_lsm

A log-structured merge-tree storage engine, verified with Verus.

- `src/` is the library. It holds the formats (blocks, tables, bloom filters, the write-ahead log),
  the iterators, compaction with its three strategies, version control and transactions. Every
  function has a contract, and the laws that span functions stand beside them as public proof
  functions.
- `tests/` runs the library.
- `app/` is the engine around it: files, locks, background threads and the records of the manifest.

Where to begin: `key.rs` (keys, versions and their order), `iterators.rs` (what an iterator hands
out), `snapshot.rs` (what is visible at a point in time), `compact/gc.rs` (what a compaction keeps),
`compact/reads.rs` (why no read notices it) and `compact/listed.rs` (which tables are in place
afterwards).

The library trusts `crc32fast`, `farmhash` and `crossbeam-skiplist` for what `hash.rs` and
`skiplist.rs` state of them. `farmhash` overflows on some keys of 5 to 24 bytes: such keys are left
out by contract, and `hash::can_hash` tells them.
