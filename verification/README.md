# persistent_artrie

The core of a persistent adaptive radix trie: an immutable overlay of path-copied
nodes under an atomically published root, with a write-ahead log, eviction of nodes
that are durable, and a serializer that writes path-compressed records.

- `src/` is the library. Its contracts are stated over mathematical models
  (`Tree` for overlay nodes, `Store` for records, sequences of bytes for the log)
  and proved with Verus.
  - `overlay/` holds nodes, point reads and writes, the published root, eviction,
    fault-in, the serializer, snapshot cursors and the state machines of durable
    writes.
  - `wal/` holds the log: codec, frames, header, records, the durable frontier,
    segment order and pruning, and what the writer decides.
  - `registry.rs` and `eviction.rs` hold registered disk locations and eviction
    batches; `version_gc.rs` the collection of old versions; `dirty_tracker.rs` and
    `dirty_tracking.rs` what a checkpoint has to write; `cursor_iter.rs`,
    `cursor_laws.rs` and `byte_order.rs` iteration in key order.
- `app/` does what the library asks for: files, threads, clocks and locks.
- `tests/` runs the library.

A few small wrappers around `arc-swap`, `smallvec`, `rustc-hash`, `dashmap` and the
standard library are trusted; the comment above each says what is taken for granted.
