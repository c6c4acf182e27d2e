# infino

A verified library for tables that live on object storage: immutable
superfiles, a two-tier manifest that lists them, and searches over a pinned
snapshot. Verus proves every function of `src/` against its contract.

- `src/storage` object keys, connection options, credentials, and the reads of
  byte ranges that ask again for what is missing.
- `src/superfile` the container format, byte sources in memory and in parts,
  vectors as bits: narrow forms, order keys, sampling, spilled rows.
- `src/supertable` the table: manifest parts, lists and pointers, partitions,
  the handle with its snapshots, caches, deleted rows, row ids, and the
  planning and merging of vector searches.
- `src/numbers.rs`, `src/text.rs`, `src/order.rs`, `src/ids.rs` bytes, text,
  sorting and identifiers.
- `tests/` runs the library with the crates that it calls.
- `app/` ordinary Rust around it: storage clients, the runtime, memory maps,
  arithmetic on floating-point numbers, and SQL table functions.

What the library takes on trust is marked `external_body` or declared beside
the call: the codecs, the digest, the concurrent maps, the bitmaps, Arrow
arrays, the random generator and the object-store client. The doc comment of
each says what is claimed of it.
