# mini-lsm

The on-disk structures and the compaction rules of a log-structured merge tree, written in Rust and
verified with Verus.

- `src/block.rs`, `src/block/`: blocks of key-value entries. The builder writes them, the iterator
  reads and searches them; what was added is what is read back.
- `src/wal.rs`: the records of the write-ahead log, with their checksums, and their replay.
- `src/compact.rs`, `src/compact/`: leveled and tiered compaction, the choice between strategies,
  cutting merged entries into tables, and what every compaction keeps: no table is lost, none is
  listed twice, and levels stay runs.
- `src/lsm_storage.rs`, `src/table.rs`, `src/ids.rs`, `src/key.rs`: the state of the tree, what
  compaction knows of a table, lists of tables, keys and their order.
- `src/double.rs`: comparisons of sizes at the precision of an IEEE double, decided in integers.
- `src/buf.rs`: big-endian numbers in byte strings, read and written by the `bytes` crate.
- `app/`: files, locks and threads around the library.

What is not proved stands in `src/buf.rs` and `src/wal.rs`: the contracts of the functions of
`bytes`, `crc32fast` and `crossbeam-skiplist` that the library calls, and of `u16::to_ne_bytes`.
