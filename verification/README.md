# zydecodb-engine

A log-structured merge storage engine whose logic is verified with Verus.

Writes go to a log and a memtable; full memtables become immutable tables; tables are
merged downwards by leveled compaction. Readers see one version of every key, at the
newest sequence number or below a snapshot's ceiling.

## Layout

- `src/` is the verified library. What the engine decides and computes is here, stated over
  sets of versions, catalogs and byte sequences; not here are figures with a fraction, and
  the ledger of the tenants' shares, whose verdicts are arguments.
  - `keys`, `entry`, `records`, `store`: versions, their order, and what a reader gets
    from a set of them.
  - `memtable`, `sstable`, `bloom`, `iter`, `snapshot`, `owned_snapshot`: the layers and
    reading through them.
  - `wal`, `manifest`, `table_file`, `frame`, `codec`, `checksum`: the formats of the
    log, the catalog, the tables and the wire.
  - `compaction`, `compaction_worker`, `flush_worker`, `apply_worker`: planning and
    running background work.
  - `block_cache`, `result_cache`, `reader_cache`, `sorted_map`, `stable_sort`: caches
    and collections.
  - `change_log`, `shipping`: archiving, logical changes, and shipping of segments.
  - `engine`: the engine that ties these together. `engine/laws.rs`,
    `engine/durability.rs`, `engine/history.rs`, `engine/torn.rs`, `engine/scans.rs` and
    `engine/compact.rs` state what holds of it as a whole.
  - `harness`: the reference model and the decisions of the test programs.
- `tests/` runs the library.
- `app/` is ordinary Rust around the library: files, threads, metrics and the programs
  `engine-model`, `engine-soak`, `tenant-isolation-soak`, `bench-regression` and
  `crash-soak-integrity`.

## What the library leaves to its owner

The library does no input or output. An owner appends the bytes of a staged write to the
log and reports how that went, runs the jobs that the engine hands out, and writes the
records of a finished job to the manifest before publishing it. Time, the outcome of a
sync and the verdict of a fairness check are arguments.

## What is trusted

Three calls into other crates are believed as their contracts state them: the CRC-32
checksum of `crc32fast`, the SHA-256 digest of `sha2`, and the seeded hash of
`xxhash-rust`. Each result is a named function of the call's arguments.
