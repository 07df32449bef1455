# redirectfs

A redirect-based file system core whose rules are proved with Verus:
content-addressed chunks named by their BLAKE3 digest, a write-ahead log
of transactions, a versioned metadata store with compare-and-swap commits
and a directory namespace, a two-tier chunk cache, staging slots and a
garbage collector.

## Layout

- `src/` — the verified library.
  - `wal.rs` — log records, transaction rules (which ids may begin, which
    records an open transaction appends), the bookkeeping rebuilt from a log.
  - `frame.rs` — the byte framing of log records, reading a whole log, and
    the repair of a damaged tail.
  - `recovery.rs` — the replay after a restart and the write-pipeline rules.
  - `lifecycle.rs` — the order of the steps of a write and of a delete, as
    step functions from state and outcome to next state and action.
  - `metadata.rs` — file records, commits, tombstones, directories, renames.
  - `cache.rs` — least-recently-used tiers and the two-tier cache.
  - `gc.rs` — candidate scans, retention, delete budgets, scheduling totals.
  - `staging.rs`, `chunk_store.rs`, `path_resolver.rs`, `service.rs`,
    `config.rs` — slots, chunk naming, canonical paths, the service rules,
    and the demo settings.
  - `encoding.rs`, `text.rs`, `keyed.rs`, `namespace.rs`, `clock.rs` —
    shared helpers: hexadecimal and decimal text, string operations, string
    keyed maps and sets, path helpers, and clock readings.
- `app/` — the process-level parts: files, SQLite, JSON, threads and the
  environment, wired around the library.
- `tests/` — tests of the library on concrete values.
