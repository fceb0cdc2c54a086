# kvstore

A standalone in-memory transactional key-value store whose logic is verified with Verus.

There are two stores.

- The **key table** keeps the current value of each key, with the log position (LSN) of the
  transaction that last changed it. Its log is cut into segments, and a snapshot holds the table at
  one LSN.
- The **versioned store** keeps every version of a key and can be read at any committed LSN. Its log
  is one file, rewritten when a snapshot is taken.

Both commit multi-key transactions with compare-and-swap conditions: all of a transaction or nothing,
under one LSN, on disk before it is acknowledged.

## Layout

| Where | What |
|---|---|
| `src/order.rs`, `src/keymap.rs` | byte strings in lexicographic order; a map sorted by key |
| `src/text.rs` | numbers, trimming, UTF-8 and base64 as text |
| `src/error.rs` | errors with their kinds, codes, statuses and messages |
| `src/config.rs`, `src/address.rs` | settings and their validation; socket addresses |
| `src/endian.rs`, `src/frame.rs` | little-endian numbers; frames with checksums |
| `src/layout.rs`, `src/record.rs` | the bytes of log records and snapshot entries |
| `src/snapshot.rs`, `src/wal.rs` | snapshots and the segmented log |
| `src/table.rs`, `src/engine.rs` | the key table, and the key table with its log |
| `src/store.rs`, `src/timeline.rs` | the versioned store, and what holds of it over time |
| `src/journal.rs` | the bytes of the versioned store's files |
| `src/api.rs`, `src/metrics.rs` | the HTTP interface of the key table |
| `src/server.rs` | the HTTP interface of the versioned store |
| `src/seed.rs` | the demo workload |
| `app/` | files, locks and HTTP around the library |
| `tests/` | tests |

The library reads and writes no files. `app/` hands it the bytes of the files, writes what it plans,
and tells it what has become durable.

## Running

`DATA_DIR`, `LISTEN_ADDR`, `MAX_KEY_BYTES`, `MAX_VALUE_BYTES`, `MAX_TXN_OPS` (or `MAX_OPS_PER_TXN`) and
`COMPACTION_THRESHOLD_BYTES` (or `WAL_COMPACT_THRESHOLD`) configure the service; an illegal value stops
it at startup. The program serves the key table, or with the argument `versioned` the versioned store.
