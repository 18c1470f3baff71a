# icm_store

The storage layer of ICM, a long-term memory for coding agents, written in
Verus: every table operation carries a contract and is proved against it.

## What is stored

- **Memories** — topic, summary, keywords, importance, weight (fixed point,
  `WEIGHT_ONE` = 1.0), links to other memories. Duplicates by normalised
  `(topic, summary)` (SHA-256 content hash) are merged; decay, pruning,
  consolidation, keyword and full-text search, pattern detection.
- **Facts** — versioned `(entity, key) → value` slots with history; at most
  one active row per slot.
- **Memoirs** — concept graphs: memoirs, concepts with labels, typed links
  kept free of cycles, neighbourhoods and searches.
- **Transcripts** — sessions and their messages, with FTS5 search and
  statistics.

`SqliteStore` holds the tables and a read-through LRU cache of memories
(kept coherent with the table). On a store opened read-only, memory writes
are refused with `ReadOnly`; the other writes meet the database's own
"attempt to write a readonly database" error. Failed writes change nothing. `PostgresStore` and `OpenSearchStore` hold
what those backends decide on this side of the wire.

## Layout

- `src/` — the verified library. `laws.rs` (and a few `law_*` functions
  beside the operations they speak of) states the properties that span
  several operations.
- `tests/` — executable tests of the library.
- `app/` — the unverified edges: opening SQLite files, saving the tables
  to a file and loading them back through the library's checked restore
  operations, JSON documents of the OpenSearch backend, and the
  floating-point scoring of graph expansion and of the PostgreSQL hybrid
  search.

Calls into `chrono`, `ulid`, `sha2`, `lru`, `rusqlite` (FTS5) and a few
`std` character functions stand behind small trusted wrappers whose
contracts are stated in their doc comments.
