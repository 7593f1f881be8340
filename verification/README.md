# kaizen

The storage core of an agent-session recorder, written in Verus: every function of the
library states what it computes in its contract, and Verus proves it.

## Layout

- `src/` — the verified library.
  - `projector`, `projector_spans`, `projector_hierarchy`, `tool_span`: the incremental
    projector that turns events into closed tool spans and first-seen files, skills and
    rules, per session.
  - `span_tree`: assembles span rows into a forest.
  - `event`, `event_index`, `event_codec`, `rows`: events, sessions, JSON payloads, what
    they report, and how they are flattened into rows and read back.
  - `hot_log`: the byte format of the append log (header, checksummed frames, index keys
    and per-session summaries).
  - `cold_parquet`: day partitioning and chunking of events for Parquet files.
  - `guidance`, `remote_cache`, `group`, `rank`, `session_query`, `schema`, `outbox`:
    report counts, aggregates of pulled events, listing queries, configuration parsing and
    the legacy outbox migration.
  - `text`, `table`: strings, sorted sequences and sorted string-keyed tables.
- `tests/` — tests run against the compiled library.
- `app/` — the code around the library that does file, database and network-facing work
  (SQLite, redb, memory maps, Parquet, rkyv) and floating-point report figures.

The public proof functions (`lemma_*`) state the properties that hold across calls, such
as that a log written as frames reads back every record, that a torn log reads back a
prefix, that rows read back as the events and sessions written, and that replaying an
event reports nothing new.
