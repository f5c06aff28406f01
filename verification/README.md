# rust_kv

A write-behind key-value store for NodeJS: string keys and values live in an
in-memory map; when the map grows past a memory budget, its least frequently
read entries are written to SQLite and dropped from memory, and reads that
miss in memory are answered from SQLite.

Layout:

- `src/` is the verified library (Verus).
  - `table.rs`: the keyed table behind both maps (a slot vector plus a hash
    index from key to slot), with its well-formedness invariant.
  - `listing.rs`: what it means for a sequence to list a map's entries, and
    the cursor that iterations read from.
  - `kv_map.rs`: `KVMap`, the plain map.
  - `dual_kv.rs`: `DualKV`, the read-counting cache, and eviction planning
    (least frequently read first, as many as the excess share says).
  - `batch.rs`: batches of evicted entries, their insert statement and
    parameters.
  - `human.rs`: numbers with digits grouped by commas, for reports.
  - `store.rs`: what the cache and the backing store show together, the
    laws that writes, reads, eviction rounds and deletes keep it a map, and
    the statement that drops a deleted key from the store.
- `app/` is the NodeJS binding (napi), the SQLite store (rusqlite) and the
  eviction worker threads; it calls the library for every decision.
- `tests/` runs the library on concrete values.
