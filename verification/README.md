# tiered_storage

Block storage in two tiers. A small, fast hot store holds every table and the
recent blocks; a large cold store holds the headers, bodies, receipts and
transaction locations of older ones. Writes go to the hot store. Reads of these
four warm tables try the hot store first and fall through to the cold one. A
worker moves the blocks that have left the hot window, copying before deleting,
so that a read never misses an entry, wherever the worker stops.

The library is verified with Verus. Its contracts and laws are stated over the
contents of the two stores, as maps from table names to entries.

- `src/api.rs`: what a store offers; `src/batch.rs`: batches of changes.
- `src/tiers.rs`: what a pair of stores stands for, what moving blocks does, and
  the laws of both.
- `src/copying.rs`: copying and deleting entries; `src/blocks.rs`: those of one
  block; `src/migration.rs`: the migration of blocks, its passes and its cursor;
  `src/worker.rs`: what the worker does between passes.
- `src/tiered.rs`: the tiered store and its reads; `src/chained.rs`: the merge of
  a hot and a cold scan; `src/scan.rs`: what a scan leads with.
- `src/memory.rs`: a store in memory, on top of `src/ordered.rs`, a map in the
  order of byte strings, which `src/bytes.rs` defines.
- `src/admin.rs`: answers to administrative requests, with `src/json.rs`,
  `src/log_filter.rs` and `src/text.rs` for what they are made of.
- `app/`: the migration thread, serialisation and the log handle.

Functions of `serde_json`, `tracing_subscriber`, `hex` and the standard library
that the library calls without proof are declared in `src/json.rs`,
`src/log_filter.rs`, `src/text.rs` and `src/tables.rs`; the doc comment of each
says what is taken from it.
