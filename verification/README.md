# oxgraph-db

An incidence-first embedded graph database core, written in Verus. Elements
and relations are joined by incidences that carry a role; properties hang off
elements, relations and incidences; a catalog names roles, labels, relation
types, property keys, projections and indexes.

## Layout

- `src/` — the verified library.
  - `state.rs`: the canonical database state and its lookups.
  - `overlay.rs`, `overlay/log.rs`, `overlay/frame.rs`: the write overlay,
    its replayable log and what replaying a frame rebuilds, the published
    overlay and the merged read view over a base.
  - `catalog.rs`, `schema.rs`, `typed.rs`, `read.rs`: catalog, typed schema
    handles and owned read views.
  - `wire.rs`, `wire/defs.rs`, `wire/base.rs`, `codec.rs`, `crc.rs`,
    `wal.rs`: the on-disk record formats and the decoding of base records,
    the delta-log framing and replay, and the superblock.
  - `projection.rs`, `traversal.rs`: graph and hypergraph projections and
    bounded breadth-first walks over them.
  - `text.rs`, `value.rs`, `query.rs`: the OxQL and Cypher query profiles,
    planning, explanation and execution.
- `tests/` — tests run against the compiled library.
- `app/` — file handling for the superblock and delta log, and serializable
  copies of the value types.

The library's public functions carry `requires`/`ensures` contracts proved
by Verus, and the laws the library keeps stand as public proof functions
beside the code they speak of. One small function, `utf8_string` in
`overlay/log.rs`, is trusted: it calls the standard library's UTF-8
validation, and its contract restates that function's documentation.
