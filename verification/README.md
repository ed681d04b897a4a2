# capbit

Capability-based access control as atomized data, as a verified library.

- `src/` — the library, verified with Verus:
  - `policy`, `table`, `model`, `capbit`: the store of ten ordered tables
    (role definitions, type parents, grants, materialized group closure,
    delegations, audit log) with three-bucket resolution
    (necessary / possible / denied), self-governing mutations and queries.
  - `mask_store`, `read`, `write`, `entity`, `bootstrap`, `planner`,
    `constants`, `db`: the bitmask store with roles and per-object
    inheritance, and the write batcher's merging and flush logic.
  - `graph`, `protected`, `system_cap`, `keys`, `order`, `sorting`,
    `entity_id`, `labels`, `text`: the string-labelled entity graph with
    typed entities, grants, capabilities, delegations and its key encodings.
  - `auth`, `hex`: token sessions and password credentials (SHA-256 via
    `sha2`, randomness via `getrandom`).
  - `laws`: properties of the library as a whole.
- `tests/` — tests of the library.
- `app/` — the host: fjall-backed persistence of the store (`persist`), the
  batcher's writer thread (`batcher`), an HTTP front end over the store
  (`ui`) and a REST server over the entity graph, held in memory (`server`).
