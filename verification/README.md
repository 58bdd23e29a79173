# in_memory_cache

A Redis-compatible in-memory cache whose core is verified with Verus.

`src/` is the verified library:

- `number`, `frame`, `frame_text`, `frame_laws`: decimal numbers, the RESP wire
  format (checking, parsing, writing, inline commands) and its round-trip laws.
- `glob`, `glob_laws`: Redis-style glob patterns, and what literal bytes, `*`, `?`,
  escapes and classes match.
- `db`, `db_list`, `db_hash`, `db_members`, `db_keys`: the sharded keyspace with
  strings, lists, hashes and sets, expiry, the memory estimate, approximated LRU
  eviction (SET evicts exactly while the new entry would not fit and a sample can
  find a victim), active expiry sampling (rounds stopped by the sampled share of
  expired keys), `KEYS` and `SCAN`.
- `cmd`: parsing requests into commands and running them against the keyspace; the
  SET command evicts as `Db::set` does and no other command evicts.
- `aof`: replaying an append-only log of requests, each replayed SET evicting as
  the command does.
- `metrics`: counters, the recent-latency buffer over any run of recordings,
  latency order statistics, `/proc` parsing and
  human-readable byte sizes.
- `web`: the monitoring endpoint's routing, query settings, simulated traffic and
  response texts.
- `laws`, `memory_laws`, `call_laws`: properties that span several operations or
  several calls at different instants, among them that every command keeps the
  memory estimate equal to the sum of the entries' sizes.

Each operation's contract is stated over a mathematical model of the keyspace
(`DbModel`) and of frames (`FrameModel`).

`app/` is the server around it: the TCP listener and connections (tokio), the
publish/subscribe hub, the append-only file writer, the background expiry sweep and
the float-valued metric reports and the HTTP side of the dashboard. `tests/`
exercises the library.
