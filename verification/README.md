# onebarrier

A deterministic-replay replication engine over a totally ordered op stream,
verified with Verus. The engine applies each op to a replicated key-value
state machine exactly once (a per-client high-water mark suppresses
re-deliveries), and reports for every delivery what must be made durable: the
op's log record and, every `interval` applied ops, a snapshot. Recovery
installs the snapshot and replays the log with the same dedup.

## Layout

- `src/` — the verified library.
  - `engine.rs` — the engine, its model (`EngineModel`), recovery, state
    transfer, and the laws: recovery rebuilds the live model after any run of
    deliveries, re-delivery is suppressed, replaying covered records is a
    no-op, a read returns the last write.
  - `state.rs` — ops, their wire encoding, and `KvStore` (Redis semantics,
    snapshot and restore).
  - `durable.rs` — the log record format and its torn-tail-tolerant parser.
  - `resp.rs`, `server.rs` — the RESP protocol and its command executor.
  - `memcache.rs`, `txn.rs`, `streamlog.rs`, `http.rs` — the other request
    protocols: parsing, the ops each request delivers, and its reply.
  - `cluster.rs`, `bench.rs`, `sim.rs` — the deterministic parts of the
    experiments: workloads, expected states, verdicts, the seeded generator.
  - `linearizability.rs` — decides exactly whether a register history is linearizable.
  - `text.rs`, `wire.rs`, `sorted.rs` — text, byte and sorted-list helpers.
- `app/` — the I/O around it: files, sockets, threads, timing, the
  floating-point models, and the experiments on the ordering fabric.
- `tests/` — tests of the library.

Every library call that changes the engine returns the durable effects of the
ops it delivered; the caller writes them (in order) before releasing replies.
