# control_router

A verified library that follows a connection router without acting for it. It
replays the router's observed lifecycle, metadata, selection and balance events
against state of its own, and says how far the two agree.

* `src/shadow` holds the observers: the lifecycle ledger of an owner interval
  (`ledger`, `accounting`), bounded batches with their witnesses (`live`), native
  factor histories (`native`, `native_compute`, `native_values`) and private caller
  stages that commit as a whole or not at all (`live/caller`).
* `src/selector` and `src/simulation.rs` hold the decisions of the migration
  scheduler, with a round, a group's evaluation and a failover refresh as machines
  that name the next action and take its answer, and its effectless simulation
  queue.
* `src/ordered.rs`, `src/charge.rs`, `src/texts.rs`, `src/slices.rs` and
  `src/go_time.rs` are the parts that the rest is built from.
* `app` is ordinary Rust around the library: factor results and rates in floating
  point, the migration round over a router's ports, and the worker that drives it.

Public functions state exactly what they return and change, over models made of
sequences, sets and maps. What holds across several calls is stated by the public
proof functions whose names begin with `law_`.
