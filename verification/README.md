# rpc_core

Health tracking for a pool of upstream RPC providers, shared between nodes by
gossip, written in Verus.

- `src/` is the verified library. `registry.rs` holds the registry and the
  model (`RegistryView`) that every operation's contract is stated over;
  `state.rs` what is kept per provider and per peer; `health.rs` the scores,
  thresholds and the arithmetic of observations; `ranking.rs` the order of
  listings and a stable insertion sort proved against it; `text.rs` URL
  normalization, decimal rendering and string order; `errors.rs` the HTTP
  error type; `probe.rs` turning a probe's answer into its outcome; `clock.rs` the clocks;
  `laws.rs` properties that span operations.
- `app/` is the service around it: the JSON wire types, the HTTP error
  response, and the background tasks that probe providers and gossip with
  peers.
- `tests/` exercise the library on concrete values.

Time enters the library as plain numbers (nanoseconds); every operation
that reads a clock has a variant ending in `_at` that takes the time as an
argument and has an exact contract.
