# larql

Verified building blocks of a layer-sharded inference stack.

- `src/arith` — the arithmetic expert: exact integers, expressions, and how an
  expression is read off a prompt or off a model's answer.
- `src/grid` — the router's view of the grid: which server a request goes to,
  which ranges have too few or too many replicas, how spares are assigned, and
  which ranges are hot.
- `src/kv` — key/value caches: handles, the host and device backends, and the
  engine with its sliding window.
- `src/rebalancer.rs` — settings and order of the rebalancer's scans.
- `src/metric.rs`, `src/text.rs` — measured values and text.

Numbers that come out of numeric kernels are carried as their single-precision
bits; the library stores, moves and compares them and never computes with them.
The kernels, timers, locks and logging are in `app`.

Matrices are `ndarray` arrays behind the wrappers in `src/kv/matrix.rs`.
Messages to servers go through `tokio` channels behind a wrapper in
`src/grid/protocol.rs`, which also wraps the `Debug` text of a string. Everything
else in `src` is proved.
