# anchors

Self-adjusting computations: values on a recomputation graph that are brought
up to date incrementally, both on demand (pull) and, for nodes marked
observed, as soon as an input changes (push).

## Layout

- `src/` — the verified library (Verus).
  - `singlethread/graph2.rs`: the recomputation graph: an arena of nodes with
    clean-parent and necessary-child edges, one recalculation queue per height,
    a free list of slots, and height raising with loop detection.
  - `singlethread/engine.rs`: the engine: observed / necessary bookkeeping,
    dirty marking, the stabilization loop's decisions, requests between nodes.
  - `singlethread/generation.rs`: the stabilization counter.
  - `singlethread/laws.rs`: properties spanning several operations.
  - `fakeheap.rs`, `nodequeue.rs`, `refcounter.rs`, `slots.rs`: a bucketed heap,
    and the reference counts kept in a `slotmap` secondary map.
  - `var.rs`, `constant.rs`, `ext.rs`, `poll.rs`: what vars, constants and the
    derived nodes (`map`, `then`, `cutoff`, `refmap`, collections) answer when polled.
- `app/` — the typed, generic surface (`Anchor<T>`, `Var`, `AnchorExt`, the
  engine that stores and polls user computations, and `im` ordered-map
  helpers). It runs the loops that poll user computations and calls the
  user's closures, and drops the computation of a node once the library has
  freed it; what to answer, which node comes next and what to mark is asked of
  the library's functions.
- `tests/` — tests of the library, including a small runtime over the verified
  engine that replays the usage scenarios.
