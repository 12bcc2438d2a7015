# reactive

Reactive values: plain values with getters and setters, derived values that
are computed lazily and remember their last result, reactions that run
whenever something they watch changes, and automatic disposal of what no one
holds any more.

- `src/spec.rs` — the mathematical model: nodes, links, what keeps a node
  alive, the depth-first order in which a change visits each node it reaches
  once (weak links before strong ones, each in the order made), and what each
  operation does.
- `src/graph.rs` — the verified graph: making nodes, linking them (cycles
  included), reading and writing, releasing, and the step-by-step
  propagation of a change.
- `src/laws.rs` — properties that span several operations, proved.
- `src/freshness.rs` — no read is stale: the invariant that every living
  clean derived node was recomputed after the last write to every value that
  feeds it, its preservation by each operation, and so by any sequence of
  operations from an empty graph.
- `app/` — the caller's side: the functions attached to derived nodes and
  reactions, the loop that runs a propagation, and the example program.
