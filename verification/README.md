# npe_graph

A node–port–edge graph for engineering schematics — circuit diagrams, block
diagrams, hydraulic and pneumatic schematics — written in Verus and proved
against a mathematical model.

A node is a component, a port is a connection point owned by exactly one
node, and an edge joins two ports. Every element carries user data and is
addressed by a stable, copyable identifier issued by a `slotmap` key
allocator.

## Layout

- `src/model.rs` — the model: three finite maps (nodes, ports, edges) and the
  structural invariant (every port belongs to one live node, every edge joins
  two distinct live ports, every list is duplicate-free).
- `src/graph.rs` — the graph itself, every operation specified over the model
  and over the identifiers it has ever issued, so that no identifier is
  handed out twice.
- `src/net.rs`, `src/union_find.rs` — nets: the connected components over
  ports, computed with a verified union-find.
- `src/traversal.rs` — connected components, cycle and cutset rank, and
  breadth- and depth-first search over the component graph.
- `src/rank.rs` — the rank law `V <= E + C`, which makes the cycle rank
  `E + C - V` exact and splits the edges between the two ranks.
- `src/cycle.rs` — links and open/closed cycles of a walk.
- `src/library.rs` — component templates stamped into a graph.
- `src/interop.rs` — projection onto a `petgraph` graph.
- `src/index.rs`, `src/traitless.rs`, `src/traits.rs` — a small
  index-addressed graph and the interfaces of data-carrying elements.
- `src/laws.rs` — laws that relate operations: what one undoes of another,
  and what removal takes with it.
- `src/persist.rs` — saving and loading a graph as plain values with the same
  identifiers; the key allocators go through `slotmap`'s own serde form.
- `src/slots.rs` — the trusted boundary to `slotmap`.
- `app/` — `Display`/`Error` and serde copies of library types.
