# cadence

A verified replicated growable array (RGA): the sequence CRDT behind a real-time
collaborative plain-text editor, together with the decisions of its relay server.

- `src/id.rs`: `OpId`, the globally unique, totally ordered character id.
- `src/layout.rs`: the mathematical model. A document is a sequence of nodes
  (tombstones included); `wf` is the layout invariant (the sequence is the preorder
  walk of the anchor forest, siblings in descending id order); `rga_insert` and
  `rga_delete` are the two transitions; `text_of` is the visible text.
- `src/rga.rs`: `Rga`, whose operations are proved to implement the transitions.
- `src/op.rs`: `Operation` and its effect `apply_op`.
- `src/doc.rs`: `Doc`, a site's view: local edits at text positions, a Lamport clock,
  remote operations.
- `src/convergence.rs`: the convergence theorem (any two causal delivery orders of the
  same operations give the same document) and the harmlessness of redelivery.
- `src/history.rs`: each `Doc` call as a step of a state machine, and the laws over
  whole call sequences: fixed site id, increasing minted ids, no id reuse across
  sites, a replica reproducing a local edit, and convergence of replicas fed with
  minted operations.
- `src/models.rs`, `src/relay.rs`, `src/rooms.rs`: the relay server's wire messages,
  its per-connection decisions, and its registry of document rooms.
- `app/`: the WebAssembly bindings and the relay server's HTTP/WebSocket/Postgres
  plumbing, which call into the library.
