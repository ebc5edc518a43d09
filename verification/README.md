# st2

Critical-participation (CP) analysis of program activity graphs (PAGs) of
timely dataflow computations, and the logger that records such a
computation's events for the analysis.

`src/` is the verified library:

- `pag` — PAG nodes and edges.
- `explore` — the per-epoch exploration that propagates counts along the
  graph from a frontier, with its step semantics, termination law and the
  per-epoch state kept between notifications (`GroupExplorer`).
- `metric` — combining the forward and backward counts of an edge
  (`critical_participation`), `ScaleReduce`, `hash_code`.
- `time` — `Pair` timestamps and how they advance (`NextEpoch`).
- `logger` — the event logger as a state machine (`PagLogger`): which
  events are kept, when batches are written, and how capabilities move.
- `replay` — which logged sources each worker replays.

`app/` holds the timely dataflow operators, sockets and files around it.
`tests/` exercises the library on concrete graphs and event logs.
