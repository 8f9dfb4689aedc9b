# extraction_gym

Benchmarks for e-graph extraction algorithms, with the logic they share
written in Verus and proved against its contracts.

## Layout

- `src/egraph.rs` — e-graphs in the simple text format (one e-node per line,
  `class, cost, op, children...`, with `## root:` comments): classes
  numbered by first mention, costs kept as text for the caller to parse.
- `src/extract.rs` — extraction results over a numbered e-graph
  (`indexed_egraph.rs`): choosing e-nodes, the search for cycles among the
  chosen e-nodes, and the validity check.
- `src/extract/maxsat.rs` — the weighted partial MaxSAT problem in WCNF text:
  the problem writer and the Tseytin encoding of cycle constraints;
  `maxsat/problem.rs` writes the whole problem of an extraction;
  `maxsat/reply.rs` reads the solver's answer and the e-nodes it sets;
  `maxsat/cycles.rs` is the class graph with the e-node variables on its
  edges, `cycles/scc.rs` its strongly connected components (Tarjan) and
  `cycles/johnson.rs` its elementary cycles.
- `src/extract/faster_ilp_cbc.rs` — the structural passes of the CBC-based
  extractor: reachability, classes with a single parent, e-nodes that loop,
  and the search for cycles in a solver's solution; `faster_ilp_cbc/rows.rs`
  the implications that the integer program's rows state, and the members
  read back from a solution.
- `src/extract/compact_egraph.rs` — a compact layout of an e-graph: e-nodes
  in class order with sorted child classes, and each class's parents.
- `src/extract/prio_queue.rs`, `bottom_up_analysis.rs` — the work queues of
  the extractors.
- `src/val_trie/` — persistent hash sets (a hash trie with a group aggregate).
- `app/` — the command-line program: reading e-graphs, the extractors that
  compute with floating-point costs, and the calls to external solvers.
- `tests/` — tests of the library on concrete values.
