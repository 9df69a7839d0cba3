# symnebula

SymNebula is a tick-driven engine for graphs of equations ("nebula
graphs"): nodes hold formulas, synapses carry values between them, and each
node moves through the states Gray, Yellow, Green and Purple as it is
solved. This crate is its verified core, written in Verus: every function in
`src/` carries a contract that Verus proves.

## Layout

- `src/state.rs` — node states.
- `src/text.rs` — verified string operations (trimming, searching, line
  splitting, decimal numbers, the `f64` literal grammar, string order and
  sorting) that the formats below are specified with.
- `src/brainstorm.rs` — the `.brainstorm` package's plain types, node
  status words, formula kinds, XML escaping, `version.txt`, and reuse of
  cached clusters between ticks.
- `src/graph_xml.rs` — reading and writing `graph.xml`, each specified line
  by line; `src/xml_roundtrip.rs` proves that writing a document and
  reading it back gives the same document.
- `src/graph_outline.rs` — building `graph.xml` from a graph, with the
  ports of each node inferred from its synapses and its formula.
- `src/expr.rs` — the equation language: reading `a + b = 10`, free
  symbols.
- `src/dag.rs` — dirty marking in the node DAG (exactly the nodes reached
  through clean consumers) and the ring of clusters.
- `src/compute.rs` — the adaptive scheduler that sends each cluster to the
  CPU or the GPU by its size.
- `src/solvers.rs`, `src/symbols.rs` — the solver registry and the
  per-node state kept by the equation solver.
- `src/viz.rs` — the tick table: recording ticks and laying out its lines.

`app/` is the program around the library: the simulation runner, the zip
and JSON side of `.brainstorm` files, the floating-point evaluation and
formatting, printing, and the tokio channels between clusters.

`tests/` exercises the library on concrete values.
