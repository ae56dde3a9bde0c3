# qiskit_providers

Verified building blocks for describing and preparing quantum programs that a backend
executes: program nodes and their type rules, trees of named or positional values, and the
transformations that cut a program into pieces of one resource category each. The library is
written in Verus: the public functions of `src/` state what they return in their contracts,
and Verus proves every function of `src/` but the few trusted items that call outside crates.

## Layout

- `src/data_tree.rs`: trees of values; flattening a tree against a template and filling a
  template back from flat values.
- `src/tensor.rs`: element types, dimensions, tensor types and broadcasting; tensors of packed
  words.
- `src/program_node.rs`: the node interface (names, declared input and output types, type
  resolution, calls on trees).
- `src/input.rs`, `src/shot_loop.rs`, `src/parameter_expressions.rs`,
  `src/nodes/bind_parameters.rs`, `src/math_nodes/`: the nodes themselves.
- `src/keywords.rs`: checking the keyword arguments of a program call.
- `src/addressing.rs`: addressing the values of a data tree by dotted path or position, and its
  mapping form.
- `src/program/`: programs as functions of nodes, and their contraction into per-resource units;
  the contracted program is proven to compute what the program computes, in both directions.
- `src/quantum_program/`: programs as graphs of labelled nodes with typed leaves, the
  region-assignment heuristic, boundary port keys, and contraction into regions; a program is
  refused exactly when its edges form a cycle, and the laws of contraction (well-formedness,
  regions in dependency order, no edge lost or added, the same input and output keys and types,
  and equivalence of the runs of the two programs) are stated there as public proof functions.
- `src/render.rs`: a program as a text listing and as a Graphviz drawing.
- `src/collections.rs`, `src/arrays.rs`, `src/text.rs`: the calls into `hashbrown`, `ndarray`
  and `std`, each behind a small trusted item whose contract is stated; the topological order
  of `rustworkx-core` is called from `src/quantum_program/regions.rs` in the same way.
- `tests/`: the test suite, run against the compiled library.
