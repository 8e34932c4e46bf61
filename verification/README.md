# rgctl_analysis

Verified analysis core for code graphs, written in Verus.

`src/` is the library. Its functions carry `requires`/`ensures` contracts, and Verus
proves each function against its contract; the one that reads the system clock states
nothing of the reading. It covers:

- syntax trees held as plain values (kinds, fields, byte spans, children), with
  definition/use extraction over them and coarse function skeletons;
- control-flow graphs: blocks, edges, reachability, path enumeration, DOT output;
- dominator sets and dominator trees, both tied to dominance by paths;
- reaching definitions;
- alias sets;
- call graphs: lookup, topological order, recursion through strongly connected components;
- dependency analysis: circular dependencies and depth-limited impact radius;
- blast radius: depth-limited caller search, condensation of the call graph into strongly connected components, the
  DAG between them, reachability rows over it, and impact zones (everything upstream);
- code-property-graph export: scope filtering, edge numbering and XML escaping;
- the CFG/PDG archive, analysis-pack index, snapshot and skeleton archive framing;
- community detection and labels;
- calendar policies;
- complexity reports;
- the integer parts of approximate centrality.

Outside crates (`bit-set`, `zstd`, `petgraph`) are called through small trusted wrappers.
Each wrapper's doc comment says what its contract claims.

`app/` holds what Verus does not check: file and memory-mapped I/O, serde copies of library
types, the conversion of tree-sitter trees into the library's syntax trees, and the
floating-point metrics.

`tests/` runs the library on concrete inputs.
