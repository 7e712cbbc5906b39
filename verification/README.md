# conservation_spectral_topology

Spectral and structural analysis of graph-structured tile systems, written in
Verus. The library (`src/`) holds the exact, integer and combinatorial logic,
each function with a contract that Verus proves; `app/` holds the
floating-point side (nalgebra eigen-decompositions and SVD, statistics,
`f64` ratios, printed reports) and calls into the library.

Library modules:

- `laplacian` — Laplacians of cycle, path and complete graphs, with proved
  symmetry, zero row sums and traces.
- `laplacian_energy` — the quadratic form `x^T L x` of each of them equals the
  sum of `(x_i - x_j)^2` over the graph's edges, so they are positive
  semidefinite.
- `cycles` — call-graph metrics (nodes, edges, self-calls, mutual call pairs,
  hubs above mean + 2 std, densities as exact ratios); `cycle_order` proves
  that they do not depend on the order of the graph's entries.
- `compiler` — dead code elimination and JIT selection of tiles, with proved
  partition laws.
- `sweep` — edge counts of the prefix cuts of a vertex order (the counting
  step of the Cheeger sweep cut).
- `holographic` — the holographic bound estimate `max(1, ceil(log2 b + d/2))`,
  computed exactly.
- `ecosystem`, `ratio` — shared types.
