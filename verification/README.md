# vecsearch

Approximate nearest-neighbour search building blocks, verified with Verus.

The library (`src/`) holds the ranking, graph, candidate and bookkeeping
logic of several vector-search techniques. Distances and similarities are
computed by the caller and handed in as order keys (`u64` values that sort
like the underlying scores), so every contract speaks of integers, sequences
and positions:

- `rank`, `lex`: stable top-k selection and the `(key, id)` order, with the
  laws that the selected keys depend only on the multiset of input keys.
- `filtered`, `acorn`, `planner`, `knn_graph`: filtered search (pre-filter,
  post-filter, ACORN-style graph expansion) and the selectivity planner.
- `nsw`, `nsw_search`, `nsw_laws`: navigable small-world graph insertion and
  beam search, with the distance-adaptive early stop.
- `hybrid`: the sparse/dense hybrid graph index.
- `codeq`: streaming code tables (lazy and eager reassignment, stale counts,
  flush) and k-NN over codes.
- `rabitq`: 1-bit code packing, Hamming distance, flat and IVF bit stores.
- `pdx`: row-major, columnar and tiled columnar scans with tile pruning.
- `speculative`: int8 dot products, draft-then-verify search.
- `mrl`: cascaded search over embedding prefixes.
- `maxsim`: late-interaction indexes (linear, centroid-pruned, projected).
- `recall`, `oracle`: recall counting and the contracts on caller closures.

`app/` holds what stays outside verification: floating-point distance
kernels, k-means, quantiser training, random data and the demo scenarios.
`tests/` runs the library on concrete inputs.
