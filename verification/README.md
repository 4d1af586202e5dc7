# sdivi

The verified compute core of a structural divergence indexer: it measures
how the structure of a codebase changes between snapshots.

`src/` is a Verus library. Every function in it carries a contract; Verus
proves each one, except the small `#[verifier::external_body]` wrappers
around globset, blake3, petgraph, tree-sitter, chrono and a few std
functions, whose contracts are trusted and say in their doc comments what
they claim of the outside code. The modules:

- `input`, `coupling`, `boundaries`, `expiry` — node ID validation, coupling
  topology of an input graph, boundary violations against declared
  boundaries, and expiry of per-category threshold overrides.
- `graph`, `metrics`, `cycles`, `connectivity`, `path`, `sort` — the
  dependency graph (on petgraph) and its metrics: density, back edges of a
  depth-first search, weakly connected components, top hubs.
- `rust_parse`, `repository`, `resolve`, `syntax`, `lang_rust`,
  `feature_record`, `text` — parsing Rust sources with tree-sitter, choosing
  a language adapter by file extension, ordering records by path, feature
  extraction from the syntax tree, and import resolution into a graph.
- `fingerprint`, `patterns`, `catalog` — keyed blake3 pattern fingerprints,
  per-category pattern counts, and the pattern catalog built from parsed
  files.
- `partition`, `warm_start`, `history`, `leiden` — community partitions,
  warm starts, agreement of prior partitions, and the integer core of
  community detection (renumbering, the working graph, aggregation,
  per-community tallies and their incremental upkeep as nodes move).

`app/` is ordinary Rust around the library: serde record types, the
partition cache on disk, and the floating-point formulas (entropy,
densities, modularity, thresholds) computed from the library's exact counts.

Not part of this crate: the Leiden run itself (local moves with
floating-point gains, refinement, recursion) and boundary detection built on
it, the move gain of the quality function beyond `app/`'s formulas, the
repository walk and parallel parsing, the snapshot pipeline, and change
coupling. These are floating-point or I/O work, or rest on parts that are
not available here.
