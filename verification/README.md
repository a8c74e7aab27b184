# rac_engine

The verified core of a decision-corpus engine: typed Markdown artifacts
(requirements, decisions, designs, ...) from one repository, optionally
composed with the read-only corpora it inherits from, are resolved, audited
and fingerprinted deterministically.

Every function under `src/` carries a contract that Verus proves. The
contracts speak of plain mathematical models (`Seq`, `Set`, `Multiset`,
spec functions of the text and byte formats).

## Layout

- `src/text.rs`, `src/order.rs`: strings as character sequences, key order,
  stable sorting by key, and the lemmas about orders and permutations.
- `src/corpus.rs`, `src/item.rs`: source-aware artifact identity and the
  artifact record.
- `src/composition.rs`: composition of a child corpus with one verified
  parent, override validation and reference resolution.
- `src/graph_*.rs`: the multi-parent graph composition (topology, items,
  overrides, projection to terminal redirects, and the composed view).
- `src/hashing.rs`, `src/federation.rs`, `src/federation_generation.rs`:
  framed byte preimages, parent digests and closure generations (SHA-256 is
  the one outside computation, through the `sha2` crate).
- `src/manifest.rs`, `src/federation_graph.rs`: the federation manifest's
  text rules, parent declarations, limits, and the decisions of the graph
  verification walk.
- `src/manifest_yaml.rs`: the YAML parse (through `serde_yaml`) and the
  shape a manifest's parsed YAML must have.
- `src/federation_capture.rs`: the decisions of capturing a version-2
  checkout and of verifying the root: containment, the declared
  `corpus.source`, manifest stability, devices, relative joins and
  exclusions.
- `src/federation_walk.rs`: the state of the graph verification walk and its
  step functions (begin an edge, accept its captured node, finish it).
- `src/incremental.rs`: incremental directory validation, which reuses a
  cached row for an unchanged file and takes a fresh one otherwise.
- `src/federated_corpus.rs`: the failures of a federated load, and the rule
  that a composition with any finding is refused.
- `src/derived_model.rs`: the check a federated derived model passes before
  it is served.
- `src/export.rs`: export pins, newline normalisation, public endpoint
  identities and the graph export's edges.
- `src/federation_observability.rs`, `src/coverage.rs`, `src/index.rs`,
  `src/herald.rs`, `src/derived.rs`, `src/budget.rs`, `src/commands.rs`:
  reports and projections built from the composed model.
- `app/`: what touches the file system or a serialisation format: JSON
  rendering of the observability reports, the inherited-corpus snapshot
  walk, the capture of checkouts and the root's files, the typed decoding of
  parsed manifest sections, and the driver of the graph verification walk.
- `tests/`: executable scenarios for the library.
