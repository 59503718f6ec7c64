# asm_engine

A directed hypergraph engine with rewiring moves, canonical hashing, graph
generators, a plugin host and experiment bookkeeping, written in Verus.

- `src/` is the verified library. `hypergraph.rs` holds the graph and its
  well-formedness invariant; `graph_spec.rs` is its mathematical model
  (`GraphView`), against which every operation's contract is stated.
  `rewire.rs`, `generators.rs`, `hash.rs` and `serialization.rs` build on it;
  `host/` covers the plugin ABI, manifests, the sandbox and the plugin
  registry; `experiments.rs`, `gauge.rs` and `interaction.rs` hold the
  integer logic of the experiment, gauge and interaction pipelines.
  `curvature.rs` gives the neighbourhoods the curvature proxies average
  over. `laws.rs` states the properties that relate several operations.
- `tests/` runs the library on concrete values.
- `app/` is the unverified shell around it: file and database I/O, serde
  formats, dynamic plugin tables, and the floating-point numerics.

## What is not here

These functions of the engine's pipelines are not part of this crate:
`deform`, `estimate_gaps`, `canonical_state_hash`, `build_rep`,
`analyze_gauge`, `ward_check`, `prepare_state`, `evolve`, `interact`,
`interact_full` and `fit_running`. They take their inputs from the engine's
core, code, renormalisation, spectrum and automorphism crates (state
references, codes, spectrum and automorphism reports), which this crate does
not have, and most of what they compute is floating point. The integer parts
they share with the rest of the engine (`seed_from_hash`, `effective_steps`,
`generator_count`, the defaults) are in `src/interaction.rs` and
`src/gauge.rs`.
