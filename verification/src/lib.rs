//! Deterministic directed hypergraph engine, plugin host rules and experiment
//! helpers, with their contracts proved by Verus.
pub mod ids;
pub mod errors;
pub mod flags;
pub mod graph_spec;
pub mod paths;
pub mod hypergraph;
pub mod slots;
pub mod serialization;
pub mod order;
pub mod hash;
pub mod rng;
pub mod rewire;
pub mod generators;
pub mod host;
pub mod experiments;
pub mod interaction;
pub mod gauge;
pub mod curvature;
pub mod laws;
