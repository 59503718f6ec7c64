//! Configuration of the hypergraph: causal mode, degree caps and uniformity.
use vstd::prelude::*;

verus! {

/// Version triple recorded alongside serialized graphs.
#[derive(Debug, Clone, Copy, PartialEq, Eq)]
pub struct SchemaVersion {
    pub major: u32,
    pub minor: u32,
    pub patch: u32,
}

impl SchemaVersion {
    /// Builds a version triple.
    pub fn new(major: u32, minor: u32, patch: u32) -> (v: SchemaVersion)
        ensures
            v == (SchemaVersion { major, minor, patch }),
    {
        SchemaVersion { major, minor, patch }
    }
}

/// Describes the uniformity constraints applied to newly created hyperedges.
#[derive(Debug, Clone, Copy, PartialEq, Eq)]
pub enum KUniformity {
    /// The total number of incident nodes (sources + destinations) must match
    /// `total`, with at least `min_sources` sources and one destination.
    Total { total: usize, min_sources: usize },
    /// Sources and destinations must individually match the configured counts.
    Balanced { sources: usize, destinations: usize },
}

impl KUniformity {
    /// Whether a hyperedge with the given endpoint counts satisfies the rule.
    pub open spec fn allows(self, sources: int, destinations: int) -> bool {
        match self {
            KUniformity::Total { total, min_sources } => sources + destinations == total
                && sources >= min_sources && destinations >= 1,
            KUniformity::Balanced { sources: s, destinations: d } => sources == s
                && destinations == d,
        }
    }

    /// Validates the provided endpoint counts against this uniformity rule.
    pub fn validate(&self, sources: usize, destinations: usize) -> (ok: bool)
        ensures
            ok == self.allows(sources as int, destinations as int),
            *self matches KUniformity::Total { total, .. } ==> (ok ==> sources + destinations == total),
            *self matches KUniformity::Balanced { sources: s, destinations: d } ==> (ok ==> sources == s && destinations == d),
    {
        match self {
            KUniformity::Total { total, min_sources } => {
                sources as u128 + destinations as u128 == *total as u128 && sources >= *min_sources
                    && destinations >= 1
            },
            KUniformity::Balanced { sources: s, destinations: d } => sources == *s && destinations
                == *d,
        }
    }
}

/// Configuration options that control the behaviour of a hypergraph.
#[derive(Debug, Clone, Copy)]
pub struct HypergraphConfig {
    /// Whether causal mode is enabled (cycle-introducing operations are rejected).
    pub causal_mode: bool,
    /// Maximum inbound degree permitted for any node.
    pub max_in_degree: Option<usize>,
    /// Maximum outbound degree permitted for any node.
    pub max_out_degree: Option<usize>,
    /// Optional arity constraint enforced on every hyperedge.
    pub k_uniform: Option<KUniformity>,
    /// Schema version stored alongside serialized payloads.
    pub schema_version: SchemaVersion,
}

impl HypergraphConfig {
    /// Whether a hyperedge with the given endpoint counts meets the uniformity rule, if any.
    pub open spec fn arity_ok(self, sources: int, destinations: int) -> bool {
        match self.k_uniform {
            None => true,
            Some(rule) => rule.allows(sources, destinations),
        }
    }

    /// The configuration used when none is given: causal mode, both degree
    /// caps at 8 and balanced 2-to-2 hyperedges, schema 2.0.0.
    pub open spec fn spec_default() -> HypergraphConfig {
        HypergraphConfig {
            causal_mode: true,
            max_in_degree: Some(8),
            max_out_degree: Some(8),
            k_uniform: Some(KUniformity::Balanced { sources: 2, destinations: 2 }),
            schema_version: SchemaVersion { major: 2, minor: 0, patch: 0 },
        }
    }
}

impl Default for HypergraphConfig {
    fn default() -> (config: HypergraphConfig)
        ensures
            config == HypergraphConfig::spec_default(),
    {
        HypergraphConfig {
            causal_mode: true,
            max_in_degree: Some(8),
            max_out_degree: Some(8),
            k_uniform: Some(KUniformity::Balanced { sources: 2, destinations: 2 }),
            schema_version: SchemaVersion::new(2, 0, 0),
        }
    }
}

/// Tracks the maximum degree configuration exposed by the graph.
#[derive(Debug, Clone, Copy)]
pub struct DegreeLimits {
    /// Maximum inbound degree permitted for any node.
    pub max_in: Option<usize>,
    /// Maximum outbound degree permitted for any node.
    pub max_out: Option<usize>,
}

impl DegreeLimits {
    /// Returns a descriptor with no limits.
    pub fn unlimited() -> (limits: DegreeLimits)
        ensures
            limits.max_in is None,
            limits.max_out is None,
    {
        DegreeLimits { max_in: None, max_out: None }
    }
}

} // verus!
