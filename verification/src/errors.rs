//! The error type shared by the graph engine and the plugin host.
use vstd::prelude::*;

verus! {

/// Failures reported by the library. Each variant carries the values that
/// identify the failure; `code` gives its stable textual code.
#[derive(Debug, Clone, PartialEq, Eq)]
pub enum AsmError {
    /// A node id does not name a live node.
    UnknownNode { node: u64 },
    /// An edge id does not name a live hyperedge.
    UnknownEdge { edge: u64 },
    /// The endpoint counts violate the configured uniformity rule.
    InvalidArity { sources: usize, destinations: usize },
    /// Adding the edge would push a node past the outbound degree cap.
    OutDegreeCap { node: u64, cap: usize, attempted: usize },
    /// Adding the edge would push a node past the inbound degree cap.
    InDegreeCap { node: u64, cap: usize, attempted: usize },
    /// A live hyperedge with the same endpoints already exists.
    DuplicateEdge,
    /// The edge would close a directed cycle while causal mode is on.
    WouldCreateCycle,
    /// A hyperedge needs at least one source and one destination.
    EmptyEndpoints,
    /// A node with incident edges cannot be removed.
    NodeNotIsolated { node: u64, in_edges: usize, out_edges: usize },
    /// A node to retarget away from is not a destination of the edge.
    MissingDestination { edge: u64, node: u64 },
    /// Retargeting would leave the edge without destinations.
    EmptyDestinations,
    /// A generator was asked for a graph without nodes.
    EmptyGraph,
    /// The graph has no live node.
    NoNodes,
    /// The plugin was built against another ABI version.
    AbiMismatch { plugin: u32, host: u32 },
    /// The plugin manifest has a blank name.
    ManifestName,
    /// The plugin manifest has a blank version.
    ManifestVersion,
    /// The plugin manifest has a blank license.
    ManifestLicense,
    /// A sandbox resource went past its limit.
    SandboxLimit { resource: &'static str, limit: u64, observed: u64 },
    /// The stored plugin binary does not match its recorded hash.
    RegistryHash { expected: String, actual: String },
    /// The stored manifest does not match its recorded hash.
    RegistryManifestHash { expected: String, actual: String },
    /// A trajectory to measure has no step.
    EmptyTrajectory,
    /// A measurement asks for no bins.
    ZeroBins,
    /// A coupling fit has no observable to fit.
    InsufficientObservables,
    /// A curvature proxy asks for no averaging round.
    ZeroIterations,
}

impl AsmError {
    /// The stable textual code of the error, as a sequence of characters.
    pub open spec fn spec_code(&self) -> Seq<char> {
        match self {
            AsmError::UnknownNode { .. } => "unknown-node"@,
            AsmError::UnknownEdge { .. } => "unknown-edge"@,
            AsmError::InvalidArity { .. } => "invalid-arity"@,
            AsmError::OutDegreeCap { .. } => "out-degree-cap"@,
            AsmError::InDegreeCap { .. } => "in-degree-cap"@,
            AsmError::DuplicateEdge => "duplicate-edge"@,
            AsmError::WouldCreateCycle => "would-create-cycle"@,
            AsmError::EmptyEndpoints => "empty-endpoints"@,
            AsmError::NodeNotIsolated { .. } => "node-not-isolated"@,
            AsmError::MissingDestination { .. } => "missing-destination"@,
            AsmError::EmptyDestinations => "empty-destinations"@,
            AsmError::EmptyGraph => "empty-graph"@,
            AsmError::NoNodes => "no-nodes"@,
            AsmError::AbiMismatch { .. } => "asm_host.abi_mismatch"@,
            AsmError::ManifestName => "asm_host.manifest_name"@,
            AsmError::ManifestVersion => "asm_host.manifest_version"@,
            AsmError::ManifestLicense => "asm_host.manifest_license"@,
            AsmError::SandboxLimit { .. } => "asm_host.sandbox_limit"@,
            AsmError::RegistryHash { .. } => "asm_host.registry_hash"@,
            AsmError::RegistryManifestHash { .. } => "asm_host.registry_manifest_hash"@,
            AsmError::EmptyTrajectory => "empty-trajectory"@,
            AsmError::ZeroBins => "zero-bins"@,
            AsmError::InsufficientObservables => "insufficient-observables"@,
            AsmError::ZeroIterations => "zero-iterations"@,
        }
    }

    /// Returns the stable textual code of the error.
    pub fn code(&self) -> (code: String)
        ensures
            code@ == self.spec_code(),
    {
        let text: &str = match self {
            AsmError::UnknownNode { .. } => "unknown-node",
            AsmError::UnknownEdge { .. } => "unknown-edge",
            AsmError::InvalidArity { .. } => "invalid-arity",
            AsmError::OutDegreeCap { .. } => "out-degree-cap",
            AsmError::InDegreeCap { .. } => "in-degree-cap",
            AsmError::DuplicateEdge => "duplicate-edge",
            AsmError::WouldCreateCycle => "would-create-cycle",
            AsmError::EmptyEndpoints => "empty-endpoints",
            AsmError::NodeNotIsolated { .. } => "node-not-isolated",
            AsmError::MissingDestination { .. } => "missing-destination",
            AsmError::EmptyDestinations => "empty-destinations",
            AsmError::EmptyGraph => "empty-graph",
            AsmError::NoNodes => "no-nodes",
            AsmError::AbiMismatch { .. } => "asm_host.abi_mismatch",
            AsmError::ManifestName => "asm_host.manifest_name",
            AsmError::ManifestVersion => "asm_host.manifest_version",
            AsmError::ManifestLicense => "asm_host.manifest_license",
            AsmError::SandboxLimit { .. } => "asm_host.sandbox_limit",
            AsmError::RegistryHash { .. } => "asm_host.registry_hash",
            AsmError::RegistryManifestHash { .. } => "asm_host.registry_manifest_hash",
            AsmError::EmptyTrajectory => "empty-trajectory",
            AsmError::ZeroBins => "zero-bins",
            AsmError::InsufficientObservables => "insufficient-observables",
            AsmError::ZeroIterations => "zero-iterations",
        };
        String::from_str(text)
    }
}

} // verus!
