//! Rules of the sandboxed plugin host: ABI compatibility, plugin manifests,
//! resource caps and the hashes recorded by the plugin registry.
pub mod abi;
pub mod manifest;
pub mod sandbox;
pub mod registry;
