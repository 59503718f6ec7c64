//! The plugin ABI: version, status codes and capability flags.
use vstd::prelude::*;
use crate::errors::AsmError;

verus! {

/// The ABI version this host speaks.
pub const ASM_ABI_VERSION: u32 = 1;

/// Result returned by plugin entrypoints.
#[derive(Debug, Clone, Copy, PartialEq, Eq, Structural)]
pub struct AsmStatus {
    pub code: i32,
    pub message_len: usize,
}

impl AsmStatus {
    /// The status of a successful call: code zero and no message.
    pub fn ok() -> (s: AsmStatus)
        ensures
            s.code == 0,
            s.message_len == 0,
    {
        AsmStatus { code: 0, message_len: 0 }
    }

    /// Whether the status reports success (code zero).
    pub fn is_ok(self) -> (b: bool)
        ensures
            b == (self.code == 0),
    {
        self.code == 0
    }
}

/// What a plugin can do; each capability is one bit of a capability mask.
#[derive(Debug, Clone, Copy, PartialEq, Eq, Structural)]
pub enum Capability {
    Graph,
    Code,
    Spectrum,
    Gauge,
    Interact,
    Rg,
    Exp,
}

impl Capability {
    /// The bit of the capability in a capability mask.
    pub open spec fn spec_flag(self) -> u32 {
        match self {
            Capability::Graph => 1,
            Capability::Code => 2,
            Capability::Spectrum => 4,
            Capability::Gauge => 8,
            Capability::Interact => 16,
            Capability::Rg => 32,
            Capability::Exp => 64,
        }
    }

    /// The bit of the capability in a capability mask.
    pub fn flag(self) -> (f: u32)
        ensures
            f == self.spec_flag(),
    {
        match self {
            Capability::Graph => 1,
            Capability::Code => 2,
            Capability::Spectrum => 4,
            Capability::Gauge => 8,
            Capability::Interact => 16,
            Capability::Rg => 32,
            Capability::Exp => 64,
        }
    }
}

/// Checks that a plugin built for ABI `abi_version` can be loaded by this host.
pub fn verify_abi_compat(abi_version: u32) -> (r: Result<(), AsmError>)
    ensures
        r is Ok <==> abi_version == ASM_ABI_VERSION,
        r is Err ==> r == Err::<(), AsmError>(AsmError::AbiMismatch { plugin: abi_version, host: ASM_ABI_VERSION }),
{
    if abi_version != ASM_ABI_VERSION {
        return Err(AsmError::AbiMismatch { plugin: abi_version, host: ASM_ABI_VERSION });
    }
    Ok(())
}

} // verus!
