//! Resource caps for plugin runs and the guard that checks observations
//! against them.
use vstd::prelude::*;
use crate::errors::AsmError;
use core::time::Duration;
use std::time::Instant;

verus! {

/// `std::time::Instant`, a point on the monotonic clock; opaque here.
#[verifier::external_type_specification]
#[verifier::external_body]
pub struct ExInstant(Instant);

/// `Instant::now`: the current time. Nothing is stated of it.
#[verifier::external_body]
fn instant_now() -> Instant {
    Instant::now()
}

/// `Instant::elapsed`: the time passed since `start`. Nothing is stated of it.
#[verifier::external_body]
fn instant_elapsed(start: &Instant) -> Duration {
    start.elapsed()
}

/// Limits on the resources a plugin run may use.
#[derive(Debug, Clone, Copy, PartialEq, Eq)]
pub struct SandboxCaps {
    pub cpu_time_seconds: u64,
    pub max_rss_mb: u64,
    pub tmpdir_mb: u64,
    pub wall_seconds: u64,
}

impl SandboxCaps {
    /// Generous limits: ten minutes of CPU, 4 GiB of memory, 1 GiB of
    /// temporary files, fifteen minutes of wall time.
    pub fn relaxed() -> (caps: SandboxCaps)
        ensures
            caps == (SandboxCaps { cpu_time_seconds: 600, max_rss_mb: 4096, tmpdir_mb: 1024, wall_seconds: 900 }),
    {
        SandboxCaps { cpu_time_seconds: 600, max_rss_mb: 4096, tmpdir_mb: 1024, wall_seconds: 900 }
    }
}

/// A resource measurement taken while a plugin runs.
#[derive(Debug, Clone, Copy, PartialEq, Eq)]
pub enum SandboxEvent {
    CpuSeconds(u64),
    MemoryMb(u64),
    TmpUsageMb(u64),
    WallSeconds(u64),
}

/// Whether the run may go on, or which limit it went past.
#[derive(Debug, Clone, Copy, PartialEq, Eq)]
pub enum SandboxDecision {
    Continue,
    Exceeded { resource: &'static str, limit: u64, observed: u64 },
}

/// The decision for one measurement: a measurement above its cap exceeds it.
pub open spec fn decide(caps: SandboxCaps, event: SandboxEvent) -> SandboxDecision {
    match event {
        SandboxEvent::CpuSeconds(v) => if v > caps.cpu_time_seconds {
            SandboxDecision::Exceeded { resource: "cpu", limit: caps.cpu_time_seconds, observed: v }
        } else {
            SandboxDecision::Continue
        },
        SandboxEvent::MemoryMb(v) => if v > caps.max_rss_mb {
            SandboxDecision::Exceeded { resource: "memory", limit: caps.max_rss_mb, observed: v }
        } else {
            SandboxDecision::Continue
        },
        SandboxEvent::TmpUsageMb(v) => if v > caps.tmpdir_mb {
            SandboxDecision::Exceeded { resource: "tmp", limit: caps.tmpdir_mb, observed: v }
        } else {
            SandboxDecision::Continue
        },
        SandboxEvent::WallSeconds(v) => if v > caps.wall_seconds {
            SandboxDecision::Exceeded { resource: "wall", limit: caps.wall_seconds, observed: v }
        } else {
            SandboxDecision::Continue
        },
    }
}

/// A measurement is reported exceeded only when it is above the limit the
/// report names, and that limit is the cap of the measurement's own resource:
/// CPU seconds against the CPU cap, memory against the memory cap, temporary
/// space against the temporary-space cap, wall-clock seconds against the
/// wall-clock cap. A measurement at or below its own cap lets the run go on.
pub proof fn lemma_decision_uses_own_cap(caps: SandboxCaps, event: SandboxEvent)
    ensures
        decide(caps, event) matches SandboxDecision::Exceeded { limit, observed, .. } ==> observed > limit,
        event matches SandboxEvent::CpuSeconds(v) ==> (decide(caps, event) is Continue <==> v <= caps.cpu_time_seconds)
            && (decide(caps, event) matches SandboxDecision::Exceeded { resource, limit, observed } ==> resource@
            == "cpu"@ && limit == caps.cpu_time_seconds && observed == v),
        event matches SandboxEvent::MemoryMb(v) ==> (decide(caps, event) is Continue <==> v <= caps.max_rss_mb)
            && (decide(caps, event) matches SandboxDecision::Exceeded { resource, limit, observed } ==> resource@
            == "memory"@ && limit == caps.max_rss_mb && observed == v),
        event matches SandboxEvent::TmpUsageMb(v) ==> (decide(caps, event) is Continue <==> v <= caps.tmpdir_mb)
            && (decide(caps, event) matches SandboxDecision::Exceeded { resource, limit, observed } ==> resource@
            == "tmp"@ && limit == caps.tmpdir_mb && observed == v),
        event matches SandboxEvent::WallSeconds(v) ==> (decide(caps, event) is Continue <==> v <= caps.wall_seconds)
            && (decide(caps, event) matches SandboxDecision::Exceeded { resource, limit, observed } ==> resource@
            == "wall"@ && limit == caps.wall_seconds && observed == v),
{
}

/// Watches a plugin run: its caps, when it started and the latest decision.
#[derive(Debug)]
pub struct SandboxGuard {
    caps: SandboxCaps,
    start: Instant,
    last_decision: SandboxDecision,
}

impl SandboxGuard {
    pub closed spec fn spec_caps(&self) -> SandboxCaps {
        self.caps
    }

    pub closed spec fn spec_last_decision(&self) -> SandboxDecision {
        self.last_decision
    }

    /// Starts watching a run under `caps`, with nothing exceeded yet.
    pub fn new(caps: SandboxCaps) -> (g: SandboxGuard)
        ensures
            g.spec_caps() == caps,
            g.spec_last_decision() == SandboxDecision::Continue,
    {
        SandboxGuard { caps, start: instant_now(), last_decision: SandboxDecision::Continue }
    }

    /// The caps of the run.
    pub fn caps(&self) -> (c: SandboxCaps)
        ensures
            c == self.spec_caps(),
    {
        self.caps
    }

    /// Records a measurement and returns the decision for it, which becomes
    /// the latest decision.
    pub fn observe(&mut self, event: SandboxEvent) -> (d: SandboxDecision)
        ensures
            d == decide(old(self).spec_caps(), event),
            d matches SandboxDecision::Exceeded { limit, observed, .. } ==> observed > limit,
            final(self).spec_caps() == old(self).spec_caps(),
            final(self).spec_last_decision() == d,
    {
        let decision = match event {
            SandboxEvent::CpuSeconds(value) => if value > self.caps.cpu_time_seconds {
                SandboxDecision::Exceeded { resource: "cpu", limit: self.caps.cpu_time_seconds, observed: value }
            } else {
                SandboxDecision::Continue
            },
            SandboxEvent::MemoryMb(value) => if value > self.caps.max_rss_mb {
                SandboxDecision::Exceeded { resource: "memory", limit: self.caps.max_rss_mb, observed: value }
            } else {
                SandboxDecision::Continue
            },
            SandboxEvent::TmpUsageMb(value) => if value > self.caps.tmpdir_mb {
                SandboxDecision::Exceeded { resource: "tmp", limit: self.caps.tmpdir_mb, observed: value }
            } else {
                SandboxDecision::Continue
            },
            SandboxEvent::WallSeconds(value) => if value > self.caps.wall_seconds {
                SandboxDecision::Exceeded { resource: "wall", limit: self.caps.wall_seconds, observed: value }
            } else {
                SandboxDecision::Continue
            },
        };
        self.last_decision = decision;
        decision
    }

    /// The decision for the latest measurement (`Continue` before any).
    pub fn last_decision(&self) -> (d: &SandboxDecision)
        ensures
            *d == self.spec_last_decision(),
    {
        &self.last_decision
    }

    /// Fails when the latest measurement went past its cap.
    pub fn ensure_within(&self) -> (r: Result<(), AsmError>)
        ensures
            match self.spec_last_decision() {
                SandboxDecision::Continue => r is Ok,
                SandboxDecision::Exceeded { resource, limit, observed } => r == Err::<(), AsmError>(
                    AsmError::SandboxLimit { resource, limit, observed },
                ),
            },
    {
        match self.last_decision {
            SandboxDecision::Continue => Ok(()),
            SandboxDecision::Exceeded { resource, limit, observed } => Err(
                AsmError::SandboxLimit { resource, limit, observed },
            ),
        }
    }

    /// The time since the guard was created.
    pub fn elapsed(&self) -> Duration {
        instant_elapsed(&self.start)
    }
}

} // verus!
