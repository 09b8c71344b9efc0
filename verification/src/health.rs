//! Health of one edge server: whether it answers its probes, and how loaded
//! it last said it was.

use vstd::prelude::*;

verus! {

/// The highest load at which a server is still handed out: 90 percent. Loads
/// count thousandths of a percent.
pub const LOAD_LIMIT: u32 = 90_000;

/// Seconds between two probes of one edge server.
pub const PROBE_INTERVAL: u64 = 5;

/// What is known of one edge server's health.
#[derive(Clone, Copy, Debug, PartialEq, Eq, Structural)]
pub struct HealthState {
    /// Whether the last probe was answered.
    pub available: bool,
    /// The load that the server last reported, in thousandths of a percent.
    pub load: u32,
}

/// How one probe of an edge server ended.
#[derive(Clone, Copy, Debug, PartialEq, Eq, Structural)]
pub enum ProbeOutcome {
    /// The server answered, and its answer reads as this load.
    Reading(u32),
    /// The server answered, but its answer is no number.
    Unreadable,
    /// The server did not answer.
    Unreachable,
}

impl HealthState {
    /// The state of a server that has not been probed yet: available and idle.
    pub open spec fn initial() -> HealthState {
        HealthState { available: true, load: 0 }
    }

    /// Whether a server in this state may be handed out.
    pub open spec fn eligible(self) -> bool {
        self.available && self.load <= LOAD_LIMIT
    }

    /// The state after a probe. An answer makes the server available, and a
    /// readable one sets the load; an unreadable answer and a missing one both
    /// leave the load as it was.
    pub open spec fn after(self, outcome: ProbeOutcome) -> HealthState {
        match outcome {
            ProbeOutcome::Reading(load) => HealthState { available: true, load },
            ProbeOutcome::Unreadable => HealthState { available: true, load: self.load },
            ProbeOutcome::Unreachable => HealthState { available: false, load: self.load },
        }
    }

    /// The state of a server that has not been probed yet.
    pub fn new() -> (state: HealthState)
        ensures
            state == HealthState::initial(),
    {
        HealthState { available: true, load: 0 }
    }

    /// Whether a server in this state may be handed out.
    pub fn is_eligible(&self) -> (yes: bool)
        ensures
            yes == self.eligible(),
    {
        self.available && self.load <= LOAD_LIMIT
    }

    /// The state after a probe.
    pub fn apply(&self, outcome: ProbeOutcome) -> (next: HealthState)
        ensures
            next == self.after(outcome),
    {
        match outcome {
            ProbeOutcome::Reading(load) => HealthState { available: true, load },
            ProbeOutcome::Unreadable => HealthState { available: true, load: self.load },
            ProbeOutcome::Unreachable => HealthState { available: false, load: self.load },
        }
    }
}

} // verus!
