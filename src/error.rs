//! Errors reported by the engine.

use vstd::prelude::*;

verus! {

/// Why a request produced no value.
#[derive(Clone, Copy, Debug, PartialEq, Eq, Structural)]
pub enum DiceError {
    /// The engine no longer accepts requests.
    EngineShuttingDown,
    /// A computation re-entered itself within one version's evaluation; the
    /// key re-entered. The whole chain is given by `CoreState::cycle_chain`.
    CycleDetected(usize),
    /// The user computation reported an error.
    ComputationFailed,
    /// The task was cancelled; no value was produced for it.
    Cancelled,
    /// The version named was never committed.
    UnknownVersion,
    /// The task named does not exist or has already finished.
    UnknownTask,
    /// A handle on the version was released that nobody held.
    NoActiveGuard,
}

} // verus!
