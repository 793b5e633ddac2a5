//! In-flight evaluations of a key at a version.

use vstd::prelude::*;
use crate::data::DiceData;
use crate::graph::agree_on;

verus! {

/// Where an evaluation stands.
#[derive(Clone, Copy, Debug, PartialEq, Eq, Structural)]
pub enum TaskState {
    Running,
    Completed,
    Failed,
    Cancelled,
}

/// One evaluation of `key` at `version`.
pub struct Task {
    pub key: usize,
    pub version: usize,
    pub state: TaskState,
    /// Set when a newer commit made the evaluation obsolete; the computation
    /// is expected to notice and unwind.
    pub cancel_requested: bool,
    /// The evaluation that asked for this one, if any.
    pub parent: Option<usize>,
    /// Global slots read so far, directly or through cached keys.
    pub slot_deps: Vec<u64>,
    /// Keys read so far.
    pub key_deps: Vec<usize>,
}

/// The task is running and nobody asked it to stop.
pub open spec fn is_active(t: Task) -> bool {
    t.state == TaskState::Running && !t.cancel_requested
}

/// The task has not yet reached a final state, whether or not it was asked
/// to stop.
pub open spec fn is_running(t: Task) -> bool {
    t.state == TaskState::Running
}

/// The task was asked to stop and has not yet reached a final state.
pub open spec fn is_pending_cancellation(t: Task) -> bool {
    t.state == TaskState::Running && t.cancel_requested
}

/// At most one running task exists for each key and version.
pub open spec fn at_most_one_running(tasks: Seq<Task>) -> bool {
    forall|i: int, j: int|
        0 <= i < tasks.len() && 0 <= j < tasks.len() && is_running(#[trigger] tasks[i])
            && is_running(#[trigger] tasks[j]) && tasks[i].key == tasks[j].key
            && tasks[i].version == tasks[j].version ==> i == j
}

/// The task after a commit that brought the global values `new`, given the
/// values `seen` at the task's version: an active task one of whose slot
/// dependencies changed is asked to stop.
pub open spec fn after_commit(t: Task, seen: DiceData, new: DiceData) -> Task {
    if is_active(t) && !agree_on(t.slot_deps@, seen, new) {
        Task { cancel_requested: true, ..t }
    } else {
        t
    }
}

} // verus!
