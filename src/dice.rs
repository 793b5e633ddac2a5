//! The engine as its users see it: a key index, the versioned state, and the
//! global values it was built with; builders for the engine and for
//! transactions.

use vstd::prelude::*;
use crate::data::DiceData;
use crate::key_index::DiceKeyIndex;
use crate::state::{after_invalidation, CoreState, Metrics};
use crate::tasks::after_commit;

verus! {

/// A committed version.
#[derive(Clone, Copy, Debug, PartialEq, Eq, Structural, PartialOrd, Ord, Hash)]
pub struct VersionNumber(pub usize);

/// Whether a computation that re-enters itself within one version fails.
#[derive(Clone, Copy, Debug, PartialEq, Eq, Structural)]
pub enum DetectCycles {
    Enabled,
    Disabled,
}

/// Values a caller attaches to one transaction.
pub struct UserComputationData {
    pub data: DiceData,
}

impl UserComputationData {
    /// Carries no value.
    pub fn new() -> (r: UserComputationData)
        ensures
            r.data@.len() == 0,
    {
        UserComputationData { data: DiceData::new() }
    }
}

/// A snapshot of the engine for diagnostics.
pub struct GraphIntrospectable {
    /// The key value of each identifier.
    pub key_names: Vec<String>,
    /// Every current dependency edge `(key, dependency)`.
    pub edges: Vec<(usize, usize)>,
    /// Counters taken at the same instant.
    pub metrics: Metrics,
}

/// Collects the global values an engine is built with.
pub struct DiceModernDataBuilder(pub DiceData);

impl DiceModernDataBuilder {
    /// A builder with no value.
    pub fn new() -> (r: DiceModernDataBuilder)
        ensures
            r.0@.len() == 0,
    {
        DiceModernDataBuilder(DiceData::new())
    }

    /// Sets global slot `slot` to `val`; a later set of the same slot wins.
    pub fn set(&mut self, slot: u64, val: i64)
        ensures
            final(self).0@ == old(self).0@.push((slot, val)),
            final(self).0.value(slot) == Some(val),
            forall|s: u64| s != slot ==> #[trigger] final(self).0.value(s) == old(self).0.value(s),
    {
        self.0.set(slot, val);
    }

    /// An engine at version 0 holding the values set.
    pub fn build(self, detect_cycles: DetectCycles) -> (r: DiceModern)
        ensures
            r.wf(),
            r.global_data@ == self.0@,
            r.state.history().len() == 1,
            r.state.history()[0]@ == self.0@,
            r.key_index@.len() == 0,
            r.state.nodes().len() == 0,
            r.state.tasks().len() == 0,
            r.state.guards() == seq![0u64],
            r.cycle_mode() == detect_cycles,
    {
        DiceModern::with_cycles(self.0, detect_cycles)
    }
}

/// The engine: the key index, the versioned state and the values it was
/// built with.
pub struct DiceModern {
    pub key_index: DiceKeyIndex,
    pub state: CoreState,
    pub global_data: DiceData,
}

/// Changes staged for one commit.
pub struct TransactionUpdater {
    pub changes: DiceData,
    pub extra: UserComputationData,
}

/// What a commit hands back: the new version and the data attached to the
/// transaction.
pub struct TransactionCtx {
    pub version: VersionNumber,
    pub extra: UserComputationData,
}

impl DiceModern {
    pub open spec fn wf(&self) -> bool {
        self.key_index.wf() && self.state.wf()
    }

    pub open spec fn cycle_mode(&self) -> DetectCycles {
        if self.state.cycles_detected() {
            DetectCycles::Enabled
        } else {
            DetectCycles::Disabled
        }
    }

    /// An engine over `global_data` with cycle detection on.
    pub fn new(global_data: DiceData) -> (r: DiceModern)
        ensures
            r.wf(),
            r.global_data@ == global_data@,
            r.state.history().len() == 1,
            r.state.history()[0]@ == global_data@,
            r.key_index@.len() == 0,
            r.state.nodes().len() == 0,
            r.state.tasks().len() == 0,
            r.state.guards() == seq![0u64],
            r.cycle_mode() == DetectCycles::Enabled,
    {
        DiceModern::with_cycles(global_data, DetectCycles::Enabled)
    }

    fn with_cycles(global_data: DiceData, detect_cycles: DetectCycles) -> (r: DiceModern)
        ensures
            r.wf(),
            r.global_data@ == global_data@,
            r.state.history().len() == 1,
            r.state.history()[0]@ == global_data@,
            r.key_index@.len() == 0,
            r.state.nodes().len() == 0,
            r.state.tasks().len() == 0,
            r.state.guards() == seq![0u64],
            r.cycle_mode() == detect_cycles,
    {
        let initial = global_data.copy();
        let detect = match detect_cycles {
            DetectCycles::Enabled => true,
            DetectCycles::Disabled => false,
        };
        DiceModern { key_index: DiceKeyIndex::new(), state: CoreState::new(initial, detect), global_data }
    }

    /// A builder for an engine.
    pub fn builder() -> (r: DiceModernDataBuilder)
        ensures
            r.0@.len() == 0,
    {
        DiceModernDataBuilder::new()
    }

    /// A transaction with no change staged and no data attached.
    pub fn updater(&self) -> (r: TransactionUpdater)
        ensures
            r.changes@.len() == 0,
            r.extra.data@.len() == 0,
    {
        self.updater_with_data(UserComputationData::new())
    }

    /// A transaction with no change staged that carries `extra`.
    pub fn updater_with_data(&self, extra: UserComputationData) -> (r: TransactionUpdater)
        ensures
            r.changes@.len() == 0,
            r.extra == extra,
    {
        TransactionUpdater::new(extra)
    }

    /// Whether cycle detection is on.
    pub fn detect_cycles(&self) -> (r: DetectCycles)
        ensures
            r == self.cycle_mode(),
    {
        if self.state.detects_cycles() {
            DetectCycles::Enabled
        } else {
            DetectCycles::Disabled
        }
    }

    /// Counters of the engine at this instant.
    pub fn metrics(&self) -> (r: Metrics)
        requires
            self.wf(),
        ensures
            r == self.state.metrics_spec(),
    {
        self.state.metrics()
    }

    /// Whether no task is waiting to unwind after being asked to stop.
    pub fn is_idle(&self) -> (r: bool)
        ensures
            r == self.state.idle(),
    {
        self.state.is_idle()
    }

    /// The identifier of `key`, handing out the next one on first sight.
    pub fn intern(&mut self, key: &String) -> (r: usize)
        requires
            old(self).wf(),
        ensures
            final(self).wf(),
            (final(self).key_index@, r as int) == crate::key_index::intern_spec(old(self).key_index@, key@),
            final(self).state == old(self).state,
            final(self).global_data == old(self).global_data,
    {
        self.key_index.intern(key)
    }

    /// A snapshot of the key names, dependency edges and counters, taken at
    /// one instant.
    pub fn to_introspectable(&self) -> (r: GraphIntrospectable)
        requires
            self.wf(),
        ensures
            r.key_names@.len() == self.key_index@.len(),
            forall|i: int| 0 <= i < r.key_names@.len() ==> #[trigger] r.key_names@[i]@ == self.key_index@[i],
            forall|x: int| 0 <= x < r.edges@.len() ==> self.state.has_edge(#[trigger] r.edges@[x].0 as int, r.edges@[x].1),
            forall|k: int, d: usize| #[trigger] self.state.has_edge(k, d) ==> r.edges@.contains((k as usize, d)),
            r.metrics == self.state.metrics_spec(),
    {
        let mut key_names: Vec<String> = Vec::new();
        let n = self.key_index.len();
        let mut i: usize = 0;
        while i < n
            invariant
                i <= n,
                n == self.key_index@.len(),
                key_names@.len() == i,
                forall|j: int| 0 <= j < i ==> #[trigger] key_names@[j]@ == self.key_index@[j],
            decreases n - i,
        {
            key_names.push(self.key_index.resolve(i).clone());
            i = i + 1;
        }
        GraphIntrospectable { key_names, edges: self.state.edges(), metrics: self.state.metrics() }
    }
}

impl TransactionUpdater {
    /// A transaction with no change staged that carries `extra`.
    pub fn new(extra: UserComputationData) -> (r: TransactionUpdater)
        ensures
            r.changes@.len() == 0,
            r.extra == extra,
    {
        TransactionUpdater { changes: DiceData::new(), extra }
    }

    /// Stages slot `slot` to take `val`; a later set of the same slot wins.
    pub fn set(&mut self, slot: u64, val: i64)
        ensures
            final(self).changes@ == old(self).changes@.push((slot, val)),
            final(self).changes.value(slot) == Some(val),
            forall|s: u64| s != slot ==> #[trigger] final(self).changes.value(s) == old(self).changes.value(s),
            final(self).extra == old(self).extra,
    {
        self.changes.set(slot, val);
    }

    /// Commits every staged change at once as the next version.
    pub fn commit(self, dice: &mut DiceModern) -> (r: TransactionCtx)
        requires
            old(dice).wf(),
            old(dice).state.history().len() < usize::MAX,
        ensures
            final(dice).wf(),
            r.version.0 == old(dice).state.current() + 1,
            r.version.0 == final(dice).state.current(),
            final(dice).state.history().subrange(0, r.version.0 as int) == old(dice).state.history(),
            forall|s: u64| #[trigger] final(dice).state.global_at(r.version.0 as int, s) == (match self.changes.value(s) {
                Some(v) => Some(v),
                None => old(dice).state.global_at(old(dice).state.current(), s),
            }),
            final(dice).state.nodes().len() == old(dice).state.nodes().len(),
            forall|k: int| 0 <= k < final(dice).state.nodes().len() ==> {
                &&& (#[trigger] final(dice).state.nodes()[k]).dependents == old(dice).state.nodes()[k].dependents
                &&& final(dice).state.nodes()[k].entries@.len() == old(dice).state.nodes()[k].entries@.len()
                &&& forall|i: int| 0 <= i < final(dice).state.nodes()[k].entries@.len()
                    ==> #[trigger] final(dice).state.nodes()[k].entries@[i] == after_invalidation(
                        old(dice).state.nodes()[k].entries@[i],
                        old(dice).state.history().last(),
                        final(dice).state.history()[r.version.0 as int],
                        r.version.0,
                    )
            },
            final(dice).state.tasks().len() == old(dice).state.tasks().len(),
            forall|i: int| 0 <= i < final(dice).state.tasks().len() ==> #[trigger] final(dice).state.tasks()[i] == after_commit(
                old(dice).state.tasks()[i],
                old(dice).state.history()[old(dice).state.tasks()[i].version as int],
                final(dice).state.history()[r.version.0 as int],
            ),
            final(dice).state.guards() == old(dice).state.guards().push(1),
            final(dice).state.cycles_detected() == old(dice).state.cycles_detected(),
            r.extra == self.extra,
            final(dice).key_index == old(dice).key_index,
            final(dice).global_data == old(dice).global_data,
    {
        let v = dice.state.commit(&self.changes);
        TransactionCtx { version: VersionNumber(v), extra: self.extra }
    }
}

} // verus!
