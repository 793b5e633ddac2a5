//! The engine's state: the history of global values by version, the
//! dependency graph, the registry of evaluations and the count of handles
//! that keep each version alive. One owner applies requests to it one at a
//! time; each method here is one such request.

use vstd::prelude::*;
use crate::data::DiceData;
use crate::error::DiceError;
use crate::graph::{
    agree, agree_on, entry_sound, graph_sound, lemma_entry_close, lemma_entry_extend, valid_at,
    CacheEntry, GraphNode,
};
use crate::tasks::{after_commit, at_most_one_running, is_active, is_pending_cancellation, is_running, Task, TaskState};

verus! {

/// An entry after a commit from `last` to `new` at version `v`: an open entry
/// one of whose slot dependencies changed is closed at `v`.
pub open spec fn after_invalidation(e: CacheEntry, last: DiceData, new: DiceData, v: usize) -> CacheEntry {
    if e.valid_until is None && !agree_on(e.slot_deps@, last, new) {
        CacheEntry { valid_until: Some(v), ..e }
    } else {
        e
    }
}

/// Closes the open entries of `entries` that a commit from `last` to `new`
/// at version `v` invalidates.
fn invalidate_entries(
    entries: &mut Vec<CacheEntry>,
    last: &DiceData,
    new: &DiceData,
    v: usize,
    Ghost(h): Ghost<Seq<DiceData>>,
)
    requires
        h.len() > 0,
        h.last() == *last,
        v == h.len(),
        forall|i: int| 0 <= i < old(entries)@.len() ==> entry_sound(h, #[trigger] old(entries)@[i]),
    ensures
        final(entries)@.len() == old(entries)@.len(),
        forall|i: int|
            0 <= i < final(entries)@.len() ==> #[trigger] final(entries)@[i] == after_invalidation(
                old(entries)@[i],
                *last,
                *new,
                v,
            ),
        forall|i: int|
            0 <= i < final(entries)@.len() ==> entry_sound(h.push(*new), #[trigger] final(entries)@[i]),
{
    let mut i: usize = 0;
    while i < entries.len()
        invariant
            i <= entries@.len(),
            entries@.len() == old(entries)@.len(),
            h.len() > 0,
            h.last() == *last,
            v == h.len(),
            forall|j: int| 0 <= j < old(entries)@.len() ==> entry_sound(h, #[trigger] old(entries)@[j]),
            forall|j: int| i <= j < entries@.len() ==> #[trigger] entries@[j] == old(entries)@[j],
            forall|j: int|
                0 <= j < i ==> #[trigger] entries@[j] == after_invalidation(old(entries)@[j], *last, *new, v),
            forall|j: int| 0 <= j < i ==> entry_sound(h.push(*new), #[trigger] entries@[j]),
        decreases entries@.len() - i,
    {
        let open = entries[i].valid_until.is_none();
        if open && !agree(&entries[i].slot_deps, last, new) {
            entries[i].valid_until = Some(v);
            proof {
                lemma_entry_close(h, *new, old(entries)@[i as int], entries@[i as int]);
            }
        } else {
            proof {
                lemma_entry_extend(h, *new, old(entries)@[i as int]);
            }
        }
        i = i + 1;
    }
}

/// Task `t` or one of its ancestors evaluates `key`.
pub open spec fn in_chain(tasks: Seq<Task>, t: int, key: usize) -> bool
    decreases t,
{
    if 0 <= t < tasks.len() {
        tasks[t].key == key || match tasks[t].parent {
            Some(p) => p < t && in_chain(tasks, p as int, key),
            None => false,
        }
    } else {
        false
    }
}

/// The keys of task `t` and of its ancestors, from `t` upward, ending with
/// the first that evaluates `key`: the evaluation chain that a request for
/// `key` from `t` would close into a cycle.
pub open spec fn chain_keys(tasks: Seq<Task>, t: int, key: usize) -> Seq<usize>
    decreases t,
{
    if 0 <= t < tasks.len() {
        if tasks[t].key == key {
            seq![key]
        } else {
            match tasks[t].parent {
                Some(p) => if p < t {
                    seq![tasks[t].key] + chain_keys(tasks, p as int, key)
                } else {
                    seq![tasks[t].key]
                },
                None => seq![tasks[t].key],
            }
        }
    } else {
        Seq::empty()
    }
}

/// What a lookup of a key at a version found.
#[derive(Clone, Copy, Debug, PartialEq, Eq)]
pub enum Lookup {
    /// A cached result valid at the version.
    Ready(Result<i64, DiceError>),
    /// An evaluation of the key at the version is already running: wait for it.
    Await(usize),
    /// A new evaluation was registered under this identifier: run it.
    Compute(usize),
}

/// The index of an entry valid at version `v`, if any.
fn find_valid(entries: &Vec<CacheEntry>, v: usize) -> (r: Option<usize>)
    ensures
        match r {
            Some(i) => i < entries@.len() && valid_at(entries@[i as int], v as int),
            None => forall|i: int| 0 <= i < entries@.len() ==> !valid_at(#[trigger] entries@[i], v as int),
        },
{
    let mut i: usize = 0;
    while i < entries.len()
        invariant
            i <= entries@.len(),
            forall|j: int| 0 <= j < i ==> !valid_at(#[trigger] entries@[j], v as int),
        decreases entries@.len() - i,
    {
        let e = &entries[i];
        let valid = e.produced <= v && match e.valid_until {
            Some(u) => v < u,
            None => true,
        };
        if valid {
            return Some(i);
        }
        i = i + 1;
    }
    None
}

/// Appends `src` to `dst`.
fn append_slots(dst: &mut Vec<u64>, src: &Vec<u64>)
    ensures
        final(dst)@ == old(dst)@ + src@,
{
    let mut i: usize = 0;
    while i < src.len()
        invariant
            i <= src@.len(),
            dst@ == old(dst)@ + src@.subrange(0, i as int),
        decreases src@.len() - i,
    {
        dst.push(src[i]);
        i = i + 1;
        proof {
            assert(dst@ =~= old(dst)@ + src@.subrange(0, i as int));
        }
    }
    proof {
        assert(src@.subrange(0, i as int) =~= src@);
    }
}

/// The two task lists differ at most in what each task has read.
pub open spec fn same_shape(a: Seq<Task>, b: Seq<Task>) -> bool {
    &&& a.len() == b.len()
    &&& forall|i: int|
        0 <= i < a.len() ==> {
            &&& (#[trigger] a[i]).key == b[i].key
            &&& a[i].version == b[i].version
            &&& a[i].state == b[i].state
            &&& a[i].cancel_requested == b[i].cancel_requested
            &&& a[i].parent == b[i].parent
        }
}

/// Every task of `b` is the task of `a` at the same index, with no more
/// activity: only reads, a request to stop and a move to a final state may
/// differ.
pub open spec fn shrinks(a: Seq<Task>, b: Seq<Task>) -> bool {
    &&& a.len() == b.len()
    &&& forall|i: int|
        0 <= i < a.len() ==> {
            &&& (#[trigger] a[i]).key == b[i].key
            &&& a[i].version == b[i].version
            &&& a[i].parent == b[i].parent
            &&& (is_running(b[i]) ==> is_running(a[i]))
        }
}

proof fn lemma_shrinks_wf(a: Seq<Task>, b: Seq<Task>, n: int)
    requires
        shrinks(a, b),
        tasks_wf(a, n),
    ensures
        tasks_wf(b, n),
{
    assert forall|i: int, j: int|
        0 <= i < b.len() && 0 <= j < b.len() && is_running(#[trigger] b[i]) && is_running(#[trigger] b[j])
            && b[i].key == b[j].key && b[i].version == b[j].version implies i == j by {
        assert(is_running(a[i]) && is_running(a[j]));
    }
    assert forall|i: int| 0 <= i < b.len() implies (#[trigger] b[i]).version < n by {
        assert(a[i].version == b[i].version);
    }
    assert forall|i: int| 0 <= i < b.len() && (#[trigger] b[i]).parent is Some implies b[i].parent->0 < i by {
        assert(a[i].parent == b[i].parent);
    }
}

/// A result that is kept for its version: a value, or a failure of the
/// computation itself.
pub open spec fn cacheable(result: Result<i64, DiceError>) -> bool {
    result is Ok || result == Err::<i64, DiceError>(DiceError::ComputationFailed)
}

/// The final state of a running task that reports `result`.
pub open spec fn final_state(t: Task, result: Result<i64, DiceError>) -> TaskState {
    if t.cancel_requested || result == Err::<i64, DiceError>(DiceError::Cancelled) {
        TaskState::Cancelled
    } else if result is Ok {
        TaskState::Completed
    } else {
        TaskState::Failed
    }
}

/// `w` is the first version after `v` and before `n` at which some slot in
/// `deps` differs from version `v`; `None` if there is none.
pub open spec fn first_change(h: Seq<DiceData>, v: int, deps: Seq<u64>, w: Option<usize>) -> bool {
    match w {
        Some(w) => v < w < h.len() && !agree_on(deps, h[v], h[w as int]) && forall|x: int|
            v < x < w ==> agree_on(deps, h[v], #[trigger] h[x]),
        None => forall|x: int| v < x < h.len() ==> agree_on(deps, h[v], #[trigger] h[x]),
    }
}

/// Adds `x` to `v` unless it is there.
fn push_unique(v: &mut Vec<usize>, x: usize)
    ensures
        final(v)@.contains(x),
        forall|y: usize| final(v)@.contains(y) <==> (old(v)@.contains(y) || y == x),
{
    let mut i: usize = 0;
    while i < v.len()
        invariant
            i <= v@.len(),
            v@ == old(v)@,
            forall|j: int| 0 <= j < i ==> v@[j] != x,
        decreases v@.len() - i,
    {
        if v[i] == x {
            return;
        }
        i = i + 1;
    }
    v.push(x);
    proof {
        assert forall|y: usize| v@.contains(y) <==> (old(v)@.contains(y) || y == x) by {
            if v@.contains(y) {
                let j = choose|j: int| 0 <= j < v@.len() && v@[j] == y;
                if j < old(v)@.len() {
                    assert(old(v)@[j] == y);
                }
            }
            if old(v)@.contains(y) {
                let j = choose|j: int| 0 <= j < old(v)@.len() && old(v)@[j] == y;
                assert(v@[j] == y);
            }
            assert(v@[old(v)@.len() as int] == x);
        }
    }
}

/// The number of versions with at least one live handle.
pub open spec fn count_live(g: Seq<u64>) -> nat
    decreases g.len(),
{
    if g.len() == 0 {
        0
    } else {
        count_live(g.drop_last()) + if g.last() > 0 { 1nat } else { 0nat }
    }
}

/// The number of tasks that have not reached a final state.
pub open spec fn count_running(t: Seq<Task>) -> nat
    decreases t.len(),
{
    if t.len() == 0 {
        0
    } else {
        count_running(t.drop_last()) + if t.last().state == TaskState::Running { 1nat } else { 0nat }
    }
}

/// Counters taken at one instant.
#[derive(Clone, Copy, Debug, PartialEq, Eq, Structural)]
pub struct Metrics {
    /// Keys with a graph node.
    pub key_count: usize,
    /// Versions committed, the initial one included.
    pub version_count: usize,
    /// Versions on which some handle is live.
    pub active_versions: usize,
    /// Evaluations not yet in a final state.
    pub running_tasks: usize,
}

/// Every task targets an existing version, a task's parent was registered
/// before it, and at most one task is running per key and version.
pub open spec fn tasks_wf(tasks: Seq<Task>, n: int) -> bool {
    &&& forall|i: int| 0 <= i < tasks.len() ==> (#[trigger] tasks[i]).version < n
    &&& forall|i: int|
        0 <= i < tasks.len() && (#[trigger] tasks[i]).parent is Some ==> tasks[i].parent->0 < i
    &&& at_most_one_running(tasks)
}

/// The state that the engine's single owner mutates.
pub struct CoreState {
    history: Vec<DiceData>,
    nodes: Vec<GraphNode>,
    tasks: Vec<Task>,
    guards: Vec<u64>,
    detect_cycles: bool,
}

impl CoreState {
    /// The global values at each version; version 0 holds the values the
    /// engine was built with.
    pub closed spec fn history(&self) -> Seq<DiceData> {
        self.history@
    }

    /// The graph node of each key identifier that has been looked up.
    pub closed spec fn nodes(&self) -> Seq<GraphNode> {
        self.nodes@
    }

    /// Every evaluation started so far, by task identifier.
    pub closed spec fn tasks(&self) -> Seq<Task> {
        self.tasks@
    }

    /// The number of live handles on each version.
    pub closed spec fn guards(&self) -> Seq<u64> {
        self.guards@
    }

    /// Whether a computation that re-enters itself fails.
    pub closed spec fn cycles_detected(&self) -> bool {
        self.detect_cycles
    }

    /// The newest version.
    pub open spec fn current(&self) -> int {
        self.history().len() - 1
    }

    /// The global value of `slot` as seen at version `v`.
    pub open spec fn global_at(&self, v: int, slot: u64) -> Option<i64> {
        self.history()[v].value(slot)
    }

    pub open spec fn wf(&self) -> bool {
        &&& self.history().len() >= 1
        &&& self.guards().len() == self.history().len()
        &&& graph_sound(self.history(), self.nodes())
        &&& tasks_wf(self.tasks(), self.history().len() as int)
        &&& forall|i: int| 0 <= i < self.tasks().len() ==> (#[trigger] self.tasks()[i]).key < self.nodes().len()
    }

    /// A state at version 0 with the global values `initial`, no computed
    /// key, no task and no handle.
    pub fn new(initial: DiceData, detect_cycles: bool) -> (r: CoreState)
        ensures
            r.wf(),
            r.history() == seq![initial],
            r.nodes().len() == 0,
            r.tasks().len() == 0,
            r.guards() == seq![0u64],
            r.cycles_detected() == detect_cycles,
    {
        let mut history: Vec<DiceData> = Vec::new();
        history.push(initial);
        let mut guards: Vec<u64> = Vec::new();
        guards.push(0);
        proof {
            assert(history@ =~= seq![initial]);
            assert(guards@ =~= seq![0u64]);
        }
        CoreState { history, nodes: Vec::new(), tasks: Vec::new(), guards, detect_cycles }
    }

    /// The newest version.
    pub fn current_version(&self) -> (r: usize)
        requires
            self.wf(),
        ensures
            r == self.current(),
    {
        self.history.len() - 1
    }

    /// Whether cycle detection is on.
    pub fn detects_cycles(&self) -> (r: bool)
        ensures
            r == self.cycles_detected(),
    {
        self.detect_cycles
    }

    /// Commits `changes` as a new version and returns it. The new version
    /// holds the newest values with `changes` applied; every open result that
    /// read a slot whose value changed stops being valid at the new version;
    /// every active evaluation that read such a slot is asked to stop. The
    /// caller holds one handle on the new version.
    pub fn commit(&mut self, changes: &DiceData) -> (r: usize)
        requires
            old(self).wf(),
            old(self).history().len() < usize::MAX,
        ensures
            final(self).wf(),
            r == old(self).current() + 1,
            r == final(self).current(),
            final(self).history().subrange(0, r as int) == old(self).history(),
            forall|s: u64| #[trigger] final(self).global_at(r as int, s) == (match changes.value(s) {
                Some(v) => Some(v),
                None => old(self).global_at(old(self).current(), s),
            }),
            final(self).nodes().len() == old(self).nodes().len(),
            forall|k: int| 0 <= k < final(self).nodes().len() ==> {
                &&& (#[trigger] final(self).nodes()[k]).dependents == old(self).nodes()[k].dependents
                &&& final(self).nodes()[k].entries@.len() == old(self).nodes()[k].entries@.len()
                &&& forall|i: int| 0 <= i < final(self).nodes()[k].entries@.len()
                    ==> #[trigger] final(self).nodes()[k].entries@[i] == after_invalidation(
                        old(self).nodes()[k].entries@[i],
                        old(self).history().last(),
                        final(self).history()[r as int],
                        r,
                    )
            },
            final(self).tasks().len() == old(self).tasks().len(),
            forall|i: int| 0 <= i < final(self).tasks().len() ==> #[trigger] final(self).tasks()[i] == after_commit(
                old(self).tasks()[i],
                old(self).history()[old(self).tasks()[i].version as int],
                final(self).history()[r as int],
            ),
            final(self).guards() == old(self).guards().push(1),
            final(self).cycles_detected() == old(self).cycles_detected(),
    {
        let v = self.history.len();
        let new = self.history[v - 1].merged(changes);
        let ghost h = self.history@;
        let ghost old_nodes = self.nodes@;
        let ghost old_tasks = self.tasks@;
        let mut k: usize = 0;
        while k < self.nodes.len()
            invariant
                k <= self.nodes@.len(),
                self.nodes@.len() == old_nodes.len(),
                self.tasks@ == old_tasks,
                self.guards@ == old(self).guards@,
                self.detect_cycles == old(self).detect_cycles,
                self.history@ == h,
                h.len() == v,
                h.len() >= 1,
                graph_sound(h, old_nodes),
                forall|j: int| k <= j < self.nodes@.len() ==> #[trigger] self.nodes@[j] == old_nodes[j],
                forall|j: int| 0 <= j < k ==> {
                    &&& (#[trigger] self.nodes@[j]).dependents == old_nodes[j].dependents
                    &&& self.nodes@[j].entries@.len() == old_nodes[j].entries@.len()
                    &&& forall|i: int| 0 <= i < self.nodes@[j].entries@.len()
                        ==> #[trigger] self.nodes@[j].entries@[i] == after_invalidation(
                            old_nodes[j].entries@[i],
                            h.last(),
                            new,
                            v,
                        )
                    &&& forall|i: int| 0 <= i < self.nodes@[j].entries@.len()
                        ==> entry_sound(h.push(new), #[trigger] self.nodes@[j].entries@[i])
                },
            decreases old_nodes.len() - k,
        {
            proof {
                assert forall|i: int| 0 <= i < self.nodes@[k as int].entries@.len() implies entry_sound(
                    h,
                    #[trigger] self.nodes@[k as int].entries@[i],
                ) by {
                    assert(old_nodes[k as int].entries@[i] == self.nodes@[k as int].entries@[i]);
                }
            }
            invalidate_entries(&mut self.nodes[k].entries, &self.history[v - 1], &new, v, Ghost(h));
            k = k + 1;
        }
        let ghost nodes_after = self.nodes@;
        let mut i: usize = 0;
        while i < self.tasks.len()
            invariant
                i <= self.tasks@.len(),
                self.nodes@ == nodes_after,
                self.guards@ == old(self).guards@,
                self.detect_cycles == old(self).detect_cycles,
                self.tasks@.len() == old_tasks.len(),
                self.history@ == h,
                h.len() == v,
                tasks_wf(old_tasks, h.len() as int),
                forall|j: int| i <= j < self.tasks@.len() ==> #[trigger] self.tasks@[j] == old_tasks[j],
                forall|j: int| 0 <= j < i ==> #[trigger] self.tasks@[j] == after_commit(
                    old_tasks[j],
                    h[old_tasks[j].version as int],
                    new,
                ),
            decreases old_tasks.len() - i,
        {
            let tv = self.tasks[i].version;
            let active = self.tasks[i].state == TaskState::Running && !self.tasks[i].cancel_requested;
            if active && !agree(&self.tasks[i].slot_deps, &self.history[tv], &new) {
                self.tasks[i].cancel_requested = true;
            }
            i = i + 1;
        }
        self.history.push(new);
        self.guards.push(1);
        proof {
            let h2 = self.history@;
            assert(h2.subrange(0, v as int) =~= h);
            assert(h2 == h.push(new));
            assert forall|kk: int, ii: int|
                0 <= kk < self.nodes@.len() && 0 <= ii < self.nodes@[kk].entries@.len() implies entry_sound(
                h2,
                #[trigger] self.nodes@[kk].entries@[ii],
            ) by {}
            let t = self.tasks@;
            assert forall|a: int, b: int|
                0 <= a < t.len() && 0 <= b < t.len() && is_running(#[trigger] t[a]) && is_running(
                    #[trigger] t[b],
                ) && t[a].key == t[b].key && t[a].version == t[b].version implies a == b by {
                assert(is_running(old_tasks[a]) && is_running(old_tasks[b]));
            }
            assert(tasks_wf(t, h2.len() as int));
            assert forall|a: int| 0 <= a < t.len() implies (#[trigger] t[a]).key < self.nodes@.len() by {
                assert(t[a].key == old_tasks[a].key);
            }
        }
        v
    }

    /// Key `key` has a result valid at version `v`.
    pub open spec fn has_valid(&self, key: usize, v: int) -> bool {
        key < self.nodes().len() && exists|i: int|
            0 <= i < self.nodes()[key as int].entries@.len() && valid_at(
                #[trigger] self.nodes()[key as int].entries@[i],
                v,
            )
    }

    /// Some running task evaluates `key` at version `v`.
    pub open spec fn has_running(&self, key: usize, v: int) -> bool {
        exists|i: int|
            0 <= i < self.tasks().len() && is_running(#[trigger] self.tasks()[i]) && self.tasks()[i].key
                == key && self.tasks()[i].version == v
    }

    /// `t` names a running task at version `v`.
    pub open spec fn is_running_at(&self, t: usize, v: int) -> bool {
        t < self.tasks().len() && self.tasks()[t as int].state == TaskState::Running
            && self.tasks()[t as int].version == v
    }

    /// The error a lookup of `key` at `version` from `parent` fails with, if any.
    pub open spec fn lookup_error(&self, key: usize, version: usize, parent: Option<usize>) -> Option<DiceError> {
        if version >= self.history().len() {
            Some(DiceError::UnknownVersion)
        } else {
            match parent {
                Some(p) => if !self.is_running_at(p, version as int) {
                    Some(DiceError::UnknownTask)
                } else if self.cycles_detected() && in_chain(self.tasks(), p as int, key) {
                    Some(DiceError::CycleDetected(key))
                } else {
                    None
                },
                None => None,
            }
        }
    }

    /// Whether task `t` or one of its ancestors evaluates `key`.
    fn chain_contains(&self, t: usize, key: usize) -> (r: bool)
        requires
            self.wf(),
            t < self.tasks().len(),
        ensures
            r == in_chain(self.tasks(), t as int, key),
    {
        let mut cur: usize = t;
        loop
            invariant
                self.wf(),
                cur < self.tasks@.len(),
                in_chain(self.tasks@, t as int, key) == in_chain(self.tasks@, cur as int, key),
            decreases cur,
        {
            if self.tasks[cur].key == key {
                return true;
            }
            match self.tasks[cur].parent {
                Some(p) => {
                    cur = p;
                },
                None => {
                    return false;
                },
            }
        }
    }

    /// The chain that a lookup of `key` from evaluation `t` failed on with
    /// `CycleDetected`: the keys of `t` and its ancestors, from `t` upward,
    /// ending with the one evaluating `key`.
    pub fn cycle_chain(&self, t: usize, key: usize) -> (r: Vec<usize>)
        requires
            self.wf(),
        ensures
            r@ == chain_keys(self.tasks(), t as int, key),
    {
        let mut r: Vec<usize> = Vec::new();
        if t >= self.tasks.len() {
            return r;
        }
        let mut cur: usize = t;
        loop
            invariant
                self.wf(),
                cur < self.tasks@.len(),
                chain_keys(self.tasks@, t as int, key) == r@ + chain_keys(self.tasks@, cur as int, key),
            decreases cur,
        {
            let ghost before = r@;
            let k = self.tasks[cur].key;
            r.push(k);
            if k == key {
                proof {
                    assert(r@ =~= before + chain_keys(self.tasks@, cur as int, key));
                }
                return r;
            }
            match self.tasks[cur].parent {
                Some(p) => {
                    proof {
                        assert(before + chain_keys(self.tasks@, cur as int, key) =~= r@ + chain_keys(
                            self.tasks@,
                            p as int,
                            key,
                        ));
                    }
                    cur = p;
                },
                None => {
                    proof {
                        assert(r@ =~= before + chain_keys(self.tasks@, cur as int, key));
                    }
                    return r;
                },
            }
        }
    }

    /// A running task evaluating `key` at version `v`, if any.
    fn find_running(&self, key: usize, v: usize) -> (r: Option<usize>)
        ensures
            match r {
                Some(i) => i < self.tasks().len() && is_running(self.tasks()[i as int])
                    && self.tasks()[i as int].key == key && self.tasks()[i as int].version == v,
                None => !self.has_running(key, v as int),
            },
    {
        let mut i: usize = 0;
        while i < self.tasks.len()
            invariant
                i <= self.tasks@.len(),
                forall|j: int|
                    0 <= j < i ==> !(is_running(#[trigger] self.tasks@[j]) && self.tasks@[j].key == key
                        && self.tasks@[j].version == v),
            decreases self.tasks@.len() - i,
        {
            let t = &self.tasks[i];
            if t.state == TaskState::Running && t.key == key && t.version == v {
                return Some(i);
            }
            i = i + 1;
        }
        None
    }

    /// Makes sure key `key` has a graph node.
    fn ensure_node(&mut self, key: usize)
        requires
            old(self).wf(),
        ensures
            final(self).wf(),
            key < final(self).nodes().len(),
            final(self).nodes().len() >= old(self).nodes().len(),
            forall|k: int| 0 <= k < old(self).nodes().len() ==> #[trigger] final(self).nodes()[k] == old(self).nodes()[k],
            forall|k: int|
                old(self).nodes().len() <= k < final(self).nodes().len() ==> (#[trigger] final(self).nodes()[k]).entries@.len() == 0,
            final(self).history() == old(self).history(),
            final(self).tasks() == old(self).tasks(),
            final(self).guards() == old(self).guards(),
            final(self).cycles_detected() == old(self).cycles_detected(),
    {
        while self.nodes.len() <= key
            invariant
                self.nodes@.len() >= old(self).nodes@.len(),
                self.nodes@.len() <= key + 1 || self.nodes@ == old(self).nodes@,
                forall|k: int| 0 <= k < old(self).nodes@.len() ==> #[trigger] self.nodes@[k] == old(self).nodes@[k],
                forall|k: int|
                    old(self).nodes@.len() <= k < self.nodes@.len() ==> (#[trigger] self.nodes@[k]).entries@.len() == 0,
                self.history@ == old(self).history@,
                self.tasks@ == old(self).tasks@,
                self.guards@ == old(self).guards@,
                self.detect_cycles == old(self).detect_cycles,
            decreases key + 1 - self.nodes@.len(),
        {
            self.nodes.push(GraphNode { entries: Vec::new(), dependents: Vec::new() });
        }
        proof {
            assert forall|k: int, i: int|
                0 <= k < self.nodes@.len() && 0 <= i < self.nodes@[k].entries@.len() implies entry_sound(
                self.history@,
                #[trigger] self.nodes@[k].entries@[i],
            ) by {
                assert(self.nodes@[k] == old(self).nodes@[k]);
            }
        }
    }

    /// Looks up `key` at `version` on behalf of evaluation `parent` (or of a
    /// caller outside any evaluation). A result valid at the version is
    /// returned at once; otherwise the caller waits for the running
    /// evaluation of the key at that version or, if there is none, runs a new
    /// one. The parent records `key` among what it read, and, on a cached
    /// result, that result's slot dependencies.
    pub fn lookup(&mut self, key: usize, version: usize, parent: Option<usize>) -> (r: Result<Lookup, DiceError>)
        requires
            old(self).wf(),
        ensures
            final(self).wf(),
            final(self).history() == old(self).history(),
            final(self).guards() == old(self).guards(),
            final(self).cycles_detected() == old(self).cycles_detected(),
            match old(self).lookup_error(key, version, parent) {
                Some(e) => r == Err::<Lookup, DiceError>(e) && *final(self) == *old(self),
                None => r is Ok,
            },
            forall|k: int, i: int|
                0 <= k < old(self).nodes().len() && 0 <= i < old(self).nodes()[k].entries@.len()
                    ==> #[trigger] final(self).nodes()[k].entries@[i] == old(self).nodes()[k].entries@[i],
            final(self).nodes().len() >= old(self).nodes().len(),
            forall|k: int| 0 <= k < old(self).nodes().len() ==> (#[trigger] final(self).nodes()[k]).entries@.len() == old(self).nodes()[k].entries@.len(),
            forall|k: int|
                old(self).nodes().len() <= k < final(self).nodes().len() ==> (#[trigger] final(self).nodes()[k]).entries@.len() == 0,
            r is Ok ==> key < final(self).nodes().len(),
            r matches Ok(Lookup::Ready(_)) <==> (r is Ok && old(self).has_valid(key, version as int)),
            r matches Ok(Lookup::Ready(val)) ==> exists|i: int|
                0 <= i < old(self).nodes()[key as int].entries@.len() && valid_at(
                    #[trigger] old(self).nodes()[key as int].entries@[i],
                    version as int,
                ) && old(self).nodes()[key as int].entries@[i].value == val,
            r matches Ok(Lookup::Await(t)) ==> {
                &&& !old(self).has_valid(key, version as int)
                &&& t < final(self).tasks().len()
                &&& is_running(final(self).tasks()[t as int])
                &&& final(self).tasks()[t as int].key == key
                &&& final(self).tasks()[t as int].version == version
            },
            r matches Ok(Lookup::Compute(t)) ==> {
                &&& !old(self).has_valid(key, version as int)
                &&& !old(self).has_running(key, version as int)
                &&& t == old(self).tasks().len()
                &&& final(self).tasks().len() == t + 1
                &&& final(self).tasks()[t as int].key == key
                &&& final(self).tasks()[t as int].version == version
                &&& final(self).tasks()[t as int].state == TaskState::Running
                &&& !final(self).tasks()[t as int].cancel_requested
                &&& final(self).tasks()[t as int].parent == parent
                &&& final(self).tasks()[t as int].slot_deps@.len() == 0
                &&& final(self).tasks()[t as int].key_deps@.len() == 0
            },
            r matches Ok(l) && !(l is Compute) ==> final(self).tasks().len() == old(self).tasks().len(),
            r is Ok ==> same_shape(old(self).tasks(), final(self).tasks().subrange(0, old(self).tasks().len() as int)),
            forall|i: int|
                0 <= i < old(self).tasks().len() && Some(i as usize) != parent ==> #[trigger] final(self).tasks()[i]
                    == old(self).tasks()[i],
            (r is Ok && parent is Some) ==> {
                let p = parent->0 as int;
                &&& final(self).tasks()[p].key_deps@ == old(self).tasks()[p].key_deps@.push(key)
                &&& old(self).tasks()[p].slot_deps@.is_prefix_of(final(self).tasks()[p].slot_deps@)
            },
    {
        if version >= self.history.len() {
            return Err(DiceError::UnknownVersion);
        }
        if let Some(p) = parent {
            if p >= self.tasks.len() || self.tasks[p].state != TaskState::Running || self.tasks[p].version != version {
                return Err(DiceError::UnknownTask);
            }
            if self.detect_cycles && self.chain_contains(p, key) {
                return Err(DiceError::CycleDetected(key));
            }
        }
        let ghost pre = self.tasks@;
        self.ensure_node(key);
        let found = find_valid(&self.nodes[key].entries, version);
        if let Some(p) = parent {
            self.tasks[p].key_deps.push(key);
            if let Some(i) = found {
                append_slots(&mut self.tasks[p].slot_deps, &self.nodes[key].entries[i].slot_deps);
            }
            proof {
                assert(old(self).tasks()[p as int].slot_deps@.is_prefix_of(self.tasks@[p as int].slot_deps@)) by {
                    assert(old(self).tasks()[p as int].slot_deps@ =~= self.tasks@[p as int].slot_deps@.subrange(
                        0,
                        old(self).tasks()[p as int].slot_deps@.len() as int,
                    ));
                }
                assert(same_shape(pre, self.tasks@));
                assert(shrinks(pre, self.tasks@));
                lemma_shrinks_wf(pre, self.tasks@, self.history@.len() as int);
            }
        }
        proof {
            assert(same_shape(pre, self.tasks@));
            assert(self.tasks@.subrange(0, pre.len() as int) =~= self.tasks@);
        }
        if let Some(i) = found {
            let value = self.nodes[key].entries[i].value;
            return Ok(Lookup::Ready(value));
        }
        proof {
            if old(self).has_valid(key, version as int) {
                let i = choose|i: int|
                    0 <= i < old(self).nodes()[key as int].entries@.len() && valid_at(
                        #[trigger] old(self).nodes()[key as int].entries@[i],
                        version as int,
                    );
                assert(self.nodes@[key as int].entries@[i] == old(self).nodes()[key as int].entries@[i]);
            }
        }
        match self.find_running(key, version) {
            Some(t) => Ok(Lookup::Await(t)),
            None => {
                let ghost before = self.tasks@;
                let t = self.tasks.len();
                self.tasks.push(
                    Task {
                        key,
                        version,
                        state: TaskState::Running,
                        cancel_requested: false,
                        parent,
                        slot_deps: Vec::new(),
                        key_deps: Vec::new(),
                    },
                );
                proof {
                    let n = self.tasks@;
                    assert(n.subrange(0, before.len() as int) =~= before);
                    assert forall|a: int, b: int|
                        0 <= a < n.len() && 0 <= b < n.len() && is_running(#[trigger] n[a]) && is_running(
                            #[trigger] n[b],
                        ) && n[a].key == n[b].key && n[a].version == n[b].version implies a == b by {
                        if a < before.len() && b == before.len() {
                            assert(before[a] == n[a]);
                        }
                        if b < before.len() && a == before.len() {
                            assert(before[b] == n[b]);
                        }
                    }
                    assert(same_shape(pre, n.subrange(0, pre.len() as int)));
                    assert(forall|a: int| 0 <= a < before.len() ==> n[a] == before[a]);
                }
                Ok(Lookup::Compute(t))
            },
        }
    }

    /// The global value of `slot` at `version`, for a reader outside any
    /// evaluation.
    pub fn global(&self, version: usize, slot: u64) -> (r: Result<Option<i64>, DiceError>)
        requires
            self.wf(),
        ensures
            version >= self.history().len() ==> r == Err::<Option<i64>, DiceError>(DiceError::UnknownVersion),
            version < self.history().len() ==> r == Ok::<Option<i64>, DiceError>(self.global_at(version as int, slot)),
    {
        if version >= self.history.len() {
            return Err(DiceError::UnknownVersion);
        }
        Ok(self.history[version].get(slot))
    }

    /// The global value of `slot` at the version of evaluation `task`, which
    /// records the slot among what it read.
    pub fn read_global(&mut self, task: usize, slot: u64) -> (r: Result<Option<i64>, DiceError>)
        requires
            old(self).wf(),
        ensures
            final(self).wf(),
            final(self).history() == old(self).history(),
            final(self).nodes() == old(self).nodes(),
            final(self).guards() == old(self).guards(),
            final(self).cycles_detected() == old(self).cycles_detected(),
            !old(self).is_running_at(task, old(self).tasks()[task as int].version as int) ==> {
                &&& r == Err::<Option<i64>, DiceError>(DiceError::UnknownTask)
                &&& *final(self) == *old(self)
            },
            old(self).is_running_at(task, old(self).tasks()[task as int].version as int) ==> {
                let t = old(self).tasks()[task as int];
                &&& r == Ok::<Option<i64>, DiceError>(old(self).global_at(t.version as int, slot))
                &&& final(self).tasks() == old(self).tasks().update(
                    task as int,
                    Task { slot_deps: final(self).tasks()[task as int].slot_deps, ..t },
                )
                &&& final(self).tasks()[task as int].slot_deps@ == t.slot_deps@.push(slot)
            },
    {
        if task >= self.tasks.len() || self.tasks[task].state != TaskState::Running {
            return Err(DiceError::UnknownTask);
        }
        let ghost pre = self.tasks@;
        let v = self.tasks[task].version;
        let value = self.history[v].get(slot);
        self.tasks[task].slot_deps.push(slot);
        proof {
            assert(same_shape(pre, self.tasks@));
            assert(shrinks(pre, self.tasks@));
            lemma_shrinks_wf(pre, self.tasks@, self.history@.len() as int);
            assert(self.tasks@ =~= pre.update(task as int, Task { slot_deps: self.tasks@[task as int].slot_deps, ..pre[task as int] }));
        }
        Ok(value)
    }

    /// Where evaluation `task` stands, if it exists.
    pub fn task_state(&self, task: usize) -> (r: Option<TaskState>)
        ensures
            task < self.tasks().len() ==> r == Some(self.tasks()[task as int].state),
            task >= self.tasks().len() ==> r is None,
    {
        if task < self.tasks.len() {
            Some(self.tasks[task].state)
        } else {
            None
        }
    }

    /// Whether evaluation `task` has been asked to stop.
    pub fn is_cancelled(&self, task: usize) -> (r: bool)
        ensures
            r == (task < self.tasks().len() && self.tasks()[task as int].cancel_requested),
    {
        task < self.tasks.len() && self.tasks[task].cancel_requested
    }

    /// The first version after `v` at which some slot of `deps` differs from
    /// version `v`.
    fn first_change(&self, v: usize, deps: &Vec<u64>) -> (r: Option<usize>)
        requires
            v < self.history().len(),
        ensures
            first_change(self.history(), v as int, deps@, r),
    {
        let n = self.history.len();
        let mut w: usize = v + 1;
        while w < n
            invariant
                n == self.history@.len(),
                v < w <= self.history@.len(),
                forall|x: int| v < x < w ==> agree_on(deps@, self.history@[v as int], #[trigger] self.history@[x]),
            decreases self.history@.len() - w,
        {
            if !agree(deps, &self.history[v], &self.history[w]) {
                return Some(w);
            }
            w = w + 1;
        }
        None
    }

    /// Ends evaluation `task` with `result`. A task asked to stop, or one
    /// that reports `Cancelled`, ends cancelled and its result is dropped;
    /// any other error but a failure of the computation ends it failed with
    /// nothing kept; otherwise the result is kept for the task's key from the
    /// task's version on, with the slots the task read directly and through
    /// the keys it read, until the first later version at which one of them
    /// changed.
    pub fn complete(&mut self, task: usize, result: Result<i64, DiceError>) -> (r: Result<(), DiceError>)
        requires
            old(self).wf(),
        ensures
            final(self).wf(),
            final(self).history() == old(self).history(),
            final(self).guards() == old(self).guards(),
            final(self).cycles_detected() == old(self).cycles_detected(),
            !old(self).is_running_at(task, old(self).tasks()[task as int].version as int) ==> {
                &&& r == Err::<(), DiceError>(DiceError::UnknownTask)
                &&& *final(self) == *old(self)
            },
            old(self).is_running_at(task, old(self).tasks()[task as int].version as int) ==> {
                let t = old(self).tasks()[task as int];
                let nk = final(self).nodes()[t.key as int].entries@;
                let ok = nk.len() - 1;
                &&& final(self).tasks().len() == old(self).tasks().len()
                &&& forall|i: int| 0 <= i < old(self).tasks().len() && i != task ==> #[trigger] final(self).tasks()[i] == old(self).tasks()[i]
                &&& final(self).tasks()[task as int].state == final_state(t, result)
                &&& final(self).tasks()[task as int].key == t.key
                &&& final(self).tasks()[task as int].version == t.version
                &&& final(self).tasks()[task as int].parent == t.parent
                &&& final(self).tasks()[task as int].cancel_requested == t.cancel_requested
                &&& final(self).nodes().len() == old(self).nodes().len()
                &&& (final_state(t, result) == TaskState::Cancelled ==> r == Err::<(), DiceError>(DiceError::Cancelled))
                &&& (final_state(t, result) != TaskState::Cancelled ==> r == Ok::<(), DiceError>(()))
                &&& (final_state(t, result) == TaskState::Cancelled || !cacheable(result)) ==> forall|k: int|
                    0 <= k < final(self).nodes().len() ==> (#[trigger] final(self).nodes()[k]).entries == old(self).nodes()[k].entries
                &&& (final_state(t, result) != TaskState::Cancelled && cacheable(result)) ==> {
                    &&& forall|k: int|
                        0 <= k < final(self).nodes().len() && k != t.key ==> (#[trigger] final(self).nodes()[k]).entries
                            == old(self).nodes()[k].entries
                    &&& nk.len() == old(self).nodes()[t.key as int].entries@.len() + 1
                    &&& nk.subrange(0, ok) == old(self).nodes()[t.key as int].entries@
                    &&& nk[ok].value == result
                    &&& nk[ok].produced == t.version
                    &&& nk[ok].key_deps@ == t.key_deps@
                    &&& t.slot_deps@.is_prefix_of(nk[ok].slot_deps@)
                    &&& first_change(final(self).history(), t.version as int, nk[ok].slot_deps@, nk[ok].valid_until)
                    &&& forall|j: int| 0 <= j < t.key_deps@.len() && t.key_deps@[j] < final(self).nodes().len()
                        ==> (#[trigger] final(self).nodes()[t.key_deps@[j] as int]).dependents@.contains(t.key)
                }
            },
    {
        if task >= self.tasks.len() || self.tasks[task].state != TaskState::Running {
            return Err(DiceError::UnknownTask);
        }
        let ghost pre = self.tasks@;
        let ghost t = self.tasks@[task as int];
        if self.tasks[task].cancel_requested || matches!(result, Err(DiceError::Cancelled)) {
            self.tasks[task].state = TaskState::Cancelled;
            proof {
                assert(shrinks(pre, self.tasks@));
                lemma_shrinks_wf(pre, self.tasks@, self.history@.len() as int);
            }
            return Err(DiceError::Cancelled);
        }
        let is_ok = result.is_ok();
        if !is_ok && !matches!(result, Err(DiceError::ComputationFailed)) {
            self.tasks[task].state = TaskState::Failed;
            proof {
                assert(shrinks(pre, self.tasks@));
                lemma_shrinks_wf(pre, self.tasks@, self.history@.len() as int);
            }
            return Ok(());
        }
        let key = self.tasks[task].key;
        let version = self.tasks[task].version;
        let mut deps: Vec<u64> = Vec::new();
        let mut key_deps: Vec<usize> = Vec::new();
        std::mem::swap(&mut deps, &mut self.tasks[task].slot_deps);
        std::mem::swap(&mut key_deps, &mut self.tasks[task].key_deps);
        self.tasks[task].state = if is_ok { TaskState::Completed } else { TaskState::Failed };
        proof {
            assert(shrinks(pre, self.tasks@));
            lemma_shrinks_wf(pre, self.tasks@, self.history@.len() as int);
            assert(deps@ == t.slot_deps@);
            assert(key_deps@ == t.key_deps@);
        }
        let ghost own = deps@;
        let ghost old_nodes = self.nodes@;
        let ghost tasks_after = self.tasks@;
        let mut j: usize = 0;
        while j < key_deps.len()
            invariant
                j <= key_deps@.len(),
                self.history@ == old(self).history@,
                self.tasks@ == tasks_after,
                self.guards@ == old(self).guards@,
                self.detect_cycles == old(self).detect_cycles,
                version < self.history@.len(),
                key < self.nodes@.len(),
                self.nodes@.len() == old_nodes.len(),
                forall|k: int| 0 <= k < self.nodes@.len() ==> (#[trigger] self.nodes@[k]).entries == old_nodes[k].entries,
                forall|i: int| 0 <= i < j && key_deps@[i] < self.nodes@.len()
                    ==> (#[trigger] self.nodes@[key_deps@[i] as int]).dependents@.contains(key),
                own.is_prefix_of(deps@),
            decreases key_deps@.len() - j,
        {
            let d = key_deps[j];
            if d < self.nodes.len() {
                if let Some(i) = find_valid(&self.nodes[d].entries, version) {
                    append_slots(&mut deps, &self.nodes[d].entries[i].slot_deps);
                }
                let ghost before = self.nodes@;
                push_unique(&mut self.nodes[d].dependents, key);
                proof {
                    assert forall|i: int| 0 <= i < j + 1 && key_deps@[i] < self.nodes@.len()
                        implies (#[trigger] self.nodes@[key_deps@[i] as int]).dependents@.contains(key) by {
                        if key_deps@[i] != d {
                            assert(self.nodes@[key_deps@[i] as int] == before[key_deps@[i] as int]);
                        }
                    }
                }
            }
            proof {
                assert(own.is_prefix_of(deps@)) by {
                    assert(forall|x: int| 0 <= x < own.len() ==> own[x] == deps@[x]);
                }
            }
            j = j + 1;
        }
        let valid_until = self.first_change(version, &deps);
        let entry = CacheEntry { value: result, produced: version, valid_until, slot_deps: deps, key_deps };
        proof {
            let h = self.history@;
            assert forall|jj: int| 0 <= jj < entry.slot_deps@.len() implies crate::graph::unchanged(
                h,
                #[trigger] entry.slot_deps@[jj],
                entry.produced as int,
                crate::graph::entry_end(entry, h.len() as int),
            ) by {
                let s = entry.slot_deps@[jj];
                assert forall|x: int| entry.produced <= x < crate::graph::entry_end(entry, h.len() as int)
                    implies #[trigger] h[x].value(s) == h[entry.produced as int].value(s) by {
                    if x > entry.produced {
                        assert(agree_on(entry.slot_deps@, h[version as int], h[x]));
                    }
                }
            }
            assert(entry_sound(h, entry));
        }
        let ghost mid = self.nodes@;
        self.nodes[key].entries.push(entry);
        proof {
            assert forall|k: int, i: int|
                0 <= k < self.nodes@.len() && 0 <= i < self.nodes@[k].entries@.len() implies entry_sound(
                self.history@,
                #[trigger] self.nodes@[k].entries@[i],
            ) by {
                if k != key || i < mid[k].entries@.len() {
                    assert(self.nodes@[k].entries@[i] == old_nodes[k].entries@[i]);
                }
            }
            let nk = self.nodes@[key as int].entries@;
            assert(nk.subrange(0, nk.len() - 1) =~= old_nodes[key as int].entries@);
            assert forall|jj: int| 0 <= jj < t.key_deps@.len() && t.key_deps@[jj] < self.nodes@.len()
                implies (#[trigger] self.nodes@[t.key_deps@[jj] as int]).dependents@.contains(t.key) by {
                assert(self.nodes@[t.key_deps@[jj] as int].dependents == mid[t.key_deps@[jj] as int].dependents);
            }
        }
        Ok(())
    }

    /// No task is waiting to unwind after being asked to stop.
    pub open spec fn idle(&self) -> bool {
        forall|i: int| 0 <= i < self.tasks().len() ==> !is_pending_cancellation(#[trigger] self.tasks()[i])
    }

    /// The number of live handles on `version`.
    pub fn guard_count(&self, version: usize) -> (r: Result<u64, DiceError>)
        requires
            self.wf(),
        ensures
            version >= self.history().len() ==> r == Err::<u64, DiceError>(DiceError::UnknownVersion),
            version < self.history().len() ==> r == Ok::<u64, DiceError>(self.guards()[version as int]),
    {
        if version >= self.guards.len() {
            return Err(DiceError::UnknownVersion);
        }
        Ok(self.guards[version])
    }

    /// Takes a handle on `version`, which keeps it alive until released.
    pub fn acquire(&mut self, version: usize) -> (r: Result<(), DiceError>)
        requires
            old(self).wf(),
            version < old(self).guards().len() ==> old(self).guards()[version as int] < u64::MAX,
        ensures
            final(self).wf(),
            final(self).history() == old(self).history(),
            final(self).nodes() == old(self).nodes(),
            final(self).tasks() == old(self).tasks(),
            final(self).cycles_detected() == old(self).cycles_detected(),
            version >= old(self).history().len() ==> {
                &&& r == Err::<(), DiceError>(DiceError::UnknownVersion)
                &&& final(self).guards() == old(self).guards()
            },
            version < old(self).history().len() ==> {
                &&& r == Ok::<(), DiceError>(())
                &&& final(self).guards() == old(self).guards().update(version as int, (old(self).guards()[version as int] + 1) as u64)
            },
    {
        if version >= self.guards.len() {
            return Err(DiceError::UnknownVersion);
        }
        let c = self.guards[version];
        self.guards.set(version, c + 1);
        Ok(())
    }

    /// Releases a handle on `version`.
    pub fn release(&mut self, version: usize) -> (r: Result<(), DiceError>)
        requires
            old(self).wf(),
        ensures
            final(self).wf(),
            final(self).history() == old(self).history(),
            final(self).nodes() == old(self).nodes(),
            final(self).tasks() == old(self).tasks(),
            final(self).cycles_detected() == old(self).cycles_detected(),
            version >= old(self).history().len() ==> {
                &&& r == Err::<(), DiceError>(DiceError::UnknownVersion)
                &&& final(self).guards() == old(self).guards()
            },
            version < old(self).history().len() && old(self).guards()[version as int] == 0 ==> {
                &&& r == Err::<(), DiceError>(DiceError::NoActiveGuard)
                &&& final(self).guards() == old(self).guards()
            },
            version < old(self).history().len() && old(self).guards()[version as int] > 0 ==> {
                &&& r == Ok::<(), DiceError>(())
                &&& final(self).guards() == old(self).guards().update(version as int, (old(self).guards()[version as int] - 1) as u64)
            },
    {
        if version >= self.guards.len() {
            return Err(DiceError::UnknownVersion);
        }
        let c = self.guards[version];
        if c == 0 {
            return Err(DiceError::NoActiveGuard);
        }
        self.guards.set(version, c - 1);
        Ok(())
    }

    /// The tasks asked to stop that have not yet unwound, in increasing order.
    pub fn tasks_pending_cancellation(&self) -> (r: Vec<usize>)
        ensures
            forall|j: int| 0 <= j < r@.len() ==> #[trigger] r@[j] < self.tasks().len() && is_pending_cancellation(self.tasks()[r@[j] as int]),
            forall|i: int| 0 <= i < self.tasks().len() && is_pending_cancellation(#[trigger] self.tasks()[i]) ==> r@.contains(i as usize),
            forall|a: int, b: int| 0 <= a < b < r@.len() ==> r@[a] < r@[b],
    {
        let mut r: Vec<usize> = Vec::new();
        let mut i: usize = 0;
        while i < self.tasks.len()
            invariant
                i <= self.tasks@.len(),
                forall|j: int| 0 <= j < r@.len() ==> #[trigger] r@[j] < i && is_pending_cancellation(self.tasks@[r@[j] as int]),
                forall|k: int| 0 <= k < i && is_pending_cancellation(#[trigger] self.tasks@[k]) ==> r@.contains(k as usize),
                forall|a: int, b: int| 0 <= a < b < r@.len() ==> r@[a] < r@[b],
            decreases self.tasks@.len() - i,
        {
            if self.tasks[i].state == TaskState::Running && self.tasks[i].cancel_requested {
                let ghost before = r@;
                r.push(i);
                proof {
                    assert forall|k: int| 0 <= k < i + 1 && is_pending_cancellation(#[trigger] self.tasks@[k]) implies r@.contains(k as usize) by {
                        if k < i {
                            let j = choose|j: int| 0 <= j < before.len() && before[j] == k as usize;
                            assert(r@[j] == k as usize);
                        } else {
                            assert(r@[before.len() as int] == i);
                        }
                    }
                }
            }
            i = i + 1;
        }
        r
    }

    /// Whether no task is waiting to unwind after being asked to stop.
    pub fn is_idle(&self) -> (r: bool)
        ensures
            r == self.idle(),
    {
        let mut i: usize = 0;
        while i < self.tasks.len()
            invariant
                i <= self.tasks@.len(),
                forall|k: int| 0 <= k < i ==> !is_pending_cancellation(#[trigger] self.tasks@[k]),
            decreases self.tasks@.len() - i,
        {
            if self.tasks[i].state == TaskState::Running && self.tasks[i].cancel_requested {
                proof {
                    assert(is_pending_cancellation(self.tasks()[i as int]));
                }
                return false;
            }
            i = i + 1;
        }
        true
    }

    /// Version `v` is older than the newest, no handle keeps it alive and no
    /// running task targets it: its resources may be reclaimed.
    pub open spec fn retired(&self, v: int) -> bool {
        &&& 0 <= v < self.current()
        &&& self.guards()[v] == 0
        &&& forall|i: int|
            0 <= i < self.tasks().len() && (#[trigger] self.tasks()[i]).version == v ==> self.tasks()[i].state
                != TaskState::Running
    }

    /// Whether version `v` is retired.
    pub fn is_retired(&self, v: usize) -> (r: bool)
        requires
            self.wf(),
        ensures
            r == self.retired(v as int),
    {
        if v >= self.history.len() - 1 || self.guards[v] != 0 {
            return false;
        }
        let mut i: usize = 0;
        while i < self.tasks.len()
            invariant
                i <= self.tasks@.len(),
                forall|j: int|
                    0 <= j < i && (#[trigger] self.tasks@[j]).version == v ==> self.tasks@[j].state != TaskState::Running,
            decreases self.tasks@.len() - i,
        {
            if self.tasks[i].version == v && self.tasks[i].state == TaskState::Running {
                proof {
                    assert(self.tasks()[i as int].version == v);
                }
                return false;
            }
            i = i + 1;
        }
        true
    }

    /// Key `k` currently depends on key `d`: an open result of `k` read `d`.
    pub open spec fn has_edge(&self, k: int, d: usize) -> bool {
        0 <= k < self.nodes().len() && exists|i: int|
            0 <= i < self.nodes()[k].entries@.len() && (#[trigger] self.nodes()[k].entries@[i]).valid_until is None
                && self.nodes()[k].entries@[i].key_deps@.contains(d)
    }

    /// Every current dependency edge `(key, dependency)`, each at least once.
    pub fn edges(&self) -> (r: Vec<(usize, usize)>)
        ensures
            forall|x: int| 0 <= x < r@.len() ==> self.has_edge(#[trigger] r@[x].0 as int, r@[x].1),
            forall|k: int, d: usize| #[trigger] self.has_edge(k, d) ==> r@.contains((k as usize, d)),
    {
        let mut r: Vec<(usize, usize)> = Vec::new();
        let mut k: usize = 0;
        while k < self.nodes.len()
            invariant
                k <= self.nodes@.len(),
                forall|x: int| 0 <= x < r@.len() ==> self.has_edge(#[trigger] r@[x].0 as int, r@[x].1),
                forall|kk: int, d: usize| 0 <= kk < k && #[trigger] self.has_edge(kk, d) ==> r@.contains((kk as usize, d)),
            decreases self.nodes@.len() - k,
        {
            let entries = &self.nodes[k].entries;
            let mut i: usize = 0;
            while i < entries.len()
                invariant
                    k < self.nodes@.len(),
                    *entries == self.nodes@[k as int].entries,
                    i <= entries@.len(),
                    forall|x: int| 0 <= x < r@.len() ==> self.has_edge(#[trigger] r@[x].0 as int, r@[x].1),
                    forall|kk: int, d: usize| 0 <= kk < k && #[trigger] self.has_edge(kk, d) ==> r@.contains((kk as usize, d)),
                    forall|ii: int, d: usize|
                        0 <= ii < i && entries@[ii].valid_until is None && #[trigger] entries@[ii].key_deps@.contains(d)
                            ==> r@.contains((k, d)),
                decreases entries@.len() - i,
            {
                if entries[i].valid_until.is_none() {
                    let deps = &entries[i].key_deps;
                    let mut j: usize = 0;
                    while j < deps.len()
                        invariant
                            k < self.nodes@.len(),
                            *entries == self.nodes@[k as int].entries,
                            i < entries@.len(),
                            entries@[i as int].valid_until is None,
                            *deps == entries@[i as int].key_deps,
                            j <= deps@.len(),
                            forall|x: int| 0 <= x < r@.len() ==> self.has_edge(#[trigger] r@[x].0 as int, r@[x].1),
                            forall|kk: int, d: usize| 0 <= kk < k && #[trigger] self.has_edge(kk, d) ==> r@.contains((kk as usize, d)),
                            forall|ii: int, d: usize|
                                0 <= ii < i && entries@[ii].valid_until is None && #[trigger] entries@[ii].key_deps@.contains(d)
                                    ==> r@.contains((k, d)),
                            forall|jj: int| 0 <= jj < j ==> r@.contains((k, #[trigger] deps@[jj])),
                        decreases deps@.len() - j,
                    {
                        let ghost before = r@;
                        r.push((k, deps[j]));
                        proof {
                            assert(deps@.contains(deps@[j as int]));
                            assert(self.has_edge(k as int, deps@[j as int]));
                            assert(r@[before.len() as int] == (k, deps@[j as int]));
                            assert forall|y: (usize, usize)| before.contains(y) implies r@.contains(y) by {
                                let w = choose|w: int| 0 <= w < before.len() && before[w] == y;
                                assert(r@[w] == y);
                            }
                        }
                        j = j + 1;
                    }
                    proof {
                        assert forall|d: usize| deps@.contains(d) implies r@.contains((k, d)) by {
                            let w = choose|w: int| 0 <= w < deps@.len() && deps@[w] == d;
                            assert(r@.contains((k, deps@[w])));
                        }
                    }
                }
                i = i + 1;
            }
            proof {
                assert forall|kk: int, d: usize| 0 <= kk < k + 1 && #[trigger] self.has_edge(kk, d) implies r@.contains((kk as usize, d)) by {
                    if kk == k {
                        let ii = choose|ii: int|
                            0 <= ii < self.nodes()[kk].entries@.len() && (#[trigger] self.nodes()[kk].entries@[ii]).valid_until is None
                                && self.nodes()[kk].entries@[ii].key_deps@.contains(d);
                        assert(entries@[ii].valid_until is None);
                    }
                }
            }
            k = k + 1;
        }
        r
    }

    /// The counters of this state.
    pub open spec fn metrics_spec(&self) -> Metrics {
        Metrics {
            key_count: self.nodes().len() as usize,
            version_count: self.history().len() as usize,
            active_versions: count_live(self.guards()) as usize,
            running_tasks: count_running(self.tasks()) as usize,
        }
    }

    /// Counters of the state as it stands.
    pub fn metrics(&self) -> (r: Metrics)
        requires
            self.wf(),
        ensures
            r == self.metrics_spec(),
            r.key_count == self.nodes().len(),
            r.version_count == self.history().len(),
            r.active_versions == count_live(self.guards()),
            r.running_tasks == count_running(self.tasks()),
    {
        let mut live: usize = 0;
        let mut i: usize = 0;
        while i < self.guards.len()
            invariant
                i <= self.guards@.len(),
                live == count_live(self.guards@.subrange(0, i as int)),
                live <= i,
            decreases self.guards@.len() - i,
        {
            proof {
                assert(self.guards@.subrange(0, i + 1).drop_last() =~= self.guards@.subrange(0, i as int));
            }
            if self.guards[i] > 0 {
                live = live + 1;
            }
            i = i + 1;
        }
        proof {
            assert(self.guards@.subrange(0, i as int) =~= self.guards@);
        }
        let mut running: usize = 0;
        let mut i: usize = 0;
        while i < self.tasks.len()
            invariant
                i <= self.tasks@.len(),
                running == count_running(self.tasks@.subrange(0, i as int)),
                running <= i,
            decreases self.tasks@.len() - i,
        {
            proof {
                assert(self.tasks@.subrange(0, i + 1).drop_last() =~= self.tasks@.subrange(0, i as int));
            }
            if self.tasks[i].state == TaskState::Running {
                running = running + 1;
            }
            i = i + 1;
        }
        proof {
            assert(self.tasks@.subrange(0, i as int) =~= self.tasks@);
        }
        Metrics {
            key_count: self.nodes.len(),
            version_count: self.history.len(),
            active_versions: live,
            running_tasks: running,
        }
    }
}

/// Versions handed out by successive commits strictly increase, so no
/// version is handed out twice. `states[i]` is the state just before the
/// `i`-th commit, which returned `versions[i]`; between two commits the
/// newest version never decreases.
pub proof fn lemma_versions_increase(states: Seq<CoreState>, versions: Seq<int>)
    requires
        states.len() == versions.len() + 1,
        forall|i: int|
            0 <= i < versions.len() ==> #[trigger] versions[i] == states[i].current() + 1
                && states[i + 1].current() >= versions[i],
    ensures
        forall|i: int, j: int| 0 <= i < j < versions.len() ==> versions[i] < versions[j],
    decreases versions.len(),
{
    if versions.len() > 0 {
        let n = versions.len() - 1;
        lemma_versions_increase(states.drop_last(), versions.drop_last());
        assert forall|i: int, j: int| 0 <= i < j < versions.len() implies versions[i] < versions[j] by {
            if j == n {
                assert(versions.drop_last()[i] == versions[i]);
                assert(versions[n] == states[n].current() + 1);
                if i < n - 1 {
                    assert(versions.drop_last()[i] < versions.drop_last()[n - 1]);
                }
                assert(states[n].current() >= versions[n - 1]);
            } else {
                assert(versions.drop_last()[i] < versions.drop_last()[j]);
            }
        }
    }
}

/// A reader at version `v` sees the same global values in any later state:
/// commits only add versions after the newest one.
pub proof fn lemma_read_consistency(a: CoreState, b: CoreState, v: int, slot: u64)
    requires
        a.wf(),
        a.history().len() <= b.history().len(),
        b.history().subrange(0, a.history().len() as int) == a.history(),
        0 <= v < a.history().len(),
    ensures
        b.global_at(v, slot) == a.global_at(v, slot),
{
    assert(b.history()[v] == b.history().subrange(0, a.history().len() as int)[v]);
}

/// A result that may be served at version `v` was computed from slot values
/// that are the same at `v` as at the version that produced it.
pub proof fn lemma_cache_validity(s: CoreState, key: int, i: int, v: int)
    requires
        s.wf(),
        0 <= key < s.nodes().len(),
        0 <= i < s.nodes()[key].entries@.len(),
        valid_at(s.nodes()[key].entries@[i], v),
        v < s.history().len(),
    ensures
        forall|j: int|
            0 <= j < s.nodes()[key].entries@[i].slot_deps@.len() ==> s.global_at(
                v,
                #[trigger] s.nodes()[key].entries@[i].slot_deps@[j],
            ) == s.global_at(s.nodes()[key].entries@[i].produced as int, s.nodes()[key].entries@[i].slot_deps@[j]),
{
    let e = s.nodes()[key].entries@[i];
    assert(entry_sound(s.history(), e));
    assert forall|j: int| 0 <= j < e.slot_deps@.len() implies s.global_at(v, #[trigger] e.slot_deps@[j])
        == s.global_at(e.produced as int, e.slot_deps@[j]) by {
        assert(crate::graph::unchanged(s.history(), e.slot_deps@[j], e.produced as int, crate::graph::entry_end(e, s.history().len() as int)));
        assert(s.history()[v].value(e.slot_deps@[j]) == s.history()[e.produced as int].value(e.slot_deps@[j]));
    }
}

/// In every state, at most one evaluation of a key at a version is running,
/// whether or not it was asked to stop.
pub proof fn lemma_at_most_one_evaluation(s: CoreState, a: int, b: int)
    requires
        s.wf(),
        0 <= a < s.tasks().len(),
        0 <= b < s.tasks().len(),
        is_running(s.tasks()[a]),
        is_running(s.tasks()[b]),
        s.tasks()[a].key == s.tasks()[b].key,
        s.tasks()[a].version == s.tasks()[b].version,
    ensures
        a == b,
{
}

/// Once every task that was waiting to unwind has reached a final state,
/// and no other task was asked to stop since, the state is idle.
pub proof fn lemma_quiescence(s: CoreState, waited: Seq<int>)
    requires
        forall|i: int|
            0 <= i < s.tasks().len() && is_pending_cancellation(#[trigger] s.tasks()[i]) ==> waited.contains(i),
        forall|j: int|
            0 <= j < waited.len() && 0 <= waited[j] < s.tasks().len() ==> s.tasks()[#[trigger] waited[j]].state
                != TaskState::Running,
    ensures
        s.idle(),
{
    assert forall|i: int| 0 <= i < s.tasks().len() implies !is_pending_cancellation(#[trigger] s.tasks()[i]) by {
        if is_pending_cancellation(s.tasks()[i]) {
            let j = choose|j: int| 0 <= j < waited.len() && waited[j] == i;
            assert(s.tasks()[waited[j]].state != TaskState::Running);
        }
    }
}

} // verus!
