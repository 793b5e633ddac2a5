//! The versioned dependency graph: per key, the results computed so far, each
//! with the range of versions over which it is valid and the dependencies
//! recorded while it was computed.

use vstd::prelude::*;
use crate::data::DiceData;
use crate::error::DiceError;

verus! {

/// One computed result of a key.
pub struct CacheEntry {
    /// The value, or the failure that the computation reported.
    pub value: Result<i64, DiceError>,
    /// The version at which the result was produced.
    pub produced: usize,
    /// The first version at which the result is no longer valid; `None`
    /// while no change has reached it.
    pub valid_until: Option<usize>,
    /// The global slots read, directly or through other keys.
    pub slot_deps: Vec<u64>,
    /// The keys read.
    pub key_deps: Vec<usize>,
}

/// The results of one key and the keys that consulted it.
pub struct GraphNode {
    pub entries: Vec<CacheEntry>,
    pub dependents: Vec<usize>,
}

/// The end of an entry's validity range when `n` versions exist.
pub open spec fn entry_end(e: CacheEntry, n: int) -> int {
    match e.valid_until {
        Some(u) => u as int,
        None => n,
    }
}

/// The entry may be served to a reader at version `v`.
pub open spec fn valid_at(e: CacheEntry, v: int) -> bool {
    &&& e.produced <= v
    &&& match e.valid_until {
        Some(u) => v < u,
        None => true,
    }
}

/// Slot `s` holds one value at every version from `from` up to, not
/// including, `to`.
pub open spec fn unchanged(h: Seq<DiceData>, s: u64, from: int, to: int) -> bool {
    forall|v: int| from <= v < to ==> #[trigger] h[v].value(s) == h[from].value(s)
}

/// The entry lies within the history `h`, and none of its slot dependencies
/// changes over its validity range.
pub open spec fn entry_sound(h: Seq<DiceData>, e: CacheEntry) -> bool {
    &&& e.produced < h.len()
    &&& match e.valid_until {
        Some(u) => e.produced < u <= h.len(),
        None => true,
    }
    &&& forall|j: int|
        0 <= j < e.slot_deps@.len() ==> unchanged(
            h,
            #[trigger] e.slot_deps@[j],
            e.produced as int,
            entry_end(e, h.len() as int),
        )
}

/// Every entry of every node is sound against the history `h`.
pub open spec fn graph_sound(h: Seq<DiceData>, nodes: Seq<GraphNode>) -> bool {
    forall|k: int, i: int|
        0 <= k < nodes.len() && 0 <= i < nodes[k].entries@.len() ==> entry_sound(
            h,
            #[trigger] nodes[k].entries@[i],
        )
}

/// `a` and `b` agree on every slot in `deps`.
pub open spec fn agree_on(deps: Seq<u64>, a: DiceData, b: DiceData) -> bool {
    forall|j: int| 0 <= j < deps.len() ==> a.value(#[trigger] deps[j]) == b.value(deps[j])
}

/// A sound entry stays sound when a version is added that keeps its slot
/// dependencies or that it no longer covers.
pub proof fn lemma_entry_extend(h: Seq<DiceData>, new: DiceData, e: CacheEntry)
    requires
        h.len() > 0,
        entry_sound(h, e),
        e.valid_until is Some || agree_on(e.slot_deps@, h.last(), new),
    ensures
        entry_sound(h.push(new), e),
{
    let h2 = h.push(new);
    assert forall|j: int| 0 <= j < e.slot_deps@.len() implies unchanged(
        h2,
        #[trigger] e.slot_deps@[j],
        e.produced as int,
        entry_end(e, h2.len() as int),
    ) by {
        let s = e.slot_deps@[j];
        assert(unchanged(h, s, e.produced as int, entry_end(e, h.len() as int)));
        assert forall|v: int| e.produced <= v < entry_end(e, h2.len() as int) implies #[trigger] h2[v].value(s)
            == h2[e.produced as int].value(s) by {
            if v < h.len() {
                assert(h2[v] == h[v]);
            } else {
                assert(h[h.len() - 1].value(s) == h[e.produced as int].value(s));
            }
        }
    }
}

/// Closing an open entry at the version being added keeps it sound.
pub proof fn lemma_entry_close(h: Seq<DiceData>, new: DiceData, e: CacheEntry, closed: CacheEntry)
    requires
        entry_sound(h, e),
        e.valid_until is None,
        closed == (CacheEntry { valid_until: Some(h.len() as usize), ..e }),
        h.len() <= usize::MAX,
    ensures
        entry_sound(h.push(new), closed),
{
    let h2 = h.push(new);
    assert forall|j: int| 0 <= j < closed.slot_deps@.len() implies unchanged(
        h2,
        #[trigger] closed.slot_deps@[j],
        closed.produced as int,
        entry_end(closed, h2.len() as int),
    ) by {
        let s = closed.slot_deps@[j];
        assert(e.slot_deps@[j] == s);
        assert(unchanged(h, s, e.produced as int, entry_end(e, h.len() as int)));
        assert forall|v: int| closed.produced <= v < entry_end(closed, h2.len() as int) implies #[trigger] h2[v].value(s)
            == h2[closed.produced as int].value(s) by {
            assert(h2[v] == h[v]);
        }
    }
}

/// Whether `a` and `b` agree on every slot in `deps`.
pub fn agree(deps: &Vec<u64>, a: &DiceData, b: &DiceData) -> (r: bool)
    ensures
        r == agree_on(deps@, *a, *b),
{
    let mut j: usize = 0;
    while j < deps.len()
        invariant
            j <= deps.len(),
            forall|i: int| 0 <= i < j ==> a.value(#[trigger] deps@[i]) == b.value(deps@[i]),
        decreases deps.len() - j,
    {
        if a.get(deps[j]) != b.get(deps[j]) {
            return false;
        }
        j = j + 1;
    }
    true
}

} // verus!
