//! Global configuration slots: a store from slot id to value where the last
//! write of a slot wins.

use vstd::prelude::*;

verus! {

/// The value that a sequence of writes leaves in `slot`: the last write wins.
pub open spec fn slot_value(writes: Seq<(u64, i64)>, slot: u64) -> Option<i64>
    decreases writes.len(),
{
    if writes.len() == 0 {
        None
    } else if writes.last().0 == slot {
        Some(writes.last().1)
    } else {
        slot_value(writes.drop_last(), slot)
    }
}

/// Applying `later` on top of `earlier`: a slot that `later` writes takes
/// that value, every other slot keeps the earlier one.
pub proof fn lemma_slot_value_concat(earlier: Seq<(u64, i64)>, later: Seq<(u64, i64)>, slot: u64)
    ensures
        slot_value(earlier + later, slot) == (match slot_value(later, slot) {
            Some(v) => Some(v),
            None => slot_value(earlier, slot),
        }),
    decreases later.len(),
{
    if later.len() == 0 {
        assert(earlier + later =~= earlier);
    } else {
        assert((earlier + later).drop_last() =~= earlier + later.drop_last());
        lemma_slot_value_concat(earlier, later.drop_last(), slot);
    }
}

/// A set of global slot values.
pub struct DiceData {
    writes: Vec<(u64, i64)>,
}

impl View for DiceData {
    type V = Seq<(u64, i64)>;

    closed spec fn view(&self) -> Seq<(u64, i64)> {
        self.writes@
    }
}

impl DiceData {
    /// The value this store holds in `slot`.
    pub open spec fn value(&self, slot: u64) -> Option<i64> {
        slot_value(self@, slot)
    }

    /// An empty store: no slot holds a value.
    pub fn new() -> (r: DiceData)
        ensures
            forall|s: u64| #[trigger] r.value(s) == None::<i64>,
            r@.len() == 0,
    {
        DiceData { writes: Vec::new() }
    }

    /// Overwrites `slot` with `val`; every other slot keeps its value.
    pub fn set(&mut self, slot: u64, val: i64)
        ensures
            final(self)@ == old(self)@.push((slot, val)),
            final(self).value(slot) == Some(val),
            forall|s: u64| s != slot ==> #[trigger] final(self).value(s) == old(self).value(s),
    {
        self.writes.push((slot, val));
        proof {
            assert(self@.drop_last() =~= old(self)@);
        }
    }

    /// The value held in `slot`, if any.
    pub fn get(&self, slot: u64) -> (r: Option<i64>)
        ensures
            r == self.value(slot),
    {
        let mut i: usize = self.writes.len();
        proof {
            assert(self@.subrange(0, i as int) =~= self@);
        }
        while i > 0
            invariant
                i <= self.writes.len(),
                slot_value(self@, slot) == slot_value(self@.subrange(0, i as int), slot),
            decreases i,
        {
            let w = self.writes[i - 1];
            if w.0 == slot {
                return Some(w.1);
            }
            proof {
                assert(self@.subrange(0, i as int).drop_last() =~= self@.subrange(0, i - 1));
            }
            i = i - 1;
        }
        proof {
            assert(self@.subrange(0, 0) =~= Seq::<(u64, i64)>::empty());
        }
        None
    }

    /// A store holding the same writes as `self`.
    pub fn copy(&self) -> (r: DiceData)
        ensures
            r@ == self@,
    {
        let mut writes: Vec<(u64, i64)> = Vec::new();
        let mut i: usize = 0;
        while i < self.writes.len()
            invariant
                i <= self.writes.len(),
                writes@ == self@.subrange(0, i as int),
            decreases self.writes.len() - i,
        {
            writes.push(self.writes[i]);
            i = i + 1;
            proof {
                assert(writes@ =~= self@.subrange(0, i as int));
            }
        }
        proof {
            assert(writes@ =~= self@);
        }
        DiceData { writes }
    }

    /// The store that results from applying `changes` on top of `self`.
    pub fn merged(&self, changes: &DiceData) -> (r: DiceData)
        ensures
            r@ == self@ + changes@,
            forall|s: u64| #[trigger] r.value(s) == (match changes.value(s) {
                Some(v) => Some(v),
                None => self.value(s),
            }),
    {
        let mut r = self.copy();
        let mut i: usize = 0;
        while i < changes.writes.len()
            invariant
                i <= changes.writes.len(),
                r@ == self@ + changes@.subrange(0, i as int),
            decreases changes.writes.len() - i,
        {
            let w = changes.writes[i];
            r.writes.push(w);
            i = i + 1;
            proof {
                assert(r@ =~= self@ + changes@.subrange(0, i as int));
            }
        }
        proof {
            assert(changes@.subrange(0, i as int) =~= changes@);
            assert forall|s: u64| #[trigger] r.value(s) == (match changes.value(s) {
                Some(v) => Some(v),
                None => self.value(s),
            }) by {
                lemma_slot_value_concat(self@, changes@, s);
            }
        }
        r
    }
}

} // verus!
