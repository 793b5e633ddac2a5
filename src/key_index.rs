//! Interning of key values into compact identifiers.

use vstd::prelude::*;

verus! {

/// No key value occurs twice.
pub open spec fn distinct(keys: Seq<Seq<char>>) -> bool {
    forall|i: int, j: int|
        0 <= i < keys.len() && 0 <= j < keys.len() && #[trigger] keys[i] == #[trigger] keys[j]
            ==> i == j
}

/// What interning `key` does to the key table: the table afterwards and the
/// identifier handed out.
pub open spec fn intern_spec(keys: Seq<Seq<char>>, key: Seq<char>) -> (Seq<Seq<char>>, int) {
    if keys.contains(key) {
        (keys, keys.index_of(key))
    } else {
        (keys.push(key), keys.len() as int)
    }
}

/// Interning a value twice gives the same identifier and leaves the table as
/// the first call left it; the identifier resolves back to the value; and the
/// table still maps each value to one identifier only.
pub proof fn lemma_intern_idempotent(keys: Seq<Seq<char>>, key: Seq<char>)
    requires
        distinct(keys),
    ensures
        intern_spec(intern_spec(keys, key).0, key) == intern_spec(keys, key),
        intern_spec(keys, key).0[intern_spec(keys, key).1] == key,
        distinct(intern_spec(keys, key).0),
{
    let (k1, id1) = intern_spec(keys, key);
    if keys.contains(key) {
        let i = choose|i: int| 0 <= i < keys.len() && keys[i] == key;
        assert(keys[keys.index_of(key)] == key);
    } else {
        assert(k1[id1] == key);
        assert(k1.contains(key));
        assert(k1[k1.index_of(key)] == key);
        assert forall|i: int, j: int|
            0 <= i < k1.len() && 0 <= j < k1.len() && #[trigger] k1[i] == #[trigger] k1[j]
                implies i == j by {
            if i < keys.len() && j == keys.len() {
                assert(keys[i] == key);
            }
            if j < keys.len() && i == keys.len() {
                assert(keys[j] == key);
            }
        }
    }
}

/// A bijection between key values and identifiers `0 .. len`.
pub struct DiceKeyIndex {
    keys: Vec<String>,
}

impl View for DiceKeyIndex {
    type V = Seq<Seq<char>>;

    closed spec fn view(&self) -> Seq<Seq<char>> {
        self.keys@.map_values(|k: String| k@)
    }
}

impl DiceKeyIndex {
    pub open spec fn wf(&self) -> bool {
        distinct(self@)
    }

    /// An index that has seen no key.
    pub fn new() -> (r: DiceKeyIndex)
        ensures
            r.wf(),
            r@ == Seq::<Seq<char>>::empty(),
    {
        DiceKeyIndex { keys: Vec::new() }
    }

    /// The number of identifiers handed out so far.
    pub fn len(&self) -> (r: usize)
        ensures
            r == self@.len(),
    {
        self.keys.len()
    }

    /// The identifier of `key`: the one it already has, or the next unused one.
    pub fn intern(&mut self, key: &String) -> (r: usize)
        requires
            old(self).wf(),
        ensures
            final(self).wf(),
            (final(self)@, r as int) == intern_spec(old(self)@, key@),
            final(self)@[r as int] == key@,
    {
        let mut i: usize = 0;
        while i < self.keys.len()
            invariant
                i <= self.keys.len(),
                self@ == old(self)@,
                self.wf(),
                self@.len() == self.keys@.len(),
                forall|j: int| 0 <= j < i ==> self@[j] != key@,
            decreases self.keys.len() - i,
        {
            if self.keys[i] == *key {
                proof {
                    assert(self@[i as int] == key@);
                    assert(self@.contains(key@));
                    assert(self@[self@.index_of(key@)] == key@);
                    let f = self@.index_of(key@);
                    assert(self@[f] == self@[i as int]);
                }
                return i;
            }
            i = i + 1;
        }
        proof {
            assert(!self@.contains(key@));
            lemma_intern_idempotent(self@, key@);
        }
        self.keys.push(key.clone());
        proof {
            assert(self@ =~= old(self)@.push(key@));
        }
        i
    }

    /// The key value of identifier `id`.
    pub fn resolve(&self, id: usize) -> (r: &String)
        requires
            id < self@.len(),
        ensures
            r@ == self@[id as int],
    {
        &self.keys[id]
    }
}

} // verus!
