//! The keyed table behind both maps of the store: a dense vector of
//! `(key, value)` slots and a hash index from each key to its slot. Lookups,
//! inserts and removals touch a constant number of slots; the slots list
//! every entry once, which is what iteration and eviction walk.
use crate::listing::lists_exactly;
use vstd::hash_map::StringHashMap;
use vstd::prelude::*;

verus! {

broadcast use vstd::hash_map::group_hash_map_axioms;

pub struct Table<V> {
    slots: Vec<(String, V)>,
    index: StringHashMap<usize>,
}

/// Calls `Vec::shrink_to_fit`, which releases unused capacity and leaves the
/// elements as they were.
#[verifier::external_body]
fn shrink_slots<V>(slots: &mut Vec<(String, V)>)
    ensures
        final(slots)@ == old(slots)@,
{
    slots.shrink_to_fit();
}

impl<V> Table<V> {
    /// The slots hold each key once, and the index sends each key to its slot.
    pub closed spec fn wf(&self) -> bool {
        &&& self.index@.dom().finite()
        &&& self.slots@.len() == self.index@.len()
        &&& forall|k: Seq<char>| #[trigger]
            self.index@.contains_key(k) ==> {
                &&& self.index@[k] < self.slots@.len()
                &&& self.slots@[self.index@[k] as int].0@ == k
            }
        &&& forall|i: int|
            0 <= i < self.slots@.len() ==> {
                &&& self.index@.contains_key(#[trigger] self.slots@[i].0@)
                &&& self.index@[self.slots@[i].0@] == i
            }
    }

    /// The entries of the table, keyed by the characters of each key.
    pub closed spec fn view(&self) -> Map<Seq<char>, V> {
        Map::new(
            |k: Seq<char>| self.index@.contains_key(k),
            |k: Seq<char>| self.slots@[self.index@[k] as int].1,
        )
    }

    /// The slots in their current order.
    pub closed spec fn slot_seq(&self) -> Seq<(String, V)> {
        self.slots@
    }

    /// The slots of a well-formed table list its entries exactly once.
    pub proof fn lemma_slots_list(&self)
        requires
            self.wf(),
        ensures
            lists_exactly(self.slot_seq(), self.view()),
            self.slot_seq().len() == self.view().len(),
    {
        let s = self.slots@;
        let m = self.view();
        assert forall|i: int, j: int|
            0 <= i < s.len() && 0 <= j < s.len() && i != j implies #[trigger] s[i].0@ != #[trigger] s[j].0@ by {
            assert(self.index@.contains_key(s[i].0@));
            assert(self.index@.contains_key(s[j].0@));
        }
        assert forall|i: int| 0 <= i < s.len() implies m.contains_key(#[trigger] s[i].0@) && m[s[i].0@] == s[i].1 by {
            assert(self.index@.contains_key(s[i].0@));
        }
        assert forall|k: Seq<char>| #[trigger] m.contains_key(k) implies exists|i: int| 0 <= i < s.len() && s[i].0@ == k by {
            assert(self.index@.contains_key(k));
            let i = self.index@[k] as int;
            assert(0 <= i < s.len() && s[i].0@ == k);
        }
        assert(m.dom() =~= self.index@.dom());
    }

    pub fn new() -> (t: Self)
        ensures
            t.wf(),
            t.view() =~= Map::<Seq<char>, V>::empty(),
    {
        Table { slots: Vec::new(), index: StringHashMap::new() }
    }

    pub fn len(&self) -> (n: usize)
        requires
            self.wf(),
        ensures
            n == self.view().len(),
            n == self.slot_seq().len(),
    {
        assert(self.view().dom() =~= self.index@.dom());
        self.slots.len()
    }

    pub fn get(&self, key: &str) -> (r: Option<&V>)
        requires
            self.wf(),
        ensures
            match r {
                Some(v) => self.view().contains_key(key@) && *v == self.view()[key@],
                None => !self.view().contains_key(key@),
            },
    {
        match self.index.get(key) {
            Some(i) => Some(&self.slots[*i].1),
            None => None,
        }
    }

    pub fn slot(&self, i: usize) -> (r: &(String, V))
        requires
            i < self.slot_seq().len(),
        ensures
            *r == self.slot_seq()[i as int],
    {
        &self.slots[i]
    }

    pub fn slot_vec(&self) -> (r: &Vec<(String, V)>)
        ensures
            r@ == self.slot_seq(),
    {
        &self.slots
    }

    pub fn insert(&mut self, key: String, v: V)
        requires
            old(self).wf(),
        ensures
            final(self).wf(),
            final(self).view() =~= old(self).view().insert(key@, v),
    {
        let ghost k = key@;
        match self.index.get(key.as_str()) {
            Some(i) => {
                let i = *i;
                self.slots.set(i, (key, v));
                assert forall|j: int|
                    0 <= j < self.slots@.len() implies self.index@.contains_key(#[trigger] self.slots@[j].0@)
                        && self.index@[self.slots@[j].0@] == j by {
                    if j != i {
                        assert(self.slots@[j] == old(self).slots@[j]);
                    }
                }
                assert forall|q: Seq<char>| #[trigger] self.view().contains_key(q) implies self.view()[q]
                    == old(self).view().insert(k, v)[q] by {
                    if q != k {
                        assert(self.index@[q] != i);
                    }
                }
            },
            None => {
                let n = self.slots.len();
                let key2 = key.clone();
                self.slots.push((key, v));
                self.index.insert(key2, n);
                assert forall|q: Seq<char>| #[trigger]
                    self.index@.contains_key(q) implies self.index@[q] < self.slots@.len()
                        && self.slots@[self.index@[q] as int].0@ == q by {
                    if q != k {
                        assert(old(self).index@.contains_key(q));
                    }
                }
                assert forall|j: int|
                    0 <= j < self.slots@.len() implies self.index@.contains_key(#[trigger] self.slots@[j].0@)
                        && self.index@[self.slots@[j].0@] == j by {
                    if j < n {
                        assert(self.slots@[j] == old(self).slots@[j]);
                        assert(old(self).index@.contains_key(old(self).slots@[j].0@));
                    }
                }
                assert forall|q: Seq<char>| #[trigger] self.view().contains_key(q) implies self.view()[q]
                    == old(self).view().insert(k, v)[q] by {
                    if q != k {
                        assert(old(self).index@.contains_key(q));
                    }
                }
            },
        }
        assert(self.view().dom() =~= old(self).view().insert(k, v).dom());
    }

    pub fn remove(&mut self, key: &str) -> (r: Option<V>)
        requires
            old(self).wf(),
        ensures
            final(self).wf(),
            final(self).view() =~= old(self).view().remove(key@),
            r == (if old(self).view().contains_key(key@) {
                Some(old(self).view()[key@])
            } else {
                None::<V>
            }),
    {
        let ghost k = key@;
        match self.index.get(key) {
            None => {
                assert(self.view().dom() =~= old(self).view().remove(k).dom());
                None
            },
            Some(i) => {
                let i = *i;
                let last = self.slots.len() - 1;
                let (_, v) = self.slots.swap_remove(i);
                self.index.remove(key);
                if i < last {
                    let moved = self.slots[i].0.clone();
                    self.index.insert(moved, i);
                    let ghost mk = old(self).slots@[last as int].0@;
                    assert(mk != k);
                    assert forall|q: Seq<char>| #[trigger]
                        self.index@.contains_key(q) implies self.index@[q] < self.slots@.len()
                            && self.slots@[self.index@[q] as int].0@ == q by {
                        if q != mk {
                            assert(old(self).index@.contains_key(q));
                            assert(old(self).index@[q] != i);
                            assert(old(self).index@[q] != last);
                        }
                    }
                    assert forall|j: int|
                        0 <= j < self.slots@.len() implies self.index@.contains_key(#[trigger] self.slots@[j].0@)
                            && self.index@[self.slots@[j].0@] == j by {
                        if j != i {
                            assert(self.slots@[j] == old(self).slots@[j]);
                            assert(old(self).index@.contains_key(old(self).slots@[j].0@));
                        }
                    }
                    assert forall|q: Seq<char>| #[trigger] self.view().contains_key(q) implies self.view()[q]
                        == old(self).view().remove(k)[q] by {
                        assert(old(self).index@.contains_key(q));
                    }
                    assert(self.index@.dom() =~= old(self).index@.dom().remove(k));
                } else {
                    assert forall|q: Seq<char>| #[trigger]
                        self.index@.contains_key(q) implies self.index@[q] < self.slots@.len()
                            && self.slots@[self.index@[q] as int].0@ == q by {
                        assert(old(self).index@.contains_key(q));
                        assert(old(self).index@[q] != i);
                    }
                    assert forall|j: int|
                        0 <= j < self.slots@.len() implies self.index@.contains_key(#[trigger] self.slots@[j].0@)
                            && self.index@[self.slots@[j].0@] == j by {
                        assert(self.slots@[j] == old(self).slots@[j]);
                        assert(old(self).index@.contains_key(old(self).slots@[j].0@));
                    }
                }
                assert(self.view().dom() =~= old(self).view().remove(k).dom());
                Some(v)
            },
        }
    }

    /// Releases the slots' unused capacity; the entries stay as they were.
    pub fn shrink_to_fit(&mut self)
        requires
            old(self).wf(),
        ensures
            final(self).wf(),
            final(self).view() == old(self).view(),
            final(self).slot_seq() == old(self).slot_seq(),
    {
        shrink_slots(&mut self.slots);
    }
}

} // verus!
