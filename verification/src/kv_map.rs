//! `KVMap`: a plain in-memory map from string keys to string values, with a
//! resumable iteration over a frozen copy of its entries.
use crate::listing::{lists_exactly, step_from, Listing};
use crate::table::Table;
use vstd::prelude::*;

verus! {

/// What a read of key `k` answers on the map `m`: the value stored under
/// `k`, if there is one.
pub open spec fn lookup(m: Map<Seq<char>, String>, k: Seq<char>) -> Option<String> {
    if m.contains_key(k) {
        Some(m[k])
    } else {
        None
    }
}

pub struct KVMap {
    map: Table<String>,
    iter: Option<Listing>,
}

impl View for KVMap {
    type V = Map<Seq<char>, String>;

    closed spec fn view(&self) -> Map<Seq<char>, String> {
        self.map.view()
    }
}

/// Copies the entries of `t` into a vector that lists each of them once.
fn copy_entries(t: &Table<String>) -> (out: Vec<(String, String)>)
    requires
        t.wf(),
    ensures
        lists_exactly(out@, t.view()),
{
    let n = t.len();
    let mut out: Vec<(String, String)> = Vec::new();
    let mut i: usize = 0;
    while i < n
        invariant
            t.wf(),
            n == t.slot_seq().len(),
            i <= n,
            out@ =~= t.slot_seq().take(i as int),
        decreases n - i,
    {
        let s = t.slot(i);
        out.push((s.0.clone(), s.1.clone()));
        i = i + 1;
    }
    proof {
        t.lemma_slots_list();
        assert(out@ =~= t.slot_seq());
    }
    out
}

impl KVMap {
    #[verifier::type_invariant]
    spec fn inv(&self) -> bool {
        self.map.wf()
    }

    /// The pairs an iteration in progress has still to hand out, or `None`
    /// when no iteration has been started.
    pub closed spec fn pending(&self) -> Option<Seq<(String, String)>> {
        match self.iter {
            Some(l) => Some(l.remaining()),
            None => None,
        }
    }

    /// An empty map with no iteration started.
    pub fn new() -> (m: Self)
        ensures
            m@ == Map::<Seq<char>, String>::empty(),
            m.pending() is None,
    {
        KVMap { map: Table::new(), iter: None }
    }

    /// Stores `value` under `key`, replacing what was there.
    pub fn set(&mut self, key: String, value: String)
        ensures
            final(self)@ == old(self)@.insert(key@, value),
            final(self).pending() == old(self).pending(),
    {
        proof {
            use_type_invariant(&*self);
        }
        let mut t = Table::new();
        std::mem::swap(&mut t, &mut self.map);
        t.insert(key, value);
        self.map = t;
    }

    /// The value stored under `key`, if any.
    pub fn get(&mut self, key: String) -> (r: Option<String>)
        ensures
            r == lookup(old(self)@, key@),
            final(self)@ == old(self)@,
            final(self).pending() == old(self).pending(),
    {
        proof {
            use_type_invariant(&*self);
        }
        match self.map.get(key.as_str()) {
            Some(v) => Some(v.clone()),
            None => None,
        }
    }

    /// Removes `key` and its value; a missing key leaves the map as it is.
    pub fn delete(&mut self, key: String)
        ensures
            final(self)@ == old(self)@.remove(key@),
            final(self).pending() == old(self).pending(),
    {
        proof {
            use_type_invariant(&*self);
        }
        let mut t = Table::new();
        std::mem::swap(&mut t, &mut self.map);
        t.remove(key.as_str());
        self.map = t;
    }

    /// Starts an iteration over a copy of the current entries; later changes
    /// to the map do not show in it.
    pub fn start_iter(&mut self)
        ensures
            final(self)@ == old(self)@,
            final(self).pending() matches Some(s) && lists_exactly(s, old(self)@),
    {
        proof {
            use_type_invariant(&*self);
        }
        let entries = copy_entries(&self.map);
        self.iter = Some(Listing::new(entries));
    }

    /// The next entry of the iteration in progress, starting one first if
    /// there is none; `None` once every entry has been handed out.
    pub fn next(&mut self) -> (r: Option<(String, String)>)
        ensures
            final(self)@ == old(self)@,
            final(self).pending() is Some,
            match old(self).pending() {
                Some(s) => step_from(s, r, final(self).pending()->0),
                None => exists|s: Seq<(String, String)>|
                    lists_exactly(s, old(self)@) && step_from(s, r, #[trigger] final(self).pending()->0),
            },
    {
        if self.iter.is_none() {
            self.start_iter();
        }
        proof {
            use_type_invariant(&*self);
        }
        let mut it: Option<Listing> = None;
        std::mem::swap(&mut it, &mut self.iter);
        let r = match &mut it {
            Some(l) => l.next(),
            None => None,
        };
        self.iter = it;
        r
    }
}

/// A read answers the value last written under its key, a write leaves
/// every other key as it was, and a read after a delete answers nothing.
pub proof fn law_read_your_writes(m: Map<Seq<char>, String>, k: Seq<char>, v: String, other: Seq<char>)
    requires
        other != k,
    ensures
        lookup(m.insert(k, v), k) == Some(v),
        lookup(m.insert(k, v), other) == lookup(m, other),
        lookup(m.remove(k), k) is None,
        lookup(m.remove(k), other) == lookup(m, other),
{
}

} // verus!
