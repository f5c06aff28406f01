//! `DualKV`: the in-memory half of the write-behind store. Every entry
//! carries a read counter; reads that miss here are answered from the
//! backing store and the entry is brought back with a count of one. When the
//! map outgrows its memory budget, the least frequently read entries are
//! chosen for eviction into the backing store.
use crate::listing::{drawn_from, lists_exactly, nth_from, step_from, Listing};
use crate::table::Table;
use itertools::Itertools;
use vstd::prelude::*;

verus! {

/// The values of a counted map, without their counts.
pub open spec fn values_of(m: Map<Seq<char>, (usize, String)>) -> Map<Seq<char>, String> {
    Map::new(|k: Seq<char>| m.contains_key(k), |k: Seq<char>| m[k].1)
}

/// The key of each pair of `s`, in order.
pub open spec fn key_seq<V>(s: Seq<(String, V)>) -> Seq<Seq<char>> {
    Seq::new(s.len(), |i: int| s[i].0@)
}

/// `r` lists each key of `d` exactly once, in some order.
pub open spec fn lists_keys(r: Seq<String>, d: Set<Seq<char>>) -> bool {
    &&& forall|i: int, j: int|
        0 <= i < r.len() && 0 <= j < r.len() && i != j ==> #[trigger] r[i]@ != #[trigger] r[j]@
    &&& forall|i: int| 0 <= i < r.len() ==> d.contains(#[trigger] r[i]@)
    &&& forall|k: Seq<char>| #[trigger] d.contains(k) ==> exists|i: int| 0 <= i < r.len() && r[i]@ == k
}

/// The keys of the pairs of `s`.
pub open spec fn keys_in<V>(s: Seq<(String, V)>) -> Set<Seq<char>> {
    Set::new(|k: Seq<char>| exists|j: int| 0 <= j < s.len() && s[j].0@ == k)
}

/// The keys of `plan` whose entry in `m` still holds the value planned for
/// it: what dropping the plan from `m` removes.
pub open spec fn still_planned(m: Map<Seq<char>, (usize, String)>, plan: Seq<(String, String)>) -> Set<
    Seq<char>,
> {
    Set::new(
        |k: Seq<char>|
            exists|j: int|
                0 <= j < plan.len() && plan[j].0@ == k && m.contains_key(k) && m[k].1@ == plan[j].1@,
    )
}

/// The key and value of each slot, leaving out the count, in slot order.
pub open spec fn value_pairs(s: Seq<(String, (usize, String))>) -> Seq<(String, String)> {
    Seq::new(s.len(), |i: int| (s[i].0, s[i].1.1))
}

/// The keys of the pairs of `s`, in order.
pub open spec fn keys_of(s: Seq<(String, String)>) -> Seq<String> {
    Seq::new(s.len(), |i: int| s[i].0)
}

/// `flags` holds one answer of `keep` for each key of `ks`, in order.
pub open spec fn answered<F: Fn(&String) -> bool>(keep: F, ks: Seq<String>, flags: Seq<bool>) -> bool {
    &&& flags.len() == ks.len()
    &&& forall|j: int| 0 <= j < ks.len() ==> keep.ensures((&ks[j],), #[trigger] flags[j])
}

/// The keys of `ks` whose flag is set, in the order of `ks`.
pub open spec fn selected(ks: Seq<String>, flags: Seq<bool>) -> Seq<String>
    decreases ks.len(),
{
    if ks.len() == 0 {
        Seq::empty()
    } else {
        let before = selected(ks.drop_last(), flags.drop_last());
        if flags.last() {
            before.push(ks.last())
        } else {
            before
        }
    }
}

/// The pairs `[key, value]` of `r`, read as tuples.
pub open spec fn pairs_of(r: Seq<Vec<String>>) -> Seq<(String, String)> {
    Seq::new(r.len(), |i: int| (r[i]@[0], r[i]@[1]))
}

/// The flat sequence `key, value, key, value, ...` read back as pairs.
pub open spec fn pairs_of_flat(r: Seq<String>) -> Seq<(String, String)> {
    Seq::new(r.len() / 2, |i: int| (r[2 * i], r[2 * i + 1]))
}


/// The cache after a read of `k` that found it: one more read counted.
pub open spec fn read_hit(m: Map<Seq<char>, (usize, String)>, k: Seq<char>) -> Map<Seq<char>, (usize, String)> {
    m.insert(k, ((m[k].0 + 1) as usize, m[k].1))
}

/// The cache after `n` reads of `k` that found it.
pub open spec fn after_hits(m: Map<Seq<char>, (usize, String)>, k: Seq<char>, n: nat) -> Map<
    Seq<char>,
    (usize, String),
>
    decreases n,
{
    if n == 0 {
        m
    } else {
        read_hit(after_hits(m, k, (n - 1) as nat), k)
    }
}

/// `p` sends the positions `0..n` one-to-one onto `0..n`.
pub open spec fn is_permutation(p: Seq<int>, n: int) -> bool {
    &&& p.len() == n
    &&& forall|i: int| 0 <= i < n ==> 0 <= #[trigger] p[i] < n
    &&& forall|i: int, j: int| 0 <= i < n && 0 <= j < n && i != j ==> #[trigger] p[i] != #[trigger] p[j]
    &&& forall|q: int| 0 <= q < n ==> #[trigger] p.contains(q)
}

/// The keys `keys` are held in `m`, each once, ordered from the least
/// read to the most read, and no key of `m` left out of them has been read
/// fewer times than any of them.
pub open spec fn least_frequent_first(keys: Seq<Seq<char>>, m: Map<Seq<char>, (usize, String)>) -> bool {
    &&& forall|i: int| 0 <= i < keys.len() ==> m.contains_key(#[trigger] keys[i])
    &&& forall|i: int, j: int|
        0 <= i < keys.len() && 0 <= j < keys.len() && i != j ==> #[trigger] keys[i] != #[trigger] keys[j]
    &&& forall|i: int, j: int| 0 <= i <= j < keys.len() ==> m[#[trigger] keys[i]].0 <= m[#[trigger] keys[j]].0
    &&& forall|k: Seq<char>, i: int|
        #[trigger] m.contains_key(k) && !keys.contains(k) && 0 <= i < keys.len() ==> m[#[trigger] keys[i]].0
            <= m[k].0
}

/// How many entries to evict when the cache holds `cache_len` entries in
/// `cache_sz` bytes against a budget of `max_sz`: the share of the entries
/// that the excess is of the whole.
pub open spec fn eviction_share(cache_len: int, cache_sz: int, max_sz: int) -> int {
    cache_len * (cache_sz - max_sz) / cache_sz
}

/// `sorted` is `items` rearranged by the permutation `p`, with items of
/// equal count kept in their order.
pub open spec fn sorted_from(
    sorted: Seq<(String, (usize, String))>,
    items: Seq<(String, (usize, String))>,
    p: Seq<int>,
) -> bool {
    &&& is_permutation(p, items.len() as int)
    &&& forall|i: int| 0 <= i < items.len() ==> #[trigger] sorted[i] == items[p[i]]
    &&& forall|i: int, j: int|
        0 <= i < j < items.len() && sorted[i].1.0 == sorted[j].1.0 ==> #[trigger] p[i] < #[trigger] p[j]
}

/// Calls `itertools::Itertools::sorted_by_key` on the items, keyed by their
/// read count, and collects the result. The crate documents it as a stable
/// sort into ascending order of the key; so the result is the items
/// rearranged, counts never decrease along it, and items with equal counts
/// keep their order.
#[verifier::external_body]
fn sort_by_frequency(items: Vec<(String, (usize, String))>) -> (sorted: Vec<(String, (usize, String))>)
    ensures
        sorted@.len() == items@.len(),
        (exists|p: Seq<int>| sorted_from(sorted@, items@, p)),
        forall|i: int, j: int| 0 <= i <= j < sorted@.len() ==> #[trigger] sorted@[i].1.0 <= #[trigger] sorted@[j].1.0,
{
    items.into_iter().sorted_by_key(|e| e.1.0).collect()
}

/// The number of characters in the keys and values of `s`.
pub open spec fn text_chars(s: Seq<(String, (usize, String))>) -> nat
    decreases s.len(),
{
    if s.len() == 0 {
        0
    } else {
        text_chars(s.drop_last()) + s.last().0@.len() + s.last().1.1@.len()
    }
}

/// Calls `deepsize::DeepSizeOf::deep_size_of` on the cache's slots: the
/// crate's estimate, in bytes, of the memory they hold. Its source adds the
/// size of the vector itself, the vector's capacity times the size of a slot,
/// and the capacity of every key and value string; a string's capacity is
/// at least its length in bytes, which is at least its number of characters.
/// So the result is at least the number of characters in all keys and
/// values; what the capacities add beyond that is what the allocator
/// granted, and is left unsaid.
#[verifier::external_body]
fn deep_size(slots: &Vec<(String, (usize, String))>) -> (r: usize)
    ensures
        r >= text_chars(slots@),
{
    deepsize::DeepSizeOf::deep_size_of(slots)
}

/// The number of entries to evict when the cache holds `cache_len` entries
/// in `cache_sz` bytes against a budget of `max_sz` bytes: the same share of
/// the entries as the excess is of the size. It never exceeds `cache_len`.
pub fn eviction_count(cache_len: usize, cache_sz: usize, max_sz: usize) -> (k: usize)
    requires
        max_sz < cache_sz,
        cache_len * (cache_sz - max_sz) <= usize::MAX,
    ensures
        k == eviction_share(cache_len as int, cache_sz as int, max_sz as int),
        k <= cache_len,
{
    let excess = cache_sz - max_sz;
    proof {
        lemma_share_bounded(cache_len as int, excess as int, cache_sz as int);
    }
    (cache_len * excess) / cache_sz
}

proof fn lemma_share_bounded(a: int, b: int, c: int)
    requires
        0 <= a,
        0 < b <= c,
    ensures
        0 <= a * b / c <= a,
{
    assert(0 <= a * b <= a * c) by (nonlinear_arith)
        requires
            0 <= a,
            0 < b <= c,
    ;
    assert(a * c / c == a) by (nonlinear_arith)
        requires
            0 < c,
    ;
    assert(a * b / c <= a * c / c) by (nonlinear_arith)
        requires
            0 <= a * b <= a * c,
            0 < c,
    ;
    assert(0 <= a * b / c) by (nonlinear_arith)
        requires
            0 <= a * b,
            0 < c,
    ;
}

pub struct DualKV {
    cache: Table<(usize, String)>,
    iter: Option<Listing>,
}

impl View for DualKV {
    /// Each key's read count and value.
    type V = Map<Seq<char>, (usize, String)>;

    closed spec fn view(&self) -> Map<Seq<char>, (usize, String)> {
        self.cache.view()
    }
}

/// Copies the key and value of each entry of `t`, leaving out the counts,
/// in slot order.
fn copy_values(t: &Table<(usize, String)>) -> (out: Vec<(String, String)>)
    requires
        t.wf(),
    ensures
        lists_exactly(out@, values_of(t.view())),
        out@ == value_pairs(t.slot_seq()),
{
    let n = t.len();
    let mut out: Vec<(String, String)> = Vec::new();
    let mut i: usize = 0;
    while i < n
        invariant
            t.wf(),
            n == t.slot_seq().len(),
            i <= n,
            out@.len() == i,
            forall|j: int|
                0 <= j < i ==> #[trigger] out@[j] == (t.slot_seq()[j].0, t.slot_seq()[j].1.1),
        decreases n - i,
    {
        let s = t.slot(i);
        out.push((s.0.clone(), s.1.1.clone()));
        i = i + 1;
    }
    proof {
        t.lemma_slots_list();
        let s = t.slot_seq();
        let m = values_of(t.view());
        assert forall|i: int, j: int|
            0 <= i < out@.len() && 0 <= j < out@.len() && i != j implies #[trigger] out@[i].0@
            != #[trigger] out@[j].0@ by {
            assert(s[i].0@ != s[j].0@);
        }
        assert forall|i: int| 0 <= i < out@.len() implies m.contains_key(#[trigger] out@[i].0@) && m[out@[i].0@]
            == out@[i].1 by {
            assert(t.view().contains_key(s[i].0@));
        }
        assert forall|k: Seq<char>| #[trigger] m.contains_key(k) implies exists|i: int|
            0 <= i < out@.len() && out@[i].0@ == k by {
            assert(t.view().contains_key(k));
            let i = choose|i: int| 0 <= i < s.len() && s[i].0@ == k;
            assert(out@[i].0@ == k);
        }
    }
    out
}

impl DualKV {
    #[verifier::type_invariant]
    spec fn inv(&self) -> bool {
        self.cache.wf()
    }

    /// The keys and values held, in the order in which the cache walks them;
    /// every listing it hands out (`keys`, `entries`, `entries_flat`,
    /// `filter_keys`, `start_iter`) follows this order.
    pub closed spec fn listing(&self) -> Seq<(String, String)> {
        value_pairs(self.cache.slot_seq())
    }

    /// The pairs an iteration in progress has still to hand out, or `None`
    /// when no iteration has been started.
    pub closed spec fn pending(&self) -> Option<Seq<(String, String)>> {
        match self.iter {
            Some(l) => Some(l.remaining()),
            None => None,
        }
    }

    /// An empty cache with no iteration started.
    pub fn new() -> (c: Self)
        ensures
            c@ == Map::<Seq<char>, (usize, String)>::empty(),
            c.pending() is None,
    {
        DualKV { cache: Table::new(), iter: None }
    }

    /// Stores `value` under `key` with a read count of zero, replacing what
    /// was there.
    pub fn set(&mut self, key: String, value: String)
        ensures
            final(self)@ == old(self)@.insert(key@, (0usize, value)),
            final(self).pending() == old(self).pending(),
    {
        proof {
            use_type_invariant(&*self);
        }
        let mut t = Table::new();
        std::mem::swap(&mut t, &mut self.cache);
        t.insert(key, (0, value));
        self.cache = t;
    }

    /// Stores `value`, just read from the backing store, under `key` with a
    /// read count of one: the read that brought it back.
    pub fn insert_loaded(&mut self, key: String, value: String)
        ensures
            final(self)@ == old(self)@.insert(key@, (1usize, value)),
            final(self).pending() == old(self).pending(),
    {
        proof {
            use_type_invariant(&*self);
        }
        let mut t = Table::new();
        std::mem::swap(&mut t, &mut self.cache);
        t.insert(key, (1, value));
        self.cache = t;
    }

    /// The read count of `key`, if it is held here.
    pub fn frequency(&self, key: &str) -> (r: Option<usize>)
        ensures
            r == (if self@.contains_key(key@) {
                Some(self@[key@].0)
            } else {
                None::<usize>
            }),
    {
        proof {
            use_type_invariant(self);
        }
        match self.cache.get(key) {
            Some(cv) => Some(cv.0),
            None => None,
        }
    }

    /// Reads `key` from the cache. A hit counts one more read of the entry
    /// and answers its value; a miss answers `None` and changes nothing, and
    /// the caller turns to the backing store.
    pub fn get(&mut self, key: String) -> (r: Option<String>)
        requires
            old(self)@.contains_key(key@) ==> old(self)@[key@].0 < usize::MAX,
        ensures
            final(self).pending() == old(self).pending(),
            old(self)@.contains_key(key@) ==> {
                &&& r == Some(old(self)@[key@].1)
                &&& final(self)@ == read_hit(old(self)@, key@)
            },
            !old(self)@.contains_key(key@) ==> r is None && final(self)@ == old(self)@,
    {
        proof {
            use_type_invariant(&*self);
        }
        let (count, value) = match self.cache.get(key.as_str()) {
            Some(cv) => (cv.0, cv.1.clone()),
            None => {
                return None;
            },
        };
        let answer = value.clone();
        let mut t = Table::new();
        std::mem::swap(&mut t, &mut self.cache);
        t.insert(key, (count + 1, value));
        self.cache = t;
        Some(answer)
    }

    /// Removes `key` and its entry; a missing key leaves the cache as it is.
    pub fn delete(&mut self, key: String)
        ensures
            final(self)@ == old(self)@.remove(key@),
            final(self).pending() == old(self).pending(),
    {
        proof {
            use_type_invariant(&*self);
        }
        let mut t = Table::new();
        std::mem::swap(&mut t, &mut self.cache);
        t.remove(key.as_str());
        self.cache = t;
    }

    /// The number of entries held.
    pub fn length(&mut self) -> (n: i128)
        ensures
            n == old(self)@.len(),
            *final(self) == *old(self),
    {
        proof {
            use_type_invariant(&*self);
        }
        let n = self.cache.len();
        n as i128
    }

    /// Every key held, each once.
    pub fn keys(&mut self) -> (r: Vec<String>)
        ensures
            lists_keys(r@, old(self)@.dom()),
            r@ == keys_of(old(self).listing()),
            *final(self) == *old(self),
    {
        proof {
            use_type_invariant(&*self);
        }
        let pairs = copy_values(&self.cache);
        let mut r: Vec<String> = Vec::new();
        let mut i: usize = 0;
        while i < pairs.len()
            invariant
                i <= pairs@.len(),
                r@.len() == i,
                forall|j: int| 0 <= j < i ==> #[trigger] r@[j] == pairs@[j].0,
            decreases pairs@.len() - i,
        {
            r.push(pairs[i].0.clone());
            i = i + 1;
        }
        proof {
            let m = values_of(self@);
            assert(m.dom() =~= self@.dom());
            assert forall|i: int, j: int|
                0 <= i < r@.len() && 0 <= j < r@.len() && i != j implies #[trigger] r@[i]@
                != #[trigger] r@[j]@ by {
                assert(pairs@[i].0@ != pairs@[j].0@);
            }
            assert forall|i: int| 0 <= i < r@.len() implies self@.dom().contains(#[trigger] r@[i]@) by {
                assert(m.contains_key(pairs@[i].0@));
            }
            assert forall|k: Seq<char>| #[trigger] self@.dom().contains(k) implies exists|i: int|
                0 <= i < r@.len() && r@[i]@ == k by {
                assert(m.contains_key(k));
                let i = choose|i: int| 0 <= i < pairs@.len() && pairs@[i].0@ == k;
                assert(r@[i]@ == k);
            }
        }
        r
    }

    /// Asks `keep` about each key held, in the cache's order, and returns the
    /// keys for which it answered `true`, in that order. `keep` is only ever
    /// handed keys that are held.
    pub fn filter_keys<F: Fn(&String) -> bool>(&mut self, keep: F) -> (r: Vec<String>)
        requires
            forall|s: &String| old(self)@.contains_key(s@) ==> keep.requires((s,)),
        ensures
            *final(self) == *old(self),
            lists_keys(keys_of(old(self).listing()), old(self)@.dom()),
            exists|flags: Seq<bool>|
                answered(keep, keys_of(old(self).listing()), flags) && r@ == selected(
                    keys_of(old(self).listing()),
                    flags,
                ),
    {
        let keys = self.keys();
        let ghost ks = keys@;
        let mut r: Vec<String> = Vec::new();
        let ghost mut flags: Seq<bool> = Seq::empty();
        let mut i: usize = 0;
        while i < keys.len()
            invariant
                ks == keys@,
                i <= keys@.len(),
                lists_keys(keys@, old(self)@.dom()),
                forall|s: &String| old(self)@.contains_key(s@) ==> keep.requires((s,)),
                answered(keep, keys@.take(i as int), flags),
                r@ == selected(keys@.take(i as int), flags),
            decreases keys@.len() - i,
        {
            let k = &keys[i];
            assert(old(self)@.dom().contains(keys@[i as int]@));
            let verdict = keep(k);
            if verdict {
                r.push(k.clone());
            }
            proof {
                let a = keys@.take(i as int);
                let b = keys@.take(i + 1);
                let f2 = flags.push(verdict);
                assert(b.drop_last() =~= a);
                assert(f2.drop_last() =~= flags);
                assert forall|j: int| 0 <= j < b.len() implies keep.ensures((&b[j],), #[trigger] f2[j]) by {
                    if j < i {
                        assert(b[j] == a[j]);
                    }
                }
                flags = f2;
            }
            i = i + 1;
        }
        proof {
            assert(keys@.take(keys@.len() as int) =~= keys@);
        }
        r
    }

    /// Starts an iteration over a copy of the current keys and values; later
    /// changes to the cache do not show in it.
    pub fn start_iter(&mut self)
        ensures
            final(self)@ == old(self)@,
            final(self).pending() matches Some(s) && lists_exactly(s, values_of(old(self)@)),
            final(self).pending() == Some(old(self).listing()),
    {
        proof {
            use_type_invariant(&*self);
        }
        let entries = copy_values(&self.cache);
        self.iter = Some(Listing::new(entries));
    }

    /// Takes the iteration in progress out, starting one first if there is
    /// none.
    fn take_iter(&mut self) -> (l: Listing)
        ensures
            final(self)@ == old(self)@,
            final(self).pending() is None,
            match old(self).pending() {
                Some(s) => l.remaining() == s,
                None => lists_exactly(l.remaining(), values_of(old(self)@)),
            },
    {
        if self.iter.is_none() {
            self.start_iter();
        }
        proof {
            use_type_invariant(&*self);
        }
        let mut it: Option<Listing> = None;
        std::mem::swap(&mut it, &mut self.iter);
        match it {
            Some(l) => l,
            None => Listing::new(Vec::new()),
        }
    }

    /// The next key and value of the iteration in progress, starting one
    /// first if there is none; `None` once every entry has been handed out.
    pub fn next(&mut self) -> (r: Option<(String, String)>)
        ensures
            final(self)@ == old(self)@,
            final(self).pending() is Some,
            match old(self).pending() {
                Some(s) => step_from(s, r, final(self).pending()->0),
                None => exists|s: Seq<(String, String)>|
                    lists_exactly(s, values_of(old(self)@)) && step_from(
                        s,
                        r,
                        #[trigger] final(self).pending()->0,
                    ),
            },
    {
        let mut l = self.take_iter();
        let r = l.next();
        proof {
            use_type_invariant(&*self);
        }
        self.iter = Some(l);
        r
    }

    /// Skips `ix` entries of the iteration in progress (starting one first
    /// if there is none) and hands out the one after them. A negative `ix`,
    /// like one past the end, exhausts the iteration and answers `None`.
    pub fn nth(&mut self, ix: i64) -> (r: Option<(String, String)>)
        ensures
            final(self)@ == old(self)@,
            final(self).pending() is Some,
            match old(self).pending() {
                Some(s) => nth_from(s, ix as int, r, final(self).pending()->0),
                None => exists|s: Seq<(String, String)>|
                    lists_exactly(s, values_of(old(self)@)) && nth_from(
                        s,
                        ix as int,
                        r,
                        #[trigger] final(self).pending()->0,
                    ),
            },
    {
        let n: usize = if ix < 0 || ix as u64 > usize::MAX as u64 {
            usize::MAX
        } else {
            ix as usize
        };
        let mut l = self.take_iter();
        let ghost s = l.remaining();
        let r = l.nth(n);
        proof {
            if ix < 0 || ix > usize::MAX {
                assert(s.len() <= usize::MAX);
                assert(!(n < s.len()));
            }
            use_type_invariant(&*self);
        }
        self.iter = Some(l);
        r
    }

    /// Every entry as a two-element vector `[key, value]`, each once.
    pub fn entries(&mut self) -> (r: Vec<Vec<String>>)
        ensures
            *final(self) == *old(self),
            forall|i: int| 0 <= i < r@.len() ==> (#[trigger] r@[i])@.len() == 2,
            lists_exactly(pairs_of(r@), values_of(old(self)@)),
            pairs_of(r@) == old(self).listing(),
    {
        proof {
            use_type_invariant(&*self);
        }
        let pairs = copy_values(&self.cache);
        let mut r: Vec<Vec<String>> = Vec::new();
        let mut i: usize = 0;
        while i < pairs.len()
            invariant
                i <= pairs@.len(),
                r@.len() == i,
                forall|j: int| 0 <= j < i ==> (#[trigger] r@[j])@ == seq![pairs@[j].0, pairs@[j].1],
            decreases pairs@.len() - i,
        {
            let mut e: Vec<String> = Vec::new();
            e.push(pairs[i].0.clone());
            e.push(pairs[i].1.clone());
            r.push(e);
            i = i + 1;
        }
        proof {
            assert(pairs_of(r@) =~= pairs@);
        }
        r
    }

    /// Every key and value in one flat vector `key, value, key, value, ...`.
    pub fn entries_flat(&mut self) -> (r: Vec<String>)
        ensures
            *final(self) == *old(self),
            r@.len() % 2 == 0,
            lists_exactly(pairs_of_flat(r@), values_of(old(self)@)),
            pairs_of_flat(r@) == old(self).listing(),
    {
        proof {
            use_type_invariant(&*self);
        }
        let pairs = copy_values(&self.cache);
        let mut r: Vec<String> = Vec::new();
        let mut i: usize = 0;
        while i < pairs.len()
            invariant
                i <= pairs@.len(),
                r@.len() == 2 * i,
                forall|j: int| 0 <= j < i ==> #[trigger] r@[2 * j] == pairs@[j].0 && r@[2 * j + 1] == pairs@[j].1,
            decreases pairs@.len() - i,
        {
            let ghost r0 = r@;
            r.push(pairs[i].0.clone());
            r.push(pairs[i].1.clone());
            proof {
                assert forall|j: int| 0 <= j < i + 1 implies #[trigger] r@[2 * j] == pairs@[j].0 && r@[2 * j
                    + 1] == pairs@[j].1 by {
                    if j < i {
                        assert(r@[2 * j] == r0[2 * j]);
                        assert(r@[2 * j + 1] == r0[2 * j + 1]);
                    }
                }
            }
            i = i + 1;
        }
        proof {
            assert(pairs_of_flat(r@) =~= pairs@);
        }
        r
    }

    /// An estimate, in bytes, of the memory the entries hold: never less
    /// than the number of characters in all keys and values held. It
    /// measures the slots only: the hash index, which keeps a second copy of
    /// every key, is not counted, so the memory in use can exceed the
    /// estimate by about the bytes of the keys and the index's own table.
    pub fn memory_size(&self) -> (r: usize)
        ensures
            exists|s: Seq<(String, (usize, String))>| lists_exactly(s, self@) && r >= text_chars(s),
    {
        proof {
            use_type_invariant(self);
            self.cache.lemma_slots_list();
        }
        let r = deep_size(self.cache.slot_vec());
        assert(lists_exactly(self.cache.slot_seq(), self@) && r >= text_chars(self.cache.slot_seq()));
        r
    }

    /// The `k_evict` least read entries, fewer if fewer are held, from the
    /// least read on.
    pub fn lfu_evict(&self, k_evict: usize) -> (r: Vec<(String, (usize, String))>)
        ensures
            r@.len() == (if k_evict < self@.len() {
                k_evict as nat
            } else {
                self@.len()
            }),
            drawn_from(r@, self@),
            least_frequent_first(key_seq(r@), self@),
    {
        proof {
            use_type_invariant(self);
        }
        let n = self.cache.len();
        let mut all: Vec<(String, (usize, String))> = Vec::new();
        let mut i: usize = 0;
        while i < n
            invariant
                self.cache.wf(),
                n == self.cache.slot_seq().len(),
                i <= n,
                all@ =~= self.cache.slot_seq().take(i as int),
            decreases n - i,
        {
            let s = self.cache.slot(i);
            all.push((s.0.clone(), (s.1.0, s.1.1.clone())));
            i = i + 1;
        }
        proof {
            self.cache.lemma_slots_list();
            assert(all@ =~= self.cache.slot_seq());
        }
        let ghost all_s = all@;
        let mut sorted = sort_by_frequency(all);
        let take = if k_evict < n {
            k_evict
        } else {
            n
        };
        let ghost sorted_s = sorted@;
        sorted.truncate(take);
        proof {
            let m = self@;
            let p = choose|p: Seq<int>| sorted_from(sorted_s, all_s, p);
            let r = sorted@;
            let ks = key_seq(r);
            assert forall|i: int| 0 <= i < r.len() implies m.contains_key(#[trigger] r[i].0@) && m[r[i].0@]
                == r[i].1 by {
                assert(r[i] == sorted_s[i]);
                assert(sorted_s[i] == all_s[p[i]]);
                assert(m.contains_key(all_s[p[i]].0@));
            }
            assert forall|i: int| 0 <= i < ks.len() implies m.contains_key(#[trigger] ks[i]) by {
                assert(m.contains_key(r[i].0@));
            }
            assert forall|i: int, j: int|
                0 <= i < ks.len() && 0 <= j < ks.len() && i != j implies #[trigger] ks[i] != #[trigger] ks[j] by {
                assert(sorted_s[i] == all_s[p[i]]);
                assert(sorted_s[j] == all_s[p[j]]);
                assert(p[i] != p[j]);
                assert(all_s[p[i]].0@ != all_s[p[j]].0@);
            }
            assert forall|i: int, j: int| 0 <= i <= j < ks.len() implies m[#[trigger] ks[i]].0 <= m[#[trigger] ks[j]].0 by {
                assert(m.contains_key(r[i].0@));
                assert(m.contains_key(r[j].0@));
                assert(sorted_s[i].1.0 <= sorted_s[j].1.0);
            }
            assert forall|k: Seq<char>, i: int|
                #[trigger] m.contains_key(k) && !ks.contains(k) && 0 <= i < ks.len() implies m[#[trigger] ks[i]].0
                <= m[k].0 by {
                let q = choose|q: int| 0 <= q < all_s.len() && all_s[q].0@ == k;
                assert(p.contains(q));
                let i0 = choose|i0: int| 0 <= i0 < p.len() && p[i0] == q;
                assert(sorted_s[i0] == all_s[p[i0]]);
                if i0 < ks.len() {
                    assert(ks[i0] == k);
                    assert(false);
                }
                assert(m.contains_key(r[i].0@));
                assert(sorted_s[i].1.0 <= sorted_s[i0].1.0);
            }
        }
        sorted
    }

    /// The keys and values to hand to the backing store when the cache
    /// measures `cache_sz` bytes against a budget of `max_sz`: nothing
    /// within the budget; beyond it, the least read entries, as many as
    /// `eviction_share` says.
    pub fn eviction_plan(&self, cache_sz: usize, max_sz: usize) -> (r: Vec<(String, String)>)
        requires
            max_sz < cache_sz ==> self@.len() * (cache_sz - max_sz) <= usize::MAX,
        ensures
            cache_sz <= max_sz ==> r@.len() == 0,
            max_sz < cache_sz ==> r@.len() == eviction_share(self@.len() as int, cache_sz as int, max_sz as int),
            forall|i: int|
                0 <= i < r@.len() ==> self@.contains_key(#[trigger] r@[i].0@) && self@[r@[i].0@].1 == r@[i].1,
            least_frequent_first(key_seq(r@), self@),
    {
        proof {
            use_type_invariant(self);
        }
        if cache_sz <= max_sz {
            let r: Vec<(String, String)> = Vec::new();
            assert(key_seq(r@) =~= Seq::<Seq<char>>::empty());
            return r;
        }
        let n = self.cache.len();
        let k = eviction_count(n, cache_sz, max_sz);
        let chosen = self.lfu_evict(k);
        let mut r: Vec<(String, String)> = Vec::new();
        let mut i: usize = 0;
        while i < chosen.len()
            invariant
                i <= chosen@.len(),
                r@.len() == i,
                forall|j: int| 0 <= j < i ==> #[trigger] r@[j] == (chosen@[j].0, chosen@[j].1.1),
            decreases chosen@.len() - i,
        {
            r.push((chosen[i].0.clone(), chosen[i].1.1.clone()));
            i = i + 1;
        }
        proof {
            assert(key_seq(r@) =~= key_seq(chosen@));
            assert forall|i: int|
                0 <= i < r@.len() implies self@.contains_key(#[trigger] r@[i].0@) && self@[r@[i].0@].1
                == r@[i].1 by {
                assert(self@.contains_key(chosen@[i].0@));
            }
        }
        r
    }

    /// Drops the entries that were handed to the backing store, and releases
    /// the memory they held. An entry is dropped only while it still holds
    /// the value that was handed over: one written again since the plan was
    /// made stays, so no write that the backing store has not seen is lost.
    pub fn remove_evicted(&mut self, evicted: &Vec<(String, String)>)
        ensures
            final(self)@ == old(self)@.remove_keys(still_planned(old(self)@, evicted@)),
            final(self).pending() == old(self).pending(),
    {
        proof {
            use_type_invariant(&*self);
        }
        let mut t = Table::new();
        std::mem::swap(&mut t, &mut self.cache);
        let mut i: usize = 0;
        while i < evicted.len()
            invariant
                t.wf(),
                i <= evicted@.len(),
                t.view() =~= old(self)@.remove_keys(still_planned(old(self)@, evicted@.take(i as int))),
            decreases evicted@.len() - i,
        {
            let key = evicted[i].0.as_str();
            let unchanged = match t.get(key) {
                Some(cv) => cv.1 == evicted[i].1,
                None => false,
            };
            if unchanged {
                t.remove(key);
            }
            proof {
                let m = old(self)@;
                let a = evicted@.take(i as int);
                let b = evicted@.take(i + 1);
                let k = evicted@[i as int].0@;
                assert forall|q: Seq<char>|
                    still_planned(m, b).contains(q) <==> still_planned(m, a).contains(q) || (q == k
                        && m.contains_key(k) && m[k].1@ == evicted@[i as int].1@) by {
                    if still_planned(m, b).contains(q) {
                        let j = choose|j: int|
                            0 <= j < b.len() && b[j].0@ == q && m.contains_key(q) && m[q].1@ == b[j].1@;
                        if j < i {
                            assert(a[j] == b[j]);
                        }
                    }
                    if still_planned(m, a).contains(q) {
                        let j = choose|j: int|
                            0 <= j < a.len() && a[j].0@ == q && m.contains_key(q) && m[q].1@ == a[j].1@;
                        assert(a[j] == b[j]);
                    }
                    if q == k && m.contains_key(k) && m[k].1@ == evicted@[i as int].1@ {
                        assert(b[i as int] == evicted@[i as int]);
                    }
                }
                assert(t.view() =~= m.remove_keys(still_planned(m, b)));
            }
            i = i + 1;
        }
        t.shrink_to_fit();
        proof {
            assert(evicted@.take(evicted@.len() as int) =~= evicted@);
        }
        self.cache = t;
    }
}

/// The read count of an entry is the number of reads it has answered since
/// it was last written: a write (`set`) starts it at zero, a load from the
/// backing store (`insert_loaded`, itself answering a read) at one, and every
/// read that finds it (`get`) adds one; its value and every other entry stay
/// as they were.
pub proof fn law_counts_reads(
    m: Map<Seq<char>, (usize, String)>,
    k: Seq<char>,
    start: usize,
    v: String,
    n: nat,
)
    requires
        start + n <= usize::MAX,
    ensures
        after_hits(m.insert(k, (start, v)), k, n).contains_key(k),
        after_hits(m.insert(k, (start, v)), k, n)[k] == ((start + n) as usize, v),
        after_hits(m.insert(k, (start, v)), k, n).remove(k) == m.remove(k),
    decreases n,
{
    if n > 0 {
        law_counts_reads(m, k, start, v, (n - 1) as nat);
        let p = after_hits(m.insert(k, (start, v)), k, (n - 1) as nat);
        assert(read_hit(p, k).remove(k) =~= p.remove(k));
    } else {
        assert(m.insert(k, (start, v)).remove(k) =~= m.remove(k));
    }
}

/// What eviction leaves behind, when nothing was written between planning
/// and dropping: every planned entry goes, every entry still held has been
/// read at least as often as each entry that went, and holds what it held
/// before.
pub proof fn law_eviction_keeps_most_read(m: Map<Seq<char>, (usize, String)>, plan: Seq<(String, String)>)
    requires
        least_frequent_first(key_seq(plan), m),
        forall|i: int| 0 <= i < plan.len() ==> m.contains_key(#[trigger] plan[i].0@) && m[plan[i].0@].1 == plan[i].1,
    ensures
        still_planned(m, plan) == keys_in(plan),
        forall|k: Seq<char>, i: int|
            #[trigger] m.remove_keys(still_planned(m, plan)).contains_key(k) && 0 <= i < plan.len() ==> m[#[trigger] plan[i].0@].0
                <= m[k].0,
        forall|k: Seq<char>|
            #[trigger] m.remove_keys(still_planned(m, plan)).contains_key(k) ==> m.contains_key(k)
                && m.remove_keys(still_planned(m, plan))[k] == m[k],
{
    let ks = key_seq(plan);
    assert forall|k: Seq<char>| still_planned(m, plan).contains(k) <==> keys_in(plan).contains(k) by {
        if keys_in(plan).contains(k) {
            let j = choose|j: int| 0 <= j < plan.len() && plan[j].0@ == k;
            assert(m.contains_key(plan[j].0@));
        }
    }
    assert(still_planned(m, plan) =~= keys_in(plan));
    assert forall|k: Seq<char>, i: int|
        #[trigger] m.remove_keys(still_planned(m, plan)).contains_key(k) && 0 <= i < plan.len() implies m[#[trigger] plan[i].0@].0
        <= m[k].0 by {
        if ks.contains(k) {
            let j = choose|j: int| 0 <= j < ks.len() && ks[j] == k;
            assert(keys_in(plan).contains(k)) by {
                assert(plan[j].0@ == k);
            }
        }
        assert(ks[i] == plan[i].0@);
        assert(m.contains_key(k) && !ks.contains(k) && 0 <= i < ks.len());
    }
}

/// A write made after the plan survives eviction: an entry whose value is
/// none of the values planned for its key stays, with that value.
pub proof fn law_eviction_keeps_later_writes(
    m: Map<Seq<char>, (usize, String)>,
    plan: Seq<(String, String)>,
    k: Seq<char>,
)
    requires
        m.contains_key(k),
        forall|j: int| 0 <= j < plan.len() && #[trigger] plan[j].0@ == k ==> m[k].1@ != plan[j].1@,
    ensures
        m.remove_keys(still_planned(m, plan)).contains_key(k),
        m.remove_keys(still_planned(m, plan))[k] == m[k],
{
    if still_planned(m, plan).contains(k) {
        let j = choose|j: int| 0 <= j < plan.len() && plan[j].0@ == k && m.contains_key(k) && m[k].1@ == plan[j].1@;
        assert(false);
    }
}

/// The number of entries evicted is never more than are held, and with a
/// budget above zero some entry always stays.
pub proof fn law_eviction_share_bounded(cache_len: nat, cache_sz: nat, max_sz: nat)
    requires
        max_sz < cache_sz,
    ensures
        0 <= eviction_share(cache_len as int, cache_sz as int, max_sz as int) <= cache_len,
        0 < max_sz && 0 < cache_len ==> eviction_share(cache_len as int, cache_sz as int, max_sz as int)
            < cache_len,
{
    let a = cache_len as int;
    let b = (cache_sz - max_sz) as int;
    let c = cache_sz as int;
    lemma_share_bounded(a, b, c);
    if 0 < max_sz && 0 < cache_len {
        assert(a * b < a * c) by (nonlinear_arith)
            requires
                0 < a,
                b < c,
        ;
        assert(a * b / c < a) by (nonlinear_arith)
            requires
                a * b < a * c,
                0 < c,
                0 <= a * b,
        ;
    }
}

proof fn lemma_rows_flatten(r: Seq<Vec<String>>, f: Seq<String>, j: int)
    requires
        f.len() == 2 * r.len(),
        forall|i: int| 0 <= i < r.len() ==> (#[trigger] r[i])@ == seq![f[2 * i], f[2 * i + 1]],
        0 <= j <= r.len(),
    ensures
        r.take(j).map_values(|v: Vec<String>| v@).flatten() == f.take(2 * j),
    decreases j,
{
    broadcast use Seq::lemma_flatten_push;

    if j == 0 {
        assert(r.take(0).map_values(|v: Vec<String>| v@) =~= Seq::<Seq<String>>::empty());
        assert(f.take(0) =~= Seq::<String>::empty());
    } else {
        lemma_rows_flatten(r, f, j - 1);
        let rows = r.take(j).map_values(|v: Vec<String>| v@);
        assert(rows =~= r.take(j - 1).map_values(|v: Vec<String>| v@).push(r[j - 1]@));
        assert(r[j - 1]@ == seq![f[2 * (j - 1)], f[2 * (j - 1) + 1]]);
        assert(f.take(2 * j) =~= f.take(2 * (j - 1)) + r[j - 1]@);
    }
}

/// On an unchanged cache, `entries` and `entries_flat` hand out the same
/// entries in the same order: joining the rows of the one gives the other.
pub proof fn law_entries_agree_with_flat(r: Seq<Vec<String>>, f: Seq<String>, l: Seq<(String, String)>)
    requires
        forall|i: int| 0 <= i < r.len() ==> (#[trigger] r[i])@.len() == 2,
        pairs_of(r) == l,
        f.len() % 2 == 0,
        pairs_of_flat(f) == l,
    ensures
        r.map_values(|v: Vec<String>| v@).flatten() == f,
{
    assert(r.len() == l.len());
    assert(f.len() == 2 * l.len());
    assert forall|i: int| 0 <= i < r.len() implies (#[trigger] r[i])@ == seq![f[2 * i], f[2 * i + 1]] by {
        assert(pairs_of(r)[i] == pairs_of_flat(f)[i]);
        assert(r[i]@ =~= seq![f[2 * i], f[2 * i + 1]]);
    }
    lemma_rows_flatten(r, f, r.len() as int);
    assert(r.take(r.len() as int) =~= r);
    assert(f.take(f.len() as int) =~= f);
}

proof fn lemma_selected_members(ks: Seq<String>, flags: Seq<bool>)
    requires
        flags.len() == ks.len(),
    ensures
        forall|j: int| 0 <= j < ks.len() && #[trigger] flags[j] ==> selected(ks, flags).contains(ks[j]),
        forall|x: String|
            #[trigger] selected(ks, flags).contains(x) ==> exists|j: int| 0 <= j < ks.len() && flags[j] && ks[j] == x,
        selected(ks, flags).len() == flags.filter(|b: bool| b).len(),
    decreases ks.len(),
{
    reveal(Seq::filter);
    if ks.len() > 0 {
        let p = ks.drop_last();
        let f = flags.drop_last();
        lemma_selected_members(p, f);
        let before = selected(p, f);
        let now = selected(ks, flags);
        assert forall|j: int| 0 <= j < ks.len() && #[trigger] flags[j] implies now.contains(ks[j]) by {
            if j < ks.len() - 1 {
                assert(f[j] == flags[j] && p[j] == ks[j]);
                let t = choose|t: int| 0 <= t < before.len() && before[t] == p[j];
                assert(now[t] == before[t]);
            } else {
                assert(now[now.len() - 1] == ks.last());
            }
        }
        assert forall|x: String| #[trigger] now.contains(x) implies exists|j: int|
            0 <= j < ks.len() && flags[j] && ks[j] == x by {
            let t = choose|t: int| 0 <= t < now.len() && now[t] == x;
            if t < before.len() {
                assert(now[t] == before[t]);
                assert(before.contains(x));
                let j = choose|j: int| 0 <= j < p.len() && f[j] && p[j] == x;
                assert(flags[j] && ks[j] == x);
            } else {
                assert(flags[ks.len() - 1] && ks[ks.len() - 1] == x);
            }
        }
    }
}

/// What `filter_keys` returns, in terms of the keys asked about and the
/// answers given: the keys answered `true`, one for each `true` answer, in
/// the order asked. Every accepted key is in the result, only accepted keys
/// are, and asking about one more key adds it at the end exactly when the
/// answer is `true`.
pub proof fn law_selected_keeps_accepted(ks: Seq<String>, flags: Seq<bool>, k: String)
    requires
        flags.len() == ks.len(),
    ensures
        selected(Seq::<String>::empty(), Seq::<bool>::empty()) == Seq::<String>::empty(),
        selected(ks.push(k), flags.push(true)) == selected(ks, flags).push(k),
        selected(ks.push(k), flags.push(false)) == selected(ks, flags),
        forall|j: int| 0 <= j < ks.len() && #[trigger] flags[j] ==> selected(ks, flags).contains(ks[j]),
        forall|x: String|
            #[trigger] selected(ks, flags).contains(x) ==> exists|j: int| 0 <= j < ks.len() && flags[j] && ks[j] == x,
        selected(ks, flags).len() == flags.filter(|b: bool| b).len(),
{
    assert(ks.push(k).drop_last() =~= ks);
    assert(flags.push(true).drop_last() =~= flags);
    assert(flags.push(false).drop_last() =~= flags);
    lemma_selected_members(ks, flags);
}

/// What dropping a plan from the cache `m` leaves, in terms of the cache
/// and the plan alone: a key stays exactly when it is held and none of the
/// plan's entries for it carries its current value, and what stays keeps
/// its count and value. Planned keys that are no longer held change nothing
/// for the others.
pub proof fn law_remove_evicted_exact(m: Map<Seq<char>, (usize, String)>, plan: Seq<(String, String)>)
    ensures
        forall|k: Seq<char>|
            #[trigger] m.remove_keys(still_planned(m, plan)).contains_key(k) <==> (m.contains_key(k) && forall|
                j: int,
            |
                0 <= j < plan.len() && plan[j].0@ == k ==> m[k].1@ != #[trigger] plan[j].1@),
        forall|k: Seq<char>|
            #[trigger] m.remove_keys(still_planned(m, plan)).contains_key(k) ==> m.remove_keys(
                still_planned(m, plan),
            )[k] == m[k],
{
    assert forall|k: Seq<char>|
        #[trigger] m.remove_keys(still_planned(m, plan)).contains_key(k) <==> (m.contains_key(k) && forall|j: int|
            0 <= j < plan.len() && plan[j].0@ == k ==> m[k].1@ != #[trigger] plan[j].1@) by {
        if m.contains_key(k) && !still_planned(m, plan).contains(k) {
            assert forall|j: int| 0 <= j < plan.len() && plan[j].0@ == k implies m[k].1@ != #[trigger] plan[j].1@ by {
                if m[k].1@ == plan[j].1@ {
                    assert(still_planned(m, plan).contains(k));
                }
            }
        }
        if m.contains_key(k) && still_planned(m, plan).contains(k) {
            let j = choose|j: int|
                0 <= j < plan.len() && plan[j].0@ == k && m.contains_key(k) && m[k].1@ == plan[j].1@;
            assert(!(m[k].1@ != plan[j].1@));
        }
    }
}

} // verus!
