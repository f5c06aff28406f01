//! Facts about sequences of `(key, value)` pairs that list the entries of a
//! map keyed by the characters of the key.
use vstd::prelude::*;

verus! {

/// No two pairs of `s` carry keys with the same characters.
pub open spec fn distinct_keys<V>(s: Seq<(String, V)>) -> bool {
    forall|i: int, j: int|
        0 <= i < s.len() && 0 <= j < s.len() && i != j ==> #[trigger] s[i].0@ != #[trigger] s[j].0@
}

/// Every pair of `s` is an entry of `m`.
pub open spec fn drawn_from<V>(s: Seq<(String, V)>, m: Map<Seq<char>, V>) -> bool {
    forall|i: int| 0 <= i < s.len() ==> {
        &&& m.contains_key(#[trigger] s[i].0@)
        &&& m[s[i].0@] == s[i].1
    }
}

/// Every key of `m` is the key of some pair of `s`.
pub open spec fn covers<V>(s: Seq<(String, V)>, m: Map<Seq<char>, V>) -> bool {
    forall|k: Seq<char>| #[trigger] m.contains_key(k) ==> exists|i: int| 0 <= i < s.len() && s[i].0@ == k
}

/// `s` lists each entry of `m` exactly once, in some order.
pub open spec fn lists_exactly<V>(s: Seq<(String, V)>, m: Map<Seq<char>, V>) -> bool {
    &&& distinct_keys(s)
    &&& drawn_from(s, m)
    &&& covers(s, m)
}

/// Taking the first pair off a listing of `m` leaves a listing of `m`
/// without that pair's key, and the pair taken is an entry of `m`; so
/// reading a listing from the front yields every entry of `m` once.
pub proof fn law_listing_pop<V>(s: Seq<(String, V)>, m: Map<Seq<char>, V>)
    requires
        lists_exactly(s, m),
        s.len() > 0,
    ensures
        m.contains_key(s[0].0@),
        m[s[0].0@] == s[0].1,
        lists_exactly(s.drop_first(), m.remove(s[0].0@)),
{
    let t = s.drop_first();
    let r = m.remove(s[0].0@);
    assert forall|i: int, j: int|
        0 <= i < t.len() && 0 <= j < t.len() && i != j implies #[trigger] t[i].0@ != #[trigger] t[j].0@ by {
        assert(t[i] == s[i + 1] && t[j] == s[j + 1]);
    }
    assert forall|i: int| 0 <= i < t.len() implies r.contains_key(#[trigger] t[i].0@) && r[t[i].0@] == t[i].1 by {
        assert(t[i] == s[i + 1]);
        assert(s[i + 1].0@ != s[0].0@);
    }
    assert forall|k: Seq<char>| #[trigger] r.contains_key(k) implies exists|i: int| 0 <= i < t.len() && t[i].0@ == k by {
        let i = choose|i: int| 0 <= i < s.len() && s[i].0@ == k;
        assert(i != 0);
        assert(t[i - 1] == s[i]);
    }
}

/// A listing of an empty map is empty, and the empty sequence lists the
/// empty map.
pub proof fn law_listing_empty<V>(s: Seq<(String, V)>, m: Map<Seq<char>, V>)
    requires
        lists_exactly(s, m),
    ensures
        s.len() == 0 <==> m.dom() =~= Set::<Seq<char>>::empty(),
{
    if s.len() > 0 {
        assert(m.contains_key(s[0].0@));
    }
    if m.dom() !~= Set::<Seq<char>>::empty() {
        let k = choose|k: Seq<char>| !(m.dom().contains(k) == Set::<Seq<char>>::empty().contains(k));
        assert(m.contains_key(k));
    }
}

} // verus!

verus! {

/// What a step of a cursor over the listing `s` gives: the first pair, if
/// there is one, with the rest left for later steps; nothing, once `s` is
/// used up.
pub open spec fn step_from(
    s: Seq<(String, String)>,
    r: Option<(String, String)>,
    rest: Seq<(String, String)>,
) -> bool {
    if s.len() == 0 {
        r is None && rest == s
    } else {
        r == Some(s[0]) && rest == s.drop_first()
    }
}

/// What skipping `n` pairs of the listing `s` and then taking a step gives:
/// the pair at position `n`, with what follows it left for later steps; or
/// nothing and an exhausted listing, when `s` holds `n` pairs or fewer.
pub open spec fn nth_from(
    s: Seq<(String, String)>,
    n: int,
    r: Option<(String, String)>,
    rest: Seq<(String, String)>,
) -> bool {
    if 0 <= n < s.len() {
        r == Some(s[n]) && rest == s.skip(n + 1)
    } else {
        r is None && rest.len() == 0
    }
}

/// A frozen copy of a map's entries with a position in it: what an
/// iteration over the map still has to hand out.
pub struct Listing {
    items: Vec<(String, String)>,
    pos: usize,
}

impl Listing {
    #[verifier::type_invariant]
    spec fn inv(&self) -> bool {
        self.pos <= self.items@.len()
    }

    /// The pairs this listing has still to hand out, in order.
    pub closed spec fn remaining(&self) -> Seq<(String, String)> {
        self.items@.skip(self.pos as int)
    }

    pub fn new(items: Vec<(String, String)>) -> (l: Self)
        ensures
            l.remaining() == items@,
    {
        let l = Listing { items, pos: 0 };
        assert(l.remaining() =~= items@);
        l
    }

    /// Hands out the next pair, if any is left.
    pub fn next(&mut self) -> (r: Option<(String, String)>)
        ensures
            step_from(old(self).remaining(), r, final(self).remaining()),
    {
        proof {
            use_type_invariant(&*self);
        }
        if self.pos < self.items.len() {
            let p = self.pos;
            let item = (self.items[p].0.clone(), self.items[p].1.clone());
            self.pos = p + 1;
            assert(final(self).remaining() =~= old(self).remaining().drop_first());
            Some(item)
        } else {
            None
        }
    }

    /// Skips `n` pairs and hands out the one after them, if any is left.
    pub fn nth(&mut self, n: usize) -> (r: Option<(String, String)>)
        ensures
            nth_from(old(self).remaining(), n as int, r, final(self).remaining()),
            old(self).remaining().len() <= usize::MAX,
    {
        proof {
            use_type_invariant(&*self);
        }
        let left = self.items.len() - self.pos;
        if n < left {
            let p = self.pos + n;
            let item = (self.items[p].0.clone(), self.items[p].1.clone());
            self.pos = p + 1;
            assert(final(self).remaining() =~= old(self).remaining().skip(n + 1));
            Some(item)
        } else {
            self.pos = self.items.len();
            assert(final(self).remaining().len() == 0);
            None
        }
    }
}

/// What is left of the listing `s` after `n` steps: the pairs past the
/// first `n`, or nothing once `s` is used up.
pub open spec fn after_steps(s: Seq<(String, String)>, n: nat) -> Seq<(String, String)> {
    if n <= s.len() {
        s.skip(n as int)
    } else {
        Seq::empty()
    }
}

/// Each step of a cursor leaves what `after_steps` says, and step upon step
/// adds up: `n` steps and one more are `n + 1` steps.
pub proof fn law_steps_compose(s: Seq<(String, String)>, n: nat, r: Option<(String, String)>, rest: Seq<(String, String)>)
    requires
        step_from(after_steps(s, n), r, rest),
    ensures
        rest == after_steps(s, n + 1),
{
    if n + 1 <= s.len() {
        assert(after_steps(s, n).drop_first() =~= s.skip((n + 1) as int));
    } else {
        assert(rest =~= Seq::<(String, String)>::empty());
    }
}

/// `nth(n)` is `n` discarded steps and one more: what it hands out and what
/// it leaves are what a step from `after_steps(s, n)` hands out and leaves.
/// In particular `nth(0)` is a step.
pub proof fn law_nth_is_steps(s: Seq<(String, String)>, n: nat, r: Option<(String, String)>, rest: Seq<(String, String)>)
    ensures
        nth_from(s, n as int, r, rest) <==> step_from(after_steps(s, n), r, rest),
        after_steps(s, 0) == s,
{
    assert(s.skip(0) =~= s);
    if n < s.len() {
        assert(after_steps(s, n)[0] == s[n as int]);
        assert(after_steps(s, n).drop_first() =~= s.skip((n + 1) as int));
    } else {
        assert(after_steps(s, n) =~= Seq::<(String, String)>::empty());
        if rest.len() == 0 {
            assert(rest =~= Seq::<(String, String)>::empty());
        }
    }
}

/// An exhausted iteration stays exhausted: a step from an empty listing
/// hands out nothing and leaves it empty.
pub proof fn law_exhausted_stays_exhausted(r: Option<(String, String)>, rest: Seq<(String, String)>)
    requires
        step_from(Seq::empty(), r, rest),
    ensures
        r is None,
        rest.len() == 0,
{
}

} // verus!
