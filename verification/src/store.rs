//! The backing store as the library sees it, and what the cache and the
//! store show together. A key held in the cache reads as its cached value;
//! any other key reads as the store's copy, if the store has one. Writes,
//! reads and eviction rounds keep that combined map what a plain map would
//! be; a delete has to drop the store's copy too.
use crate::dual_kv::{key_seq, least_frequent_first, read_hit, still_planned};
use vstd::prelude::*;
use vstd::string::StringExecFns;

verus! {

/// What the cache `c` and the store `d` show together: the cached value of
/// every key the cache holds, the stored value of every other key.
pub open spec fn combined(c: Map<Seq<char>, (usize, String)>, d: Map<Seq<char>, Seq<char>>) -> Map<
    Seq<char>,
    Seq<char>,
> {
    Map::new(
        |k: Seq<char>| c.contains_key(k) || d.contains_key(k),
        |k: Seq<char>|
            if c.contains_key(k) {
                c[k].1@
            } else {
                d[k]
            },
    )
}

/// The store after the rows of `plan` are written into it in order, each
/// replacing any row with the same key.
pub open spec fn store_plan(d: Map<Seq<char>, Seq<char>>, plan: Seq<(String, String)>) -> Map<
    Seq<char>,
    Seq<char>,
>
    decreases plan.len(),
{
    if plan.len() == 0 {
        d
    } else {
        store_plan(d, plan.drop_last()).insert(plan.last().0@, plan.last().1@)
    }
}

/// The statement that drops a key's row from the store.
pub open spec fn delete_sql_text() -> Seq<char> {
    "DELETE FROM kv WHERE k=?"@
}

/// The statement that drops the store's copy of a key, its one parameter
/// the key. A delete from the store's user removes the key from the cache
/// and runs this statement, so that no earlier eviction brings it back.
pub fn delete_sql() -> (r: String)
    ensures
        r@ == delete_sql_text(),
{
    String::from_str("DELETE FROM kv WHERE k=?")
}

proof fn lemma_store_plan_at(d: Map<Seq<char>, Seq<char>>, plan: Seq<(String, String)>, k: Seq<char>)
    requires
        forall|i: int, j: int|
            0 <= i < plan.len() && 0 <= j < plan.len() && i != j ==> #[trigger] plan[i].0@ != #[trigger] plan[j].0@,
    ensures
        forall|i: int|
            0 <= i < plan.len() && #[trigger] plan[i].0@ == k ==> store_plan(d, plan).contains_key(k)
                && store_plan(d, plan)[k] == plan[i].1@,
        (forall|i: int| 0 <= i < plan.len() ==> #[trigger] plan[i].0@ != k) ==> (store_plan(d, plan).contains_key(k)
            == d.contains_key(k) && (d.contains_key(k) ==> store_plan(d, plan)[k] == d[k])),
    decreases plan.len(),
{
    if plan.len() > 0 {
        let p = plan.drop_last();
        assert forall|i: int, j: int|
            0 <= i < p.len() && 0 <= j < p.len() && i != j implies #[trigger] p[i].0@ != #[trigger] p[j].0@ by {
            assert(p[i] == plan[i] && p[j] == plan[j]);
        }
        lemma_store_plan_at(d, p, k);
        assert forall|i: int|
            0 <= i < plan.len() && #[trigger] plan[i].0@ == k implies store_plan(d, plan).contains_key(k)
            && store_plan(d, plan)[k] == plan[i].1@ by {
            if i < plan.len() - 1 {
                assert(p[i] == plan[i]);
                assert(plan[plan.len() - 1].0@ != k);
            }
        }
        if forall|i: int| 0 <= i < plan.len() ==> #[trigger] plan[i].0@ != k {
            assert forall|i: int| 0 <= i < p.len() implies #[trigger] p[i].0@ != k by {
                assert(p[i] == plan[i]);
            }
            assert(plan[plan.len() - 1].0@ != k);
        }
    }
}

/// An eviction round changes nothing that the store's user can read: its
/// rows are written to the store, and the entries that still hold the value
/// planned for them are dropped from the cache. This holds also when keys
/// were written again between planning and dropping, as long as none of
/// the planned keys was deleted meanwhile (each key is planned once, as
/// `eviction_plan` plans them).
pub proof fn law_round_keeps_combined(
    c: Map<Seq<char>, (usize, String)>,
    d: Map<Seq<char>, Seq<char>>,
    plan: Seq<(String, String)>,
)
    requires
        forall|i: int, j: int|
            0 <= i < plan.len() && 0 <= j < plan.len() && i != j ==> #[trigger] plan[i].0@ != #[trigger] plan[j].0@,
        forall|i: int| 0 <= i < plan.len() ==> c.contains_key(#[trigger] plan[i].0@),
    ensures
        combined(c.remove_keys(still_planned(c, plan)), store_plan(d, plan)) == combined(c, d),
{
    let c2 = c.remove_keys(still_planned(c, plan));
    let d2 = store_plan(d, plan);
    assert forall|k: Seq<char>|
        #![trigger combined(c2, d2).dom().contains(k)]
        #![trigger combined(c, d).dom().contains(k)]
        combined(c2, d2).dom().contains(k) == combined(c, d).dom().contains(k) && (combined(c, d).dom().contains(k)
            ==> combined(c2, d2)[k] == combined(c, d)[k]) by {
        lemma_store_plan_at(d, plan, k);
        if still_planned(c, plan).contains(k) {
            let j = choose|j: int|
                0 <= j < plan.len() && plan[j].0@ == k && c.contains_key(k) && c[k].1@ == plan[j].1@;
            assert(d2.contains_key(k) && d2[k] == plan[j].1@);
        } else if exists|i: int| 0 <= i < plan.len() && #[trigger] plan[i].0@ == k {
            let i = choose|i: int| 0 <= i < plan.len() && #[trigger] plan[i].0@ == k;
            assert(c.contains_key(k));
        }
    }
    assert(combined(c2, d2).dom() =~= combined(c, d).dom());
    assert(combined(c2, d2) =~= combined(c, d));
}

/// A round run on a plan that `eviction_plan` made for the cache `c`, with
/// no write or delete in between, changes nothing that can be read.
pub proof fn law_planned_round_keeps_combined(
    c: Map<Seq<char>, (usize, String)>,
    d: Map<Seq<char>, Seq<char>>,
    plan: Seq<(String, String)>,
)
    requires
        least_frequent_first(key_seq(plan), c),
    ensures
        combined(c.remove_keys(still_planned(c, plan)), store_plan(d, plan)) == combined(c, d),
{
    let ks = key_seq(plan);
    assert forall|i: int, j: int|
        0 <= i < plan.len() && 0 <= j < plan.len() && i != j implies #[trigger] plan[i].0@ != #[trigger] plan[j].0@ by {
        assert(ks[i] != ks[j]);
    }
    assert forall|i: int| 0 <= i < plan.len() implies c.contains_key(#[trigger] plan[i].0@) by {
        assert(c.contains_key(ks[i]));
    }
    law_round_keeps_combined(c, d, plan);
}

/// A delete from both the cache and the store removes the key from what
/// can be read, and nothing else; a delete from the cache alone would let
/// an evicted copy be read again.
pub proof fn law_delete_forgets_key(c: Map<Seq<char>, (usize, String)>, d: Map<Seq<char>, Seq<char>>, k: Seq<char>)
    ensures
        combined(c.remove(k), d.remove(k)) == combined(c, d).remove(k),
        d.contains_key(k) ==> combined(c.remove(k), d).contains_key(k),
{
    assert(combined(c.remove(k), d.remove(k)) =~= combined(c, d).remove(k));
}

/// A write is read back at once, whatever the store holds: `set` puts the
/// value in the cache, which hides the store's copy.
pub proof fn law_write_shows(c: Map<Seq<char>, (usize, String)>, d: Map<Seq<char>, Seq<char>>, k: Seq<char>, v: String)
    ensures
        combined(c.insert(k, (0usize, v)), d) == combined(c, d).insert(k, v@),
{
    assert(combined(c.insert(k, (0usize, v)), d) =~= combined(c, d).insert(k, v@));
}

/// Reads change nothing that can be read: a hit only counts the read, and
/// a miss answered from the store brings the stored value into the cache.
pub proof fn law_reads_keep_combined(
    c: Map<Seq<char>, (usize, String)>,
    d: Map<Seq<char>, Seq<char>>,
    k: Seq<char>,
    v: String,
)
    ensures
        c.contains_key(k) ==> combined(read_hit(c, k), d) == combined(c, d),
        !c.contains_key(k) && d.contains_key(k) && d[k] == v@ ==> combined(c.insert(k, (1usize, v)), d)
            == combined(c, d),
        c.contains_key(k) ==> combined(c, d)[k] == c[k].1@,
        !c.contains_key(k) && d.contains_key(k) ==> combined(c, d)[k] == d[k],
{
    if c.contains_key(k) {
        assert(combined(read_hit(c, k), d) =~= combined(c, d));
    }
    if !c.contains_key(k) && d.contains_key(k) && d[k] == v@ {
        assert(combined(c.insert(k, (1usize, v)), d) =~= combined(c, d));
    }
}

} // verus!
