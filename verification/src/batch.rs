//! Handing evicted entries to the backing store: cutting them into batches
//! and writing, for a batch, the insert statement and its parameters.
use vstd::prelude::*;
use vstd::string::{StrSliceExecFns, StringExecFns};

verus! {

/// How many entries go into one insert statement when no size is given.
pub const DEFAULT_BATCH_SIZE: u32 = 4000;

/// The batch size asked for, or `DEFAULT_BATCH_SIZE` when none is.
pub fn batch_size_or_default(batch_size: Option<u32>) -> (r: u32)
    ensures
        r == (match batch_size {
            Some(b) => b,
            None => DEFAULT_BATCH_SIZE,
        }),
{
    match batch_size {
        Some(b) => b,
        None => DEFAULT_BATCH_SIZE,
    }
}

/// The smaller of `a` and `b`.
pub open spec fn min_int(a: int, b: int) -> int {
    if a <= b {
        a
    } else {
        b
    }
}

/// `r` cuts `items` into consecutive batches of `size` items, the last one
/// holding what is left: batch `i` is `items[i * size .. min((i + 1) * size, n)]`,
/// and there are just enough batches to hold every item.
pub open spec fn cut_into_batches(r: Seq<Seq<(String, String)>>, items: Seq<(String, String)>, size: int) -> bool {
    &&& forall|i: int|
        0 <= i < r.len() ==> #[trigger] r[i] == items.subrange(i * size, min_int((i + 1) * size, items.len() as int))
    &&& r.len() * size >= items.len()
    &&& r.len() == 0 || (r.len() - 1) * size < items.len()
}

proof fn lemma_mul_succ(a: int, b: int)
    ensures
        (a + 1) * b == a * b + b,
{
    assert((a + 1) * b == a * b + b) by (nonlinear_arith);
}

/// Cuts `items` into consecutive batches of `batch_size` entries; the last
/// batch holds what is left.
pub fn chunk_batches(items: &Vec<(String, String)>, batch_size: usize) -> (r: Vec<Vec<(String, String)>>)
    requires
        batch_size > 0,
    ensures
        cut_into_batches(r@.map_values(|b: Vec<(String, String)>| b@), items@, batch_size as int),
{
    let n = items.len();
    let mut r: Vec<Vec<(String, String)>> = Vec::new();
    let mut start: usize = 0;
    assert(r@.len() * batch_size == 0);
    while start < n
        invariant
            n == items@.len(),
            batch_size > 0,
            start <= n,
            start == min_int(r@.len() * batch_size, n as int),
            r@.len() == 0 || (r@.len() - 1) * batch_size < n,
            forall|i: int|
                0 <= i < r@.len() ==> (#[trigger] r@[i])@ == items@.subrange(
                    i * batch_size,
                    min_int((i + 1) * batch_size, n as int),
                ),
        decreases n - start,
    {
        let end = if n - start > batch_size {
            start + batch_size
        } else {
            n
        };
        let mut chunk: Vec<(String, String)> = Vec::new();
        let mut j: usize = start;
        while j < end
            invariant
                start <= j <= end <= n,
                n == items@.len(),
                chunk@ == items@.subrange(start as int, j as int),
            decreases end - j,
        {
            chunk.push((items[j].0.clone(), items[j].1.clone()));
            proof {
                assert(chunk@ =~= items@.subrange(start as int, j + 1));
            }
            j = j + 1;
        }
        proof {
            lemma_mul_succ(r@.len() as int, batch_size as int);
        }
        r.push(chunk);
        start = end;
    }
    proof {
        let v = r@.map_values(|b: Vec<(String, String)>| b@);
        assert forall|i: int| 0 <= i < v.len() implies #[trigger] v[i] == items@.subrange(
            i * batch_size,
            min_int((i + 1) * batch_size, items@.len() as int),
        ) by {
            assert(v[i] == r@[i]@);
        }
    }
    r
}

proof fn lemma_prefix_batches(r: Seq<Seq<(String, String)>>, items: Seq<(String, String)>, size: int, j: int)
    requires
        size > 0,
        cut_into_batches(r, items, size),
        0 <= j <= r.len(),
    ensures
        r.take(j).flatten() == items.subrange(0, min_int(j * size, items.len() as int)),
    decreases j,
{
    broadcast use Seq::lemma_flatten_push;

    let n = items.len() as int;
    if j == 0 {
        assert(r.take(0) =~= Seq::<Seq<(String, String)>>::empty());
        assert(j * size == 0);
        assert(items.subrange(0, 0) =~= Seq::<(String, String)>::empty());
    } else {
        lemma_prefix_batches(r, items, size, j - 1);
        assert(r.take(j) =~= r.take(j - 1).push(r[j - 1]));
        lemma_mul_succ(j - 1, size);
        assert((j - 1) * size <= (r.len() - 1) * size) by (nonlinear_arith)
            requires
                j - 1 <= r.len() - 1,
                size > 0,
        ;
        assert(r[j - 1] == items.subrange((j - 1) * size, min_int(j * size, n)));
        assert(items.subrange(0, (j - 1) * size) + items.subrange((j - 1) * size, min_int(j * size, n))
            =~= items.subrange(0, min_int(j * size, n)));
    }
}

/// Batches hand every item over exactly once and in order: joined end to
/// end, they give back the items that were cut.
pub proof fn law_batches_join_to_items(r: Seq<Seq<(String, String)>>, items: Seq<(String, String)>, size: int)
    requires
        size > 0,
        cut_into_batches(r, items, size),
    ensures
        r.flatten() == items,
{
    lemma_prefix_batches(r, items, size, r.len() as int);
    assert(r.take(r.len() as int) =~= r);
    assert(items.subrange(0, items.len() as int) =~= items);
}

/// The parameters of a batch in the order its statement names them: each
/// entry's key, then its value.
pub fn flatten_batch(batch: &Vec<(String, String)>) -> (r: Vec<String>)
    ensures
        r@.len() == 2 * batch@.len(),
        forall|i: int|
            0 <= i < batch@.len() ==> #[trigger] r@[2 * i] == batch@[i].0 && r@[2 * i + 1] == batch@[i].1,
{
    let mut r: Vec<String> = Vec::new();
    let mut i: usize = 0;
    while i < batch.len()
        invariant
            i <= batch@.len(),
            r@.len() == 2 * i,
            forall|j: int| 0 <= j < i ==> #[trigger] r@[2 * j] == batch@[j].0 && r@[2 * j + 1] == batch@[j].1,
        decreases batch@.len() - i,
    {
        let ghost r0 = r@;
        r.push(batch[i].0.clone());
        r.push(batch[i].1.clone());
        proof {
            assert forall|j: int| 0 <= j < i + 1 implies #[trigger] r@[2 * j] == batch@[j].0 && r@[2 * j + 1]
                == batch@[j].1 by {
                if j < i {
                    assert(r@[2 * j] == r0[2 * j]);
                    assert(r@[2 * j + 1] == r0[2 * j + 1]);
                }
            }
        }
        i = i + 1;
    }
    r
}

/// The statement's fixed head.
pub open spec fn insert_head() -> Seq<char> {
    "INSERT OR REPLACE INTO kv (k,v) VALUES "@
}

/// `n` row placeholders `(?,?)`, separated by `", "`.
pub open spec fn placeholders(n: nat) -> Seq<char>
    decreases n,
{
    if n == 0 {
        Seq::empty()
    } else if n == 1 {
        "(?,?)"@
    } else {
        placeholders((n - 1) as nat) + ", (?,?)"@
    }
}

/// The statement that inserts, or replaces, `n` rows of key and value.
pub open spec fn insert_sql(n: nat) -> Seq<char> {
    insert_head() + placeholders(n)
}

/// The insert statement for a batch of `len` entries.
pub fn batch_insert_sql(len: usize) -> (r: String)
    ensures
        r@ == insert_sql(len as nat),
{
    let mut q = String::from_str("INSERT OR REPLACE INTO kv (k,v) VALUES ");
    let mut i: usize = 0;
    while i < len
        invariant
            i <= len,
            q@ == insert_head() + placeholders(i as nat),
        decreases len - i,
    {
        if i == 0 {
            q.append("(?,?)");
        } else {
            q.append(", (?,?)");
        }
        proof {
            assert(q@ =~= insert_head() + placeholders((i + 1) as nat));
        }
        i = i + 1;
    }
    q
}

/// How many times `c` occurs in `s`.
pub open spec fn count_char(s: Seq<char>, c: char) -> nat
    decreases s.len(),
{
    if s.len() == 0 {
        0
    } else {
        count_char(s.drop_last(), c) + (if s.last() == c {
            1nat
        } else {
            0nat
        })
    }
}

proof fn lemma_count_concat(a: Seq<char>, b: Seq<char>, c: char)
    ensures
        count_char(a + b, c) == count_char(a, c) + count_char(b, c),
    decreases b.len(),
{
    if b.len() > 0 {
        assert((a + b).drop_last() =~= a + b.drop_last());
        lemma_count_concat(a, b.drop_last(), c);
    } else {
        assert(a + b =~= a);
    }
}

proof fn lemma_count_push(s: Seq<char>, x: char, c: char)
    ensures
        count_char(s.push(x), c) == count_char(s, c) + (if x == c {
            1nat
        } else {
            0nat
        }),
{
    assert(s.push(x).drop_last() =~= s);
}

proof fn lemma_count_row()
    ensures
        count_char("(?,?)"@, '?') == 2,
        count_char(", (?,?)"@, '?') == 2,
{
    reveal_strlit("(?,?)");
    reveal_strlit(", (?,?)");
    let e = Seq::<char>::empty();
    let a1 = e.push('(');
    let a2 = a1.push('?');
    let a3 = a2.push(',');
    let a4 = a3.push('?');
    let a5 = a4.push(')');
    lemma_count_push(e, '(', '?');
    lemma_count_push(a1, '?', '?');
    lemma_count_push(a2, ',', '?');
    lemma_count_push(a3, '?', '?');
    lemma_count_push(a4, ')', '?');
    assert("(?,?)"@ =~= a5);
    let b1 = e.push(',');
    let b2 = b1.push(' ');
    let b3 = b2.push('(');
    let b4 = b3.push('?');
    let b5 = b4.push(',');
    let b6 = b5.push('?');
    let b7 = b6.push(')');
    lemma_count_push(e, ',', '?');
    lemma_count_push(b1, ' ', '?');
    lemma_count_push(b2, '(', '?');
    lemma_count_push(b3, '?', '?');
    lemma_count_push(b4, ',', '?');
    lemma_count_push(b5, '?', '?');
    lemma_count_push(b6, ')', '?');
    assert(", (?,?)"@ =~= b7);
}

proof fn lemma_count_placeholders(n: nat)
    ensures
        count_char(placeholders(n), '?') == 2 * n,
    decreases n,
{
    lemma_count_row();
    if n > 1 {
        lemma_count_placeholders((n - 1) as nat);
        lemma_count_concat(placeholders((n - 1) as nat), ", (?,?)"@, '?');
    }
}

proof fn lemma_head_has_no_parameter()
    ensures
        count_char(insert_head(), '?') == 0,
{
    reveal_strlit("INSERT OR REPLACE INTO kv (k,v) VALUES ");
    let h = insert_head();
    assert forall|k: int| 0 <= k <= h.len() implies count_char(#[trigger] h.take(k), '?') == 0 by {
        lemma_take_count_zero(h, k);
    }
    assert(h.take(h.len() as int) =~= h);
}

proof fn lemma_take_count_zero(h: Seq<char>, k: int)
    requires
        0 <= k <= h.len(),
        forall|j: int| 0 <= j < h.len() ==> h[j] != '?',
    ensures
        count_char(h.take(k), '?') == 0,
    decreases k,
{
    if k > 0 {
        assert(h.take(k).drop_last() =~= h.take(k - 1));
        lemma_take_count_zero(h, k - 1);
    }
}

/// The statement written for a batch names exactly as many parameters as
/// the batch supplies: two per entry, its key and its value.
pub proof fn law_statement_matches_parameters(n: nat)
    ensures
        count_char(insert_sql(n), '?') == 2 * n,
{
    lemma_head_has_no_parameter();
    lemma_count_placeholders(n);
    lemma_count_concat(insert_head(), placeholders(n), '?');
}

/// The text of a failed prepare as a panic reports it: `estr` after a
/// fixed head, cut to its first 200 characters and marked with `...` when
/// it is longer than 200 bytes.
pub open spec fn prepare_error_text(estr: Seq<char>, bytes: nat) -> Seq<char> {
    "Error in prepare: "@ + (if bytes > 200 {
        estr.take(min_int(200, estr.len() as int)) + "..."@
    } else {
        estr
    })
}

/// Formats the error text `estr` of a failed prepare for the panic that
/// follows it.
pub fn prepare_error_message(estr: &str) -> (r: String)
    ensures
        r@ == prepare_error_text(estr@, estr.len() as nat),
{
    let mut r = String::from_str("Error in prepare: ");
    if estr.len() > 200 {
        let n = estr.unicode_len();
        let take = if n < 200 {
            n
        } else {
            200
        };
        r.append(estr.substring_char(0, take));
        r.append("...");
        proof {
            assert(estr@.subrange(0, take as int) =~= estr@.take(take as int));
            assert(take as int == min_int(200, estr@.len() as int));
            assert(r@ =~= prepare_error_text(estr@, estr.len() as nat));
        }
    } else {
        r.append(estr);
        assert(r@ =~= prepare_error_text(estr@, estr.len() as nat));
    }
    r
}

/// The placeholders of a batch of `n >= 1` rows are `n` copies of `(?,?)`
/// joined by `", "`: `7n - 2` characters, row `i` at `7i .. 7i + 5`, and
/// the separator `", "` between each row and the next; one more row adds
/// `", (?,?)"` at the end.
pub proof fn law_placeholders_joined(n: nat)
    requires
        n >= 1,
    ensures
        placeholders(n).len() == 7 * n - 2,
        forall|i: int| 0 <= i < n ==> #[trigger] placeholders(n).subrange(7 * i, 7 * i + 5) == "(?,?)"@,
        forall|i: int| 0 <= i < n - 1 ==> #[trigger] placeholders(n).subrange(7 * i + 5, 7 * i + 7) == ", "@,
        placeholders(n + 1) == placeholders(n) + ", (?,?)"@,
    decreases n,
{
    reveal_strlit("(?,?)");
    reveal_strlit(", (?,?)");
    reveal_strlit(", ");
    let p = placeholders(n);
    if n == 1 {
        assert(p.subrange(0, 5) =~= p);
    } else {
        law_placeholders_joined((n - 1) as nat);
        let q = placeholders((n - 1) as nat);
        let tail = ", (?,?)"@;
        assert(p == q + tail);
        assert forall|i: int| 0 <= i < n implies #[trigger] p.subrange(7 * i, 7 * i + 5) == "(?,?)"@ by {
            if i < n - 1 {
                assert(p.subrange(7 * i, 7 * i + 5) =~= q.subrange(7 * i, 7 * i + 5));
            } else {
                assert(p.subrange(7 * i, 7 * i + 5) =~= tail.subrange(2, 7));
                assert(tail.subrange(2, 7) =~= "(?,?)"@);
            }
        }
        assert forall|i: int| 0 <= i < n - 1 implies #[trigger] p.subrange(7 * i + 5, 7 * i + 7) == ", "@ by {
            if i < n - 2 {
                assert(p.subrange(7 * i + 5, 7 * i + 7) =~= q.subrange(7 * i + 5, 7 * i + 7));
            } else {
                assert(p.subrange(7 * i + 5, 7 * i + 7) =~= tail.subrange(0, 2));
                assert(tail.subrange(0, 2) =~= ", "@);
            }
        }
    }
}

} // verus!
