use rust_kv::batch::{
    batch_insert_sql, batch_size_or_default, chunk_batches, flatten_batch, prepare_error_message, DEFAULT_BATCH_SIZE,
};
use rust_kv::dual_kv::eviction_count;
use rust_kv::human::human;
use rust_kv::{DualKV, KVMap};

fn s(x: &str) -> String {
    x.to_string()
}

fn drain_kv_map(m: &mut KVMap) -> Vec<(String, String)> {
    let mut out = Vec::new();
    while let Some(p) = m.next() {
        out.push(p);
    }
    out
}

fn drain_dual(m: &mut DualKV) -> Vec<(String, String)> {
    let mut out = Vec::new();
    while let Some(p) = m.next() {
        out.push(p);
    }
    out
}

#[test]
fn kv_map_reads_what_was_written() {
    let mut m = KVMap::new();
    m.set(s("foo"), s("bar"));
    assert_eq!(m.get(s("foo")), Some(s("bar")));
    assert_eq!(m.get(s("baz")), None);
}

#[test]
fn kv_map_overwrite_keeps_last_value() {
    let mut m = KVMap::new();
    m.set(s("k"), s("one"));
    m.set(s("other"), s("x"));
    m.set(s("k"), s("two"));
    assert_eq!(m.get(s("k")), Some(s("two")));
    assert_eq!(m.get(s("other")), Some(s("x")));
}

#[test]
fn kv_map_delete_forgets_only_that_key() {
    let mut m = KVMap::new();
    m.set(s("a"), s("1"));
    m.set(s("b"), s("2"));
    m.set(s("c"), s("3"));
    m.delete(s("a"));
    m.delete(s("missing"));
    assert_eq!(m.get(s("a")), None);
    assert_eq!(m.get(s("b")), Some(s("2")));
    assert_eq!(m.get(s("c")), Some(s("3")));
    m.set(s("a"), s("again"));
    assert_eq!(m.get(s("a")), Some(s("again")));
}

#[test]
fn kv_map_iteration_hands_out_each_entry_once() {
    let mut m = KVMap::new();
    for i in 0..20 {
        m.set(format!("k{}", i), format!("v{}", i));
    }
    m.delete(s("k3"));
    m.delete(s("k17"));
    m.start_iter();
    let mut got = drain_kv_map(&mut m);
    got.sort();
    let mut want: Vec<(String, String)> = (0..20)
        .filter(|i| *i != 3 && *i != 17)
        .map(|i| (format!("k{}", i), format!("v{}", i)))
        .collect();
    want.sort();
    assert_eq!(got, want);
    assert_eq!(m.next(), None);
}

#[test]
fn kv_map_next_starts_an_iteration() {
    let mut m = KVMap::new();
    m.set(s("only"), s("one"));
    assert_eq!(m.next(), Some((s("only"), s("one"))));
    assert_eq!(m.next(), None);
}

#[test]
fn kv_map_iteration_is_a_snapshot() {
    let mut m = KVMap::new();
    m.set(s("a"), s("1"));
    m.start_iter();
    m.set(s("b"), s("2"));
    m.delete(s("a"));
    assert_eq!(m.next(), Some((s("a"), s("1"))));
    assert_eq!(m.next(), None);
    m.start_iter();
    assert_eq!(m.next(), Some((s("b"), s("2"))));
}

#[test]
fn kv_map_empty_iteration() {
    let mut m = KVMap::new();
    assert_eq!(m.next(), None);
}

#[test]
fn dual_kv_set_starts_count_at_zero_and_reads_count() {
    let mut c = DualKV::new();
    c.set(s("k"), s("v"));
    assert_eq!(c.frequency("k"), Some(0));
    assert_eq!(c.get(s("k")), Some(s("v")));
    assert_eq!(c.get(s("k")), Some(s("v")));
    assert_eq!(c.frequency("k"), Some(2));
    c.set(s("k"), s("w"));
    assert_eq!(c.frequency("k"), Some(0));
    assert_eq!(c.get(s("k")), Some(s("w")));
}

#[test]
fn dual_kv_miss_then_load_counts_one_read() {
    let mut c = DualKV::new();
    assert_eq!(c.get(s("cold")), None);
    assert_eq!(c.frequency("cold"), None);
    c.insert_loaded(s("cold"), s("from store"));
    assert_eq!(c.frequency("cold"), Some(1));
    assert_eq!(c.get(s("cold")), Some(s("from store")));
    assert_eq!(c.frequency("cold"), Some(2));
}

#[test]
fn dual_kv_delete_and_length() {
    let mut c = DualKV::new();
    assert_eq!(c.length(), 0);
    c.set(s("a"), s("1"));
    c.set(s("b"), s("2"));
    c.set(s("a"), s("3"));
    assert_eq!(c.length(), 2);
    c.delete(s("a"));
    assert_eq!(c.length(), 1);
    assert_eq!(c.get(s("a")), None);
    assert_eq!(c.get(s("b")), Some(s("2")));
}

#[test]
fn dual_kv_entries_list_keys_and_values() {
    let mut c = DualKV::new();
    c.set(s("x"), s("1"));
    c.set(s("y"), s("2"));
    let mut e = c.entries();
    e.sort();
    assert_eq!(e, vec![vec![s("x"), s("1")], vec![s("y"), s("2")]]);
    let flat = c.entries_flat();
    assert_eq!(flat.len(), 4);
    let mut pairs: Vec<(String, String)> = flat.chunks(2).map(|p| (p[0].clone(), p[1].clone())).collect();
    pairs.sort();
    assert_eq!(pairs, vec![(s("x"), s("1")), (s("y"), s("2"))]);
    let mut keys = c.keys();
    keys.sort();
    assert_eq!(keys, vec![s("x"), s("y")]);
}

#[test]
fn dual_kv_filter_keys_keeps_what_the_callback_accepts() {
    let mut c = DualKV::new();
    for k in ["apple", "avocado", "banana", "apricot", "cherry"] {
        c.set(s(k), s("fruit"));
    }
    let mut kept = c.filter_keys(|k: &String| k.starts_with('a'));
    kept.sort();
    assert_eq!(kept, vec![s("apple"), s("apricot"), s("avocado")]);
    assert!(c.filter_keys(|_k: &String| false).is_empty());
}

#[test]
fn dual_kv_iteration_and_nth() {
    let mut c = DualKV::new();
    for i in 0..5 {
        c.set(format!("k{}", i), format!("v{}", i));
    }
    c.start_iter();
    let all = drain_dual(&mut c);
    assert_eq!(all.len(), 5);
    c.start_iter();
    assert_eq!(c.nth(1), Some(all[1].clone()));
    assert_eq!(c.nth(0), Some(all[2].clone()));
    assert_eq!(c.next(), Some(all[3].clone()));
    assert_eq!(c.nth(5), None);
    assert_eq!(c.next(), None);
    c.start_iter();
    assert_eq!(c.nth(-1), None);
    assert_eq!(c.next(), None);
}

#[test]
fn dual_kv_nth_starts_an_iteration() {
    let mut c = DualKV::new();
    c.set(s("a"), s("1"));
    assert_eq!(c.nth(0), Some((s("a"), s("1"))));
    assert_eq!(c.nth(0), None);
}

fn cache_with_counts(counts: &[(&str, usize)]) -> DualKV {
    let mut c = DualKV::new();
    for (k, n) in counts {
        c.set(s(k), format!("value of {}", k));
        for _ in 0..*n {
            c.get(s(k));
        }
    }
    c
}

#[test]
fn lfu_evict_picks_least_read_first() {
    let c = cache_with_counts(&[("hot", 9), ("warm", 4), ("cold", 0), ("cool", 2), ("lukewarm", 3)]);
    let chosen = c.lfu_evict(3);
    let got: Vec<(String, usize)> = chosen.iter().map(|(k, (n, _))| (k.clone(), *n)).collect();
    assert_eq!(got, vec![(s("cold"), 0), (s("cool"), 2), (s("lukewarm"), 3)]);
    assert_eq!(chosen[0].1 .1, s("value of cold"));
    assert_eq!(c.lfu_evict(10).len(), 5);
    assert!(c.lfu_evict(0).is_empty());
}

#[test]
fn eviction_count_is_the_excess_share() {
    assert_eq!(eviction_count(10, 150, 100), 3);
    assert_eq!(eviction_count(10, 101, 100), 0);
    assert_eq!(eviction_count(7, 200, 0), 7);
    assert_eq!(eviction_count(1000, 2000, 1000), 500);
}

#[test]
fn eviction_plan_within_budget_is_empty() {
    let c = cache_with_counts(&[("a", 1), ("b", 2)]);
    assert!(c.eviction_plan(100, 100).is_empty());
    assert!(c.eviction_plan(50, 100).is_empty());
}

#[test]
fn eviction_plan_and_removal_keep_the_most_read() {
    let mut c = cache_with_counts(&[("a", 5), ("b", 1), ("c", 7), ("d", 0)]);
    // 4 entries, 200 bytes against 100: half of them go.
    let plan = c.eviction_plan(200, 100);
    assert_eq!(plan, vec![(s("d"), s("value of d")), (s("b"), s("value of b"))]);
    c.remove_evicted(&plan);
    let mut left = c.keys();
    left.sort();
    assert_eq!(left, vec![s("a"), s("c")]);
    assert_eq!(c.frequency("a"), Some(5));
    assert_eq!(c.frequency("c"), Some(7));
}

#[test]
fn memory_size_is_reported() {
    let mut c = DualKV::new();
    let empty = c.memory_size();
    c.set(s("key"), "x".repeat(1000));
    assert!(c.memory_size() > empty);
}

#[test]
fn batches_are_cut_in_order() {
    let items: Vec<(String, String)> = (0..5).map(|i| (format!("k{}", i), format!("v{}", i))).collect();
    let b = chunk_batches(&items, 2);
    assert_eq!(b.len(), 3);
    assert_eq!(b[0], items[0..2].to_vec());
    assert_eq!(b[1], items[2..4].to_vec());
    assert_eq!(b[2], items[4..5].to_vec());
    let joined: Vec<(String, String)> = b.concat();
    assert_eq!(joined, items);
    assert_eq!(chunk_batches(&items, 5).len(), 1);
    assert_eq!(chunk_batches(&items, 4000).len(), 1);
    assert!(chunk_batches(&Vec::new(), 3).is_empty());
}

#[test]
fn insert_statement_names_two_parameters_per_entry() {
    assert_eq!(batch_insert_sql(0), "INSERT OR REPLACE INTO kv (k,v) VALUES ");
    assert_eq!(batch_insert_sql(1), "INSERT OR REPLACE INTO kv (k,v) VALUES (?,?)");
    assert_eq!(batch_insert_sql(3), "INSERT OR REPLACE INTO kv (k,v) VALUES (?,?), (?,?), (?,?)");
    let batch = vec![(s("k1"), s("v1")), (s("k2"), s("v2"))];
    let params = flatten_batch(&batch);
    assert_eq!(params, vec![s("k1"), s("v1"), s("k2"), s("v2")]);
    let sql = batch_insert_sql(batch.len());
    assert_eq!(sql.matches('?').count(), params.len());
}

#[test]
fn batch_size_defaults_to_4000() {
    assert_eq!(batch_size_or_default(None), 4000);
    assert_eq!(DEFAULT_BATCH_SIZE, 4000);
    assert_eq!(batch_size_or_default(Some(12)), 12);
}

#[test]
fn human_groups_digits_by_three() {
    assert_eq!(human(0), "0");
    assert_eq!(human(7), "7");
    assert_eq!(human(42), "42");
    assert_eq!(human(999), "999");
    assert_eq!(human(1000), "1,000");
    assert_eq!(human(1005), "1,005");
    assert_eq!(human(1234567), "1,234,567");
    assert_eq!(human(100000000), "100,000,000");
    assert_eq!(human(u64::MAX), "18,446,744,073,709,551,615");
    assert_eq!(human(1234567).replace(',', ""), "1234567");
}

#[test]
fn memory_size_counts_at_least_the_text_held() {
    let mut c = DualKV::new();
    c.set(s("key"), "x".repeat(1000));
    c.set(s("other"), s("value"));
    assert!(c.memory_size() >= 3 + 1000 + 5 + 5);
}

#[test]
fn remove_evicted_keeps_a_value_written_after_planning() {
    let mut c = cache_with_counts(&[("a", 5), ("b", 1), ("c", 7), ("d", 0)]);
    let plan = c.eviction_plan(200, 100);
    assert_eq!(plan, vec![(s("d"), s("value of d")), (s("b"), s("value of b"))]);
    c.set(s("d"), s("written later"));
    c.get(s("b"));
    c.remove_evicted(&plan);
    assert_eq!(c.get(s("d")), Some(s("written later")));
    assert_eq!(c.frequency("b"), None);
    let mut left = c.keys();
    left.sort();
    assert_eq!(left, vec![s("a"), s("c"), s("d")]);
}

#[test]
fn filter_keys_follows_the_order_of_keys() {
    let mut c = DualKV::new();
    for i in 0..10 {
        c.set(format!("k{}", i), s("v"));
    }
    c.delete(s("k4"));
    let keys = c.keys();
    let asked = std::cell::RefCell::new(Vec::new());
    let kept = c.filter_keys(|k: &String| {
        asked.borrow_mut().push(k.clone());
        k.ends_with('1') || k.ends_with('7') || k.ends_with('9')
    });
    assert_eq!(*asked.borrow(), keys);
    let want: Vec<String> = keys
        .iter()
        .filter(|k| k.ends_with('1') || k.ends_with('7') || k.ends_with('9'))
        .cloned()
        .collect();
    assert_eq!(kept, want);
}

#[test]
fn entries_and_entries_flat_share_one_order() {
    let mut c = DualKV::new();
    for i in 0..6 {
        c.set(format!("k{}", i), format!("v{}", i));
    }
    c.delete(s("k2"));
    let rows = c.entries();
    let flat = c.entries_flat();
    assert_eq!(rows.concat(), flat);
    let keys = c.keys();
    let row_keys: Vec<String> = rows.iter().map(|r| r[0].clone()).collect();
    assert_eq!(keys, row_keys);
    c.start_iter();
    let walked = drain_dual(&mut c);
    let row_pairs: Vec<(String, String)> = rows.iter().map(|r| (r[0].clone(), r[1].clone())).collect();
    assert_eq!(walked, row_pairs);
}

#[test]
fn prepare_error_message_cuts_long_text() {
    assert_eq!(prepare_error_message("short"), "Error in prepare: short");
    let long = "e".repeat(250);
    assert_eq!(prepare_error_message(&long), format!("Error in prepare: {}...", "e".repeat(200)));
    let exact = "e".repeat(200);
    assert_eq!(prepare_error_message(&exact), format!("Error in prepare: {}", exact));
    // 150 two-byte characters: over 200 bytes, under 200 characters.
    let wide = "é".repeat(150);
    assert_eq!(prepare_error_message(&wide), format!("Error in prepare: {}...", wide));
    let wider = "é".repeat(210);
    assert_eq!(prepare_error_message(&wider), format!("Error in prepare: {}...", "é".repeat(200)));
}

#[test]
fn delete_statement_names_the_key() {
    assert_eq!(rust_kv::store::delete_sql(), "DELETE FROM kv WHERE k=?");
}
