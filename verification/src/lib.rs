//! A write-behind key-value store: an in-memory map of strings whose least
//! frequently read entries are handed over to a backing store when the map
//! grows past a memory budget.
//!
//! This crate holds the verified core: the keyed table that backs both maps,
//! the plain map `KVMap`, the frequency-counting cache `DualKV` with its
//! eviction planning, the batching of evicted entries into insert statements,
//! and the digit grouping used in reports.
mod table;

pub mod listing;
pub mod kv_map;
pub mod dual_kv;
pub mod batch;
pub mod human;
pub mod store;

pub use dual_kv::DualKV;
pub use kv_map::KVMap;
