//! The cache primitives beneath the persistent collections: the dirty-tracked
//! slot and the stable keyed map of slots.

pub mod cache_entry;
pub mod stable_map;

pub use cache_entry::{CacheEntry, EntryState};
pub use stable_map::StableMap;
