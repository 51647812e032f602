//! A persistent set over the store: a thin projection of a persistent map
//! whose values are the unit value, so presence of the key is the whole
//! content.  Caching and flushing are inherited; the set adds no state.

use vstd::prelude::*;

verus! {

use crate::codec::Storable;
use crate::storage::{Storage, next_count};
use crate::utils::{CacheEntry, EntryState};
use super::{LookupMap, spec_stored};

/// A persistent set of encodable elements, stored as a map to unit.
/// Like the map beneath it, it has no implicit flush on teardown: staged
/// mutations are lost unless `flush` is called before the session ends.
pub struct LookupSet<K: Storable> {
    map: LookupMap<K, ()>,
}

impl<K: Storable> LookupSet<K> {
    /// The underlying key -> unit map.
    pub closed spec fn spec_map(&self) -> LookupMap<K, ()> {
        self.map
    }

    /// The byte prefix namespacing this set's physical keys.
    pub open spec fn spec_prefix(&self) -> Seq<u8> {
        self.spec_map().spec_prefix()
    }

    /// The inherited invariant of the underlying map.
    pub open spec fn wf(&self) -> bool {
        self.spec_map().wf()
    }

    /// Whether the set holds `k`, as seen through cache and store.
    pub open spec fn member(&self, store: Map<Seq<u8>, Seq<u8>>, k: K) -> bool {
        self.spec_map().entry_view(store, k) is Some
    }

    /// Reading `k` cannot hit corrupt bytes.
    pub open spec fn can_load(&self, store: Map<Seq<u8>, Seq<u8>>, k: K) -> bool {
        self.spec_map().can_load(store, k)
    }

    /// A new set with an empty cache. Uses `prefix` as a unique prefix for
    /// keys.
    pub fn new(prefix: Vec<u8>) -> (r: Self)
        ensures
            r.spec_prefix() == prefix@,
            r.spec_map().cache() == Map::<K, CacheEntry<()>>::empty(),
            r.wf(),
    {
        LookupSet { map: LookupMap::new(prefix) }
    }

    /// The physical key that `key` gets under `prefix`, appended to
    /// `buffer`; exposed so that tests can predict the bytes a flush
    /// writes.
    pub fn to_key_test(&self, prefix: &[u8], key: &K, buffer: &mut Vec<u8>) -> (r: Vec<u8>)
        ensures
            final(buffer)@ == old(buffer)@ + prefix@ + key.encoded(),
            r@ == final(buffer)@,
    {
        LookupMap::<K, ()>::to_key_test(prefix, key, buffer)
    }

    /// The unique byte prefix used for key generation in this set.
    pub fn get_prefix(&self) -> (r: &Vec<u8>)
        ensures
            r@ == self.spec_prefix(),
    {
        self.map.get_prefix()
    }

    /// Add `k` to the set; true exactly when the set did not hold it
    /// before.
    pub fn insert(&mut self, store: &mut Storage, k: K) -> (r: bool)
        requires
            old(self).wf(),
            old(store).wf(),
            old(self).can_load(old(store)@, k),
        ensures
            final(self).wf(),
            final(store).wf(),
            final(self).spec_prefix() == old(self).spec_prefix(),
            final(store)@ == old(store)@,
            final(store).spec_writes() == old(store).spec_writes(),
            final(store).spec_removes() == old(store).spec_removes(),
            r == !old(self).member(old(store)@, k),
            final(self).member(final(store)@, k),
            final(self).spec_map().cache().contains_key(k),
            final(self).spec_map().cache()[k] == (CacheEntry {
                value: Some(()),
                state: EntryState::Modified,
            }),
            forall|q: K|
                q != k ==> #[trigger] final(self).member(final(store)@, q) == old(self).member(
                    old(store)@,
                    q,
                ),
    {
        let r = self.map.insert(store, k, ());
        r.is_none()
    }

    /// Remove `k` from the set; true exactly when the set held it.
    pub fn remove(&mut self, store: &mut Storage, k: K) -> (r: bool)
        requires
            old(self).wf(),
            old(store).wf(),
            old(self).can_load(old(store)@, k),
        ensures
            final(self).wf(),
            final(store).wf(),
            final(self).spec_prefix() == old(self).spec_prefix(),
            final(store)@ == old(store)@,
            final(store).spec_writes() == old(store).spec_writes(),
            final(store).spec_removes() == old(store).spec_removes(),
            r == old(self).member(old(store)@, k),
            !final(self).member(final(store)@, k),
            final(self).spec_map().cache().contains_key(k),
            final(self).spec_map().cache()[k].value is None,
            (!r && !old(self).spec_map().cache().contains_key(k) ==> final(self).spec_map().cache()[k].state is Cached),
            (!r && old(self).spec_map().cache().contains_key(k) ==> final(self).spec_map().cache()[k].state == old(self).spec_map().cache()[k].state),
            forall|q: K|
                q != k ==> #[trigger] final(self).member(final(store)@, q) == old(self).member(
                    old(store)@,
                    q,
                ),
    {
        let r = self.map.remove(store, k);
        r.is_some()
    }

    /// Whether the set holds `k`.
    pub fn contains(&mut self, store: &mut Storage, k: &K) -> (r: bool)
        requires
            old(self).wf(),
            old(store).wf(),
            old(self).can_load(old(store)@, *k),
        ensures
            final(self).wf(),
            final(store).wf(),
            final(self).spec_prefix() == old(self).spec_prefix(),
            final(store)@ == old(store)@,
            final(store).spec_writes() == old(store).spec_writes(),
            final(store).spec_removes() == old(store).spec_removes(),
            r == old(self).member(old(store)@, *k),
            old(self).spec_map().cache().contains_key(*k) ==> *final(self) == *old(self)
                && *final(store) == *old(store),
            !old(self).spec_map().cache().contains_key(*k) ==> final(self).spec_map().cache()
                == old(self).spec_map().cache().insert(
                *k,
                (CacheEntry {
                    value: spec_stored::<()>(old(store)@, old(self).spec_map().spec_lookup_key(*k)),
                    state: EntryState::Cached,
                }),
            ) && final(store).spec_reads() == next_count(old(store).spec_reads()),
            forall|q: K|
                final(self).member(final(store)@, q) == old(self).member(old(store)@, q),
            forall|q: K|
                old(self).can_load(old(store)@, q) ==> final(self).can_load(final(store)@, q),
    {
        self.map.contains_key(store, k)
    }

    /// Flush the set's cache: write every staged mutation to the store and
    /// mark the cache clean.
    pub fn flush(&mut self, store: &mut Storage)
        requires
            old(self).wf(),
            old(store).wf(),
        ensures
            final(self).wf(),
            final(store).wf(),
            final(self).spec_prefix() == old(self).spec_prefix(),
            final(store).spec_reads() == old(store).spec_reads(),
            (forall|q: K|
                old(self).spec_map().cache().contains_key(q) ==> (#[trigger] old(self).spec_map().cache()[q]).state is Cached) ==> *final(store) == *old(store),
            forall|q: K|
                final(self).member(final(store)@, q) == old(self).member(old(store)@, q),
            forall|q: K|
                old(self).can_load(old(store)@, q) ==> final(self).can_load(final(store)@, q),
            forall|q: K|
                old(self).spec_map().cache().contains_key(q) && (#[trigger] old(self).spec_map().cache()[q]).state is Modified ==> (
                match old(self).spec_map().cache()[q].value {
                    Some(v) => final(store)@.contains_key(old(self).spec_map().spec_lookup_key(q))
                        && final(store)@[old(self).spec_map().spec_lookup_key(q)] == v.encoded(),
                    None => !final(store)@.contains_key(old(self).spec_map().spec_lookup_key(q)),
                }),
            forall|pk: Seq<u8>|
                !old(self).spec_map().flush_writes(pk) ==> #[trigger] final(store)@.contains_key(
                    pk,
                ) == old(store)@.contains_key(pk) && (old(store)@.contains_key(pk) ==> final(store)@[pk] == old(store)@[pk]),
    {
        self.map.flush(store);
    }
}

/// Law: adding an element twice reports a new insertion only once; the
/// element is then contained, and after removal it is no longer contained.
/// The four results are, in order: the first insert, the second insert, a
/// contains check, and a contains check after removal.
pub fn insert_insert_remove_law<K: Storable>(
    set: &mut LookupSet<K>,
    store: &mut Storage,
    x: K,
) -> (r: (bool, bool, bool, bool))
    requires
        old(set).wf(),
        old(store).wf(),
        old(set).can_load(old(store)@, x),
        !old(set).member(old(store)@, x),
    ensures
        r == (true, false, true, false),
{
    let first = set.insert(store, x.clone_val());
    let second = set.insert(store, x.clone_val());
    let present = set.contains(store, &x);
    let _ = set.remove(store, x.clone_val());
    let present_after_remove = set.contains(store, &x);
    (first, second, present, present_after_remove)
}

} // verus!
