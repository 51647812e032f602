//! A persistent associative container for arbitrary encodable keys, layered
//! over the store.  Each entry memoizes its computed physical key so the key
//! is serialized once, not on every flush; loads are lazy and mutations are
//! staged in the cache until `flush`.

use vstd::prelude::*;

verus! {

use crate::codec::Storable;
use crate::storage::{Storage, bytes_to_vec, next_count};
use crate::utils::{CacheEntry, EntryState, StableMap};
use crate::utils::stable_map::{map_of, distinct_keys, lemma_map_of_index, lemma_map_of_complete,
    lemma_map_of_no_key, lemma_map_of_push, lemma_map_of_update};
use super::{decodable, spec_stored, lemma_append_cancel};

/// The physical key of logical key `k`: the map's prefix followed by the
/// key's canonical encoding.  The encoding is injective, so distinct keys
/// never collide under one prefix.
pub open spec fn spec_map_key<K: Storable>(prefix: Seq<u8>, k: K) -> Seq<u8> {
    prefix + k.encoded()
}

/// Distinct keys have distinct physical keys under one prefix.
pub proof fn lemma_map_key_injective<K: Storable>(prefix: Seq<u8>, a: K, b: K)
    requires
        a != b,
    ensures
        spec_map_key(prefix, a) != spec_map_key(prefix, b),
{
    if spec_map_key(prefix, a) == spec_map_key(prefix, b) {
        lemma_append_cancel(prefix, a.encoded(), b.encoded());
        a.lemma_encoded_injective(&b);
    }
}

/// Append `prefix ++ encoding(key)` to `buffer` and return a copy of the
/// whole buffer: the physical key when the buffer starts empty.
fn to_key<K: Storable>(prefix: &[u8], key: &K, buffer: &mut Vec<u8>) -> (r: Vec<u8>)
    ensures
        final(buffer)@ == old(buffer)@ + prefix@ + key.encoded(),
        r@ == final(buffer)@,
{
    let encoded_key = key.to_bytes();
    buffer.extend_from_slice(prefix);
    buffer.extend_from_slice(encoded_key.as_slice());
    bytes_to_vec(buffer.as_slice())
}

/// A cache slot together with its memoized physical key.
struct EntryAndKey<V> {
    lookup_key: Vec<u8>,
    entry: CacheEntry<V>,
}

/// Physical key `pk` is not the memoized key of any modified slot among the
/// first `upto` cache entries.
spec fn avoids_modified<K: Storable, V: Storable>(
    s: Seq<(K, EntryAndKey<V>)>,
    upto: int,
    pk: Seq<u8>,
) -> bool {
    forall|m: int|
        0 <= m < upto && (#[trigger] s[m]).1.entry.state is Modified ==> pk != s[m].1.lookup_key@
}

/// A persistent key -> value map over the store.  All operations are
/// cached; `flush` writes the staged mutations back.  There is no implicit
/// flush on teardown — the store is an explicit parameter, out of any
/// destructor's reach — so staged mutations are lost unless `flush` is
/// called before the session ends.
pub struct LookupMap<K: Storable, V: Storable> {
    prefix: Vec<u8>,
    cache: StableMap<K, EntryAndKey<V>>,
}

impl<K: Storable, V: Storable> LookupMap<K, V> {
    /// The byte prefix namespacing this map's physical keys.
    pub closed spec fn spec_prefix(&self) -> Seq<u8> {
        self.prefix@
    }

    /// The cache, as a map from logical key to slot.
    pub closed spec fn cache(&self) -> Map<K, CacheEntry<V>> {
        Map::new(
            |k: K| map_of(self.cache@).contains_key(k),
            |k: K| map_of(self.cache@)[k].entry,
        )
    }

    /// Each key has at most one slot, and each slot's memoized physical key
    /// is the one computed from the prefix and the key's encoding.
    pub closed spec fn wf(&self) -> bool {
        &&& distinct_keys(self.cache@)
        &&& forall|m: int|
            0 <= m < self.cache@.len() ==> (#[trigger] self.cache@[m]).1.lookup_key@
                == spec_map_key(self.prefix@, self.cache@[m].0)
    }

    /// The physical key of `k`.
    pub open spec fn spec_lookup_key(&self, k: K) -> Seq<u8> {
        spec_map_key(self.spec_prefix(), k)
    }

    /// The value this map holds at `k`: the cached value when a slot
    /// exists, the store's (decoded) value otherwise.
    pub open spec fn entry_view(&self, store: Map<Seq<u8>, Seq<u8>>, k: K) -> Option<V> {
        if self.cache().contains_key(k) {
            self.cache()[k].value
        } else {
            spec_stored::<V>(store, self.spec_lookup_key(k))
        }
    }

    /// Reading `k` cannot hit corrupt bytes: either the slot is already
    /// cached, or whatever the store holds under the physical key decodes.
    pub open spec fn can_load(&self, store: Map<Seq<u8>, Seq<u8>>, k: K) -> bool {
        self.cache().contains_key(k) || (store.contains_key(self.spec_lookup_key(k))
            ==> decodable::<V>(store[self.spec_lookup_key(k)]))
    }

    /// Whether a flush of the current cache writes or removes physical key
    /// `pk`.
    pub open spec fn flush_writes(&self, pk: Seq<u8>) -> bool {
        exists|k: K|
            self.cache().contains_key(k) && (#[trigger] self.cache()[k]).state is Modified && pk
                == self.spec_lookup_key(k)
    }

    /// A new map with an empty cache. Uses `prefix` as a unique prefix for
    /// keys.
    pub fn new(prefix: Vec<u8>) -> (r: Self)
        ensures
            r.spec_prefix() == prefix@,
            r.cache() == Map::<K, CacheEntry<V>>::empty(),
            r.wf(),
    {
        let r = LookupMap { prefix, cache: StableMap::new() };
        proof {
            assert(r.cache() =~= Map::<K, CacheEntry<V>>::empty());
        }
        r
    }

    /// The physical key that `key` gets under `prefix`, appended to
    /// `buffer`; exposed so that tests can predict the bytes a flush
    /// writes.
    pub fn to_key_test(prefix: &[u8], key: &K, buffer: &mut Vec<u8>) -> (r: Vec<u8>)
        ensures
            final(buffer)@ == old(buffer)@ + prefix@ + key.encoded(),
            r@ == final(buffer)@,
    {
        to_key(prefix, key, buffer)
    }

    /// The unique byte prefix used for key generation in this map.
    pub fn get_prefix(&self) -> (r: &Vec<u8>)
        ensures
            r@ == self.spec_prefix(),
    {
        &self.prefix
    }

    /// Stage an insert (`Some`) or a removal (`None`) for `key`.  Nothing
    /// touches the store until the next flush.
    pub fn set(&mut self, key: K, value: Option<V>)
        requires
            old(self).wf(),
        ensures
            final(self).wf(),
            final(self).spec_prefix() == old(self).spec_prefix(),
            final(self).cache() == old(self).cache().insert(
                key,
                (CacheEntry { value, state: EntryState::Modified }),
            ),
    {
        let ghost s0 = self.cache@;
        match self.cache.index_of(&key) {
            Some(i) => {
                let slot = self.cache.val_at_mut(i);
                proof {
                    lemma_map_of_update(s0, i as int, (key, *final(slot)));
                }
                let value_handle = slot.entry.value_mut();
                *value_handle = value;
                proof {
                    assert(final(self).cache() =~= old(self).cache().insert(
                        key,
                        (CacheEntry { value, state: EntryState::Modified }),
                    ));
                }
            },
            None => {
                proof {
                    lemma_map_of_no_key(s0, key);
                }
                let mut key_buf: Vec<u8> = Vec::new();
                let lookup_key = to_key(self.prefix.as_slice(), &key, &mut key_buf);
                self.cache.push(
                    key,
                    EntryAndKey { lookup_key, entry: CacheEntry::new_modified(value) },
                );
                proof {
                    lemma_map_of_push(s0, self.cache@.last());
                    assert forall|a: int, b: int|
                        0 <= a < b < self.cache@.len() implies self.cache@[a].0
                        != self.cache@[b].0 by {
                        if b < self.cache@.len() - 1 {
                        } else {
                            assert(s0[a].0 != key);
                        }
                    }
                    assert(final(self).cache() =~= old(self).cache().insert(
                        key,
                        (CacheEntry { value, state: EntryState::Modified }),
                    ));
                }
            },
        }
    }

    /// Make sure a slot for `k` exists in the cache, reading the store
    /// through on first access, and return its position.
    fn ensure_loaded(&mut self, store: &mut Storage, k: &K) -> (i: usize)
        requires
            old(self).wf(),
            old(store).wf(),
            old(self).can_load(old(store)@, *k),
        ensures
            final(self).wf(),
            final(store).wf(),
            final(self).spec_prefix() == old(self).spec_prefix(),
            final(store)@ == old(store)@,
            final(store).spec_writes() == old(store).spec_writes(),
            final(store).spec_removes() == old(store).spec_removes(),
            i < final(self).cache@.len(),
            final(self).cache@[i as int].0 == *k,
            final(self).cache().contains_key(*k),
            final(self).cache()[*k] == final(self).cache@[i as int].1.entry,
            final(self).cache()[*k].value == old(self).entry_view(old(store)@, *k),
            old(self).cache().contains_key(*k) ==> *final(self) == *old(self) && *final(store)
                == *old(store),
            !old(self).cache().contains_key(*k) ==> final(self).cache@ == old(self).cache@.push(
                final(self).cache@.last(),
            ) && final(self).cache() == old(self).cache().insert(
                *k,
                (CacheEntry {
                    value: spec_stored::<V>(old(store)@, old(self).spec_lookup_key(*k)),
                    state: EntryState::Cached,
                }),
            ) && final(store).spec_reads() == next_count(old(store).spec_reads()),
    {
        let ghost s0 = self.cache@;
        match self.cache.index_of(k) {
            Some(i) => {
                proof {
                    lemma_map_of_index(s0, i as int);
                }
                i
            },
            None => {
                proof {
                    lemma_map_of_no_key(s0, *k);
                }
                let mut key_buf: Vec<u8> = Vec::new();
                let lookup_key = to_key(self.prefix.as_slice(), k, &mut key_buf);
                let loaded: Option<V> = match store.read(lookup_key.as_slice()) {
                    Some(bytes) => {
                        match V::from_bytes(bytes.as_slice()) {
                            Some(v) => {
                                proof {
                                    let chosen = super::decoded::<V>(old(store)@[lookup_key@]);
                                    v.lemma_encoded_injective(&chosen);
                                }
                                Some(v)
                            },
                            None => {
                                // The precondition rules corrupt bytes out.
                                proof {
                                    assert(decodable::<V>(old(store)@[lookup_key@]));
                                    assert(false);
                                }
                                vstd::pervasive::unreached()
                            },
                        }
                    },
                    None => None,
                };
                let owned_key = k.clone_val();
                self.cache.push(
                    owned_key,
                    EntryAndKey { lookup_key, entry: CacheEntry::new_cached(loaded) },
                );
                proof {
                    lemma_map_of_push(s0, self.cache@.last());
                    assert forall|a: int, b: int|
                        0 <= a < b < self.cache@.len() implies self.cache@[a].0
                        != self.cache@[b].0 by {
                        if b < self.cache@.len() - 1 {
                        } else {
                            assert(s0[a].0 != *k);
                        }
                    }
                    assert(final(self).cache() =~= old(self).cache().insert(
                        *k,
                        (CacheEntry {
                            value: spec_stored::<V>(old(store)@, old(self).spec_lookup_key(*k)),
                            state: EntryState::Cached,
                        }),
                    ));
                }
                self.cache.len() - 1
            },
        }
    }

    /// The value for key `k`, reading the store through on first access and
    /// serving from the cache thereafter; `None` when the map does not hold
    /// the key.
    pub fn get(&mut self, store: &mut Storage, k: &K) -> (r: Option<V>)
        requires
            old(self).wf(),
            old(store).wf(),
            old(self).can_load(old(store)@, *k),
        ensures
            final(self).wf(),
            final(store).wf(),
            final(self).spec_prefix() == old(self).spec_prefix(),
            final(store)@ == old(store)@,
            final(store).spec_writes() == old(store).spec_writes(),
            final(store).spec_removes() == old(store).spec_removes(),
            r == old(self).entry_view(old(store)@, *k),
            old(self).cache().contains_key(*k) ==> *final(self) == *old(self) && *final(store)
                == *old(store),
            !old(self).cache().contains_key(*k) ==> final(self).cache() == old(
                self,
            ).cache().insert(
                *k,
                (CacheEntry { value: r, state: EntryState::Cached }),
            ) && final(store).spec_reads() == next_count(old(store).spec_reads()),
            forall|q: K|
                final(self).entry_view(final(store)@, q) == old(self).entry_view(old(store)@, q),
            forall|q: K|
                old(self).can_load(old(store)@, q) ==> final(self).can_load(final(store)@, q),
    {
        let i = self.ensure_loaded(store, k);
        let slot = self.cache.val_at(i);
        let r = match slot.entry.value() {
            Some(v) => Some(v.clone_val()),
            None => None,
        };
        proof {
            assert forall|q: K|
                self.entry_view(store@, q) == old(self).entry_view(old(store)@, q) by {
                if q != *k {
                    assert(self.cache().contains_key(q) == old(self).cache().contains_key(q));
                }
            }
        }
        r
    }

    /// A mutable handle to the value for `k`, after the same lazy
    /// read-through as [`Self::get`]; `None` when the map does not hold the
    /// key.  Taking the handle marks the slot `Modified`; a miss leaves the
    /// freshly loaded slot clean.
    pub fn get_mut(&mut self, store: &mut Storage, k: &K) -> (r: Option<&mut V>)
        requires
            old(self).wf(),
            old(store).wf(),
            old(self).can_load(old(store)@, *k),
        ensures
            final(self).wf(),
            final(store).wf(),
            final(self).spec_prefix() == old(self).spec_prefix(),
            final(store)@ == old(store)@,
            final(store).spec_writes() == old(store).spec_writes(),
            final(store).spec_removes() == old(store).spec_removes(),
            (r is Some) == (old(self).entry_view(old(store)@, *k) is Some),
            (r matches Some(p) ==> Some(*p) == old(self).entry_view(old(store)@, *k)),
            final(self).cache().contains_key(*k),
            (r matches Some(p) ==> final(self).cache()[*k] == (CacheEntry {
                value: Some(*final(p)),
                state: EntryState::Modified,
            })),
            (r is None ==> final(self).cache()[*k].value is None),
            (r is None ==> final(self).entry_view(final(store)@, *k) is None),
            (r is None && !old(self).cache().contains_key(*k) ==> final(self).cache()[*k].state
                is Cached),
            (r is None && old(self).cache().contains_key(*k) ==> final(self).cache()[*k] == old(
                self,
            ).cache()[*k]),
            forall|q: K|
                #![trigger final(self).cache().contains_key(q)]
                #![trigger old(self).cache().contains_key(q)]
                q != *k ==> final(self).cache().contains_key(q) == old(self).cache().contains_key(
                    q,
                ) && (old(self).cache().contains_key(q) ==> final(self).cache()[q] == old(
                    self,
                ).cache()[q]),
    {
        let i = self.ensure_loaded(store, k);
        let ghost s_mid = self.cache@;
        let ghost cache_mid = self.cache();
        proof {
            assert forall|q: K|
                #![trigger map_of(s_mid).contains_key(q)]
                map_of(s_mid).contains_key(q) == cache_mid.contains_key(q) && (map_of(
                    s_mid,
                ).contains_key(q) ==> map_of(s_mid)[q].entry == cache_mid[q]) by {}
        }
        let has_value = self.cache.val_at(i).entry.value().is_some();
        if has_value {
            let slot = self.cache.val_at_mut(i);
            proof {
                lemma_map_of_update(s_mid, i as int, (*k, *final(slot)));
            }
            let value_handle = slot.entry.value_mut();
            match value_handle {
                Some(p) => Some(p),
                None => {
                    proof {
                        assert(false);
                    }
                    vstd::pervasive::unreached()
                },
            }
        } else {
            None
        }
    }

    /// Insert a key-value pair; the previous value for the key is returned,
    /// `None` when the map did not hold it.
    pub fn insert(&mut self, store: &mut Storage, k: K, v: V) -> (r: Option<V>)
        requires
            old(self).wf(),
            old(store).wf(),
            old(self).can_load(old(store)@, k),
        ensures
            final(self).wf(),
            final(store).wf(),
            final(self).spec_prefix() == old(self).spec_prefix(),
            final(store)@ == old(store)@,
            final(store).spec_writes() == old(store).spec_writes(),
            final(store).spec_removes() == old(store).spec_removes(),
            r == old(self).entry_view(old(store)@, k),
            final(self).cache().contains_key(k),
            final(self).cache()[k] == (CacheEntry { value: Some(v), state: EntryState::Modified }),
            final(self).entry_view(final(store)@, k) == Some(v),
            forall|q: K|
                #![trigger final(self).cache().contains_key(q)]
                #![trigger old(self).cache().contains_key(q)]
                q != k ==> final(self).cache().contains_key(q) == old(self).cache().contains_key(
                    q,
                ) && (old(self).cache().contains_key(q) ==> final(self).cache()[q] == old(
                    self,
                ).cache()[q]),
            forall|q: K|
                q != k ==> #[trigger] final(self).entry_view(final(store)@, q) == old(
                    self,
                ).entry_view(old(store)@, q),
    {
        let i = self.ensure_loaded(store, &k);
        let ghost s_mid = self.cache@;
        let ghost cache_mid = self.cache();
        proof {
            assert forall|q: K|
                #![trigger map_of(s_mid).contains_key(q)]
                map_of(s_mid).contains_key(q) == cache_mid.contains_key(q) && (map_of(
                    s_mid,
                ).contains_key(q) ==> map_of(s_mid)[q].entry == cache_mid[q]) by {}
        }
        let slot = self.cache.val_at_mut(i);
        proof {
            lemma_map_of_update(s_mid, i as int, (k, *final(slot)));
        }
        let old_value = slot.entry.replace(Some(v));
        old_value
    }

    /// Remove a key; the value it held is returned, `None` when the map did
    /// not hold it.  Removing an absent key leaves the slot clean, so it
    /// costs no store write at flush time.
    pub fn remove(&mut self, store: &mut Storage, k: K) -> (r: Option<V>)
        requires
            old(self).wf(),
            old(store).wf(),
            old(self).can_load(old(store)@, k),
        ensures
            final(self).wf(),
            final(store).wf(),
            final(self).spec_prefix() == old(self).spec_prefix(),
            final(store)@ == old(store)@,
            final(store).spec_writes() == old(store).spec_writes(),
            final(store).spec_removes() == old(store).spec_removes(),
            r == old(self).entry_view(old(store)@, k),
            final(self).cache().contains_key(k),
            final(self).cache()[k].value is None,
            final(self).entry_view(final(store)@, k) is None,
            (r is Some ==> final(self).cache()[k].state is Modified),
            (r is None && !old(self).cache().contains_key(k) ==> final(self).cache()[k].state
                is Cached),
            (r is None && old(self).cache().contains_key(k) ==> final(self).cache()[k].state
                == old(self).cache()[k].state),
            forall|q: K|
                #![trigger final(self).cache().contains_key(q)]
                #![trigger old(self).cache().contains_key(q)]
                q != k ==> final(self).cache().contains_key(q) == old(self).cache().contains_key(
                    q,
                ) && (old(self).cache().contains_key(q) ==> final(self).cache()[q] == old(
                    self,
                ).cache()[q]),
            forall|q: K|
                q != k ==> #[trigger] final(self).entry_view(final(store)@, q) == old(
                    self,
                ).entry_view(old(store)@, q),
    {
        let i = self.ensure_loaded(store, &k);
        let ghost s_mid = self.cache@;
        let ghost cache_mid = self.cache();
        proof {
            assert forall|q: K|
                #![trigger map_of(s_mid).contains_key(q)]
                map_of(s_mid).contains_key(q) == cache_mid.contains_key(q) && (map_of(
                    s_mid,
                ).contains_key(q) ==> map_of(s_mid)[q].entry == cache_mid[q]) by {}
        }
        let slot = self.cache.val_at_mut(i);
        proof {
            lemma_map_of_update(s_mid, i as int, (k, *final(slot)));
        }
        let old_value = slot.entry.replace(None);
        old_value
    }

    /// Whether the map holds a value for `k`; loads the slot like
    /// [`Self::get`].
    pub fn contains_key(&mut self, store: &mut Storage, k: &K) -> (r: bool)
        requires
            old(self).wf(),
            old(store).wf(),
            old(self).can_load(old(store)@, *k),
        ensures
            final(self).wf(),
            final(store).wf(),
            final(self).spec_prefix() == old(self).spec_prefix(),
            final(store)@ == old(store)@,
            final(store).spec_writes() == old(store).spec_writes(),
            final(store).spec_removes() == old(store).spec_removes(),
            r == (old(self).entry_view(old(store)@, *k) is Some),
            old(self).cache().contains_key(*k) ==> *final(self) == *old(self) && *final(store)
                == *old(store),
            !old(self).cache().contains_key(*k) ==> final(self).cache() == old(
                self,
            ).cache().insert(
                *k,
                (CacheEntry {
                    value: spec_stored::<V>(old(store)@, old(self).spec_lookup_key(*k)),
                    state: EntryState::Cached,
                }),
            ) && final(store).spec_reads() == next_count(old(store).spec_reads()),
            forall|q: K|
                final(self).entry_view(final(store)@, q) == old(self).entry_view(old(store)@, q),
            forall|q: K|
                old(self).can_load(old(store)@, q) ==> final(self).can_load(final(store)@, q),
    {
        let r = self.get(store, k);
        r.is_some()
    }

    /// Write every modified slot's state to the store — the serialized
    /// value under the memoized physical key, or a remove for a staged
    /// tombstone — then demote the slot to `Cached`.  A flush with nothing
    /// modified issues no store operation at all.
    ///
    /// Slots are visited in insertion order: deterministic, but not the
    /// ascending key order a key-sorted cache would walk.  The contract
    /// fixes only the final store state, which is the same under either
    /// order, since distinct keys have distinct physical keys.
    pub fn flush(&mut self, store: &mut Storage)
        requires
            old(self).wf(),
            old(store).wf(),
        ensures
            final(self).wf(),
            final(store).wf(),
            final(self).spec_prefix() == old(self).spec_prefix(),
            forall|q: K|
                final(self).cache().contains_key(q) == old(self).cache().contains_key(q),
            forall|q: K|
                old(self).cache().contains_key(q) ==> (#[trigger] final(self).cache()[q]).value
                    == old(self).cache()[q].value && final(self).cache()[q].state is Cached,
            forall|q: K|
                old(self).cache().contains_key(q) && (#[trigger] old(self).cache()[q]).state
                    is Modified ==> (match old(self).cache()[q].value {
                    Some(v) => final(store)@.contains_key(old(self).spec_lookup_key(q))
                        && final(store)@[old(self).spec_lookup_key(q)] == v.encoded(),
                    None => !final(store)@.contains_key(old(self).spec_lookup_key(q)),
                }),
            forall|pk: Seq<u8>|
                !old(self).flush_writes(pk) ==> #[trigger] final(store)@.contains_key(pk) == old(
                    store,
                )@.contains_key(pk) && (old(store)@.contains_key(pk) ==> final(store)@[pk] == old(
                    store,
                )@[pk]),
            final(store).spec_reads() == old(store).spec_reads(),
            (forall|q: K|
                old(self).cache().contains_key(q) ==> (#[trigger] old(self).cache()[q]).state
                    is Cached) ==> *final(store) == *old(store),
            forall|q: K|
                final(self).entry_view(final(store)@, q) == old(self).entry_view(old(store)@, q),
            forall|q: K|
                old(self).can_load(old(store)@, q) ==> final(self).can_load(final(store)@, q),
    {
        let ghost s0 = self.cache@;
        let ghost st0 = *store;
        let ghost prefix = self.spec_prefix();
        let n: usize = self.cache.len();
        let mut idx: usize = 0;
        while idx < n
            invariant
                old(self).wf(),
                distinct_keys(s0),
                s0 == old(self).cache@,
                st0 == *old(store),
                prefix == old(self).spec_prefix(),
                forall|m: int|
                    0 <= m < n ==> (#[trigger] s0[m]).1.lookup_key@ == spec_map_key(
                        prefix,
                        s0[m].0,
                    ),
                0 <= idx <= n,
                n == s0.len(),
                self.cache@.len() == n,
                self.spec_prefix() == prefix,
                store.wf(),
                forall|m: int| 0 <= m < n ==> (#[trigger] self.cache@[m]).0 == s0[m].0,
                forall|m: int|
                    0 <= m < n ==> (#[trigger] self.cache@[m]).1.lookup_key@
                        == s0[m].1.lookup_key@,
                forall|m: int| idx <= m < n ==> self.cache@[m] == s0[m],
                forall|m: int|
                    0 <= m < idx ==> (#[trigger] self.cache@[m]).1.entry.value
                        == s0[m].1.entry.value && self.cache@[m].1.entry.state is Cached,
                forall|m: int|
                    0 <= m < idx && (#[trigger] s0[m]).1.entry.state is Modified ==> (
                    match s0[m].1.entry.value {
                        Some(v) => store@.contains_key(s0[m].1.lookup_key@)
                            && store@[s0[m].1.lookup_key@] == v.encoded(),
                        None => !store@.contains_key(s0[m].1.lookup_key@),
                    }),
                forall|pk: Seq<u8>|
                    #[trigger] avoids_modified(s0, idx as int, pk) ==> store@.contains_key(pk)
                        == st0@.contains_key(pk) && (st0@.contains_key(pk) ==> store@[pk]
                        == st0@[pk]),
                store.spec_reads() == st0.spec_reads(),
                (forall|m: int| 0 <= m < idx ==> (#[trigger] s0[m]).1.entry.state is Cached)
                    ==> *store == st0,
            decreases n - idx,
        {
            let ghost store_before = *store;
            let slot = self.cache.val_at_mut(idx);
            if slot.entry.is_modified() {
                match slot.entry.value() {
                    Some(v) => {
                        let bytes = v.to_bytes();
                        let _ = store.write(slot.lookup_key.as_slice(), bytes.as_slice());
                    },
                    None => {
                        let _ = store.remove(slot.lookup_key.as_slice());
                    },
                }
                let _ = slot.entry.replace_state(EntryState::Cached);
            }
            proof {
                assert forall|m: int|
                    0 <= m < idx && (#[trigger] s0[m]).1.entry.state is Modified implies (
                match s0[m].1.entry.value {
                    Some(v) => store@.contains_key(s0[m].1.lookup_key@)
                        && store@[s0[m].1.lookup_key@] == v.encoded(),
                    None => !store@.contains_key(s0[m].1.lookup_key@),
                }) by {
                    assert(s0[m].0 != s0[idx as int].0);
                    lemma_map_key_injective(prefix, s0[m].0, s0[idx as int].0);
                }
                assert forall|pk: Seq<u8>|
                    #[trigger] avoids_modified(s0, idx + 1, pk) implies store@.contains_key(pk)
                    == st0@.contains_key(pk) && (st0@.contains_key(pk) ==> store@[pk]
                    == st0@[pk]) by {
                    assert(avoids_modified(s0, idx as int, pk)) by {
                        assert forall|m: int|
                            0 <= m < idx && (#[trigger] s0[m]).1.entry.state is Modified implies pk
                            != s0[m].1.lookup_key@ by {
                            assert(0 <= m < idx + 1);
                        }
                    }
                    if s0[idx as int].1.entry.state is Modified {
                        assert(pk != s0[idx as int].1.lookup_key@);
                    }
                    assert(store_before@.contains_key(pk) == st0@.contains_key(pk) && (
                    st0@.contains_key(pk) ==> store_before@[pk] == st0@[pk]));
                }
            }
            idx = idx + 1;
        }
        proof {
            assert forall|q: K|
                self.cache().contains_key(q) == old(self).cache().contains_key(q) by {
                if old(self).cache().contains_key(q) {
                    lemma_map_of_complete(s0, q);
                    let m = choose|m: int| 0 <= m < s0.len() && s0[m].0 == q;
                    lemma_map_of_index(self.cache@, m);
                }
                if self.cache().contains_key(q) {
                    lemma_map_of_complete(self.cache@, q);
                    let m = choose|m: int| 0 <= m < self.cache@.len() && self.cache@[m].0 == q;
                    lemma_map_of_index(s0, m);
                }
            }
            assert forall|q: K| old(self).cache().contains_key(q) implies
                (#[trigger] self.cache()[q]).value == old(self).cache()[q].value
                && self.cache()[q].state is Cached by {
                lemma_map_of_complete(s0, q);
                let m = choose|m: int| 0 <= m < s0.len() && s0[m].0 == q;
                lemma_map_of_index(s0, m);
                lemma_map_of_index(self.cache@, m);
            }
            assert forall|q: K|
                old(self).cache().contains_key(q) && (#[trigger] old(self).cache()[q]).state
                    is Modified implies (match old(self).cache()[q].value {
                Some(v) => store@.contains_key(old(self).spec_lookup_key(q))
                    && store@[old(self).spec_lookup_key(q)] == v.encoded(),
                None => !store@.contains_key(old(self).spec_lookup_key(q)),
            }) by {
                lemma_map_of_complete(s0, q);
                let m = choose|m: int| 0 <= m < s0.len() && s0[m].0 == q;
                lemma_map_of_index(s0, m);
            }
            assert forall|pk: Seq<u8>|
                !old(self).flush_writes(pk) implies #[trigger] store@.contains_key(pk)
                == st0@.contains_key(pk) && (st0@.contains_key(pk) ==> store@[pk] == st0@[pk]) by {
                assert(avoids_modified(s0, n as int, pk)) by {
                    assert forall|m: int|
                        0 <= m < n && (#[trigger] s0[m]).1.entry.state is Modified implies pk
                        != s0[m].1.lookup_key@ by {
                        lemma_map_of_index(s0, m);
                        assert(old(self).cache().contains_key(s0[m].0));
                        assert(old(self).cache()[s0[m].0] == map_of(s0)[s0[m].0].entry);
                        if pk == s0[m].1.lookup_key@ {
                            assert(pk == old(self).spec_lookup_key(s0[m].0));
                            assert(old(self).flush_writes(pk));
                        }
                    }
                }
            }
            if forall|q: K|
                old(self).cache().contains_key(q) ==> (#[trigger] old(self).cache()[q]).state
                    is Cached {
                assert forall|m: int|
                    0 <= m < n implies (#[trigger] s0[m]).1.entry.state is Cached by {
                    lemma_map_of_index(s0, m);
                    assert(old(self).cache().contains_key(s0[m].0));
                    assert(old(self).cache()[s0[m].0] == map_of(s0)[s0[m].0].entry);
                }
            }
            assert forall|q: K|
                self.entry_view(store@, q) == old(self).entry_view(old(store)@, q) by {
                if !old(self).cache().contains_key(q) {
                    lemma_no_flush_write_at(*old(self), q);
                }
            }
            assert forall|q: K|
                old(self).can_load(old(store)@, q) implies self.can_load(store@, q) by {
                if !old(self).cache().contains_key(q) {
                    lemma_no_flush_write_at(*old(self), q);
                }
            }
        }
    }
}

/// A key the cache does not hold is not written by a flush: its physical
/// key differs from every cached key's.
proof fn lemma_no_flush_write_at<K: Storable, V: Storable>(m: LookupMap<K, V>, q: K)
    requires
        !m.cache().contains_key(q),
    ensures
        !m.flush_writes(m.spec_lookup_key(q)),
{
    if m.flush_writes(m.spec_lookup_key(q)) {
        let q2 = choose|q2: K|
            m.cache().contains_key(q2) && (#[trigger] m.cache()[q2]).state is Modified
                && m.spec_lookup_key(q) == m.spec_lookup_key(q2);
        if q2 != q {
            lemma_map_key_injective(m.spec_prefix(), q, q2);
        }
    }
}


/// Law: after `insert(k, v)` and a `flush`, a fresh map over the same store
/// and prefix yields a value equal to `v` for `k`.
pub fn round_trip_law<K: Storable, V: Storable>(
    prefix: Vec<u8>,
    store: &mut Storage,
    k: K,
    v: V,
) -> (r: Option<V>)
    requires
        old(store).wf(),
        old(store)@.contains_key(spec_map_key(prefix@, k)) ==> decodable::<V>(
            old(store)@[spec_map_key(prefix@, k)],
        ),
    ensures
        r == Some(v),
{
    let prefix_copy = bytes_to_vec(prefix.as_slice());
    let mut staged: LookupMap<K, V> = LookupMap::new(prefix);
    let _ = staged.insert(store, k.clone_val(), v.clone_val());
    staged.flush(store);
    proof {
        assert(store@.contains_key(spec_map_key(prefix_copy@, k)));
        assert(store@[spec_map_key(prefix_copy@, k)] == v.encoded());
    }
    let mut reloaded: LookupMap<K, V> = LookupMap::new(prefix_copy);
    let r = reloaded.get(store, &k);
    proof {
        let d = super::decoded::<V>(v.encoded());
        v.lemma_encoded_injective(&d);
    }
    r
}

/// Law: two consecutive flushes with no intervening mutation issue no
/// additional store traffic: after the first flush the second leaves the
/// store untouched, operation counters included.  The result carries the
/// write and remove counters after the first flush and after the second;
/// the pairs are equal.
pub fn flush_twice_law<K: Storable, V: Storable>(
    m: &mut LookupMap<K, V>,
    store: &mut Storage,
) -> (r: (u64, u64, u64, u64))
    requires
        old(m).wf(),
        old(store).wf(),
    ensures
        r.0 == r.2,
        r.1 == r.3,
{
    m.flush(store);
    let writes_after_first = store.writes();
    let removes_after_first = store.removes();
    m.flush(store);
    let writes_after_second = store.writes();
    let removes_after_second = store.removes();
    (writes_after_first, removes_after_first, writes_after_second, removes_after_second)
}

/// Law: `insert(k, v)`, `remove(k)`, `flush` leaves no physical key for
/// `k` in the store, and a fresh map over the same store and prefix
/// reports absence for `k`.
pub fn tombstone_law<K: Storable, V: Storable>(
    prefix: Vec<u8>,
    store: &mut Storage,
    k: K,
    v: V,
) -> (r: Option<V>)
    requires
        old(store).wf(),
        old(store)@.contains_key(spec_map_key(prefix@, k)) ==> decodable::<V>(
            old(store)@[spec_map_key(prefix@, k)],
        ),
    ensures
        r is None,
        !final(store)@.contains_key(spec_map_key(prefix@, k)),
{
    let prefix_copy = bytes_to_vec(prefix.as_slice());
    let mut staged: LookupMap<K, V> = LookupMap::new(prefix);
    let _ = staged.insert(store, k.clone_val(), v);
    let _ = staged.remove(store, k.clone_val());
    staged.flush(store);
    let mut reloaded: LookupMap<K, V> = LookupMap::new(prefix_copy);
    reloaded.get(store, &k)
}

/// Law: a `set(k, Some(v))` followed immediately by `get(k)` yields `v`
/// without any store operation at all: the staged value is served from the
/// cache.
pub fn set_then_get_law<K: Storable, V: Storable>(
    m: &mut LookupMap<K, V>,
    store: &mut Storage,
    k: K,
    v: V,
) -> (r: Option<V>)
    requires
        old(m).wf(),
        old(store).wf(),
    ensures
        r == Some(v),
        *final(store) == *old(store),
{
    m.set(k.clone_val(), Some(v));
    m.get(store, &k)
}

} // verus!
