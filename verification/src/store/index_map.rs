//! A numerically-indexed persistent segment: index -> value, layered over
//! the store.  Each index is read through to the store at most once per
//! session; mutations are staged in the cache and written back by `flush`.

use vstd::prelude::*;

verus! {

use vstd::bytes::{spec_u32_to_le_bytes, u32_to_le_bytes, lemma_auto_spec_u32_to_from_le_bytes};
use crate::codec::Storable;
use crate::storage::{Storage, bytes_to_vec, next_count};
use crate::utils::{CacheEntry, EntryState, StableMap};
use crate::utils::stable_map::{map_of, distinct_keys, lemma_map_of_index, lemma_map_of_complete,
    lemma_map_of_no_key, lemma_map_of_push, lemma_map_of_update};
use super::{decodable, spec_stored, lemma_append_cancel};

/// The physical key of an index: the segment's prefix followed by the
/// index's 4 little-endian bytes.
pub open spec fn spec_index_key(prefix: Seq<u8>, index: u32) -> Seq<u8> {
    prefix + spec_u32_to_le_bytes(index)
}

/// Distinct indices have distinct physical keys under one prefix.
pub proof fn lemma_index_key_injective(prefix: Seq<u8>, i: u32, j: u32)
    requires
        i != j,
    ensures
        spec_index_key(prefix, i) != spec_index_key(prefix, j),
{
    lemma_auto_spec_u32_to_from_le_bytes();
    if spec_index_key(prefix, i) == spec_index_key(prefix, j) {
        lemma_append_cancel(prefix, spec_u32_to_le_bytes(i), spec_u32_to_le_bytes(j));
        assert(spec_u32_to_le_bytes(i).len() == 4);
        assert(spec_u32_to_le_bytes(j).len() == 4);
        assert(spec_u32_from_le_bytes_of(i) == i);
        assert(spec_u32_from_le_bytes_of(j) == j);
    }
}

/// The index read back from its own little-endian bytes.
spec fn spec_u32_from_le_bytes_of(i: u32) -> u32 {
    vstd::bytes::spec_u32_from_le_bytes(spec_u32_to_le_bytes(i))
}

fn index_to_lookup_key(prefix: &Vec<u8>, index: u32) -> (r: Vec<u8>)
    ensures
        r@ == spec_index_key(prefix@, index),
{
    let mut key = bytes_to_vec(prefix.as_slice());
    let tail = u32_to_le_bytes(index);
    key.extend_from_slice(tail.as_slice());
    key
}

/// Physical key `pk` is not the key of any modified slot among the first
/// `upto` cache entries.
spec fn avoids_modified<T: Storable>(
    s: Seq<(u32, CacheEntry<T>)>,
    prefix: Seq<u8>,
    upto: int,
    pk: Seq<u8>,
) -> bool {
    forall|m: int|
        0 <= m < upto && (#[trigger] s[m]).1.state is Modified ==> pk != spec_index_key(
            prefix,
            s[m].0,
        )
}

/// An index -> value segment persisted under a byte prefix, with a lazy,
/// dirty-tracking cache in front of the store.
pub struct IndexMap<T: Storable> {
    prefix: Vec<u8>,
    cache: StableMap<u32, CacheEntry<T>>,
}

impl<T: Storable> IndexMap<T> {
    /// The byte prefix namespacing this segment's physical keys.
    pub closed spec fn spec_prefix(&self) -> Seq<u8> {
        self.prefix@
    }

    /// The cache, as the sequence of slots in insertion order.
    pub closed spec fn cache_entries(&self) -> Seq<(u32, CacheEntry<T>)> {
        self.cache@
    }

    /// The cache, as a map from index to slot.
    pub open spec fn cache(&self) -> Map<u32, CacheEntry<T>> {
        map_of(self.cache_entries())
    }

    /// Each index has at most one slot.
    pub open spec fn wf(&self) -> bool {
        distinct_keys(self.cache_entries())
    }

    /// The physical key of `index`.
    pub open spec fn spec_lookup_key(&self, index: u32) -> Seq<u8> {
        spec_index_key(self.spec_prefix(), index)
    }

    /// The value this segment holds at `index`: the cached value when a slot
    /// exists, the store's (decoded) value otherwise.
    pub open spec fn entry_view(&self, store: Map<Seq<u8>, Seq<u8>>, index: u32) -> Option<T> {
        if self.cache().contains_key(index) {
            self.cache()[index].value
        } else {
            spec_stored::<T>(store, self.spec_lookup_key(index))
        }
    }

    /// Reading `index` cannot hit corrupt bytes: either the slot is already
    /// cached, or whatever the store holds under the physical key decodes.
    pub open spec fn can_load(&self, store: Map<Seq<u8>, Seq<u8>>, index: u32) -> bool {
        self.cache().contains_key(index) || (store.contains_key(self.spec_lookup_key(index))
            ==> decodable::<T>(store[self.spec_lookup_key(index)]))
    }

    /// Whether a flush of the current cache writes or removes physical key
    /// `pk`.
    pub open spec fn flush_writes(&self, pk: Seq<u8>) -> bool {
        exists|j: u32|
            self.cache().contains_key(j) && (#[trigger] self.cache()[j]).state is Modified && pk
                == self.spec_lookup_key(j)
    }

    /// A new segment with an empty cache. Uses `prefix` as a unique prefix
    /// for indices.
    pub fn new(prefix: Vec<u8>) -> (r: Self)
        ensures
            r.spec_prefix() == prefix@,
            r.cache_entries() == Seq::<(u32, CacheEntry<T>)>::empty(),
            r.cache() == Map::<u32, CacheEntry<T>>::empty(),
            r.wf(),
    {
        IndexMap { prefix, cache: StableMap::new() }
    }

    /// The byte prefix this segment was created with.
    pub fn prefix_bytes(&self) -> (r: &Vec<u8>)
        ensures
            r@ == self.spec_prefix(),
    {
        &self.prefix
    }

    /// Make sure a slot for `index` exists in the cache, reading the store
    /// through on first access, and return its position.
    fn ensure_loaded(&mut self, store: &mut Storage, index: u32) -> (i: usize)
        requires
            old(self).wf(),
            old(store).wf(),
            old(self).can_load(old(store)@, index),
        ensures
            final(self).wf(),
            final(store).wf(),
            final(self).spec_prefix() == old(self).spec_prefix(),
            final(store)@ == old(store)@,
            final(store).spec_writes() == old(store).spec_writes(),
            final(store).spec_removes() == old(store).spec_removes(),
            i < final(self).cache_entries().len(),
            final(self).cache_entries()[i as int].0 == index,
            final(self).cache().contains_key(index),
            final(self).cache()[index] == final(self).cache_entries()[i as int].1,
            final(self).cache()[index].value == old(self).entry_view(old(store)@, index),
            old(self).cache().contains_key(index) ==> final(self).cache_entries() == old(self).cache_entries() && *final(store) == *old(store),
            !old(self).cache().contains_key(index) ==> final(self).cache_entries() == old(self).cache_entries().push(
                (
                    index,
                    (CacheEntry {
                        value: spec_stored::<T>(old(store)@, old(self).spec_lookup_key(index)),
                        state: EntryState::Cached,
                    }),
                ),
            ) && final(store).spec_reads() == next_count(old(store).spec_reads()),
    {
        let ghost s0 = self.cache@;
        match self.cache.index_of(&index) {
            Some(i) => {
                proof {
                    lemma_map_of_index(self.cache@, i as int);
                }
                i
            },
            None => {
                proof {
                    lemma_map_of_no_key(self.cache@, index);
                }
                let key = index_to_lookup_key(&self.prefix, index);
                let loaded: Option<T> = match store.read(key.as_slice()) {
                    Some(bytes) => {
                        match T::from_bytes(bytes.as_slice()) {
                            Some(v) => {
                                proof {
                                    let chosen = super::decoded::<T>(old(store)@[key@]);
                                    v.lemma_encoded_injective(&chosen);
                                }
                                Some(v)
                            },
                            None => {
                                // The precondition rules corrupt bytes out.
                                proof {
                                    assert(decodable::<T>(old(store)@[key@]));
                                    assert(false);
                                }
                                vstd::pervasive::unreached()
                            },
                        }
                    },
                    None => None,
                };
                self.cache.push(index, CacheEntry::new_cached(loaded));
                proof {
                    lemma_map_of_push(
                        s0,
                        (index, (CacheEntry { value: loaded, state: EntryState::Cached })),
                    );
                    assert forall|a: int, b: int|
                        0 <= a < b < self.cache@.len() implies self.cache@[a].0
                        != self.cache@[b].0 by {
                        if b < self.cache@.len() - 1 {
                        } else {
                            assert(s0[a].0 != index);
                        }
                    }
                }
                self.cache.len() - 1
            },
        }
    }

    /// The value at `index`, reading the store through on first access and
    /// serving from the cache thereafter.  Absence of a physical key is
    /// logical absence.
    pub fn get(&mut self, store: &mut Storage, index: u32) -> (r: Option<T>)
        requires
            old(self).wf(),
            old(store).wf(),
            old(self).can_load(old(store)@, index),
        ensures
            final(self).wf(),
            final(store).wf(),
            final(self).spec_prefix() == old(self).spec_prefix(),
            final(store)@ == old(store)@,
            final(store).spec_writes() == old(store).spec_writes(),
            final(store).spec_removes() == old(store).spec_removes(),
            r == old(self).entry_view(old(store)@, index),
            old(self).cache().contains_key(index) ==> *final(store) == *old(store) && final(self).cache_entries() == old(self).cache_entries(),
            !old(self).cache().contains_key(index) ==> final(self).cache() == old(
                self,
            ).cache().insert(
                index,
                (CacheEntry { value: r, state: EntryState::Cached }),
            ) && final(store).spec_reads() == next_count(old(store).spec_reads()),
            forall|j: u32|
                final(self).entry_view(final(store)@, j) == old(self).entry_view(old(store)@, j),
            forall|j: u32|
                old(self).can_load(old(store)@, j) ==> final(self).can_load(final(store)@, j),
    {
        let i = self.ensure_loaded(store, index);
        let slot = self.cache.val_at(i);
        let r = match slot.value() {
            Some(v) => Some(v.clone_val()),
            None => None,
        };
        proof {
            if !old(self).cache().contains_key(index) {
                lemma_map_of_push(old(self).cache_entries(), self.cache_entries().last());
                assert(self.cache() =~= old(self).cache().insert(
                    index,
                    (CacheEntry { value: r, state: EntryState::Cached }),
                ));
            }
            assert forall|j: u32|
                self.entry_view(store@, j) == old(self).entry_view(old(store)@, j) by {
                if j != index {
                    assert(self.cache().contains_key(j) == old(self).cache().contains_key(j));
                }
            }
        }
        r
    }

    /// A mutable handle to the value at `index`, after the same lazy
    /// read-through as [`Self::get`].  Taking the handle marks the slot
    /// `Modified`, whether or not a value is present.
    pub fn get_mut(&mut self, store: &mut Storage, index: u32) -> (r: Option<&mut T>)
        requires
            old(self).wf(),
            old(store).wf(),
            old(self).can_load(old(store)@, index),
        ensures
            final(self).wf(),
            final(store).wf(),
            final(self).spec_prefix() == old(self).spec_prefix(),
            final(store)@ == old(store)@,
            final(store).spec_writes() == old(store).spec_writes(),
            final(store).spec_removes() == old(store).spec_removes(),
            (r is Some) == (old(self).entry_view(old(store)@, index) is Some),
            (r matches Some(p) ==> Some(*p) == old(self).entry_view(old(store)@, index)),
            final(self).cache().contains_key(index),
            final(self).cache()[index].state is Modified,
            (r matches Some(p) ==> final(self).cache()[index].value == Some(*final(p))),
            (r is None ==> final(self).cache()[index].value is None),
            forall|j: u32|
                #![trigger final(self).cache().contains_key(j)]
                #![trigger old(self).cache().contains_key(j)]
                j != index && old(self).cache().contains_key(j) ==> final(self).cache().contains_key(j) && final(self).cache()[j] == old(self).cache()[j],
            forall|j: u32|
                #![trigger final(self).cache().contains_key(j)]
                #![trigger old(self).cache().contains_key(j)]
                j != index && !old(self).cache().contains_key(j) ==> !final(self).cache().contains_key(j),
    {
        let i = self.ensure_loaded(store, index);
        let ghost s_mid = self.cache@;
        proof {
            if !old(self).cache().contains_key(index) {
                lemma_map_of_push(old(self).cache_entries(), s_mid.last());
            }
        }
        let slot = self.cache.val_at_mut(i);
        proof {
            lemma_map_of_update(s_mid, i as int, (index, *final(slot)));
        }
        let value_handle = slot.value_mut();
        match value_handle {
            Some(p) => Some(p),
            None => None,
        }
    }


    /// Write every modified slot's state to the store — the serialized
    /// value, or a remove for a staged tombstone — then demote the slot to
    /// `Cached`.  A flush with nothing modified issues no store operation
    /// at all.
    ///
    /// Slots are visited in insertion order: deterministic, but not the
    /// ascending index order a key-sorted cache would walk.  The contract
    /// fixes only the final store state, which is the same under either
    /// order, since distinct slots touch distinct physical keys.
    pub fn flush(&mut self, store: &mut Storage)
        requires
            old(self).wf(),
            old(store).wf(),
        ensures
            final(self).wf(),
            final(store).wf(),
            final(self).spec_prefix() == old(self).spec_prefix(),
            forall|j: u32|
                final(self).cache().contains_key(j) == old(self).cache().contains_key(j),
            forall|j: u32|
                old(self).cache().contains_key(j) ==> (#[trigger] final(self).cache()[j]).value
                    == old(self).cache()[j].value && final(self).cache()[j].state is Cached,
            forall|j: u32|
                old(self).cache().contains_key(j) && (#[trigger] old(self).cache()[j]).state
                    is Modified ==> (match old(self).cache()[j].value {
                    Some(v) => final(store)@.contains_key(old(self).spec_lookup_key(j))
                        && final(store)@[old(self).spec_lookup_key(j)] == v.encoded(),
                    None => !final(store)@.contains_key(old(self).spec_lookup_key(j)),
                }),
            forall|pk: Seq<u8>|
                !old(self).flush_writes(pk) ==> #[trigger] final(store)@.contains_key(pk) == old(
                    store,
                )@.contains_key(pk) && (old(store)@.contains_key(pk) ==> final(store)@[pk] == old(
                    store,
                )@[pk]),
            final(store).spec_reads() == old(store).spec_reads(),
            (forall|j: u32|
                old(self).cache().contains_key(j) ==> (#[trigger] old(self).cache()[j]).state
                    is Cached) ==> *final(store) == *old(store),
            forall|j: u32|
                final(self).entry_view(final(store)@, j) == old(self).entry_view(old(store)@, j),
            forall|j: u32|
                old(self).can_load(old(store)@, j) ==> final(self).can_load(final(store)@, j),
    {
        let ghost s0 = self.cache@;
        let ghost st0 = *store;
        let ghost prefix = self.spec_prefix();
        let n: usize = self.cache.len();
        let mut idx: usize = 0;
        while idx < n
            invariant
                old(self).wf(),
                distinct_keys(s0),
                s0 == old(self).cache_entries(),
                st0 == *old(store),
                prefix == old(self).spec_prefix(),
                0 <= idx <= n,
                n == s0.len(),
                self.cache@.len() == n,
                self.spec_prefix() == prefix,
                store.wf(),
                forall|m: int| 0 <= m < n ==> (#[trigger] self.cache@[m]).0 == s0[m].0,
                forall|m: int| idx <= m < n ==> self.cache@[m] == s0[m],
                forall|m: int|
                    0 <= m < idx ==> (#[trigger] self.cache@[m]).1.value == s0[m].1.value
                        && self.cache@[m].1.state is Cached,
                forall|m: int|
                    0 <= m < idx && (#[trigger] s0[m]).1.state is Modified ==> (
                    match s0[m].1.value {
                        Some(v) => store@.contains_key(spec_index_key(prefix, s0[m].0))
                            && store@[spec_index_key(prefix, s0[m].0)] == v.encoded(),
                        None => !store@.contains_key(spec_index_key(prefix, s0[m].0)),
                    }),
                forall|pk: Seq<u8>|
                    #[trigger] avoids_modified(s0, prefix, idx as int, pk)
                        ==> store@.contains_key(pk) == st0@.contains_key(pk) && (
                    st0@.contains_key(pk) ==> store@[pk] == st0@[pk]),
                store.spec_reads() == st0.spec_reads(),
                (forall|m: int| 0 <= m < idx ==> (#[trigger] s0[m]).1.state is Cached)
                    ==> *store == st0,
            decreases n - idx,
        {
            let k: u32 = *self.cache.key_at(idx);
            let key = index_to_lookup_key(&self.prefix, k);
            let ghost store_before = *store;
            let slot = self.cache.val_at_mut(idx);
            if slot.is_modified() {
                match slot.value() {
                    Some(v) => {
                        let bytes = v.to_bytes();
                        let _ = store.write(key.as_slice(), bytes.as_slice());
                    },
                    None => {
                        let _ = store.remove(key.as_slice());
                    },
                }
                let _ = slot.replace_state(EntryState::Cached);
            }
            proof {
                assert forall|m: int|
                    0 <= m < idx && (#[trigger] s0[m]).1.state is Modified implies (
                match s0[m].1.value {
                    Some(v) => store@.contains_key(spec_index_key(prefix, s0[m].0))
                        && store@[spec_index_key(prefix, s0[m].0)] == v.encoded(),
                    None => !store@.contains_key(spec_index_key(prefix, s0[m].0)),
                }) by {
                    assert(s0[m].0 != s0[idx as int].0);
                    lemma_index_key_injective(prefix, s0[m].0, s0[idx as int].0);
                }
                assert forall|pk: Seq<u8>|
                    avoids_modified(s0, prefix, idx + 1, pk) implies #[trigger] store@.contains_key(
                    pk,
                ) == st0@.contains_key(pk) && (st0@.contains_key(pk) ==> store@[pk]
                    == st0@[pk]) by {
                    assert(avoids_modified(s0, prefix, idx as int, pk)) by {
                        assert forall|m: int|
                            0 <= m < idx && (#[trigger] s0[m]).1.state is Modified implies pk
                            != spec_index_key(prefix, s0[m].0) by {
                            assert(0 <= m < idx + 1);
                        }
                    }
                    if s0[idx as int].1.state is Modified {
                        assert(pk != spec_index_key(prefix, s0[idx as int].0));
                    }
                    assert(store_before@.contains_key(pk) == st0@.contains_key(pk) && (
                    st0@.contains_key(pk) ==> store_before@[pk] == st0@[pk]));
                }
            }
            idx = idx + 1;
        }
        proof {
            assert forall|j: u32|
                self.cache().contains_key(j) == old(self).cache().contains_key(j) by {
                if old(self).cache().contains_key(j) {
                    lemma_map_of_complete(s0, j);
                    let m = choose|m: int| 0 <= m < s0.len() && s0[m].0 == j;
                    lemma_map_of_index(self.cache@, m);
                }
                if self.cache().contains_key(j) {
                    lemma_map_of_complete(self.cache@, j);
                    let m = choose|m: int| 0 <= m < self.cache@.len() && self.cache@[m].0 == j;
                    lemma_map_of_index(s0, m);
                }
            }
            assert forall|j: u32| old(self).cache().contains_key(j) implies
                (#[trigger] self.cache()[j]).value == old(self).cache()[j].value
                && self.cache()[j].state is Cached by {
                lemma_map_of_complete(s0, j);
                let m = choose|m: int| 0 <= m < s0.len() && s0[m].0 == j;
                lemma_map_of_index(s0, m);
                lemma_map_of_index(self.cache@, m);
            }
            assert forall|j: u32|
                old(self).cache().contains_key(j) && (#[trigger] old(self).cache()[j]).state
                    is Modified implies (match old(self).cache()[j].value {
                Some(v) => store@.contains_key(old(self).spec_lookup_key(j))
                    && store@[old(self).spec_lookup_key(j)] == v.encoded(),
                None => !store@.contains_key(old(self).spec_lookup_key(j)),
            }) by {
                lemma_map_of_complete(s0, j);
                let m = choose|m: int| 0 <= m < s0.len() && s0[m].0 == j;
                lemma_map_of_index(s0, m);
            }
            assert forall|pk: Seq<u8>|
                !old(self).flush_writes(pk) implies #[trigger] store@.contains_key(pk)
                == st0@.contains_key(pk) && (st0@.contains_key(pk) ==> store@[pk] == st0@[pk]) by {
                assert(avoids_modified(s0, prefix, n as int, pk)) by {
                    assert forall|m: int|
                        0 <= m < n && (#[trigger] s0[m]).1.state is Modified implies pk
                        != spec_index_key(prefix, s0[m].0) by {
                        lemma_map_of_index(s0, m);
                        if pk == spec_index_key(prefix, s0[m].0) {
                            assert(old(self).flush_writes(pk));
                        }
                    }
                }
            }
            if forall|j: u32|
                old(self).cache().contains_key(j) ==> (#[trigger] old(self).cache()[j]).state
                    is Cached {
                assert forall|m: int| 0 <= m < n implies (#[trigger] s0[m]).1.state is Cached by {
                    lemma_map_of_index(s0, m);
                }
            }
            assert forall|j: u32|
                self.entry_view(store@, j) == old(self).entry_view(old(store)@, j) by {
                if !old(self).cache().contains_key(j) {
                    assert(!old(self).flush_writes(spec_index_key(prefix, j))) by {
                        if old(self).flush_writes(spec_index_key(prefix, j)) {
                            let j2 = choose|j2: u32|
                                old(self).cache().contains_key(j2) && (#[trigger] old(
                                    self,
                                ).cache()[j2]).state is Modified && spec_index_key(prefix, j)
                                    == old(self).spec_lookup_key(j2);
                            if j2 != j {
                                lemma_index_key_injective(prefix, j, j2);
                            }
                        }
                    }
                }
            }
            assert forall|j: u32|
                old(self).can_load(old(store)@, j) implies self.can_load(store@, j) by {
                if !old(self).cache().contains_key(j) {
                    assert(!old(self).flush_writes(spec_index_key(prefix, j))) by {
                        if old(self).flush_writes(spec_index_key(prefix, j)) {
                            let j2 = choose|j2: u32|
                                old(self).cache().contains_key(j2) && (#[trigger] old(
                                    self,
                                ).cache()[j2]).state is Modified && spec_index_key(prefix, j)
                                    == old(self).spec_lookup_key(j2);
                            if j2 != j {
                                lemma_index_key_injective(prefix, j, j2);
                            }
                        }
                    }
                }
            }
        }
    }

    /// Stage a write (`Some`) or a tombstone (`None`) for `index`.  Nothing
    /// touches the store until the next flush.
    pub fn set(&mut self, index: u32, value: Option<T>)
        requires
            old(self).wf(),
        ensures
            final(self).wf(),
            final(self).spec_prefix() == old(self).spec_prefix(),
            final(self).cache() == old(self).cache().insert(
                index,
                (CacheEntry { value, state: EntryState::Modified }),
            ),
    {
        let ghost s0 = self.cache@;
        match self.cache.index_of(&index) {
            Some(i) => {
                let slot = self.cache.val_at_mut(i);
                let value_handle = slot.value_mut();
                *value_handle = value;
                proof {
                    lemma_map_of_update(
                        s0,
                        i as int,
                        (index, (CacheEntry { value, state: EntryState::Modified })),
                    );
                    assert(final(self).cache() =~= old(self).cache().insert(
                        index,
                        (CacheEntry { value, state: EntryState::Modified }),
                    ));
                }
            },
            None => {
                self.cache.push(index, CacheEntry::new_modified(value));
                proof {
                    lemma_map_of_push(s0, (index, (CacheEntry { value, state: EntryState::Modified })));
                    assert forall|a: int, b: int|
                        0 <= a < b < self.cache@.len() implies self.cache@[a].0 != self.cache@[b].0 by {
                        if b < self.cache@.len() - 1 {
                        } else {
                            assert(s0[a].0 != index);
                        }
                    }
                    assert(final(self).cache() =~= old(self).cache().insert(
                        index,
                        (CacheEntry { value, state: EntryState::Modified }),
                    ));
                }
            },
        }
    }
}

} // verus!
