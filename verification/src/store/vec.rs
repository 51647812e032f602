//! A growable, append-biased persistent vector: a persisted length plus an
//! indexed segment.  For every index below the length a value is present;
//! bytes left in the store at larger indices are never exposed.

use vstd::prelude::*;

verus! {

use vstd::bytes::{spec_u32_to_le_bytes, spec_u32_from_le_bytes, u32_to_le_bytes, u32_from_le_bytes};
use crate::codec::Storable;
use crate::storage::Storage;
use crate::utils::{CacheEntry, EntryState};
use super::{IndexMap, StoreError};

/// How a vector may differ from `v0` after a mutable handle to the slot at
/// `index` was taken and written through: same length and prefix, the slot
/// at `index` holds some value, and every other slot is unchanged.
spec fn slot_overwritten<T: Storable>(v0: Vector<T>, m2: Vector<T>, index: u32) -> bool {
    &&& m2.spec_len() == v0.spec_len()
    &&& m2.spec_prefix() == v0.spec_prefix()
    &&& m2.segment().cache().contains_key(index)
    &&& m2.segment().cache()[index].value is Some
    &&& forall|j: u32|
        j != index && v0.segment().cache().contains_key(j) ==> (#[trigger] m2.segment().cache().contains_key(j))
            && m2.segment().cache()[j] == v0.segment().cache()[j]
    &&& forall|j: u32|
        j != index && !v0.segment().cache().contains_key(j) ==> !(#[trigger] m2.segment().cache().contains_key(j))
}

/// Writing through a mutable handle to an in-bounds slot preserves the
/// vector's invariant, whatever value was written.
proof fn lemma_wf_after_slot_overwrite<T: Storable>(v0: Vector<T>, st: Map<Seq<u8>, Seq<u8>>, index: u32)
    requires
        v0.wf(st),
        index < v0.spec_len(),
    ensures
        forall|m2: Vector<T>|
            slot_overwritten(v0, m2, index) && m2.segment().wf() ==> #[trigger] m2.wf(st),
{
    assert forall|m2: Vector<T>|
        slot_overwritten(v0, m2, index) && m2.segment().wf() implies #[trigger] m2.wf(st) by {
        assert forall|i: u32| i < m2.spec_len() implies (#[trigger] m2.entry_view(st, i))
            is Some by {
            assert(v0.entry_view(st, i) is Some);
            if i != index {
                assert(m2.segment().spec_lookup_key(i) == v0.segment().spec_lookup_key(i));
                assert(m2.segment().cache().contains_key(i) == v0.segment().cache().contains_key(
                    i,
                ));
            }
        }
    }
}

/// A persistent vector over the store: a 32-bit length plus an index ->
/// value segment.  All operations are cached; `flush` writes the staged
/// mutations back.  There is no implicit flush on teardown — the store is
/// an explicit parameter, out of any destructor's reach — so staged
/// mutations are lost unless `flush` is called before the session ends.
pub struct Vector<T: Storable> {
    len: u32,
    values: IndexMap<T>,
}

impl<T: Storable> Vector<T> {
    /// The number of elements.
    pub closed spec fn spec_len(&self) -> u32 {
        self.len
    }

    /// The indexed segment beneath the vector.
    pub closed spec fn segment(&self) -> IndexMap<T> {
        self.values
    }

    /// The byte prefix namespacing the vector's physical keys.
    pub open spec fn spec_prefix(&self) -> Seq<u8> {
        self.segment().spec_prefix()
    }

    /// The value visible at `index`, bounds unchecked.
    pub open spec fn entry_view(&self, store: Map<Seq<u8>, Seq<u8>>, index: u32) -> Option<T> {
        self.segment().entry_view(store, index)
    }

    /// The vector's invariant against a store: the segment is well formed
    /// and a value is present at every index below the length.
    pub open spec fn wf(&self, store: Map<Seq<u8>, Seq<u8>>) -> bool {
        &&& self.segment().wf()
        &&& forall|i: u32|
            i < self.spec_len() ==> (#[trigger] self.entry_view(store, i)) is Some
    }

    /// A new vector with zero length. Uses `prefix` as a unique prefix for
    /// indices.
    pub fn new(prefix: Vec<u8>) -> (r: Self)
        ensures
            r.spec_len() == 0,
            r.spec_prefix() == prefix@,
            r.segment().wf(),
            r.segment().cache() == Map::<u32, CacheEntry<T>>::empty(),
            forall|st: Map<Seq<u8>, Seq<u8>>| #[trigger] r.wf(st),
    {
        Vector { len: 0, values: IndexMap::new(prefix) }
    }

    /// The number of elements in the vector, also referred to as its
    /// 'length'.
    pub fn len(&self) -> (r: u32)
        ensures
            r == self.spec_len(),
    {
        self.len
    }

    /// Whether the vector contains no elements.
    pub fn is_empty(&self) -> (r: bool)
        ensures
            r == (self.spec_len() == 0),
    {
        self.len == 0
    }

    /// Write the staged mutations of the segment back to the store and mark
    /// the cache clean.  A flush with nothing modified issues no store
    /// operation.
    ///
    /// The length is not written under a store key of its own — the
    /// persisted layout gives it none.  It is persisted through the
    /// embedded form ([`Self::to_stored_bytes`]), whose first four bytes
    /// are the length, little-endian.
    pub fn flush(&mut self, store: &mut Storage)
        requires
            old(self).segment().wf(),
            old(store).wf(),
        ensures
            final(self).segment().wf(),
            final(store).wf(),
            final(self).spec_len() == old(self).spec_len(),
            final(self).spec_prefix() == old(self).spec_prefix(),
            forall|j: u32|
                final(self).segment().cache().contains_key(j) == old(self).segment().cache().contains_key(j),
            forall|j: u32|
                old(self).segment().cache().contains_key(j) ==> (#[trigger] final(self).segment().cache()[j]).value == old(self).segment().cache()[j].value && final(self).segment().cache()[j].state is Cached,
            forall|j: u32|
                old(self).segment().cache().contains_key(j) && (#[trigger] old(self).segment().cache()[j]).state is Modified ==> (
                match old(self).segment().cache()[j].value {
                    Some(v) => final(store)@.contains_key(old(self).segment().spec_lookup_key(j))
                        && final(store)@[old(self).segment().spec_lookup_key(j)] == v.encoded(),
                    None => !final(store)@.contains_key(old(self).segment().spec_lookup_key(j)),
                }),
            forall|pk: Seq<u8>|
                !old(self).segment().flush_writes(pk) ==> #[trigger] final(store)@.contains_key(pk)
                    == old(store)@.contains_key(pk) && (old(store)@.contains_key(pk) ==> final(store)@[pk] == old(store)@[pk]),
            final(store).spec_reads() == old(store).spec_reads(),
            (forall|j: u32|
                old(self).segment().cache().contains_key(j) ==> (#[trigger] old(self).segment().cache()[j]).state is Cached) ==> *final(store) == *old(store),
            forall|j: u32|
                final(self).entry_view(final(store)@, j) == old(self).entry_view(old(store)@, j),
            old(self).wf(old(store)@) ==> final(self).wf(final(store)@),
    {
        self.values.flush(store);
        proof {
            if old(self).wf(old(store)@) {
                assert forall|i: u32|
                    i < self.spec_len() implies (#[trigger] self.entry_view(store@, i))
                    is Some by {
                    assert(self.segment().entry_view(store@, i) == old(self).segment().entry_view(
                        old(store)@,
                        i,
                    ));
                    assert(old(self).entry_view(old(store)@, i) is Some);
                }
            }
        }
    }

    /// Overwrite the element at `index`.  An index at or past the length is
    /// refused as `IndexOutOfBounds`, leaving the vector — and all stored
    /// data — unchanged: growth is strictly append-only, via `push`.
    pub fn set(&mut self, index: u32, value: T) -> (r: Result<(), StoreError>)
        requires
            old(self).segment().wf(),
        ensures
            final(self).segment().wf(),
            final(self).spec_len() == old(self).spec_len(),
            final(self).spec_prefix() == old(self).spec_prefix(),
            index < old(self).spec_len() ==> r is Ok && final(self).segment().cache() == old(self).segment().cache().insert(
                index,
                (CacheEntry { value: Some(value), state: EntryState::Modified }),
            ),
            index >= old(self).spec_len() ==> r == Err::<(), StoreError>(
                StoreError::IndexOutOfBounds,
            ) && *final(self) == *old(self),
            forall|st: Map<Seq<u8>, Seq<u8>>| old(self).wf(st) ==> #[trigger] final(self).wf(st),
            forall|st: Map<Seq<u8>, Seq<u8>>, j: u32|
                j != index ==> #[trigger] final(self).entry_view(st, j) == old(self).entry_view(
                    st,
                    j,
                ),
    {
        if index >= self.len {
            return Err(StoreError::IndexOutOfBounds);
        }
        self.values.set(index, Some(value));
        proof {
            assert forall|st: Map<Seq<u8>, Seq<u8>>| old(self).wf(st) implies #[trigger] self.wf(
                st,
            ) by {
                assert forall|i: u32|
                    i < self.spec_len() implies (#[trigger] self.entry_view(st, i))
                    is Some by {
                    if i != index {
                        assert(old(self).entry_view(st, i) is Some);
                    }
                }
            }
        }
        Ok(())
    }

    /// Append an element at the current length and increment the length.  A
    /// vector already holding the maximum number of elements refuses the
    /// push as `LengthOverflow`, unchanged.
    pub fn push(&mut self, element: T) -> (r: Result<(), StoreError>)
        requires
            old(self).segment().wf(),
        ensures
            final(self).segment().wf(),
            final(self).spec_prefix() == old(self).spec_prefix(),
            old(self).spec_len() < u32::MAX ==> r is Ok && final(self).spec_len() == old(self).spec_len() + 1 && final(self).segment().cache() == old(self).segment().cache().insert(
                old(self).spec_len(),
                (CacheEntry { value: Some(element), state: EntryState::Modified }),
            ),
            old(self).spec_len() == u32::MAX ==> r == Err::<(), StoreError>(
                StoreError::LengthOverflow,
            ) && *final(self) == *old(self),
            forall|st: Map<Seq<u8>, Seq<u8>>| old(self).wf(st) ==> #[trigger] final(self).wf(st),
    {
        if self.len == u32::MAX {
            return Err(StoreError::LengthOverflow);
        }
        let last_idx = self.len;
        self.len = self.len + 1;
        self.values.set(last_idx, Some(element));
        proof {
            assert forall|st: Map<Seq<u8>, Seq<u8>>|
                old(self).wf(st) implies #[trigger] self.wf(st) by {
                assert forall|i: u32|
                    i < self.spec_len() implies (#[trigger] self.entry_view(st, i))
                    is Some by {
                    if i != last_idx {
                        assert(old(self).entry_view(st, i) is Some);
                    }
                }
            }
        }
        Ok(())
    }

    /// The element at `index`, or `None` when `index` is at or past the
    /// length; an out-of-range read is a normal query, not a fault.  The
    /// result is present exactly when `index` is below the length.
    pub fn get(&mut self, store: &mut Storage, index: u32) -> (r: Option<T>)
        requires
            old(self).wf(old(store)@),
            old(store).wf(),
        ensures
            final(self).wf(final(store)@),
            final(store).wf(),
            final(self).spec_len() == old(self).spec_len(),
            final(self).spec_prefix() == old(self).spec_prefix(),
            final(store)@ == old(store)@,
            final(store).spec_writes() == old(store).spec_writes(),
            final(store).spec_removes() == old(store).spec_removes(),
            (r is Some) <==> index < old(self).spec_len(),
            index < old(self).spec_len() ==> r == old(self).entry_view(old(store)@, index),
            forall|j: u32|
                final(self).entry_view(final(store)@, j) == old(self).entry_view(old(store)@, j),
            index < old(self).spec_len() && old(self).segment().cache().contains_key(index)
                ==> *final(store) == *old(store),
            index >= old(self).spec_len() ==> *final(self) == *old(self) && *final(store) == *old(store),
    {
        if index >= self.len {
            return None;
        }
        let r = self.values.get(store, index);
        proof {
            assert forall|i: u32|
                i < self.spec_len() implies (#[trigger] self.entry_view(store@, i))
                is Some by {
                assert(self.entry_view(store@, i) == old(self).entry_view(old(store)@, i));
            }
        }
        r
    }

    /// A mutable handle to the element at `index`, or `None` when `index`
    /// is at or past the length.  Taking the handle marks the slot
    /// `Modified`.
    pub fn get_mut(&mut self, store: &mut Storage, index: u32) -> (r: Option<&mut T>)
        requires
            old(self).wf(old(store)@),
            old(store).wf(),
        ensures
            final(store).wf(),
            final(self).spec_len() == old(self).spec_len(),
            final(self).spec_prefix() == old(self).spec_prefix(),
            final(store)@ == old(store)@,
            final(store).spec_writes() == old(store).spec_writes(),
            final(store).spec_removes() == old(store).spec_removes(),
            (r is Some) <==> index < old(self).spec_len(),
            (r matches Some(p) ==> Some(*p) == old(self).entry_view(old(store)@, index)),
            (r matches Some(p) ==> final(self).segment().cache().contains_key(index) && final(self).segment().cache()[index] == (CacheEntry {
                value: Some(*final(p)),
                state: EntryState::Modified,
            })),
            (r matches Some(p) ==> final(self).entry_view(final(store)@, index) == Some(
                *final(p),
            )),
            forall|j: u32|
                j != index ==> #[trigger] final(self).entry_view(final(store)@, j) == old(self).entry_view(old(store)@, j),
            final(self).wf(final(store)@),
            index >= old(self).spec_len() ==> *final(self) == *old(self) && *final(store) == *old(store),
    {
        if index >= self.len {
            return None;
        }
        proof {
            assert(old(self).entry_view(old(store)@, index) is Some);
            lemma_wf_after_slot_overwrite(*self, store@, index);
        }
        let r = self.values.get_mut(store, index);
        r
    }

    /// Remove and return the last element, or `None` on an empty vector.
    /// The removed slot is tombstoned so a stale read cannot resurrect it,
    /// and the length decremented.
    pub fn pop(&mut self, store: &mut Storage) -> (r: Option<T>)
        requires
            old(self).wf(old(store)@),
            old(store).wf(),
        ensures
            final(self).wf(final(store)@),
            final(store).wf(),
            final(self).spec_prefix() == old(self).spec_prefix(),
            final(store)@ == old(store)@,
            final(store).spec_writes() == old(store).spec_writes(),
            final(store).spec_removes() == old(store).spec_removes(),
            (r is Some) <==> old(self).spec_len() > 0,
            old(self).spec_len() == 0 ==> *final(self) == *old(self) && *final(store) == *old(store),
            old(self).spec_len() > 0 ==> {
                &&& r == old(self).entry_view(old(store)@, (old(self).spec_len() - 1) as u32)
                &&& final(self).spec_len() == old(self).spec_len() - 1
                &&& final(self).segment().cache().contains_key((old(self).spec_len() - 1) as u32)
                &&& final(self).segment().cache()[(old(self).spec_len() - 1) as u32]
                    == (CacheEntry { value: None::<T>, state: EntryState::Modified })
                &&& forall|j: u32|
                    j != (old(self).spec_len() - 1) as u32 ==> #[trigger] final(self).entry_view(
                        final(store)@,
                        j,
                    ) == old(self).entry_view(old(store)@, j)
            },
    {
        if self.len == 0 {
            return None;
        }
        let last_idx = self.len - 1;
        let last_value = self.values.get(store, last_idx);
        let ghost v1 = *self;
        let ghost st1 = *store;
        self.values.set(last_idx, None);
        self.len = self.len - 1;
        proof {
            assert forall|j: u32|
                j != last_idx implies #[trigger] self.entry_view(store@, j) == old(
                self,
            ).entry_view(old(store)@, j) by {
                assert(self.segment().cache() == v1.segment().cache().insert(
                    last_idx,
                    (CacheEntry { value: None::<T>, state: EntryState::Modified }),
                ));
                assert(v1.entry_view(st1@, j) == old(self).entry_view(old(store)@, j));
            }
            assert forall|i: u32|
                i < self.spec_len() implies (#[trigger] self.entry_view(store@, i))
                is Some by {
                assert(self.entry_view(store@, i) == old(self).entry_view(old(store)@, i));
            }
        }
        last_value
    }

    /// Remove and return the element at `index`, replacing it with the last
    /// element; O(1), order not preserved.  An index at or past the length
    /// is refused as `IndexOutOfBounds`, leaving everything unchanged.
    pub fn swap_remove(&mut self, store: &mut Storage, index: u32) -> (r: Result<
        T,
        StoreError,
    >)
        requires
            old(self).wf(old(store)@),
            old(store).wf(),
        ensures
            final(self).wf(final(store)@),
            final(store).wf(),
            final(self).spec_prefix() == old(self).spec_prefix(),
            final(store)@ == old(store)@,
            final(store).spec_writes() == old(store).spec_writes(),
            final(store).spec_removes() == old(store).spec_removes(),
            (r is Ok) <==> index < old(self).spec_len(),
            index >= old(self).spec_len() ==> r == Err::<T, StoreError>(
                StoreError::IndexOutOfBounds,
            ) && *final(self) == *old(self) && *final(store) == *old(store),
            index < old(self).spec_len() ==> {
                &&& (r matches Ok(v) ==> Some(v) == old(self).entry_view(old(store)@, index))
                &&& final(self).spec_len() == old(self).spec_len() - 1
                &&& final(self).segment().cache().contains_key((old(self).spec_len() - 1) as u32)
                &&& final(self).segment().cache()[(old(self).spec_len() - 1) as u32]
                    == (CacheEntry { value: None::<T>, state: EntryState::Modified })
                &&& (index < old(self).spec_len() - 1 ==> final(self).entry_view(
                    final(store)@,
                    index,
                ) == old(self).entry_view(old(store)@, (old(self).spec_len() - 1) as u32))
                &&& forall|j: u32|
                    j != index && j != (old(self).spec_len() - 1) as u32
                        ==> #[trigger] final(self).entry_view(final(store)@, j) == old(self).entry_view(old(store)@, j)
            },
    {
        if index >= self.len {
            return Err(StoreError::IndexOutOfBounds);
        }
        let last_idx = self.len - 1;
        if last_idx == index {
            match self.pop(store) {
                Some(v) => Ok(v),
                None => {
                    proof {
                        assert(false);
                    }
                    vstd::pervasive::unreached()
                },
            }
        } else {
            let elem = match self.values.get(store, index) {
                Some(v) => v,
                None => {
                    proof {
                        assert(old(self).entry_view(old(store)@, index) is Some);
                        assert(false);
                    }
                    vstd::pervasive::unreached()
                },
            };
            proof {
                assert forall|i: u32|
                    i < self.spec_len() implies (#[trigger] self.entry_view(store@, i))
                    is Some by {
                    assert(self.segment().entry_view(store@, i) == old(self).segment().entry_view(
                        old(store)@,
                        i,
                    ));
                    assert(old(self).entry_view(old(store)@, i) is Some);
                }
            }
            let ghost v1 = *self;
            let ghost st1 = *store;
            let last_elem = self.pop(store);
            let ghost v2 = *self;
            let ghost st2 = *store;
            self.values.set(index, last_elem);
            proof {
                assert(self.segment().cache() == v2.segment().cache().insert(
                    index,
                    (CacheEntry { value: last_elem, state: EntryState::Modified }),
                ));
                assert forall|j: u32|
                    j != index && j != last_idx implies #[trigger] self.entry_view(store@, j)
                    == old(self).entry_view(old(store)@, j) by {
                    assert(v2.entry_view(st2@, j) == v1.entry_view(st1@, j));
                    assert(v1.entry_view(st1@, j) == old(self).entry_view(old(store)@, j));
                }
                assert(self.entry_view(store@, index) == last_elem);
                assert(last_elem == v1.entry_view(st1@, last_idx));
                assert(v1.entry_view(st1@, last_idx) == old(self).entry_view(old(store)@, last_idx));
                assert(old(self).entry_view(old(store)@, last_idx) is Some);
                assert forall|i: u32|
                    i < self.spec_len() implies (#[trigger] self.entry_view(store@, i))
                    is Some by {
                    if i != index {
                        assert(self.entry_view(store@, i) == old(self).entry_view(old(store)@, i));
                        assert(old(self).entry_view(old(store)@, i) is Some);
                    }
                }
            }
            Ok(elem)
        }
    }
}


/// Read the 4 little-endian bytes at `off` in `b` as a `u32`.
fn read_u32_at(b: &[u8], off: usize) -> (r: u32)
    requires
        off + 4 <= b@.len(),
    ensures
        r == spec_u32_from_le_bytes(b@.subrange(off as int, off as int + 4)),
{
    let mut word: Vec<u8> = Vec::new();
    word.push(b[off]);
    word.push(b[off + 1]);
    word.push(b[off + 2]);
    word.push(b[off + 3]);
    proof {
        assert(word@ =~= b@.subrange(off as int, off as int + 4));
    }
    u32_from_le_bytes(word.as_slice())
}

impl<T: Storable> Vector<T> {
    /// The form in which the vector is embedded in a larger persisted
    /// record: its 32-bit length, then its length-prefixed byte prefix —
    /// live cache contents are never embedded; only flushed entries exist
    /// in the store.
    pub fn to_stored_bytes(&self) -> (r: Vec<u8>)
        requires
            self.spec_prefix().len() <= u32::MAX,
        ensures
            r@ == spec_u32_to_le_bytes(self.spec_len()) + spec_u32_to_le_bytes(
                self.spec_prefix().len() as u32,
            ) + self.spec_prefix(),
    {
        let mut out = u32_to_le_bytes(self.len);
        let prefix = self.values.prefix_bytes();
        let plen_bytes = u32_to_le_bytes(prefix.len() as u32);
        out.extend_from_slice(plen_bytes.as_slice());
        out.extend_from_slice(prefix.as_slice());
        out
    }

    /// Rebuild a vector from its embedded form: the persisted length and
    /// prefix, with an empty cache.  `None` when the bytes are not exactly
    /// a length, a prefix length, and that many prefix bytes.
    pub fn from_stored_bytes(b: &[u8]) -> (r: Option<Self>)
        ensures
            (r is Some) <==> (b@.len() >= 8 && b@.len() - 8 == spec_u32_from_le_bytes(
                b@.subrange(4, 8),
            )),
            (r matches Some(v) ==> {
                &&& v.spec_len() == spec_u32_from_le_bytes(b@.subrange(0, 4))
                &&& v.spec_prefix() == b@.skip(8)
                &&& v.segment().cache() == Map::<u32, CacheEntry<T>>::empty()
                &&& v.segment().wf()
            }),
    {
        if b.len() < 8 {
            return None;
        }
        let len = read_u32_at(b, 0);
        let prefix_len = read_u32_at(b, 4);
        if b.len() - 8 != prefix_len as usize {
            return None;
        }
        let mut prefix: Vec<u8> = Vec::new();
        let n: usize = b.len();
        let mut i: usize = 8;
        while i < n
            invariant
                8 <= i <= n,
                n == b@.len(),
                prefix@ =~= b@.subrange(8, i as int),
            decreases n - i,
        {
            prefix.push(b[i]);
            proof {
                assert(prefix@ =~= b@.subrange(8, i + 1 as int));
            }
            i = i + 1;
        }
        proof {
            assert(prefix@ =~= b@.skip(8));
        }
        Some(Vector { len, values: IndexMap::new(prefix) })
    }
}

} // verus!
