//! A single cache slot: an optional value plus a dirtiness flag.
//!
//! A slot populated by reading from the store starts `Cached`; any mutation
//! moves it to `Modified` — except that replacing an absent value with an
//! absent value stays clean, so removing a key that was never present costs
//! no store write at flush time.

use vstd::prelude::*;

verus! {

/// Whether a slot's value agrees with the store (`Cached`) or must be
/// written back on the next flush (`Modified`).
#[derive(Copy, Clone, Debug)]
pub enum EntryState {
    Modified,
    Cached,
}

/// An optional value plus its dirtiness state: the atomic unit of the cache.
#[derive(Clone, Debug)]
pub struct CacheEntry<T> {
    pub value: Option<T>,
    pub state: EntryState,
}

impl<T> CacheEntry<T> {
    pub fn new(value: Option<T>, state: EntryState) -> (r: Self)
        ensures
            r.value == value,
            r.state == state,
    {
        CacheEntry { value, state }
    }

    /// A slot freshly populated from the store.
    pub fn new_cached(value: Option<T>) -> (r: Self)
        ensures
            r.value == value,
            r.state is Cached,
    {
        CacheEntry::new(value, EntryState::Cached)
    }

    /// A slot holding a staged mutation.
    pub fn new_modified(value: Option<T>) -> (r: Self)
        ensures
            r.value == value,
            r.state is Modified,
    {
        CacheEntry::new(value, EntryState::Modified)
    }

    /// Immutable peek at the value; no state change.
    pub fn value(&self) -> (r: &Option<T>)
        ensures
            *r == self.value,
    {
        &self.value
    }

    /// Mutable handle to the value; unconditionally marks the slot
    /// `Modified`, so callers that only read should prefer [`Self::value`].
    pub fn value_mut(&mut self) -> (r: &mut Option<T>)
        ensures
            *r == old(self).value,
            final(self).value == *final(r),
            final(self).state is Modified,
    {
        self.state = EntryState::Modified;
        &mut self.value
    }

    /// Replace the value, returning the old one.  The slot becomes
    /// `Modified` unless both the old and the new value are absent.
    pub fn replace(&mut self, value: Option<T>) -> (old_value: Option<T>)
        ensures
            old_value == old(self).value,
            final(self).value == value,
            final(self).state == (if old(self).value is Some || value is Some {
                EntryState::Modified
            } else {
                old(self).state
            }),
    {
        let mut incoming = value;
        core::mem::swap(&mut self.value, &mut incoming);
        if self.value.is_some() || incoming.is_some() {
            self.state = EntryState::Modified;
        }
        incoming
    }

    /// Replace the dirtiness state, returning the old one.
    pub fn replace_state(&mut self, state: EntryState) -> (old_state: EntryState)
        ensures
            old_state == old(self).state,
            final(self).state == state,
            final(self).value == old(self).value,
    {
        let mut incoming = state;
        core::mem::swap(&mut self.state, &mut incoming);
        incoming
    }

    /// Whether this slot holds a staged mutation.
    pub fn is_modified(&self) -> (r: bool)
        ensures
            r == (self.state is Modified),
    {
        matches!(self.state, EntryState::Modified)
    }
}

} // verus!
