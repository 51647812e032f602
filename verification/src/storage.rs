//! The byte-oriented key-value store that the persistent collections sit on.
//!
//! The store is a plain value: a finite map from byte keys to byte values,
//! together with counters that record how many read, write and remove
//! operations were issued.  The counters let a caller observe — and the
//! contracts state — that a flush with nothing modified performs no store
//! traffic at all.

use vstd::prelude::*;

verus! {

/// No two entries share a key.
pub open spec fn distinct_entry_keys(s: Seq<(Vec<u8>, Vec<u8>)>) -> bool {
    forall|i: int, j: int| 0 <= i < j < s.len() ==> s[i].0@ != s[j].0@
}

/// The finite map described by a sequence of key-value entries; a later
/// entry with the same key wins (the store keeps the keys distinct).
pub open spec fn map_of_entries(s: Seq<(Vec<u8>, Vec<u8>)>) -> Map<Seq<u8>, Seq<u8>>
    decreases s.len(),
{
    if s.len() == 0 {
        Map::empty()
    } else {
        map_of_entries(s.drop_last()).insert(s.last().0@, s.last().1@)
    }
}

proof fn lemma_map_of_entries_index(s: Seq<(Vec<u8>, Vec<u8>)>, i: int)
    requires
        distinct_entry_keys(s),
        0 <= i < s.len(),
    ensures
        map_of_entries(s).contains_key(s[i].0@),
        map_of_entries(s)[s[i].0@] == s[i].1@,
    decreases s.len(),
{
    if i == s.len() - 1 {
    } else {
        lemma_map_of_entries_index(s.drop_last(), i);
        assert(s.drop_last()[i] == s[i]);
        assert(s.last().0@ != s[i].0@);
    }
}

proof fn lemma_map_of_entries_complete(s: Seq<(Vec<u8>, Vec<u8>)>, k: Seq<u8>)
    requires
        map_of_entries(s).contains_key(k),
    ensures
        exists|i: int| 0 <= i < s.len() && s[i].0@ == k,
    decreases s.len(),
{
    if s.len() > 0 {
        if s.last().0@ == k {
            assert(s[s.len() - 1].0@ == k);
        } else {
            lemma_map_of_entries_complete(s.drop_last(), k);
            let i = choose|i: int| 0 <= i < s.drop_last().len() && s.drop_last()[i].0@ == k;
            assert(s[i].0@ == k);
        }
    }
}

proof fn lemma_map_of_entries_push(s: Seq<(Vec<u8>, Vec<u8>)>, e: (Vec<u8>, Vec<u8>))
    ensures
        map_of_entries(s.push(e)) == map_of_entries(s).insert(e.0@, e.1@),
{
    assert(s.push(e).drop_last() =~= s);
    assert(s.push(e).last() == e);
}

proof fn lemma_map_of_entries_update(s: Seq<(Vec<u8>, Vec<u8>)>, i: int, e: (Vec<u8>, Vec<u8>))
    requires
        distinct_entry_keys(s),
        0 <= i < s.len(),
        e.0@ == s[i].0@,
    ensures
        map_of_entries(s.update(i, e)) =~= map_of_entries(s).insert(e.0@, e.1@),
    decreases s.len(),
{
    let t = s.update(i, e);
    if i == s.len() - 1 {
        assert(t.drop_last() =~= s.drop_last());
        assert(t.last() == e);
    } else {
        lemma_map_of_entries_update(s.drop_last(), i, e);
        assert(t.drop_last() =~= s.drop_last().update(i, e));
        assert(t.last() == s.last());
        assert(s.last().0@ != s[i].0@);
    }
}

proof fn lemma_map_of_entries_remove(s: Seq<(Vec<u8>, Vec<u8>)>, i: int)
    requires
        distinct_entry_keys(s),
        0 <= i < s.len(),
    ensures
        map_of_entries(s.remove(i)) =~= map_of_entries(s).remove(s[i].0@),
        distinct_entry_keys(s.remove(i)),
    decreases s.len(),
{
    let t = s.remove(i);
    assert forall|a: int, b: int| 0 <= a < b < t.len() implies t[a].0@ != t[b].0@ by {
        if b < i {
        } else if a < i {
            assert(t[b] == s[b + 1]);
        } else {
            assert(t[a] == s[a + 1]);
            assert(t[b] == s[b + 1]);
        }
    }
    if i == s.len() - 1 {
        assert(t =~= s.drop_last());
        lemma_map_of_entries_no_key(s.drop_last(), s[i].0@);
        assert(map_of_entries(s.drop_last()).remove(s[i].0@) =~= map_of_entries(s.drop_last()));
        assert(map_of_entries(s).remove(s[i].0@) =~= map_of_entries(s.drop_last()).remove(
            s[i].0@,
        ));
    } else {
        lemma_map_of_entries_remove(s.drop_last(), i);
        assert(t.drop_last() =~= s.drop_last().remove(i));
        assert(t.last() == s.last());
        assert(s.last().0@ != s[i].0@);
    }
}

proof fn lemma_map_of_entries_no_key(s: Seq<(Vec<u8>, Vec<u8>)>, k: Seq<u8>)
    requires
        forall|i: int| 0 <= i < s.len() ==> s[i].0@ != k,
    ensures
        !map_of_entries(s).contains_key(k),
{
    if map_of_entries(s).contains_key(k) {
        lemma_map_of_entries_complete(s, k);
    }
}

/// Compare two byte strings.
pub fn bytes_eq(a: &[u8], b: &[u8]) -> (r: bool)
    ensures
        r == (a@ == b@),
{
    if a.len() != b.len() {
        return false;
    }
    let n: usize = a.len();
    let mut i: usize = 0;
    while i < n
        invariant
            n == a@.len(),
            n == b@.len(),
            0 <= i <= n,
            forall|j: int| 0 <= j < i ==> a@[j] == b@[j],
        decreases n - i,
    {
        if a[i] != b[i] {
            return false;
        }
        i = i + 1;
    }
    proof {
        assert(a@ =~= b@);
    }
    true
}

/// Copy a byte string into an owned vector.
pub fn bytes_to_vec(a: &[u8]) -> (r: Vec<u8>)
    ensures
        r@ == a@,
{
    let mut r: Vec<u8> = Vec::new();
    let n: usize = a.len();
    let mut i: usize = 0;
    while i < n
        invariant
            n == a@.len(),
            0 <= i <= n,
            r@ =~= a@.take(i as int),
        decreases n - i,
    {
        r.push(a[i]);
        proof {
            assert(r@ =~= a@.take(i + 1 as int));
        }
        i = i + 1;
    }
    proof {
        assert(r@ =~= a@);
    }
    r
}

/// The counter value after one more operation; the count saturates rather
/// than wrapping.
pub open spec fn next_count(c: u64) -> u64 {
    if c == u64::MAX {
        c
    } else {
        (c + 1) as u64
    }
}

/// The store: a finite map from byte keys to byte values, with counters of
/// the operations issued against it.
pub struct Storage {
    entries: Vec<(Vec<u8>, Vec<u8>)>,
    read_count: u64,
    write_count: u64,
    remove_count: u64,
}

impl View for Storage {
    type V = Map<Seq<u8>, Seq<u8>>;

    closed spec fn view(&self) -> Map<Seq<u8>, Seq<u8>> {
        map_of_entries(self.entries@)
    }
}

impl Storage {
    /// The store keeps one entry per key.
    pub closed spec fn wf(&self) -> bool {
        distinct_entry_keys(self.entries@)
    }

    /// How many reads were issued so far.
    pub closed spec fn spec_reads(&self) -> u64 {
        self.read_count
    }

    /// How many writes were issued so far.
    pub closed spec fn spec_writes(&self) -> u64 {
        self.write_count
    }

    /// How many removes were issued so far.
    pub closed spec fn spec_removes(&self) -> u64 {
        self.remove_count
    }

    /// An empty store with zeroed counters.
    pub fn new() -> (r: Storage)
        ensures
            r@ == Map::<Seq<u8>, Seq<u8>>::empty(),
            r.wf(),
            r.spec_reads() == 0,
            r.spec_writes() == 0,
            r.spec_removes() == 0,
    {
        Storage { entries: Vec::new(), read_count: 0, write_count: 0, remove_count: 0 }
    }

    pub fn reads(&self) -> (r: u64)
        ensures
            r == self.spec_reads(),
    {
        self.read_count
    }

    pub fn writes(&self) -> (r: u64)
        ensures
            r == self.spec_writes(),
    {
        self.write_count
    }

    pub fn removes(&self) -> (r: u64)
        ensures
            r == self.spec_removes(),
    {
        self.remove_count
    }

    fn find_index(&self, key: &[u8]) -> (r: Option<usize>)
        ensures
            (r matches Some(i) ==> i < self.entries@.len() && self.entries@[i as int].0@ == key@),
            (r is None ==> forall|i: int|
                0 <= i < self.entries@.len() ==> self.entries@[i].0@ != key@),
    {
        let n: usize = self.entries.len();
        let mut i: usize = 0;
        while i < n
            invariant
                n == self.entries@.len(),
                0 <= i <= n,
                forall|j: int| 0 <= j < i ==> self.entries@[j].0@ != key@,
            decreases n - i,
        {
            if bytes_eq(self.entries[i].0.as_slice(), key) {
                return Some(i);
            }
            i = i + 1;
        }
        None
    }

    /// Read the value stored under `key`, or `None` if there is none.
    pub fn read(&mut self, key: &[u8]) -> (r: Option<Vec<u8>>)
        requires
            old(self).wf(),
        ensures
            final(self).wf(),
            final(self)@ == old(self)@,
            (r matches Some(v) ==> old(self)@.contains_key(key@) && v@ == old(self)@[key@]),
            (r is None ==> !old(self)@.contains_key(key@)),
            final(self).spec_reads() == next_count(old(self).spec_reads()),
            final(self).spec_writes() == old(self).spec_writes(),
            final(self).spec_removes() == old(self).spec_removes(),
    {
        self.read_count = if self.read_count == u64::MAX {
            self.read_count
        } else {
            self.read_count + 1
        };
        match self.find_index(key) {
            Some(i) => {
                proof {
                    lemma_map_of_entries_index(self.entries@, i as int);
                }
                Some(bytes_to_vec(self.entries[i].1.as_slice()))
            },
            None => {
                proof {
                    lemma_map_of_entries_no_key(self.entries@, key@);
                }
                None
            },
        }
    }

    /// Store `value` under `key`; the result says whether a previous value
    /// existed under that key.
    pub fn write(&mut self, key: &[u8], value: &[u8]) -> (r: bool)
        requires
            old(self).wf(),
        ensures
            final(self).wf(),
            final(self)@ == old(self)@.insert(key@, value@),
            r == old(self)@.contains_key(key@),
            final(self).spec_writes() == next_count(old(self).spec_writes()),
            final(self).spec_reads() == old(self).spec_reads(),
            final(self).spec_removes() == old(self).spec_removes(),
    {
        self.write_count = if self.write_count == u64::MAX {
            self.write_count
        } else {
            self.write_count + 1
        };
        match self.find_index(key) {
            Some(i) => {
                proof {
                    lemma_map_of_entries_index(self.entries@, i as int);
                }
                let ghost s0 = self.entries@;
                let new_value = bytes_to_vec(value);
                let entry = &mut self.entries[i];
                let ghost k0 = entry.0;
                entry.1 = new_value;
                proof {
                    assert(final(entry).0 == k0);
                    lemma_map_of_entries_update(s0, i as int, (k0, final(entry).1));
                    assert(distinct_entry_keys(self.entries@));
                }
                true
            },
            None => {
                proof {
                    lemma_map_of_entries_no_key(self.entries@, key@);
                }
                let ghost s0 = self.entries@;
                let owned_key = bytes_to_vec(key);
                let owned_value = bytes_to_vec(value);
                self.entries.push((owned_key, owned_value));
                proof {
                    lemma_map_of_entries_push(s0, (owned_key, owned_value));
                    assert forall|a: int, b: int|
                        0 <= a < b < self.entries@.len() implies self.entries@[a].0@
                        != self.entries@[b].0@ by {
                        if b < self.entries@.len() - 1 {
                            assert(self.entries@[a] == s0[a]);
                            assert(self.entries@[b] == s0[b]);
                        } else {
                            assert(self.entries@[a] == s0[a]);
                        }
                    }
                }
                false
            },
        }
    }

    /// Remove the value stored under `key`; the result says whether a value
    /// existed under that key.
    pub fn remove(&mut self, key: &[u8]) -> (r: bool)
        requires
            old(self).wf(),
        ensures
            final(self).wf(),
            final(self)@ == old(self)@.remove(key@),
            r == old(self)@.contains_key(key@),
            final(self).spec_removes() == next_count(old(self).spec_removes()),
            final(self).spec_reads() == old(self).spec_reads(),
            final(self).spec_writes() == old(self).spec_writes(),
    {
        self.remove_count = if self.remove_count == u64::MAX {
            self.remove_count
        } else {
            self.remove_count + 1
        };
        match self.find_index(key) {
            Some(i) => {
                proof {
                    lemma_map_of_entries_index(self.entries@, i as int);
                    lemma_map_of_entries_remove(self.entries@, i as int);
                }
                let _ = self.entries.remove(i);
                true
            },
            None => {
                proof {
                    lemma_map_of_entries_no_key(self.entries@, key@);
                    assert(old(self)@.remove(key@) =~= old(self)@);
                }
                false
            },
        }
    }
}

} // verus!
