//! Persistent collections that store their content in the byte-oriented
//! store, loading entries lazily on first access and writing back only what
//! was modified.

use vstd::prelude::*;

pub mod index_map;
pub mod lookup_map;
pub mod lookup_set;
pub mod vec;

pub use self::index_map::IndexMap;
pub use self::lookup_map::LookupMap;
pub use self::lookup_set::LookupSet;
pub use self::vec::Vector;

verus! {

use crate::codec::Storable;

/// The fatal conditions a collection can signal instead of mutating:
/// an out-of-bounds write, or growth past the maximum representable index.
#[derive(Copy, Clone, Debug, PartialEq, Eq, Structural)]
pub enum StoreError {
    IndexOutOfBounds,
    LengthOverflow,
}

impl StoreError {
    /// The diagnostic text for this condition; both bounds conditions
    /// share one text, as an index past the representable range is the
    /// same fault as one past the length.
    pub fn message(&self) -> (r: &'static str)
        ensures
            r@ == "Index out of bounds"@,
    {
        match self {
            StoreError::IndexOutOfBounds => "Index out of bounds",
            StoreError::LengthOverflow => "Index out of bounds",
        }
    }
}

/// Whether some value of `T` has `b` as its canonical encoding.
pub open spec fn decodable<T: Storable>(b: Seq<u8>) -> bool {
    exists|v: T| v.encoded() == b
}

/// The value whose canonical encoding is `b`; meaningful when `decodable`
/// holds (the encoding is injective, so the value is unique).
pub open spec fn decoded<T: Storable>(b: Seq<u8>) -> T
    recommends
        decodable::<T>(b),
{
    choose|v: T| v.encoded() == b
}

/// The logical value persisted under physical key `pk`: absence when the
/// store has no bytes there, and the decoded value when it has.  Bytes that
/// decode to nothing are corruption; the collections refuse to read them.
pub open spec fn spec_stored<T: Storable>(store: Map<Seq<u8>, Seq<u8>>, pk: Seq<u8>) -> Option<T> {
    if store.contains_key(pk) && decodable::<T>(store[pk]) {
        Some(decoded::<T>(store[pk]))
    } else {
        None
    }
}

/// Appending to a common prefix is cancellative.
pub proof fn lemma_append_cancel(p: Seq<u8>, a: Seq<u8>, b: Seq<u8>)
    requires
        p + a == p + b,
    ensures
        a == b,
{
    assert((p + a).len() == p.len() + a.len());
    assert((p + b).len() == p.len() + b.len());
    assert(a.len() == b.len());
    assert(a =~= (p + a).subrange(p.len() as int, (p.len() + a.len()) as int));
    assert(b =~= (p + b).subrange(p.len() as int, (p.len() + b.len()) as int));
}

} // verus!
