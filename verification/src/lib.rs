//! Persistent collections (maps, sets, growable vectors) layered over an
//! abstract byte-oriented key-value store.
//!
//! All mutation is staged in an in-memory, dirty-tracking cache; an explicit
//! `flush` pushes exactly the modified entries back to the store.  The store
//! itself is an explicit value ([`storage::Storage`]) handed to every
//! operation that may touch it, so a caller — or a proof — can observe
//! exactly which reads, writes and removes a session issues.
//!
//! Because the store is a parameter rather than an ambient resource, no
//! destructor can flush for you: staged mutations not flushed before the
//! session ends are lost.  Call `flush` on every exit path, or wrap the
//! collection in a scope guard at the application layer that does so.

use vstd::prelude::*;

pub mod codec;
pub mod contract_interaction;
pub mod storage;
pub mod store;
pub mod types;
pub mod utils;

pub use codec::Storable;

verus! {

/// Why a token transfer failed.
#[derive(Debug)]
pub enum TransferError {
    TransferFailed,
    InsufficientFunds,
}

} // verus!
