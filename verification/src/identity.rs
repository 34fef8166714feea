//! The deduplication store.
//!
//! A traversal counts each physical object once.  The store records every
//! identity (device id, inode number) that has been sighted; the first
//! sighting of an identity reports "new" and every later sighting reports
//! "already seen".  The store is backed by a sharded concurrent map so that
//! a multi-threaded driver can share one store among its workers; the
//! insert-and-check step is atomic per identity.

use vstd::prelude::*;

use crate::resolve::FileIdentity;

verus! {

/// The set of identities recorded during one traversal.
///
/// One store is created per traversal, shared by every worker, and dropped
/// when the traversal completes.
#[verifier::external_body]
pub struct IdentityStore {
    map: dashmap::DashMap<(u64, u64), ()>,
}

/// The identities a store currently holds, as plain (device, inode) pairs.
pub uninterp spec fn seen_set(s: IdentityStore) -> Set<(u64, u64)>;

impl IdentityStore {
    /// The identities recorded so far.
    pub open spec fn seen(self) -> Set<(u64, u64)> {
        seen_set(self)
    }

    /// A store with nothing recorded yet.
    ///
    /// Relies on `dashmap::DashMap::new`, which creates an empty map.
    #[verifier::external_body]
    pub fn new() -> (s: IdentityStore)
        ensures
            seen_set(s) == Set::<(u64, u64)>::empty(),
    {
        IdentityStore { map: dashmap::DashMap::new() }
    }

    /// Record an identity; report whether it had been recorded before.
    ///
    /// Relies on `dashmap::DashMap::insert`, which puts the key in the map
    /// and returns the value previously associated with it, if any; the
    /// operation is atomic per key.
    #[verifier::external_body]
    pub fn mark_seen(&mut self, id: FileIdentity) -> (already: bool)
        ensures
            seen_set(*final(self)) == seen_set(*old(self)).insert(id.key()),
            already == seen_set(*old(self)).contains(id.key()),
    {
        self.map.insert((id.dev, id.ino), ()).is_some()
    }
}

} // verus!
