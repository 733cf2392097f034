//! The shared, swappable current snapshot.

use vstd::prelude::*;
use std::sync::Arc;
use vstd::rwlock::{RwLock, RwLockPredicate};
use crate::snapshot::DictionarySnapshot;

verus! {

/// Every snapshot may be stored.
pub struct AnySnapshot;

impl RwLockPredicate<Arc<DictionarySnapshot>> for AnySnapshot {
    open spec fn inv(self, v: Arc<DictionarySnapshot>) -> bool {
        true
    }
}

/// A handle on the current dictionary snapshot. Clones share the same slot:
/// an `update` through one handle is what `current` returns through every
/// other, so the server sees each re-indexed dictionary as soon as it lands.
///
/// Handles are shared across threads, and which snapshot a `current` call
/// sees depends on how it interleaves with `update` calls made through other
/// handles; the slot accepts every snapshot, and the contracts below name no
/// particular one.
pub struct DictionaryStore {
    inner: Arc<RwLock<Arc<DictionarySnapshot>, AnySnapshot>>,
}

impl Clone for DictionaryStore {
    fn clone(&self) -> (s: Self) {
        DictionaryStore { inner: self.inner.clone() }
    }
}

impl DictionaryStore {
    pub fn new() -> (s: Self) {
        Self::with_initial(DictionarySnapshot::empty())
    }

    pub fn with_initial(snapshot: DictionarySnapshot) -> (s: Self) {
        DictionaryStore { inner: Arc::new(RwLock::new(Arc::new(snapshot), Ghost(AnySnapshot))) }
    }

    /// Replace the current snapshot for every handle on this slot.
    pub fn update(&self, snapshot: DictionarySnapshot) {
        let (_previous, handle) = self.inner.acquire_write();
        handle.release_write(Arc::new(snapshot));
    }

    /// The snapshot most recently stored through any handle on this slot.
    pub fn current(&self) -> Arc<DictionarySnapshot> {
        let handle = self.inner.acquire_read();
        let snapshot = handle.borrow().clone();
        handle.release_read();
        snapshot
    }
}

impl Default for DictionaryStore {
    fn default() -> (s: Self) {
        Self::new()
    }
}

} // verus!
