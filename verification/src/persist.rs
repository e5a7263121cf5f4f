//! Persistence of Raft state and service snapshots.
//!
//! `Persister` is the capability the replica hands around; it is shared, so
//! its methods take `&self` and the in-memory implementation guards its two
//! byte strings with a reader-writer lock. What the persisted bytes mean is
//! proved where they are produced and consumed (the Raft state codec), not
//! here: a shared store can change between any two calls.

use vstd::prelude::*;
use vstd::rwlock::RwLock;

use crate::bytes_clone;

verus! {

/// Saves and recovers the Raft state and the latest snapshot.
pub trait Persister {
    /// The persisted Raft state, empty when none was saved.
    fn raft_state(&self) -> Vec<u8>;

    /// Persist the Raft state.
    fn save_raft_state(&self, state: Vec<u8>);

    /// Persist the Raft state and the snapshot together.
    fn save_state_and_snapshot(&self, state: Vec<u8>, snapshot: Vec<u8>);

    /// The persisted snapshot, empty when none was saved.
    fn snapshot(&self) -> Vec<u8>;
}

/// The lock on the persisted pair carries no invariant: any bytes may be
/// stored.
pub struct AnyPair;

impl vstd::rwlock::RwLockPredicate<(Vec<u8>, Vec<u8>)> for AnyPair {
    open spec fn inv(self, v: (Vec<u8>, Vec<u8>)) -> bool {
        true
    }
}

/// An in-memory persister: a pair of byte strings behind a lock.
pub struct SimplePersister {
    states: RwLock<(Vec<u8>, Vec<u8>), AnyPair>,
}

impl SimplePersister {
    pub fn new() -> (r: SimplePersister)
    {
        SimplePersister {
            states: RwLock::new((Vec::new(), Vec::new()), Ghost(AnyPair)),
        }
    }
}

impl Persister for SimplePersister {
    fn raft_state(&self) -> Vec<u8> {
        let handle = self.states.acquire_read();
        let r = bytes_clone(&handle.borrow().0);
        handle.release_read();
        r
    }

    fn save_raft_state(&self, state: Vec<u8>) {
        let (val, wh) = self.states.acquire_write();
        let (_old_state, snap) = val;
        wh.release_write((state, snap));
    }

    fn save_state_and_snapshot(&self, state: Vec<u8>, snapshot: Vec<u8>) {
        let (_val, wh) = self.states.acquire_write();
        wh.release_write((state, snapshot));
    }

    fn snapshot(&self) -> Vec<u8> {
        let handle = self.states.acquire_read();
        let r = bytes_clone(&handle.borrow().1);
        handle.release_read();
        r
    }
}

impl Persister for Box<dyn Persister> {
    fn raft_state(&self) -> Vec<u8> {
        (**self).raft_state()
    }

    fn save_raft_state(&self, state: Vec<u8>) {
        (**self).save_raft_state(state)
    }

    fn save_state_and_snapshot(&self, state: Vec<u8>, snapshot: Vec<u8>) {
        (**self).save_state_and_snapshot(state, snapshot)
    }

    fn snapshot(&self) -> Vec<u8> {
        (**self).snapshot()
    }
}

impl Persister for std::sync::Arc<dyn Persister> {
    fn raft_state(&self) -> Vec<u8> {
        (**self).raft_state()
    }

    fn save_raft_state(&self, state: Vec<u8>) {
        (**self).save_raft_state(state)
    }

    fn save_state_and_snapshot(&self, state: Vec<u8>, snapshot: Vec<u8>) {
        (**self).save_state_and_snapshot(state, snapshot)
    }

    fn snapshot(&self) -> Vec<u8> {
        (**self).snapshot()
    }
}

} // verus!
