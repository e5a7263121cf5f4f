//! A verified transactional key-value store core.
//!
//! The crate models the storage, transaction and replication logic of a
//! distributed key-value store: a log-structured storage engine with an
//! in-memory index and compaction, a monotonic timestamp oracle, a
//! multi-version column store, a Percolator-style two-phase commit
//! protocol, a Raft-style replica state machine, and the replicated
//! service that de-duplicates client commands.

pub mod assoc;
pub mod client;
pub mod clock;
pub mod codec;
pub mod common;
pub mod engine;
pub mod laws;
pub mod mvcc;
pub mod order;
pub mod persist;
pub mod raft;
pub mod readonly;
pub mod service;
pub mod tso;
pub mod txn;

pub use common::{KvError, KvRpcError, Request, Response, WriteOp};

use vstd::prelude::*;

verus! {

/// A byte-string key or value as the store handles them.
pub type Bytes = Vec<u8>;

/// An explicit copy of a byte string, with its view carried over.
pub fn bytes_clone(b: &Bytes) -> (r: Bytes)
    ensures
        r@ == b@,
{
    let mut out: Vec<u8> = Vec::new();
    let mut i: usize = 0;
    while i < b.len()
        invariant
            i <= b.len(),
            out@ == b@.subrange(0, i as int),
        decreases b.len() - i,
    {
        out.push(b[i]);
        i = i + 1;
    }
    proof {
        assert(out@ =~= b@);
    }
    out
}

} // verus!
