//! The replicated transaction service's state machine: it decodes nothing
//! and sends nothing — it takes one committed client command at a time,
//! suppresses duplicates by `(client_ts, seq)`, and applies the matching
//! Percolator step to the column store. The Raft plumbing around it hands
//! commands in and carries replies out.

use vstd::prelude::*;

use crate::assoc::{assoc_map, assoc_unique, assoc_find, lemma_assoc_map_index,
    lemma_assoc_map_remove};
use crate::common::{KvRpcError, WriteOp};
use crate::engine::KvsEngine;
use crate::mvcc::MultiStore;
use crate::txn::{prewrite, commit, txn_get, lock_back_off_or_clean_up, TxnGet, AbortReason};

verus! {

/// Ask the oracle for a timestamp.
pub struct TsRequest {
    pub name: Vec<u8>,
}

pub struct TsReply {
    pub name: Vec<u8>,
    pub ts: u64,
}

/// Snapshot read of one key.
pub struct GetRequest {
    pub key: Vec<u8>,
    pub ts: u64,
    pub seq: u64,
}

pub struct GetReply {
    pub message: Vec<u8>,
    pub ts: u64,
    pub seq: u64,
}

/// Stage one write of a transaction.
pub struct PrewriteRequest {
    pub key: Vec<u8>,
    pub value: Vec<u8>,
    pub op: u64,
    pub primary: Vec<u8>,
    pub ts: u64,
    pub seq: u64,
}

pub struct PrewriteReply {
    pub ok: bool,
    pub ts: u64,
    pub seq: u64,
}

/// Commit one key of a transaction.
pub struct CommitRequest {
    pub is_primary: bool,
    pub primary: Vec<u8>,
    pub key: Vec<u8>,
    pub op: u64,
    pub start_ts: u64,
    pub commit_ts: u64,
    pub seq: u64,
}

pub struct CommitReply {
    pub ok: bool,
    pub ts: u64,
    pub seq: u64,
}

/// The state machine of one replica: the column store plus the per-client
/// sequence table that suppresses duplicated commands.
pub struct StateMachine<E: KvsEngine> {
    store: MultiStore<E>,
    last_index: Vec<(u64, u64)>,
}

impl<E: KvsEngine> StateMachine<E> {
    pub closed spec fn inv(&self) -> bool {
        self.store.inv() && assoc_unique(self.last_index@)
    }

    /// The last applied sequence number of each client timestamp.
    pub closed spec fn seq_table(&self) -> Map<u64, u64> {
        assoc_map(self.last_index@)
    }

    pub closed spec fn data_raw(&self) -> Map<Seq<u8>, Seq<u8>> {
        self.store.data_raw()
    }

    pub closed spec fn lock_raw(&self) -> Map<Seq<u8>, Seq<u8>> {
        self.store.lock_raw()
    }

    pub closed spec fn write_raw(&self) -> Map<Seq<u8>, Seq<u8>> {
        self.store.write_raw()
    }

    pub closed spec fn data_view(&self) -> Map<(Seq<u8>, u64), Seq<u8>> {
        self.store.data_view()
    }

    pub closed spec fn lock_view(&self) -> Map<(Seq<u8>, u64), crate::mvcc::LockModel> {
        self.store.lock_view()
    }

    pub closed spec fn write_view(&self) -> Map<(Seq<u8>, u64), crate::mvcc::WriteModel> {
        self.store.write_view()
    }

    /// A command with this `(client_ts, seq)` was already applied.
    pub open spec fn is_dup(&self, ts: u64, seq: u64) -> bool {
        self.seq_table().dom().contains(ts) && seq <= self.seq_table()[ts]
    }

    pub fn new(store: MultiStore<E>) -> (r: StateMachine<E>)
        requires
            store.inv(),
        ensures
            r.inv(),
            r.seq_table() == Map::<u64, u64>::empty(),
            r.data_view() == store.data_view(),
            r.lock_view() == store.lock_view(),
            r.write_view() == store.write_view(),
    {
        StateMachine { store, last_index: Vec::new() }
    }

    /// Whether `(ts, seq)` was already applied.
    pub fn check_duplicate(&self, ts: u64, seq: u64) -> (r: bool)
        requires
            self.inv(),
        ensures
            r == self.is_dup(ts, seq),
    {
        proof {
            lemma_assoc_map_index(self.last_index@);
        }
        match assoc_find(&self.last_index, ts) {
            Some(i) => {
                proof {
                    assert(self.seq_table().dom().contains(ts));
                    assert(self.seq_table()[ts] == self.last_index@[i as int].1);
                }
                self.last_index[i].1 >= seq
            },
            None => {
                proof {
                    if self.seq_table().dom().contains(ts) {
                        let j = choose|j: int|
                            0 <= j < self.last_index@.len() && self.last_index@[j].0 == ts;
                        assert(false);
                    }
                }
                false
            },
        }
    }

    /// Record that `(ts, seq)` has now been applied.
    fn bump_seq(&mut self, ts: u64, seq: u64)
        requires
            old(self).inv(),
        ensures
            final(self).inv(),
            final(self).seq_table() == old(self).seq_table().insert(ts, seq),
            final(self).store == old(self).store,
    {
        proof {
            lemma_assoc_map_index(self.last_index@);
        }
        let ghost m0 = self.seq_table();
        match assoc_find(&self.last_index, ts) {
            Some(i) => {
                proof {
                    lemma_assoc_map_remove(self.last_index@, i as int);
                }
                let _ = self.last_index.remove(i);
                proof {
                    lemma_assoc_map_index(self.last_index@);
                    assert forall|j: int|
                        0 <= j < self.last_index@.len() implies self.last_index@[j].0 != ts by {
                        if self.last_index@[j].0 == ts {
                            assert(assoc_map(self.last_index@).dom().contains(ts));
                            assert(!m0.remove(ts).dom().contains(ts));
                        }
                    }
                }
            },
            None => {},
        }
        let ghost pre = self.last_index@;
        self.last_index.push((ts, seq));
        proof {
            assert(self.last_index@.drop_last() =~= pre);
            assert(assoc_unique(self.last_index@)) by {
                assert(forall|j: int| 0 <= j < pre.len() ==> self.last_index@[j] == pre[j]);
            }
            assert(self.seq_table() == assoc_map(pre).insert(ts, seq));
            assert(self.seq_table() =~= m0.insert(ts, seq));
        }
    }

    /// Apply a committed prewrite command: refused when the `(ts, seq)`
    /// pair was already applied, else it takes effect exactly once.
    pub fn handle_txn_prewrite(&mut self, req: &PrewriteRequest, now_ms: u64) -> (r: Result<
        PrewriteReply,
        KvRpcError,
    >)
        requires
            old(self).inv(),
        ensures
            final(self).inv(),
            old(self).is_dup(req.ts, req.seq) ==> r is Err && *final(self) == *old(self),
            !old(self).is_dup(req.ts, req.seq) ==> final(self).seq_table() == old(
                self,
            ).seq_table().insert(req.ts, req.seq),
            match r {
                Ok(reply) => {
                    &&& !old(self).is_dup(req.ts, req.seq)
                    &&& req.op <= 2
                    &&& reply.ok && reply.ts == req.ts && reply.seq == req.seq
                    &&& crate::txn::none_in(old(self).write_view(), req.key@, req.ts, u64::MAX)
                    &&& crate::txn::none_in(old(self).lock_view(), req.key@, 0, u64::MAX)
                    &&& final(self).data_view() == old(self).data_view().insert(
                        (req.key@, req.ts),
                        req.value@,
                    )
                    &&& exists|op: WriteOp|
                        #[trigger] op.code_spec() == req.op && final(self).lock_view()
                            == crate::txn::prewrite_locks(
                            old(self).lock_view(),
                            req.key@,
                            req.primary@,
                            req.ts,
                            op,
                            now_ms,
                        )
                    &&& final(self).write_view() == old(self).write_view()
                },
                Err(e) => {
                    &&& final(self).data_view() == old(self).data_view()
                    &&& final(self).lock_view() == old(self).lock_view()
                    &&& final(self).write_view() == old(self).write_view()
                    &&& (e is DuplicatedRequest <==> old(self).is_dup(req.ts, req.seq))
                    &&& !old(self).is_dup(req.ts, req.seq) ==> req.op > 2 || (exists|t: u64|
                        req.ts <= t && #[trigger] old(self).write_view().dom().contains(
                            (req.key@, t),
                        )) || (crate::txn::none_in(
                        old(self).write_view(),
                        req.key@,
                        req.ts,
                        u64::MAX,
                    ) && exists|t: u64|
                        #[trigger] old(self).lock_view().dom().contains((req.key@, t)))
                },
            },
    {
        if self.check_duplicate(req.ts, req.seq) {
            return Err(KvRpcError::DuplicatedRequest);
        }
        self.bump_seq(req.ts, req.seq);
        let op = match WriteOp::from_code(req.op) {
            Some(op) => op,
            None => {
                return Err(KvRpcError::Unknown(String::new()));
            },
        };
        let value = crate::bytes_clone(&req.value);
        match prewrite(&mut self.store, &req.key, value, &req.primary, req.ts, op, now_ms) {
            Ok(()) => Ok(PrewriteReply { ok: true, ts: req.ts, seq: req.seq }),
            Err(AbortReason::WriteConflict) => {
                proof {
                    let t0 = choose|t: u64|
                        req.ts <= t && #[trigger] old(self).write_view().dom().contains(
                            (req.key@, t),
                        );
                    assert(req.ts <= t0 && old(self).write_view().dom().contains((req.key@, t0)));
                }
                Err(KvRpcError::Abort(String::new()))
            },
            Err(_) => {
                proof {
                    let t0 = choose|t: u64|
                        #[trigger] old(self).lock_view().dom().contains((req.key@, t));
                    assert(old(self).lock_view().dom().contains((req.key@, t0)));
                }
                Err(KvRpcError::Abort(String::new()))
            },
        }
    }

    /// Apply a committed commit command, deduplicated by
    /// `(commit_ts, seq)`.
    pub fn handle_txn_commit(&mut self, req: &CommitRequest) -> (r: Result<
        CommitReply,
        KvRpcError,
    >)
        requires
            old(self).inv(),
        ensures
            final(self).inv(),
            old(self).is_dup(req.commit_ts, req.seq) ==> r is Err && *final(self) == *old(self),
            !old(self).is_dup(req.commit_ts, req.seq) ==> final(self).seq_table() == old(
                self,
            ).seq_table().insert(req.commit_ts, req.seq),
            match r {
                Ok(reply) => {
                    &&& !old(self).is_dup(req.commit_ts, req.seq)
                    &&& req.op <= 2
                    &&& reply.ok && reply.ts == req.commit_ts && reply.seq == req.seq
                    &&& (req.is_primary ==> old(self).lock_view().dom().contains(
                        (req.primary@, req.start_ts),
                    ))
                    &&& exists|op: WriteOp|
                        #[trigger] op.code_spec() == req.op && final(self).write_view() == old(
                            self,
                        ).write_view().insert(
                            (req.key@, req.commit_ts),
                            crate::mvcc::WriteModel { start_ts: req.start_ts, op },
                        )
                    &&& crate::mvcc::erased_window(
                        old(self).lock_view(),
                        final(self).lock_view(),
                        req.key@,
                        req.commit_ts,
                    )
                    &&& final(self).data_view() == old(self).data_view()
                },
                Err(e) => {
                    &&& final(self).data_view() == old(self).data_view()
                    &&& final(self).lock_view() == old(self).lock_view()
                    &&& final(self).write_view() == old(self).write_view()
                    &&& (e is DuplicatedRequest <==> old(self).is_dup(req.commit_ts, req.seq))
                    &&& !old(self).is_dup(req.commit_ts, req.seq) ==> req.op > 2 || (req.is_primary
                        && !old(self).lock_view().dom().contains((req.primary@, req.start_ts)))
                },
            },
    {
        if self.check_duplicate(req.commit_ts, req.seq) {
            return Err(KvRpcError::DuplicatedRequest);
        }
        self.bump_seq(req.commit_ts, req.seq);
        let op = match WriteOp::from_code(req.op) {
            Some(op) => op,
            None => {
                return Err(KvRpcError::Unknown(String::new()));
            },
        };
        match commit(
            &mut self.store,
            req.is_primary,
            &req.primary,
            &req.key,
            req.start_ts,
            req.commit_ts,
            op,
        ) {
            Ok(()) => Ok(CommitReply { ok: true, ts: req.commit_ts, seq: req.seq }),
            Err(_) => Err(KvRpcError::Abort(String::new())),
        }
    }

    /// Serve a snapshot read. A lock in the way is cleaned up once; a lock
    /// that remains asks the caller to try again later.
    pub fn handle_txn_get(&mut self, req: &GetRequest, now_ms: u64) -> (r: Result<
        GetReply,
        KvRpcError,
    >)
        requires
            old(self).inv(),
        ensures
            final(self).inv(),
            final(self).data_view() == old(self).data_view(),
            match r {
                Ok(reply) => {
                    &&& reply.ts == req.ts && reply.seq == req.seq
                    &&& crate::txn::none_in(final(self).lock_view(), req.key@, 0, req.ts)
                    &&& crate::txn::read_value_ok(
                        final(self).write_view(),
                        final(self).data_view(),
                        req.key@,
                        req.ts,
                        reply.message@,
                    )
                },
                Err(e) => {
                    &&& e is KeyNotFound || e is Timeout
                    &&& e is KeyNotFound ==> crate::txn::none_in(
                        final(self).lock_view(),
                        req.key@,
                        0,
                        req.ts,
                    ) && crate::txn::read_not_found(
                        final(self).write_view(),
                        final(self).data_view(),
                        req.key@,
                        req.ts,
                    )
                    &&& e is Timeout ==> final(self).lock_view() == old(self).lock_view()
                        && final(self).write_view() == old(self).write_view()
                        && crate::txn::lock_must_wait(
                        old(self).lock_view(),
                        old(self).write_view(),
                        req.key@,
                        req.ts,
                        now_ms,
                    ) && exists|t: u64|
                        t <= req.ts && #[trigger] final(self).lock_view().dom().contains(
                            (req.key@, t),
                        )
                },
            },
    {
        match txn_get(&self.store, &req.key, req.ts) {
            TxnGet::Value(v) => {
                proof {
                    assert(self.data_view() == old(self).data_view());
                    assert(crate::txn::none_in(self.lock_view(), req.key@, 0, req.ts));
                    assert(crate::txn::read_value_ok(
                        self.write_view(),
                        self.data_view(),
                        req.key@,
                        req.ts,
                        v@,
                    ));
                    assert(self.inv());
                }
                return Ok(GetReply { message: v, ts: req.ts, seq: req.seq });
            },
            TxnGet::KeyNotFound => {
                proof {
                    assert(crate::txn::read_not_found(
                        self.write_view(),
                        self.data_view(),
                        req.key@,
                        req.ts,
                    ));
                }
                return Err(KvRpcError::KeyNotFound);
            },
            TxnGet::Locked => {},
        }
        let outcome = lock_back_off_or_clean_up(&mut self.store, &req.key, req.ts, now_ms);
        proof {
            match outcome {
                crate::txn::Cleanup::NoLock => {},
                crate::txn::Cleanup::Waited { .. } => {},
                crate::txn::Cleanup::RolledBack { .. } => {},
                crate::txn::Cleanup::RolledForward { .. } => {},
                crate::txn::Cleanup::Cleared { .. } => {},
                crate::txn::Cleanup::Unresolved { .. } => {},
            }
            assert(self.data_view() == old(self).data_view());
        }
        match txn_get(&self.store, &req.key, req.ts) {
            TxnGet::Value(v) => {
                proof {
                    assert(crate::txn::none_in(self.lock_view(), req.key@, 0, req.ts));
                    assert(crate::txn::read_value_ok(
                        self.write_view(),
                        self.data_view(),
                        req.key@,
                        req.ts,
                        v@,
                    ));
                }
                Ok(GetReply { message: v, ts: req.ts, seq: req.seq })
            },
            TxnGet::KeyNotFound => Err(KvRpcError::KeyNotFound),
            TxnGet::Locked => {
                proof {
                    let t0 = choose|t: u64|
                        t <= req.ts && #[trigger] self.store.lock_view().dom().contains(
                            (req.key@, t),
                        );
                    assert(t0 <= req.ts && self.lock_view().dom().contains((req.key@, t0)));
                    match outcome {
                        crate::txn::Cleanup::NoLock => {
                            assert(false);
                        },
                        crate::txn::Cleanup::Waited { lock_ts } => {
                            assert(crate::txn::latest_in(
                                old(self).lock_view(),
                                req.key@,
                                0,
                                req.ts,
                                lock_ts,
                            ));
                            assert(crate::txn::lock_must_wait(
                                old(self).lock_view(),
                                old(self).write_view(),
                                req.key@,
                                req.ts,
                                now_ms,
                            ));
                        },
                        crate::txn::Cleanup::RolledBack { .. } => {
                            assert(false);
                        },
                        crate::txn::Cleanup::RolledForward { lock_ts, .. } => {
                            assert(false);
                        },
                        crate::txn::Cleanup::Cleared { .. } => {
                            assert(false);
                        },
                        crate::txn::Cleanup::Unresolved { lock_ts, .. } => {
                            assert(crate::txn::latest_in(
                                old(self).lock_view(),
                                req.key@,
                                0,
                                req.ts,
                                lock_ts,
                            ));
                            assert(crate::txn::lock_must_wait(
                                old(self).lock_view(),
                                old(self).write_view(),
                                req.key@,
                                req.ts,
                                now_ms,
                            ));
                        },
                    }
                }
                Err(KvRpcError::Timeout)
            },
        }
    }
}

/// Once a command was applied, replaying the identical command is a
/// duplicate: applying `(ts, seq)` makes every later identical `(ts, seq)`
/// fall to duplicate suppression, so at most one store mutation happens.
pub proof fn lemma_duplicate_suppressed(t0: Map<u64, u64>, t1: Map<u64, u64>, ts: u64, seq: u64)
    requires
        t1 == t0.insert(ts, seq),  // what a non-duplicate apply ensures of the table
    ensures
        t1.dom().contains(ts) && seq <= t1[ts],  // the same pair is a duplicate afterwards
{
}

} // verus!

verus! {

impl<E: KvsEngine> StateMachine<E> {
    /// [`Self::handle_txn_prewrite`] with the lock lease stamped from the
    /// wall clock.
    pub fn handle_txn_prewrite_now(&mut self, req: &PrewriteRequest) -> (r: Result<
        PrewriteReply,
        KvRpcError,
    >)
        requires
            old(self).inv(),
        ensures
            final(self).inv(),
            old(self).is_dup(req.ts, req.seq) ==> r is Err && *final(self) == *old(self),
            !old(self).is_dup(req.ts, req.seq) ==> final(self).seq_table() == old(
                self,
            ).seq_table().insert(req.ts, req.seq),
            match r {
                Ok(reply) => {
                    &&& !old(self).is_dup(req.ts, req.seq)
                    &&& reply.ok && reply.ts == req.ts && reply.seq == req.seq
                    &&& crate::txn::none_in(old(self).write_view(), req.key@, req.ts, u64::MAX)
                    &&& crate::txn::none_in(old(self).lock_view(), req.key@, 0, u64::MAX)
                    &&& final(self).data_view() == old(self).data_view().insert(
                        (req.key@, req.ts),
                        req.value@,
                    )
                    &&& exists|op: WriteOp, now: u64|
                        op.code_spec() == req.op && final(self).lock_view() == #[trigger]
                        crate::txn::prewrite_locks(
                            old(self).lock_view(),
                            req.key@,
                            req.primary@,
                            req.ts,
                            op,
                            now,
                        )
                    &&& final(self).write_view() == old(self).write_view()
                },
                Err(e) => {
                    &&& final(self).data_view() == old(self).data_view()
                    &&& final(self).lock_view() == old(self).lock_view()
                    &&& final(self).write_view() == old(self).write_view()
                    &&& (e is DuplicatedRequest <==> old(self).is_dup(req.ts, req.seq))
                    &&& !old(self).is_dup(req.ts, req.seq) ==> req.op > 2 || (exists|t: u64|
                        req.ts <= t && #[trigger] old(self).write_view().dom().contains(
                            (req.key@, t),
                        )) || (crate::txn::none_in(
                        old(self).write_view(),
                        req.key@,
                        req.ts,
                        u64::MAX,
                    ) && exists|t: u64|
                        #[trigger] old(self).lock_view().dom().contains((req.key@, t)))
                },
            },
    {
        let now_ms = crate::clock::wall_clock_ms();
        self.handle_txn_prewrite(req, now_ms)
    }

    /// [`Self::handle_txn_get`] with lock ages judged by the wall clock.
    pub fn handle_txn_get_now(&mut self, req: &GetRequest) -> (r: Result<GetReply, KvRpcError>)
        requires
            old(self).inv(),
        ensures
            final(self).inv(),
            final(self).data_view() == old(self).data_view(),
            match r {
                Ok(reply) => {
                    &&& reply.ts == req.ts && reply.seq == req.seq
                    &&& crate::txn::none_in(final(self).lock_view(), req.key@, 0, req.ts)
                    &&& crate::txn::read_value_ok(
                        final(self).write_view(),
                        final(self).data_view(),
                        req.key@,
                        req.ts,
                        reply.message@,
                    )
                },
                Err(e) => e is KeyNotFound || e is Timeout,
            },
    {
        let now_ms = crate::clock::wall_clock_ms();
        self.handle_txn_get(req, now_ms)
    }
}

} // verus!

verus! {

impl<E: KvsEngine> StateMachine<E> {
    /// The whole state machine as plain values: the three columns'
    /// bindings and the per-client sequence table, for the caller to
    /// serialize as a snapshot.
    pub fn create_snapshot(&self) -> (r: (
        ((Vec<Vec<u8>>, Vec<Vec<u8>>), (Vec<Vec<u8>>, Vec<Vec<u8>>), (Vec<Vec<u8>>, Vec<Vec<u8>>)),
        Vec<(u64, u64)>,
    ))
        requires
            self.inv(),
        ensures
            crate::engine::pairs_map(r.0.0.0@, r.0.0.1@) == self.data_raw(),
            crate::engine::pairs_map(r.0.1.0@, r.0.1.1@) == self.lock_raw(),
            crate::engine::pairs_map(r.0.2.0@, r.0.2.1@) == self.write_raw(),
            r.0.0.0@.len() == r.0.0.1@.len() && r.0.1.0@.len() == r.0.1.1@.len() && r.0.2.0@.len()
                == r.0.2.1@.len(),
            assoc_map(r.1@) == self.seq_table(),
            assoc_unique(r.1@),
            // the snapshot is in the store's own formats, so it satisfies
            // what restoring asks of its input
            crate::mvcc::keys_wf(crate::engine::pairs_map(r.0.0.0@, r.0.0.1@)),
            crate::mvcc::keys_wf(crate::engine::pairs_map(r.0.1.0@, r.0.1.1@)),
            crate::mvcc::keys_wf(crate::engine::pairs_map(r.0.2.0@, r.0.2.1@)),
            crate::mvcc::lock_vals_wf(crate::engine::pairs_map(r.0.1.0@, r.0.1.1@)),
            crate::mvcc::write_vals_wf(crate::engine::pairs_map(r.0.2.0@, r.0.2.1@)),
    {
        let cols = self.store.export();
        let n = self.last_index.len();
        let mut table: Vec<(u64, u64)> = Vec::new();
        let mut i: usize = 0;
        while i < n
            invariant
                n == self.last_index@.len(),
                i <= n,
                table@ == self.last_index@.subrange(0, i as int),
            decreases n - i,
        {
            let (k, v) = self.last_index[i];
            table.push((k, v));
            proof {
                assert(table@ =~= self.last_index@.subrange(0, (i + 1) as int));
            }
            i = i + 1;
        }
        proof {
            assert(self.last_index@.subrange(0, n as int) =~= self.last_index@);
        }
        (cols, table)
    }

    /// Rebuild the state machine from snapshot values; the column bindings
    /// must be in the store's formats, as [`Self::create_snapshot`] yields
    /// them.
    pub fn restore_from_snapshot(
        &mut self,
        cols: ((Vec<Vec<u8>>, Vec<Vec<u8>>), (Vec<Vec<u8>>, Vec<Vec<u8>>), (Vec<Vec<u8>>, Vec<Vec<u8>>)),
        table: Vec<(u64, u64)>,
    )
        requires
            old(self).inv(),
            cols.0.0@.len() == cols.0.1@.len() && cols.1.0@.len() == cols.1.1@.len()
                && cols.2.0@.len() == cols.2.1@.len(),
            crate::mvcc::keys_wf(crate::engine::pairs_map(cols.0.0@, cols.0.1@)),
            crate::mvcc::keys_wf(crate::engine::pairs_map(cols.1.0@, cols.1.1@)),
            crate::mvcc::keys_wf(crate::engine::pairs_map(cols.2.0@, cols.2.1@)),
            crate::mvcc::lock_vals_wf(crate::engine::pairs_map(cols.1.0@, cols.1.1@)),
            crate::mvcc::write_vals_wf(crate::engine::pairs_map(cols.2.0@, cols.2.1@)),
            assoc_unique(table@),
        ensures
            final(self).inv(),
            final(self).data_raw() == crate::engine::pairs_map(cols.0.0@, cols.0.1@),
            final(self).lock_raw() == crate::engine::pairs_map(cols.1.0@, cols.1.1@),
            final(self).write_raw() == crate::engine::pairs_map(cols.2.0@, cols.2.1@),
            final(self).seq_table() == assoc_map(table@),
    {
        let (d, l, w) = cols;
        self.store.import(d, l, w);
        self.last_index = table;
    }
}

} // verus!
