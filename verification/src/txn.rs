//! The Percolator transaction engine: snapshot reads, prewrite, two-phase
//! commit and lock cleanup, each an atomic step against the column store.
//!
//! The wall clock never enters this module: every step that compares lock
//! ages takes the caller's reading of the clock as a plain argument, and
//! its contract holds for every value of it.

use vstd::prelude::*;

use crate::common::WriteOp;
use crate::engine::KvsEngine;
use crate::mvcc::{MultiStore, LockModel, WriteModel};

verus! {

/// How long a primary lock may sit before a reader may roll it back.
pub const LOCK_TTL_MS: u64 = 3000;

/// `t` is the newest timestamp of `k` within `[lo, hi]` in the view.
pub open spec fn latest_in<V>(
    view: Map<(Seq<u8>, u64), V>,
    k: Seq<u8>,
    lo: u64,
    hi: u64,
    t: u64,
) -> bool {
    &&& lo <= t <= hi
    &&& view.dom().contains((k, t))
    &&& forall|t2: u64| lo <= t2 <= hi && view.dom().contains((k, t2)) ==> t2 <= t
}

/// `k` has no entry within `[lo, hi]` in the view.
pub open spec fn none_in<V>(view: Map<(Seq<u8>, u64), V>, k: Seq<u8>, lo: u64, hi: u64) -> bool {
    forall|t: u64| lo <= t <= hi ==> !view.dom().contains((k, t))
}

/// A snapshot read of `k` at `ts` yields `msg`: the newest committed write
/// at or before `ts` is a non-delete and points at a Data record holding
/// `msg`.
pub open spec fn read_value_ok(
    w: Map<(Seq<u8>, u64), WriteModel>,
    d: Map<(Seq<u8>, u64), Seq<u8>>,
    k: Seq<u8>,
    ts: u64,
    msg: Seq<u8>,
) -> bool {
    exists|c: u64|
        #[trigger] latest_in(w, k, 0, ts, c) && w[(k, c)].op != WriteOp::Delete && d.dom().contains(
            (k, w[(k, c)].start_ts),
        ) && msg == d[(k, w[(k, c)].start_ts)]
}

/// A snapshot read of `k` at `ts` finds nothing: no committed write, or a
/// delete, or a pointer with no Data record behind it.
pub open spec fn read_not_found(
    w: Map<(Seq<u8>, u64), WriteModel>,
    d: Map<(Seq<u8>, u64), Seq<u8>>,
    k: Seq<u8>,
    ts: u64,
) -> bool {
    none_in(w, k, 0, ts) || exists|c: u64|
        #[trigger] latest_in(w, k, 0, ts, c) && (w[(k, c)].op == WriteOp::Delete
            || !d.dom().contains((k, w[(k, c)].start_ts)))
}

/// A lock on `k` at or before `ts` is one that cleanup legitimately
/// leaves as of wall clock `now_ms`: its primary's lease is still young,
/// or the primary's newest write points at another transaction.
pub open spec fn lock_must_wait(
    locks: Map<(Seq<u8>, u64), LockModel>,
    writes: Map<(Seq<u8>, u64), WriteModel>,
    k: Seq<u8>,
    ts: u64,
    now_ms: u64,
) -> bool {
    exists|lt: u64|
        #[trigger] latest_in(locks, k, 0, ts, lt) && ((exists|plt: u64|
            #[trigger] latest_in(locks, locks[(k, lt)].primary, 0, ts, plt) && (if now_ms
                >= locks[(locks[(k, lt)].primary, plt)].ttl_start_ms {
                now_ms - locks[(locks[(k, lt)].primary, plt)].ttl_start_ms
            } else {
                0int
            }) < LOCK_TTL_MS) || (none_in(locks, locks[(k, lt)].primary, 0, ts) && exists|wt: u64|
            #[trigger] latest_in(writes, locks[(k, lt)].primary, lt, u64::MAX, wt) && writes[
                (locks[(k, lt)].primary, wt)
            ].start_ts != lt))
}

/// Why a transaction step refused to proceed.
#[derive(Debug, Clone, PartialEq, Eq, Structural)]
pub enum AbortReason {
    /// A committed write at or after the start timestamp.
    WriteConflict,
    /// Some other transaction holds a lock on the key.
    LockConflict,
    /// The primary lock was gone at commit time.
    PrimaryLockMissing,
}

/// What the lock column looks like after a prewrite of `key` succeeded.
pub open spec fn prewrite_locks(
    locks: Map<(Seq<u8>, u64), LockModel>,
    key: Seq<u8>,
    primary: Seq<u8>,
    start_ts: u64,
    op: WriteOp,
    now_ms: u64,
) -> Map<(Seq<u8>, u64), LockModel> {
    let l1 = locks.insert(
        (key, start_ts),
        LockModel { primary, ttl_start_ms: now_ms, op },
    );
    if l1.dom().contains((primary, start_ts)) {
        l1.insert(
            (primary, start_ts),
            LockModel {
                primary: l1[(primary, start_ts)].primary,
                ttl_start_ms: now_ms,
                op: l1[(primary, start_ts)].op,
            },
        )
    } else {
        l1
    }
}

/// Prewrite: refuse on a committed write at or after `start_ts`, refuse on
/// any lock; else stage the value, lock the key, and refresh the primary
/// lock's lease.
pub fn prewrite<E: KvsEngine>(
    store: &mut MultiStore<E>,
    key: &Vec<u8>,
    value: Vec<u8>,
    primary: &Vec<u8>,
    start_ts: u64,
    op: WriteOp,
    now_ms: u64,
) -> (r: Result<(), AbortReason>)
    requires
        old(store).inv(),
    ensures
        final(store).inv(),
        match r {
            Ok(()) => {
                &&& none_in(old(store).write_view(), key@, start_ts, u64::MAX)
                &&& none_in(old(store).lock_view(), key@, 0, u64::MAX)
                &&& final(store).data_view() == old(store).data_view().insert(
                    (key@, start_ts),
                    value@,
                )
                &&& final(store).lock_view() == prewrite_locks(
                    old(store).lock_view(),
                    key@,
                    primary@,
                    start_ts,
                    op,
                    now_ms,
                )
                &&& final(store).write_view() == old(store).write_view()
            },
            Err(e) => {
                &&& final(store).data_view() == old(store).data_view()
                &&& final(store).lock_view() == old(store).lock_view()
                &&& final(store).write_view() == old(store).write_view()
                &&& (e == AbortReason::WriteConflict <==> exists|t: u64|
                    start_ts <= t && #[trigger] old(store).write_view().dom().contains((key@, t)))
                &&& (e == AbortReason::LockConflict ==> none_in(
                    old(store).write_view(),
                    key@,
                    start_ts,
                    u64::MAX,
                ) && exists|t: u64| #[trigger] old(store).lock_view().dom().contains((key@, t)))
                &&& (e == AbortReason::WriteConflict || e == AbortReason::LockConflict)
            },
        },
{
    if store.read_write(key, Some(start_ts), None).is_some() {
        proof {
            assert(exists|t: u64|
                start_ts <= t && #[trigger] old(store).write_view().dom().contains((key@, t)));
        }
        return Err(AbortReason::WriteConflict);
    }
    if store.read_lock(key, None, None).is_some() {
        return Err(AbortReason::LockConflict);
    }
    store.write_data(key, start_ts, value);
    store.write_lock(key, start_ts, primary, op, now_ms);
    store.update_lock(primary, start_ts, now_ms);
    Ok(())
}

/// Commit one key: the primary must still hold its lock; the write column
/// gains the committed pointer and the key's locks up to `commit_ts` leave.
pub fn commit<E: KvsEngine>(
    store: &mut MultiStore<E>,
    is_primary: bool,
    primary: &Vec<u8>,
    key: &Vec<u8>,
    start_ts: u64,
    commit_ts: u64,
    op: WriteOp,
) -> (r: Result<(), AbortReason>)
    requires
        old(store).inv(),
    ensures
        final(store).inv(),
        match r {
            Ok(()) => {
                &&& (is_primary ==> old(store).lock_view().dom().contains((primary@, start_ts)))
                &&& final(store).write_view() == old(store).write_view().insert(
                    (key@, commit_ts),
                    WriteModel { start_ts, op },
                )
                &&& crate::mvcc::erased_window(
                    old(store).lock_view(),
                    final(store).lock_view(),
                    key@,
                    commit_ts,
                )
                &&& final(store).data_view() == old(store).data_view()
            },
            Err(e) => {
                &&& e == AbortReason::PrimaryLockMissing
                &&& is_primary
                &&& !old(store).lock_view().dom().contains((primary@, start_ts))
                &&& final(store).data_view() == old(store).data_view()
                &&& final(store).lock_view() == old(store).lock_view()
                &&& final(store).write_view() == old(store).write_view()
            },
        },
{
    if is_primary {
        if store.read_lock(primary, Some(start_ts), Some(start_ts)).is_none() {
            return Err(AbortReason::PrimaryLockMissing);
        }
    }
    store.write_write(key, commit_ts, start_ts, op);
    store.erase_lock(key, commit_ts);
    Ok(())
}

} // verus!

verus! {

/// The outcome of a snapshot read.
pub enum TxnGet {
    /// The committed value as of the read timestamp.
    Value(Vec<u8>),
    /// No committed, non-deleted value at or before the read timestamp.
    KeyNotFound,
    /// A lock at or before the read timestamp is in the way; clean it up
    /// and retry.
    Locked,
}

/// Snapshot read at `ts`: blocked by any lock at or before `ts`, else the
/// data record the newest committed write points to.
pub fn txn_get<E: KvsEngine>(store: &MultiStore<E>, key: &Vec<u8>, ts: u64) -> (r: TxnGet)
    requires
        store.inv(),
    ensures
        match r {
            TxnGet::Locked => exists|t: u64|
                t <= ts && #[trigger] store.lock_view().dom().contains((key@, t)),
            TxnGet::KeyNotFound => none_in(store.lock_view(), key@, 0, ts) && read_not_found(
                store.write_view(),
                store.data_view(),
                key@,
                ts,
            ),
            TxnGet::Value(v) => none_in(store.lock_view(), key@, 0, ts) && read_value_ok(
                store.write_view(),
                store.data_view(),
                key@,
                ts,
                v@,
            ),
        },
{
    match store.read_lock(key, None, Some(ts)) {
        Some((lk, _lv)) => {
            proof {
                assert(store.lock_view().dom().contains((key@, lk@.1)) && lk@.1 <= ts);
            }
            TxnGet::Locked
        },
        None => {
            match store.read_write(key, None, Some(ts)) {
                None => TxnGet::KeyNotFound,
                Some((wk, wv)) => {
                    let ghost c = wk@.1;
                    proof {
                        assert(latest_in(store.write_view(), key@, 0, ts, c));
                    }
                    if matches!(wv.op(), WriteOp::Delete) {
                        return TxnGet::KeyNotFound;
                    }
                    let data_ts = wv.ts();
                    match store.read_data(key, Some(data_ts), Some(data_ts)) {
                        None => TxnGet::KeyNotFound,
                        Some((_dk, dv)) => {
                            let v = dv.value();
                            TxnGet::Value(v)
                        },
                    }
                },
            }
        },
    }
}

/// What a lock cleanup did, with the witnesses its contract speaks of.
pub enum Cleanup {
    /// No lock at or before the read timestamp: nothing to do.
    NoLock,
    /// The primary lock is still alive and young: back off and wait.
    Waited { lock_ts: u64 },
    /// The primary lock outlived its lease: roll the transaction back.
    RolledBack { lock_ts: u64, primary: Vec<u8> },
    /// The primary committed: roll this key forward to the commit.
    RolledForward { lock_ts: u64, primary: Vec<u8>, commit_ts: u64 },
    /// Neither primary lock nor matching primary write: drop the stale lock.
    Cleared { lock_ts: u64, primary: Vec<u8> },
    /// The primary's newest write points at another transaction: leave the
    /// lock for that transaction's own resolution.
    Unresolved { lock_ts: u64, primary: Vec<u8> },
}

/// Resolve a lock found on `key` at or before `ts`, as of wall clock
/// `now_ms`: wait while the primary's lease is young; roll every lock back
/// once the lease lapsed; roll this key forward when the primary committed;
/// drop the lock when the primary did neither.
pub fn lock_back_off_or_clean_up<E: KvsEngine>(
    store: &mut MultiStore<E>,
    key: &Vec<u8>,
    ts: u64,
    now_ms: u64,
) -> (r: Cleanup)
    requires
        old(store).inv(),
    ensures
        final(store).inv(),
        match r {
            Cleanup::NoLock => none_in(old(store).lock_view(), key@, 0, ts) && final(store).inv()
                && final(store).data_view() == old(store).data_view() && final(store).lock_view()
                == old(store).lock_view() && final(store).write_view() == old(store).write_view(),
            Cleanup::Waited { lock_ts } => {
                let lock = old(store).lock_view()[(key@, lock_ts)];
                &&& latest_in(old(store).lock_view(), key@, 0, ts, lock_ts)
                &&& exists|plt: u64|
                    #[trigger] latest_in(old(store).lock_view(), lock.primary, 0, ts, plt) && (
                    if now_ms >= old(store).lock_view()[(lock.primary, plt)].ttl_start_ms {
                        now_ms - old(store).lock_view()[(lock.primary, plt)].ttl_start_ms
                    } else {
                        0int
                    }) < LOCK_TTL_MS
                &&& final(store).data_view() == old(store).data_view()
                &&& final(store).lock_view() == old(store).lock_view()
                &&& final(store).write_view() == old(store).write_view()
            },
            Cleanup::RolledBack { lock_ts, primary } => {
                let lock = old(store).lock_view()[(key@, lock_ts)];
                &&& latest_in(old(store).lock_view(), key@, 0, ts, lock_ts)
                &&& primary@ == lock.primary
                &&& exists|plt: u64|
                    #[trigger] latest_in(old(store).lock_view(), lock.primary, 0, ts, plt) && (
                    if now_ms >= old(store).lock_view()[(lock.primary, plt)].ttl_start_ms {
                        now_ms - old(store).lock_view()[(lock.primary, plt)].ttl_start_ms
                    } else {
                        0int
                    }) >= LOCK_TTL_MS
                &&& forall|p: (Seq<u8>, u64)| #[trigger]
                    final(store).lock_view().dom().contains(p) <==> (old(
                        store,
                    ).lock_view().dom().contains(p) && !(p.0 == primary@ && p.1 <= ts) && !(p.0
                        == key@ && p.1 <= ts))
                &&& forall|p: (Seq<u8>, u64)| #[trigger]
                    final(store).lock_view().dom().contains(p) ==> final(store).lock_view()[p]
                        == old(store).lock_view()[p]
                &&& final(store).data_view() == old(store).data_view()
                &&& final(store).write_view() == old(store).write_view()
            },
            Cleanup::RolledForward { lock_ts, primary, commit_ts } => {
                let lock = old(store).lock_view()[(key@, lock_ts)];
                &&& latest_in(old(store).lock_view(), key@, 0, ts, lock_ts)
                &&& primary@ == lock.primary
                &&& none_in(old(store).lock_view(), lock.primary, 0, ts)
                &&& latest_in(old(store).write_view(), lock.primary, lock_ts, u64::MAX, commit_ts)
                &&& old(store).write_view()[(lock.primary, commit_ts)].start_ts == lock_ts
                &&& final(store).write_view() == old(store).write_view().insert(
                    (key@, commit_ts),
                    WriteModel { start_ts: lock_ts, op: lock.op },
                )
                &&& crate::mvcc::erased_window(
                    old(store).lock_view(),
                    final(store).lock_view(),
                    key@,
                    lock_ts,
                )
                &&& final(store).data_view() == old(store).data_view()
            },
            Cleanup::Cleared { lock_ts, primary } => {
                let lock = old(store).lock_view()[(key@, lock_ts)];
                &&& latest_in(old(store).lock_view(), key@, 0, ts, lock_ts)
                &&& primary@ == lock.primary
                &&& none_in(old(store).lock_view(), lock.primary, 0, ts)
                &&& none_in(old(store).write_view(), lock.primary, lock_ts, u64::MAX)
                &&& crate::mvcc::erased_window(
                    old(store).lock_view(),
                    final(store).lock_view(),
                    key@,
                    ts,
                )
                &&& final(store).data_view() == old(store).data_view()
                &&& final(store).write_view() == old(store).write_view()
            },
            Cleanup::Unresolved { lock_ts, primary } => {
                let lock = old(store).lock_view()[(key@, lock_ts)];
                &&& latest_in(old(store).lock_view(), key@, 0, ts, lock_ts)
                &&& primary@ == lock.primary
                &&& none_in(old(store).lock_view(), lock.primary, 0, ts)
                &&& exists|wt: u64|
                    #[trigger] latest_in(
                        old(store).write_view(),
                        lock.primary,
                        lock_ts,
                        u64::MAX,
                        wt,
                    ) && old(store).write_view()[(lock.primary, wt)].start_ts != lock_ts
                &&& final(store).data_view() == old(store).data_view()
                &&& final(store).lock_view() == old(store).lock_view()
                &&& final(store).write_view() == old(store).write_view()
            },
        },
{
    match store.read_lock(key, None, Some(ts)) {
        None => Cleanup::NoLock,
        Some((lock_key, lock_value)) => {
            let lock_ts = lock_key.ts();
            let primary = crate::bytes_clone(lock_value.primary());
            let op = lock_value.op();
            let ghost lock = old(store).lock_view()[(key@, lock_ts)];
            proof {
                assert(latest_in(old(store).lock_view(), key@, 0, ts, lock_ts));
                assert(lock_value@ == lock);
                assert(primary@ == lock.primary);
                assert(op == lock.op);
            }
            match store.read_lock(&primary, None, Some(ts)) {
                Some((pl_key, pl_value)) => {
                    let ghost plt = pl_key@.1;
                    proof {
                        assert(latest_in(old(store).lock_view(), lock.primary, 0, ts, plt));
                        assert(pl_value@ == old(store).lock_view()[(lock.primary, plt)]);
                    }
                    if pl_value.elapsed(now_ms) >= LOCK_TTL_MS {
                        let ghost mid = *store;
                        store.erase_lock(&primary, ts);
                        let ghost mid2 = *store;
                        store.erase_lock(key, ts);
                        proof {
                            assert forall|p: (Seq<u8>, u64)| true implies (
                            #[trigger] store.lock_view().dom().contains(p) <==> (old(
                                store,
                            ).lock_view().dom().contains(p) && !(p.0 == primary@ && p.1 <= ts) && !(
                            p.0 == key@ && p.1 <= ts))) by {
                                assert(store.lock_view().dom().contains(p) <==> (
                                mid2.lock_view().dom().contains(p) && !(p.0 == key@ && p.1 <= ts)));
                                assert(mid2.lock_view().dom().contains(p) <==> (
                                mid.lock_view().dom().contains(p) && !(p.0 == primary@ && p.1
                                    <= ts)));
                            }
                        }
                        Cleanup::RolledBack { lock_ts, primary }
                    } else {
                        Cleanup::Waited { lock_ts }
                    }
                },
                None => {
                    proof {
                        assert(none_in(old(store).lock_view(), lock.primary, 0, ts));
                    }
                    match store.read_write(&primary, Some(lock_ts), None) {
                        Some((write_key, write_value)) => {
                            let ghost wt = write_key@.1;
                            proof {
                                assert(latest_in(
                                    old(store).write_view(),
                                    lock.primary,
                                    lock_ts,
                                    u64::MAX,
                                    wt,
                                ));
                                assert(write_value@ == old(store).write_view()[
                                    (lock.primary, wt)
                                ]);
                            }
                            if write_value.ts() == lock_ts {
                                let commit_ts = write_key.ts();
                                store.write_write(key, commit_ts, lock_ts, op);
                                store.erase_lock(key, lock_ts);
                                Cleanup::RolledForward { lock_ts, primary, commit_ts }
                            } else {
                                Cleanup::Unresolved { lock_ts, primary }
                            }
                        },
                        None => {
                            store.erase_lock(key, ts);
                            Cleanup::Cleared { lock_ts, primary }
                        },
                    }
                },
            }
        },
    }
}

} // verus!
