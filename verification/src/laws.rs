//! The library-wide laws, each proved from the contracts the components
//! state, so that a reader sees them written down rather than implied.

use vstd::prelude::*;

use crate::codec::RecModel;
use crate::engine::replay_step;
use crate::mvcc::WriteModel;
use crate::common::WriteOp;
use crate::txn::latest_in;

verus! {

/// A record mentions key `k`.
pub open spec fn touches(r: RecModel, k: Seq<u8>) -> bool {
    match r {
        RecModel::Put { key, value } => key == k,
        RecModel::Remove { key } => key == k,
    }
}

/// The map after a run of records is applied, oldest first.
pub open spec fn apply_ops(m: Map<Seq<u8>, Seq<u8>>, ops: Seq<RecModel>) -> Map<Seq<u8>, Seq<u8>>
    decreases ops.len(),
{
    if ops.len() == 0 {
        m
    } else {
        replay_step(apply_ops(m, ops.drop_last()), ops.last())
    }
}

/// A value once set stays readable until some later operation names its
/// key: `get(k)` after `set(k, v)` returns `v` across any run of operations
/// on other keys. (The engine's `set`, `remove` and `compact` contracts
/// state the per-operation map transforms this law composes.)
pub proof fn lemma_get_after_set(
    m: Map<Seq<u8>, Seq<u8>>,
    k: Seq<u8>,
    v: Seq<u8>,
    ops: Seq<RecModel>,
)
    requires
        forall|i: int| 0 <= i < ops.len() ==> !touches(#[trigger] ops[i], k),
    ensures
        apply_ops(m.insert(k, v), ops).dom().contains(k),
        apply_ops(m.insert(k, v), ops)[k] == v,
    decreases ops.len(),
{
    if ops.len() > 0 {
        let ops0 = ops.drop_last();
        assert(forall|i: int| 0 <= i < ops0.len() ==> ops0[i] == ops[i]);
        lemma_get_after_set(m, k, v, ops0);
        assert(!touches(ops[ops.len() - 1], k));
    }
}

/// Exporting and importing the whole store is the identity on the
/// observable map: export yields pairs that denote the map, and import
/// makes the denoted map the store's map.
pub proof fn lemma_export_import_identity(
    m: Map<Seq<u8>, Seq<u8>>,
    ks: Seq<Vec<u8>>,
    vs: Seq<Vec<u8>>,
    m2: Map<Seq<u8>, Seq<u8>>,
)
    requires
        crate::engine::pairs_map(ks, vs) == m,  // what export ensures of its result
        m2 == crate::engine::pairs_map(ks, vs),  // what import ensures of the store
    ensures
        m2 == m,
{
}

/// Snapshot, then restore, is the identity on the whole observable service
/// state: the snapshot's pairs denote the three columns and its table the
/// sequence table, and restoring makes exactly those denoted maps the
/// state. (`create_snapshot` also ensures the format predicates that
/// `restore_from_snapshot` requires, so the two compose in verified code.)
pub proof fn lemma_snapshot_restore_identity(
    d0: Map<Seq<u8>, Seq<u8>>,
    l0: Map<Seq<u8>, Seq<u8>>,
    w0: Map<Seq<u8>, Seq<u8>>,
    t0: Map<u64, u64>,
    dk: Seq<Vec<u8>>,
    dv: Seq<Vec<u8>>,
    lk: Seq<Vec<u8>>,
    lv: Seq<Vec<u8>>,
    wk: Seq<Vec<u8>>,
    wv: Seq<Vec<u8>>,
    table: Seq<(u64, u64)>,
    d1: Map<Seq<u8>, Seq<u8>>,
    l1: Map<Seq<u8>, Seq<u8>>,
    w1: Map<Seq<u8>, Seq<u8>>,
    t1: Map<u64, u64>,
)
    requires
        // what taking the snapshot ensures of its output
        crate::engine::pairs_map(dk, dv) == d0,
        crate::engine::pairs_map(lk, lv) == l0,
        crate::engine::pairs_map(wk, wv) == w0,
        crate::assoc::assoc_map(table) == t0,
        // what restoring from it ensures of the state
        d1 == crate::engine::pairs_map(dk, dv),
        l1 == crate::engine::pairs_map(lk, lv),
        w1 == crate::engine::pairs_map(wk, wv),
        t1 == crate::assoc::assoc_map(table),
    ensures
        d1 == d0 && l1 == l0 && w1 == w0 && t1 == t0,
{
}

/// A committed transaction is visible: once prewrite staged `(k, v)` at
/// `start_ts` and commit added the pointer at `commit_ts`, the newest Write
/// entry of `k` at or before `commit_ts` is exactly that pointer, and the
/// Data column holds `v` where it points.
pub proof fn lemma_committed_write_visible(
    w0: Map<(Seq<u8>, u64), WriteModel>,
    d0: Map<(Seq<u8>, u64), Seq<u8>>,
    w1: Map<(Seq<u8>, u64), WriteModel>,
    d1: Map<(Seq<u8>, u64), Seq<u8>>,
    k: Seq<u8>,
    v: Seq<u8>,
    op: WriteOp,
    start_ts: u64,
    commit_ts: u64,
)
    requires
        d1 == d0.insert((k, start_ts), v),  // what prewrite ensures of the Data column
        w1 == w0.insert((k, commit_ts), WriteModel { start_ts, op }),  // what commit ensures
    ensures
        latest_in(w1, k, 0, commit_ts, commit_ts),
        forall|t: u64|
            #[trigger] latest_in(w1, k, 0, commit_ts, t) ==> t == commit_ts && w1[(
                k,
                t,
            )].start_ts == start_ts && w1[(k, t)].op == op,
        d1.dom().contains((k, start_ts)),
        d1[(k, start_ts)] == v,
{
    assert(w1.dom().contains((k, commit_ts)));
    assert forall|t: u64| #[trigger] latest_in(w1, k, 0, commit_ts, t) implies t == commit_ts
        && w1[(k, t)].start_ts == start_ts && w1[(k, t)].op == op by {
        assert(commit_ts <= t);
    }
}

/// A transaction that never committed stays invisible: prewrite leaves the
/// Write column untouched, and lock cleanup adds a Write entry for a
/// secondary key only by roll-forward, which demands that the primary
/// itself committed at the same start timestamp.
pub proof fn lemma_uncommitted_invisible(
    w0: Map<(Seq<u8>, u64), WriteModel>,
    w1: Map<(Seq<u8>, u64), WriteModel>,
    k: Seq<u8>,
    primary: Seq<u8>,
    start_ts: u64,
    commit_ts: u64,
    op: WriteOp,
)
    requires
        // what roll-forward (the only cleanup arm that writes) ensures:
        w1 == w0.insert((k, commit_ts), WriteModel { start_ts, op }),
        latest_in(w0, primary, start_ts, u64::MAX, commit_ts),
        w0[(primary, commit_ts)].start_ts == start_ts,
    ensures
        forall|t: u64|
            #[trigger] w1.dom().contains((k, t)) && !w0.dom().contains((k, t)) ==> t == commit_ts
                && w0.dom().contains((primary, commit_ts)) && w0[(
                primary,
                commit_ts,
            )].start_ts == start_ts,
{
}

} // verus!

verus! {

/// The whole-write-set form of committed visibility: once prewrite staged
/// every write of the set at `start_ts` and commit added every pointer at
/// `commit_ts`, then for each written key the newest Write entry at or
/// before `commit_ts` is that pointer, and the Data column answers the
/// write's own value.
pub proof fn lemma_committed_set_visible(
    w1: Map<(Seq<u8>, u64), WriteModel>,
    d1: Map<(Seq<u8>, u64), Seq<u8>>,
    ws: Seq<(Seq<u8>, Seq<u8>, WriteOp)>,
    start_ts: u64,
    commit_ts: u64,
)
    requires
        // every write's value is staged in the Data column at start_ts
        forall|i: int|
            0 <= i < ws.len() ==> d1.dom().contains(((#[trigger] ws[i]).0, start_ts)) && d1[
                (ws[i].0, start_ts)
            ] == ws[i].1,
        // every write's pointer is committed at commit_ts
        forall|i: int|
            0 <= i < ws.len() ==> w1.dom().contains(((#[trigger] ws[i]).0, commit_ts)) && w1[
                (ws[i].0, commit_ts)
            ] == (WriteModel { start_ts, op: ws[i].2 }),
    ensures
        forall|i: int| 0 <= i < ws.len() ==> latest_in(w1, (#[trigger] ws[i]).0, 0, commit_ts, commit_ts),
        forall|i: int, t: u64|
            0 <= i < ws.len() && #[trigger] latest_in(w1, ws[i].0, 0, commit_ts, t) ==> t
                == commit_ts && w1[(ws[i].0, t)].start_ts == start_ts && w1[(ws[i].0, t)].op == ws[
                i
            ].2 && d1.dom().contains((ws[i].0, w1[(ws[i].0, t)].start_ts)) && d1[
                (ws[i].0, w1[(ws[i].0, t)].start_ts)
            ] == ws[i].1,
{
    assert forall|i: int|
        0 <= i < ws.len() implies latest_in(w1, (#[trigger] ws[i]).0, 0, commit_ts, commit_ts) by {
        assert(w1.dom().contains((ws[i].0, commit_ts)));
    }
    assert forall|i: int, t: u64|
        0 <= i < ws.len() && #[trigger] latest_in(w1, ws[i].0, 0, commit_ts, t) implies t
        == commit_ts && w1[(ws[i].0, t)].start_ts == start_ts && w1[(ws[i].0, t)].op == ws[i].2
        && d1.dom().contains((ws[i].0, w1[(ws[i].0, t)].start_ts)) && d1[
        (ws[i].0, w1[(ws[i].0, t)].start_ts)
    ] == ws[i].1 by {
        assert(w1.dom().contains((ws[i].0, commit_ts)));
        assert(commit_ts <= t);
    }
}

/// Crash recovery by roll-forward: after cleanup rolled a secondary key
/// forward from its committed primary, no lock blocks a reader at or below
/// `ts`, and as long as no later commit covers the key, a snapshot read at
/// `ts` answers the value the transaction staged.
pub proof fn lemma_roll_forward_read(
    l0: Map<(Seq<u8>, u64), crate::mvcc::LockModel>,
    l1: Map<(Seq<u8>, u64), crate::mvcc::LockModel>,
    w1: Map<(Seq<u8>, u64), WriteModel>,
    d1: Map<(Seq<u8>, u64), Seq<u8>>,
    k: Seq<u8>,
    v: Seq<u8>,
    lock_ts: u64,
    commit_ts: u64,
    op: WriteOp,
    ts: u64,
)
    requires
        // what roll-forward ensures of the lock column
        latest_in(l0, k, 0, ts, lock_ts),
        crate::mvcc::erased_window(l0, l1, k, lock_ts),
        // the committed pointer and the staged value it points at
        w1.dom().contains((k, commit_ts)),
        w1[(k, commit_ts)] == (WriteModel { start_ts: lock_ts, op }),
        op != WriteOp::Delete,
        d1.dom().contains((k, lock_ts)),
        d1[(k, lock_ts)] == v,
        // the reader's snapshot covers the commit and nothing later covers the key
        commit_ts <= ts,
        forall|t: u64| commit_ts < t <= ts ==> !w1.dom().contains((k, t)),
    ensures
        crate::txn::none_in(l1, k, 0, ts),
        crate::txn::read_value_ok(w1, d1, k, ts, v),
{
    assert forall|t: u64| 0 <= t <= ts implies !l1.dom().contains((k, t)) by {
        if l1.dom().contains((k, t)) {
            assert(l0.dom().contains((k, t)) && !(t <= lock_ts));
        }
    }
    assert(latest_in(w1, k, 0, ts, commit_ts)) by {
        assert forall|t2: u64|
            0 <= t2 <= ts && w1.dom().contains((k, t2)) implies t2 <= commit_ts by {}
    }
}

/// Crash recovery by roll-back: after cleanup dropped the stale locks of a
/// key whose transaction never committed, a snapshot read at `ts` finds no
/// lock and no value.
pub proof fn lemma_roll_back_read(
    l0: Map<(Seq<u8>, u64), crate::mvcc::LockModel>,
    l1: Map<(Seq<u8>, u64), crate::mvcc::LockModel>,
    w1: Map<(Seq<u8>, u64), WriteModel>,
    d1: Map<(Seq<u8>, u64), Seq<u8>>,
    k: Seq<u8>,
    ts: u64,
)
    requires
        // what rolling the key back ensures of the lock column
        forall|p: (Seq<u8>, u64)| #[trigger]
            l1.dom().contains(p) ==> l0.dom().contains(p) && !(p.0 == k && p.1 <= ts),
        // the transaction never committed anything for the key
        crate::txn::none_in(w1, k, 0, ts),
    ensures
        crate::txn::none_in(l1, k, 0, ts),
        crate::txn::read_not_found(w1, d1, k, ts),
{
    assert forall|t: u64| 0 <= t <= ts implies !l1.dom().contains((k, t)) by {
        if l1.dom().contains((k, t)) {
            assert(!(t <= ts));
        }
    }
}

} // verus!
