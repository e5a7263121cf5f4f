use kvs::engine::KvStore;
use kvs::mvcc::MultiStore;
use kvs::service::{StateMachine, GetRequest, PrewriteRequest, CommitRequest};
use kvs::client::Transaction;
use kvs::common::KvRpcError;

fn fresh_sm() -> StateMachine<KvStore> {
    let data = KvStore::open(Vec::new());
    let lock = KvStore::open(Vec::new());
    let write = KvStore::open(Vec::new());
    StateMachine::new(MultiStore::new(data, lock, write))
}

const NOW: u64 = 1_000_000;

fn get(sm: &mut StateMachine<KvStore>, key: &[u8], ts: u64, seq: u64, now: u64) -> Result<
    Vec<u8>,
    KvRpcError,
> {
    let req = GetRequest { key: key.to_vec(), ts, seq };
    sm.handle_txn_get(&req, now).map(|reply| reply.message)
}

/// Drive a whole transaction's commit workflow against one state machine.
fn commit_txn(sm: &mut StateMachine<KvStore>, txn: &Transaction, commit_ts: u64, now: u64) -> bool {
    for req in txn.prewrite_requests() {
        if sm.handle_txn_prewrite(&req, now).is_err() {
            return false;
        }
    }
    let primary = txn.primary_commit_request(commit_ts);
    if sm.handle_txn_commit(&primary).is_err() {
        return false;
    }
    for req in txn.secondary_commit_requests(commit_ts) {
        let _ = sm.handle_txn_commit(&req);
    }
    true
}

fn seed(sm: &mut StateMachine<KvStore>, start_ts: u64, commit_ts: u64, pairs: &[(&[u8], &[u8])]) {
    let mut txn = Transaction::begin(start_ts);
    for (k, v) in pairs {
        txn.txn_set(k.to_vec(), v.to_vec());
    }
    assert!(commit_txn(sm, &txn, commit_ts, NOW));
}

#[test]
fn single_transaction_round_trip() {
    let mut sm = fresh_sm();
    let mut txn = Transaction::begin(10);
    txn.txn_set(b"key1".to_vec(), b"100".to_vec());
    txn.txn_set(b"key2".to_vec(), b"200".to_vec());
    // uncommitted writes are not visible to reads at the start timestamp
    assert!(matches!(get(&mut sm, b"key1", 10, 1, NOW), Err(KvRpcError::KeyNotFound)));
    assert!(matches!(get(&mut sm, b"key3", 10, 2, NOW), Err(KvRpcError::KeyNotFound)));
    assert!(commit_txn(&mut sm, &txn, 11, NOW));
    // a fresh snapshot observes both writes
    assert_eq!(get(&mut sm, b"key1", 12, 1, NOW).unwrap(), b"100".to_vec());
    assert_eq!(get(&mut sm, b"key2", 12, 2, NOW).unwrap(), b"200".to_vec());
}

#[test]
fn lost_update_exactly_one_commits() {
    let mut sm = fresh_sm();
    seed(&mut sm, 1, 2, &[(b"key1", b"100")]);
    // both clients read key1 = 100 at their snapshots
    assert_eq!(get(&mut sm, b"key1", 10, 1, NOW).unwrap(), b"100".to_vec());
    assert_eq!(get(&mut sm, b"key1", 11, 1, NOW).unwrap(), b"100".to_vec());
    let mut a = Transaction::begin(10);
    a.txn_set(b"key1".to_vec(), b"101".to_vec());
    let mut b = Transaction::begin(11);
    b.txn_set(b"key1".to_vec(), b"101".to_vec());
    let a_ok = commit_txn(&mut sm, &a, 12, NOW);
    let b_ok = commit_txn(&mut sm, &b, 13, NOW);
    assert!(a_ok);
    assert!(!b_ok);
    assert_eq!(get(&mut sm, b"key1", 20, 1, NOW).unwrap(), b"101".to_vec());
}

#[test]
fn read_skew_read_only_snapshot_stays() {
    let mut sm = fresh_sm();
    seed(&mut sm, 1, 2, &[(b"key1", b"100"), (b"key2", b"200")]);
    // client A reads key1 at its snapshot, then pauses
    assert_eq!(get(&mut sm, b"key1", 10, 1, NOW).unwrap(), b"100".to_vec());
    // client B updates both keys and commits
    let mut b = Transaction::begin(11);
    b.txn_set(b"key1".to_vec(), b"101".to_vec());
    b.txn_set(b"key2".to_vec(), b"201".to_vec());
    assert!(commit_txn(&mut sm, &b, 12, NOW));
    // A resumes at its old snapshot and must still see 200
    assert_eq!(get(&mut sm, b"key2", 10, 2, NOW).unwrap(), b"200".to_vec());
    // a fresh snapshot sees B's writes
    assert_eq!(get(&mut sm, b"key2", 20, 1, NOW).unwrap(), b"201".to_vec());
}

#[test]
fn write_skew_is_permitted() {
    let mut sm = fresh_sm();
    seed(&mut sm, 1, 2, &[(b"key1", b"100"), (b"key2", b"200")]);
    assert_eq!(get(&mut sm, b"key1", 10, 1, NOW).unwrap(), b"100".to_vec());
    assert_eq!(get(&mut sm, b"key2", 10, 2, NOW).unwrap(), b"200".to_vec());
    assert_eq!(get(&mut sm, b"key1", 11, 1, NOW).unwrap(), b"100".to_vec());
    assert_eq!(get(&mut sm, b"key2", 11, 2, NOW).unwrap(), b"200".to_vec());
    let mut a = Transaction::begin(10);
    a.txn_set(b"key1".to_vec(), b"101".to_vec());
    let mut b = Transaction::begin(11);
    b.txn_set(b"key2".to_vec(), b"201".to_vec());
    assert!(commit_txn(&mut sm, &a, 12, NOW));
    assert!(commit_txn(&mut sm, &b, 13, NOW));
    assert_eq!(get(&mut sm, b"key1", 20, 1, NOW).unwrap(), b"101".to_vec());
    assert_eq!(get(&mut sm, b"key2", 20, 2, NOW).unwrap(), b"201".to_vec());
}

#[test]
fn primary_commit_rolls_secondaries_forward() {
    let mut sm = fresh_sm();
    let mut txn = Transaction::begin(10);
    txn.txn_set(b"key1".to_vec(), b"100".to_vec());
    txn.txn_set(b"key2".to_vec(), b"200".to_vec());
    txn.txn_set(b"key3".to_vec(), b"300".to_vec());
    for req in txn.prewrite_requests() {
        assert!(sm.handle_txn_prewrite(&req, NOW).is_ok());
    }
    // the primary commit lands; the secondary commit messages are lost
    let primary = txn.primary_commit_request(11);
    assert!(sm.handle_txn_commit(&primary).is_ok());
    // a later reader hits the leftover secondary lock; cleanup rolls it
    // forward to the committed value
    assert_eq!(get(&mut sm, b"key2", 20, 1, NOW).unwrap(), b"200".to_vec());
    assert_eq!(get(&mut sm, b"key3", 20, 2, NOW).unwrap(), b"300".to_vec());
    assert_eq!(get(&mut sm, b"key1", 20, 3, NOW).unwrap(), b"100".to_vec());
}

#[test]
fn lapsed_primary_lock_rolls_back() {
    let mut sm = fresh_sm();
    let mut txn = Transaction::begin(10);
    txn.txn_set(b"key1".to_vec(), b"100".to_vec());
    txn.txn_set(b"key2".to_vec(), b"200".to_vec());
    txn.txn_set(b"key3".to_vec(), b"300".to_vec());
    for req in txn.prewrite_requests() {
        assert!(sm.handle_txn_prewrite(&req, NOW).is_ok());
    }
    // the primary commit never arrives; after the lease lapses a reader
    // cleans all three locks up and the keys stay absent
    let later = NOW + 10_000;
    for (i, key) in [b"key1", b"key2", b"key3"].iter().enumerate() {
        let r = get(&mut sm, *key, 20, (i + 1) as u64, later);
        assert!(matches!(r, Err(KvRpcError::KeyNotFound)), "{:?}", r);
    }
}

#[test]
fn duplicate_requests_are_suppressed() {
    let mut sm = fresh_sm();
    let req = PrewriteRequest {
        key: b"key1".to_vec(),
        value: b"100".to_vec(),
        op: 0,
        primary: b"key1".to_vec(),
        ts: 10,
        seq: 1,
    };
    let first = sm.handle_txn_prewrite(&req, NOW);
    assert!(first.is_ok());
    let second = sm.handle_txn_prewrite(&req, NOW);
    assert!(matches!(second, Err(KvRpcError::DuplicatedRequest)));
    let commit = CommitRequest {
        is_primary: true,
        primary: b"key1".to_vec(),
        key: b"key1".to_vec(),
        op: 0,
        start_ts: 10,
        commit_ts: 11,
        seq: 1,
    };
    assert!(sm.handle_txn_commit(&commit).is_ok());
    assert!(matches!(sm.handle_txn_commit(&commit), Err(KvRpcError::DuplicatedRequest)));
    // the value was applied exactly once
    assert_eq!(get(&mut sm, b"key1", 20, 1, NOW).unwrap(), b"100".to_vec());
}

#[test]
fn keys_containing_the_separator_byte() {
    let mut sm = fresh_sm();
    seed(&mut sm, 1, 2, &[(b"a-1", b"100"), (b"a", b"200"), (b"a-1-2", b"300")]);
    assert_eq!(get(&mut sm, b"a-1", 10, 1, NOW).unwrap(), b"100".to_vec());
    assert_eq!(get(&mut sm, b"a", 10, 2, NOW).unwrap(), b"200".to_vec());
    assert_eq!(get(&mut sm, b"a-1-2", 10, 3, NOW).unwrap(), b"300".to_vec());
}

#[test]
fn read_at_maximum_timestamp() {
    let mut sm = fresh_sm();
    seed(&mut sm, 1, 2, &[(b"key1", b"100")]);
    assert_eq!(get(&mut sm, b"key1", u64::MAX, 1, NOW).unwrap(), b"100".to_vec());
}

#[test]
fn delete_hides_the_value() {
    let mut sm = fresh_sm();
    seed(&mut sm, 1, 2, &[(b"key1", b"100")]);
    let mut txn = Transaction::begin(10);
    txn.txn_delete(b"key1".to_vec());
    assert!(commit_txn(&mut sm, &txn, 11, NOW));
    assert!(matches!(get(&mut sm, b"key1", 20, 1, NOW), Err(KvRpcError::KeyNotFound)));
    // the old snapshot still sees the value
    assert_eq!(get(&mut sm, b"key1", 5, 2, NOW).unwrap(), b"100".to_vec());
}

#[test]
fn snapshot_restores_the_observable_state() {
    let mut sm = fresh_sm();
    seed(&mut sm, 1, 2, &[(b"key1", b"100"), (b"key2", b"200")]);
    let (cols, table) = sm.create_snapshot();
    let mut sm2 = fresh_sm();
    seed(&mut sm2, 5, 6, &[(b"junk", b"junk")]);
    sm2.restore_from_snapshot(cols, table);
    assert_eq!(get(&mut sm2, b"key1", 10, 1, NOW).unwrap(), b"100".to_vec());
    assert_eq!(get(&mut sm2, b"key2", 10, 2, NOW).unwrap(), b"200".to_vec());
    assert!(matches!(get(&mut sm2, b"junk", 10, 3, NOW), Err(KvRpcError::KeyNotFound)));
    // the sequence table travels with the snapshot: replaying the seeding
    // transaction's requests is suppressed as duplicates
    let dup = PrewriteRequest {
        key: b"key1".to_vec(),
        value: b"999".to_vec(),
        op: 0,
        primary: b"key1".to_vec(),
        ts: 1,
        seq: 1,
    };
    assert!(matches!(sm2.handle_txn_prewrite(&dup, NOW), Err(KvRpcError::DuplicatedRequest)));
}

#[test]
fn predicate_read_misses_later_insert() {
    let mut sm = fresh_sm();
    seed(&mut sm, 1, 2, &[(b"key1", b"100"), (b"key2", b"200")]);
    // A's snapshot predates key3
    assert!(matches!(get(&mut sm, b"key3", 10, 1, NOW), Err(KvRpcError::KeyNotFound)));
    let mut b = Transaction::begin(11);
    b.txn_set(b"key3".to_vec(), b"300".to_vec());
    assert!(commit_txn(&mut sm, &b, 12, NOW));
    // A still does not see key3 at its snapshot; a fresh snapshot does
    assert!(matches!(get(&mut sm, b"key3", 10, 2, NOW), Err(KvRpcError::KeyNotFound)));
    assert_eq!(get(&mut sm, b"key3", 20, 1, NOW).unwrap(), b"300".to_vec());
}

#[test]
fn predicate_write_conflict_fails_the_older_writer() {
    let mut sm = fresh_sm();
    seed(&mut sm, 1, 2, &[(b"key1", b"100"), (b"key2", b"200")]);
    // A updates both keys and commits first
    let mut a = Transaction::begin(10);
    a.txn_set(b"key1".to_vec(), b"300".to_vec());
    a.txn_set(b"key2".to_vec(), b"400".to_vec());
    assert!(commit_txn(&mut sm, &a, 12, NOW));
    // B, whose snapshot predates A's commit, writes the same keys and must fail
    let mut b = Transaction::begin(11);
    b.txn_set(b"key1".to_vec(), b"999".to_vec());
    assert!(!commit_txn(&mut sm, &b, 13, NOW));
    assert_eq!(get(&mut sm, b"key1", 20, 1, NOW).unwrap(), b"300".to_vec());
    assert_eq!(get(&mut sm, b"key2", 20, 2, NOW).unwrap(), b"400".to_vec());
}

#[test]
fn read_skew_predicate_dependencies() {
    let mut sm = fresh_sm();
    seed(&mut sm, 1, 2, &[(b"key1", b"100"), (b"key2", b"200")]);
    // A reads key1 at its snapshot, then pauses
    assert_eq!(get(&mut sm, b"key1", 10, 1, NOW).unwrap(), b"100".to_vec());
    // B inserts key3 and commits
    let mut b = Transaction::begin(11);
    b.txn_set(b"key3".to_vec(), b"300".to_vec());
    assert!(commit_txn(&mut sm, &b, 12, NOW));
    // A's later predicate read must not see the insert
    assert!(matches!(get(&mut sm, b"key3", 10, 2, NOW), Err(KvRpcError::KeyNotFound)));
}

#[test]
fn read_skew_write_predicate_fails_the_stale_writer() {
    let mut sm = fresh_sm();
    seed(&mut sm, 1, 2, &[(b"key1", b"100"), (b"key2", b"200")]);
    // A reads both keys at its snapshot
    assert_eq!(get(&mut sm, b"key1", 10, 1, NOW).unwrap(), b"100".to_vec());
    assert_eq!(get(&mut sm, b"key2", 10, 2, NOW).unwrap(), b"200".to_vec());
    // B updates both keys and commits
    let mut b = Transaction::begin(11);
    b.txn_set(b"key1".to_vec(), b"101".to_vec());
    b.txn_set(b"key2".to_vec(), b"201".to_vec());
    assert!(commit_txn(&mut sm, &b, 12, NOW));
    // A now writes key1 from its stale snapshot and must fail
    let mut a = Transaction::begin(10);
    a.txn_set(b"key1".to_vec(), b"300".to_vec());
    assert!(!commit_txn(&mut sm, &a, 13, NOW));
    assert_eq!(get(&mut sm, b"key1", 20, 1, NOW).unwrap(), b"101".to_vec());
    assert_eq!(get(&mut sm, b"key2", 20, 2, NOW).unwrap(), b"201".to_vec());
}

#[test]
fn anti_dependency_cycles_on_disjoint_writes_commit() {
    let mut sm = fresh_sm();
    seed(&mut sm, 1, 2, &[(b"key1", b"100"), (b"key2", b"200")]);
    // both read the same keys, each writes a fresh key
    assert_eq!(get(&mut sm, b"key1", 10, 1, NOW).unwrap(), b"100".to_vec());
    assert_eq!(get(&mut sm, b"key2", 10, 2, NOW).unwrap(), b"200".to_vec());
    assert_eq!(get(&mut sm, b"key1", 11, 1, NOW).unwrap(), b"100".to_vec());
    assert_eq!(get(&mut sm, b"key2", 11, 2, NOW).unwrap(), b"200".to_vec());
    let mut a = Transaction::begin(10);
    a.txn_set(b"key3".to_vec(), b"300".to_vec());
    let mut b = Transaction::begin(11);
    b.txn_set(b"key4".to_vec(), b"400".to_vec());
    assert!(commit_txn(&mut sm, &a, 12, NOW));
    assert!(commit_txn(&mut sm, &b, 13, NOW));
    assert_eq!(get(&mut sm, b"key3", 20, 1, NOW).unwrap(), b"300".to_vec());
    assert_eq!(get(&mut sm, b"key4", 20, 2, NOW).unwrap(), b"400".to_vec());
}
