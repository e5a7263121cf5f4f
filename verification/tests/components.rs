use kvs::tso::TimestampOracle;
use kvs::readonly::ReadOnly;
use kvs::raft::{Raft, RequestVoteArgs, AppendEntriesArgs, LogEntry};
use kvs::common::WriteOp;

#[test]
fn oracle_is_strictly_monotonic_across_restart() {
    let mut o = TimestampOracle::open(None);
    let t1 = o.fetch_one().unwrap();
    let t2 = o.fetch_one().unwrap();
    assert_eq!(t1, 1);
    assert_eq!(t2, 2);
    assert!(t1 < t2);
    // a restart resumes from the persisted checkpoint, above every earlier handout
    let saved = o.checkpoint();
    let mut o2 = TimestampOracle::open(Some(saved));
    let t3 = o2.fetch_one().unwrap();
    assert!(t2 < t3);
    assert_eq!(t3, 3);
}

#[test]
fn write_op_codes_round_trip() {
    for op in [WriteOp::Put, WriteOp::Delete, WriteOp::Lock] {
        assert_eq!(WriteOp::from_code(op.code()), Some(op));
    }
    assert_eq!(WriteOp::from_code(3), None);
    assert_eq!(WriteOp::Put.code(), 0);
    assert_eq!(WriteOp::Delete.code(), 1);
    assert_eq!(WriteOp::Lock.code(), 2);
}

#[test]
fn read_only_queue_parks_and_pops() {
    let mut q = ReadOnly::new();
    q.add_request(5, vec![1, 2]);
    q.add_request(5, vec![3]);
    q.add_request(7, vec![4]);
    assert_eq!(q.pop_requests(5), vec![vec![1, 2], vec![3]]);
    assert_eq!(q.pop_requests(5), Vec::<Vec<u8>>::new());
    assert_eq!(q.pop_requests(7), vec![vec![4]]);
    q.add_request(9, vec![9]);
    q.reset();
    assert_eq!(q.pop_requests(9), Vec::<Vec<u8>>::new());
}

#[test]
fn candidate_wins_with_majority_votes() {
    let mut r = Raft::new(0, 3);
    assert!(!r.is_leader());
    let args = r.tick_election();
    assert_eq!(args.term, 1);
    assert_eq!(args.candidate_id, 0);
    // own vote is not enough in a cluster of three
    assert!(!r.is_leader());
    let became = r.record_vote(1, 1, true);
    assert!(became);
    assert!(r.is_leader());
}

#[test]
fn vote_granted_once_per_term() {
    let mut r = Raft::new(0, 3);
    let v1 = r.handle_request_vote(&RequestVoteArgs {
        term: 1,
        candidate_id: 1,
        last_log_index: 0,
        last_log_term: 0,
    });
    assert!(v1.vote_granted);
    // another candidate of the same term is refused
    let v2 = r.handle_request_vote(&RequestVoteArgs {
        term: 1,
        candidate_id: 2,
        last_log_index: 5,
        last_log_term: 1,
    });
    assert!(!v2.vote_granted);
    // a stale candidate is refused outright
    let v3 = r.handle_request_vote(&RequestVoteArgs {
        term: 0,
        candidate_id: 2,
        last_log_index: 5,
        last_log_term: 1,
    });
    assert!(!v3.vote_granted);
    assert_eq!(v3.term, 1);
}

#[test]
fn append_entries_replicates_and_commits_in_order() {
    let mut leader = Raft::new(0, 3);
    leader.tick_election();
    assert!(leader.record_vote(1, 1, true));
    let (i1, t1) = leader.start(b"one".to_vec()).unwrap();
    let (i2, _t2) = leader.start(b"two".to_vec()).unwrap();
    assert_eq!((i1, t1), (1, 1));
    assert_eq!(i2, 2);

    let mut follower = Raft::new(1, 3);
    let reply = follower.handle_append_entries(&AppendEntriesArgs {
        term: 1,
        leader_id: 0,
        prev_log_index: 0,
        prev_log_term: 0,
        entries: vec![
            LogEntry { term: 1, index: 1, payload: b"one".to_vec() },
            LogEntry { term: 1, index: 2, payload: b"two".to_vec() },
        ],
        leader_commit: 1,
    });
    assert!(reply.success);
    let applied = follower.take_applicable();
    assert_eq!(applied.len(), 1);
    assert_eq!(applied[0].index, 1);
    assert_eq!(applied[0].payload, b"one".to_vec());

    // a mismatched previous entry is refused with a conflict hint
    let bad = follower.handle_append_entries(&AppendEntriesArgs {
        term: 1,
        leader_id: 0,
        prev_log_index: 5,
        prev_log_term: 1,
        entries: Vec::new(),
        leader_commit: 1,
    });
    assert!(!bad.success);
    assert_eq!(bad.conflict_log_index, 3);
}

#[test]
fn leader_advances_commit_only_with_majority_of_its_term() {
    let mut leader = Raft::new(0, 3);
    leader.tick_election();
    assert!(leader.record_vote(1, 1, true));
    leader.start(b"one".to_vec()).unwrap();
    leader.start(b"two".to_vec()).unwrap();
    // only the leader itself stores both entries: nothing commits
    leader.advance_commit(&vec![2, 0, 0]);
    assert_eq!(leader.take_applicable().len(), 0);
    // a majority stores the first entry
    leader.advance_commit(&vec![2, 1, 0]);
    let applied = leader.take_applicable();
    assert_eq!(applied.len(), 1);
    assert_eq!(applied[0].payload, b"one".to_vec());
    // the rest follows once replicated everywhere
    leader.advance_commit(&vec![2, 2, 1]);
    let applied = leader.take_applicable();
    assert_eq!(applied.len(), 1);
    assert_eq!(applied[0].index, 2);
}

#[test]
fn stale_term_steps_no_one_down() {
    let mut r = Raft::new(2, 3);
    let reply = r.handle_append_entries(&AppendEntriesArgs {
        term: 3,
        leader_id: 0,
        prev_log_index: 0,
        prev_log_term: 0,
        entries: Vec::new(),
        leader_commit: 0,
    });
    assert!(reply.success);
    assert_eq!(reply.term, 3);
    let stale = r.handle_append_entries(&AppendEntriesArgs {
        term: 2,
        leader_id: 1,
        prev_log_index: 0,
        prev_log_term: 0,
        entries: Vec::new(),
        leader_commit: 0,
    });
    assert!(!stale.success);
    assert_eq!(stale.term, 3);
}

#[test]
fn saved_state_restores_the_replica() {
    let mut r = Raft::new(0, 3);
    r.tick_election();
    assert!(r.record_vote(1, 1, true));
    r.start(b"one".to_vec()).unwrap();
    r.start(b"two".to_vec()).unwrap();
    let (term, voted_for, entries) = r.saved_state();
    let restored = Raft::from_saved(0, 3, term, voted_for, entries).unwrap();
    assert_eq!(restored.current_term(), 1);
    assert!(!restored.is_leader());
    assert_eq!(restored.last_index(), 2);
    assert_eq!(restored.term_at(2), Some(1));
    // a gap in the entries is refused
    let bad = vec![
        LogEntry { term: 0, index: 0, payload: Vec::new() },
        LogEntry { term: 1, index: 2, payload: b"two".to_vec() },
    ];
    assert!(Raft::from_saved(0, 3, 1, None, bad).is_none());
}

#[test]
fn snapshot_install_and_log_truncation() {
    let mut leader = Raft::new(0, 3);
    leader.tick_election();
    assert!(leader.record_vote(1, 1, true));
    leader.start(b"one".to_vec()).unwrap();
    leader.start(b"two".to_vec()).unwrap();
    leader.advance_commit(&vec![2, 2, 2]);
    let applied = leader.take_applicable();
    assert_eq!(applied.len(), 2);
    // the state machine snapshotted through index 1: the log drops its prefix
    leader.truncate_through(1);
    assert_eq!(leader.last_index(), 2);
    assert_eq!(leader.term_at(2), Some(1));
    assert_eq!(leader.term_at(0), None);

    // a lagging follower takes the whole snapshot instead
    let mut follower = Raft::new(1, 3);
    assert!(follower.install_snapshot(1, 2, 1));
    assert_eq!(follower.last_index(), 2);
    assert_eq!(follower.take_applicable().len(), 0);
    // a stale boundary changes nothing
    assert!(!follower.install_snapshot(1, 1, 1));
}
