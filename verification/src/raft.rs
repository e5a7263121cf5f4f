//! The Raft replica's decision core: a pure state machine from messages to
//! state changes and replies. Sending, timers and persistence live with the
//! caller, which drives this state machine and carries its outputs.
//!
//! The log keeps a sentinel entry at position zero, so entry `i` of the
//! vector holds absolute index `base + i`.

use vstd::prelude::*;

use crate::bytes_clone;

verus! {

#[derive(Debug, Clone, Copy, PartialEq, Eq, Structural)]
pub enum Role {
    Follower,
    Candidate,
    Leader,
}

pub struct LogEntry {
    pub term: u64,
    pub index: u64,
    pub payload: Vec<u8>,
}

pub struct RequestVoteArgs {
    pub term: u64,
    pub candidate_id: u64,
    pub last_log_index: u64,
    pub last_log_term: u64,
}

pub struct RequestVoteReply {
    pub term: u64,
    pub vote_granted: bool,
}

pub struct AppendEntriesArgs {
    pub term: u64,
    pub leader_id: u64,
    pub prev_log_index: u64,
    pub prev_log_term: u64,
    pub entries: Vec<LogEntry>,
    pub leader_commit: u64,
}

pub struct AppendEntriesReply {
    pub term: u64,
    pub success: bool,
    pub conflict_log_index: u64,
    pub conflict_log_term: u64,
}

/// How many of the booleans are set.
pub open spec fn count_true(s: Seq<bool>) -> int
    decreases s.len(),
{
    if s.len() == 0 {
        0
    } else {
        count_true(s.drop_last()) + if s.last() {
            1int
        } else {
            0int
        }
    }
}

/// How many entries are at least `n`.
pub open spec fn count_geq(s: Seq<u64>, n: u64) -> int
    decreases s.len(),
{
    if s.len() == 0 {
        0
    } else {
        count_geq(s.drop_last(), n) + if s.last() >= n {
            1int
        } else {
            0int
        }
    }
}

/// One replica's Raft state.
pub struct Raft {
    me: u64,
    peers: u64,
    current_term: u64,
    voted_for: Option<u64>,
    log: Vec<LogEntry>,
    commit_index: u64,
    last_applied: u64,
    role: Role,
    votes: Vec<bool>,
}

impl Raft {
    pub closed spec fn wf(&self) -> bool {
        &&& self.log@.len() >= 1
        &&& forall|i: int|
            0 <= i < self.log@.len() ==> (#[trigger] self.log@[i].index) == self.log@[0].index + i
        &&& self.log@[0].index + self.log@.len() <= u64::MAX
        &&& self.votes@.len() == self.peers
        &&& self.me < self.peers
        &&& self.peers >= 1
        &&& self.log@[0].index <= self.last_applied <= self.commit_index
        &&& self.commit_index < self.log@[0].index + self.log@.len()
    }

    pub closed spec fn term(&self) -> u64 {
        self.current_term
    }

    pub closed spec fn role_spec(&self) -> Role {
        self.role
    }

    pub closed spec fn voted(&self) -> Option<u64> {
        self.voted_for
    }

    /// The absolute index of the sentinel, i.e. of the newest snapshot.
    pub closed spec fn base(&self) -> u64 {
        self.log@[0].index
    }

    pub closed spec fn log_model(&self) -> Seq<LogEntry> {
        self.log@
    }

    pub closed spec fn last_log_index(&self) -> u64 {
        (self.log@[0].index + self.log@.len() - 1) as u64
    }

    pub closed spec fn last_log_term(&self) -> u64 {
        self.log@.last().term
    }

    pub closed spec fn commit(&self) -> u64 {
        self.commit_index
    }

    pub closed spec fn applied(&self) -> u64 {
        self.last_applied
    }

    /// A candidate's log is at least as up to date as ours.
    pub open spec fn up_to_date(&self, last_index: u64, last_term: u64) -> bool {
        last_term > self.last_log_term() || (last_term == self.last_log_term() && last_index
            >= self.last_log_index())
    }

    pub fn new(me: u64, peers: u64) -> (r: Raft)
        requires
            peers >= 1,
            me < peers,
        ensures
            r.wf(),
            r.term() == 0,
            r.role_spec() == Role::Follower,
            r.voted() is None,
            r.commit() == 0 && r.applied() == 0,
            r.log_model().len() == 1,
    {
        let mut log: Vec<LogEntry> = Vec::new();
        log.push(LogEntry { term: 0, index: 0, payload: Vec::new() });
        let mut votes: Vec<bool> = Vec::new();
        let mut i: u64 = 0;
        while i < peers
            invariant
                i <= peers,
                votes@.len() == i,
            decreases peers - i,
        {
            votes.push(false);
            i = i + 1;
        }
        Raft {
            me,
            peers,
            current_term: 0,
            voted_for: None,
            log,
            commit_index: 0,
            last_applied: 0,
            role: Role::Follower,
            votes,
        }
    }

    pub fn is_leader(&self) -> (r: bool)
        ensures
            r == (self.role_spec() == Role::Leader),
    {
        matches!(self.role, Role::Leader)
    }

    pub fn current_term(&self) -> (r: u64)
        ensures
            r == self.term(),
    {
        self.current_term
    }

    /// Answer a vote request: step down on a newer term, grant at most one
    /// vote per term, and only to a candidate whose log is as up to date.
    pub fn handle_request_vote(&mut self, args: &RequestVoteArgs) -> (reply: RequestVoteReply)
        requires
            old(self).wf(),
        ensures
            final(self).wf(),
            final(self).term() == if args.term > old(self).term() {
                args.term
            } else {
                old(self).term()
            },
            reply.term == final(self).term(),
            final(self).log_model() == old(self).log_model(),
            final(self).commit() == old(self).commit() && final(self).applied() == old(
                self,
            ).applied(),
            // no vote is granted to a stale candidate
            args.term < old(self).term() ==> !reply.vote_granted && *final(self) == *old(self),
            // a granted vote is recorded, for this candidate, in the candidate's term
            reply.vote_granted ==> final(self).term() == args.term && final(self).voted() == Some(
                args.candidate_id,
            ) && old(self).up_to_date(args.last_log_index, args.last_log_term),
            // the vote is granted exactly when the term is current, no other
            // candidate holds this term's vote, and the candidate's log is
            // as up to date
            reply.vote_granted <==> (args.term >= old(self).term() && (if args.term > old(
                self,
            ).term() {
                true
            } else {
                old(self).voted() is None || old(self).voted() == Some(args.candidate_id)
            }) && old(self).up_to_date(args.last_log_index, args.last_log_term)),
            // at most one vote per term: an earlier vote in the same term blocks any other candidate
            old(self).term() == args.term ==> (old(self).voted() matches Some(c) ==> (
            reply.vote_granted ==> c == args.candidate_id)),
            // a refusal in the candidate's term leaves the recorded vote alone
            !reply.vote_granted ==> final(self).voted() == if args.term > old(self).term() {
                None::<u64>
            } else {
                old(self).voted()
            },
    {
        if args.term < self.current_term {
            return RequestVoteReply { term: self.current_term, vote_granted: false };
        }
        if args.term > self.current_term {
            self.current_term = args.term;
            self.voted_for = None;
            self.role = Role::Follower;
        }
        let last_index = self.log[0].index + (self.log.len() - 1) as u64;
        let last_term = self.log[self.log.len() - 1].term;
        let can_vote = match self.voted_for {
            None => true,
            Some(c) => c == args.candidate_id,
        };
        let up_to_date = args.last_log_term > last_term || (args.last_log_term == last_term
            && args.last_log_index >= last_index);
        if can_vote && up_to_date {
            self.voted_for = Some(args.candidate_id);
            RequestVoteReply { term: self.current_term, vote_granted: true }
        } else {
            RequestVoteReply { term: self.current_term, vote_granted: false }
        }
    }

    /// An election timeout fires: become a candidate in the next term and
    /// vote for ourselves.
    pub fn tick_election(&mut self) -> (args: RequestVoteArgs)
        requires
            old(self).wf(),
            old(self).term() < u64::MAX,
        ensures
            final(self).wf(),
            final(self).term() == old(self).term() + 1,
            final(self).role_spec() == Role::Candidate,
            final(self).voted() == Some(old(self).me_spec()),
            final(self).log_model() == old(self).log_model(),
            args.term == final(self).term() && args.candidate_id == old(self).me_spec(),
            args.last_log_index == old(self).last_log_index() && args.last_log_term == old(
                self,
            ).last_log_term(),
    {
        self.current_term = self.current_term + 1;
        self.voted_for = Some(self.me);
        self.role = Role::Candidate;
        let n = self.votes.len();
        let mut votes: Vec<bool> = Vec::new();
        let mut i: usize = 0;
        while i < n
            invariant
                i <= n,
                votes@.len() == i,
            decreases n - i,
        {
            votes.push(false);
            i = i + 1;
        }
        self.votes = votes;
        self.record_vote_bit(self.me);
        RequestVoteArgs {
            term: self.current_term,
            candidate_id: self.me,
            last_log_index: self.log[0].index + (self.log.len() - 1) as u64,
            last_log_term: self.log[self.log.len() - 1].term,
        }
    }

    pub closed spec fn me_spec(&self) -> u64 {
        self.me
    }

    pub closed spec fn votes_model(&self) -> Seq<bool> {
        self.votes@
    }

    fn record_vote_bit(&mut self, from: u64)
        requires
            old(self).wf(),
            from < old(self).votes_model().len(),
        ensures
            final(self).wf(),
            final(self).votes_model() == old(self).votes_model().update(from as int, true),
            final(self).term() == old(self).term() && final(self).role_spec() == old(
                self,
            ).role_spec() && final(self).voted() == old(self).voted(),
            final(self).log_model() == old(self).log_model(),
            final(self).commit() == old(self).commit() && final(self).applied() == old(
                self,
            ).applied(),
            final(self).me_spec() == old(self).me_spec(),
    {
        let n = self.votes.len();
        let mut nv: Vec<bool> = Vec::new();
        let mut i: usize = 0;
        while i < n
            invariant
                n == self.votes@.len(),
                from < n,
                i <= n,
                nv@.len() == i,
                forall|j: int|
                    0 <= j < i ==> nv@[j] == (if j == from as int {
                        true
                    } else {
                        self.votes@[j]
                    }),
            decreases n - i,
        {
            if i == from as usize {
                nv.push(true);
            } else {
                nv.push(self.votes[i]);
            }
            i = i + 1;
        }
        self.votes = nv;
        proof {
            assert(self.votes@ =~= old(self).votes_model().update(from as int, true));
        }
    }

    /// Count a vote reply; with a majority, take leadership of the term.
    pub fn record_vote(&mut self, from: u64, term: u64, granted: bool) -> (became_leader: bool)
        requires
            old(self).wf(),
        ensures
            final(self).wf(),
            final(self).term() == old(self).term(),
            final(self).log_model() == old(self).log_model(),
            final(self).voted() == old(self).voted(),
            final(self).commit() == old(self).commit() && final(self).applied() == old(
                self,
            ).applied(),
            final(self).peers_spec() == old(self).peers_spec() && final(self).me_spec() == old(
                self,
            ).me_spec(),
            // a grant from a peer in the current term while campaigning is
            // recorded; anything else changes nothing
            final(self).votes_model() == if term == old(self).term() && old(self).role_spec()
                == Role::Candidate && granted && (from as int) < old(self).peers_spec() {
                old(self).votes_model().update(from as int, true)
            } else {
                old(self).votes_model()
            },
            // leadership is taken exactly when the counted grants reach a majority
            became_leader <==> (term == old(self).term() && old(self).role_spec()
                == Role::Candidate && granted && (from as int) < old(self).peers_spec() && 2
                * count_true(final(self).votes_model()) > final(self).peers_spec()),
            final(self).role_spec() == if became_leader {
                Role::Leader
            } else {
                old(self).role_spec()
            },
    {
        if term != self.current_term || !matches!(self.role, Role::Candidate) || !granted
            || from >= self.peers {
            return false;
        }
        self.record_vote_bit(from);
        let n = self.votes.len();
        let mut count: u64 = 0;
        let mut i: usize = 0;
        proof {
            assert(self.votes@.subrange(0, 0) =~= Seq::<bool>::empty());
        }
        while i < n
            invariant
                self.wf(),
                n == self.votes@.len(),
                i <= n,
                count <= i,
                count == count_true(self.votes@.subrange(0, i as int)),
            decreases n - i,
        {
            if self.votes[i] {
                count = count + 1;
            }
            proof {
                assert(self.votes@.subrange(0, (i + 1) as int).drop_last() =~= self.votes@.subrange(
                    0,
                    i as int,
                ));
                assert(self.votes@.subrange(0, (i + 1) as int).last() == self.votes@[i as int]);
            }
            i = i + 1;
        }
        proof {
            assert(self.votes@.subrange(0, n as int) =~= self.votes@);
        }
        if 2 * count as u128 > self.peers as u128 {
            self.role = Role::Leader;
            true
        } else {
            false
        }
    }

    pub closed spec fn peers_spec(&self) -> int {
        self.peers as int
    }

    /// A leader accepts a client command into its log; anyone else refuses.
    pub fn start(&mut self, payload: Vec<u8>) -> (r: Option<(u64, u64)>)
        requires
            old(self).wf(),
            old(self).last_log_index() < u64::MAX - 1,
        ensures
            final(self).wf(),
            final(self).term() == old(self).term(),
            match r {
                Some((index, term)) => {
                    &&& old(self).role_spec() == Role::Leader
                    &&& index == old(self).last_log_index() + 1
                    &&& term == old(self).term()
                    &&& final(self).log_model() == old(self).log_model().push(
                        LogEntry { term, index, payload },
                    )
                },
                None => old(self).role_spec() != Role::Leader && *final(self) == *old(self),
            },
    {
        if !matches!(self.role, Role::Leader) {
            return None;
        }
        let index = self.log[0].index + self.log.len() as u64;
        let term = self.current_term;
        self.log.push(LogEntry { term, index, payload });
        Some((index, term))
    }

    /// Entries with indexes in `(last_applied, commit_index]`, in order;
    /// they are now considered applied. Every replica hands entries to its
    /// state machine in exactly this order.
    pub fn take_applicable(&mut self) -> (r: Vec<LogEntry>)
        requires
            old(self).wf(),
        ensures
            final(self).wf(),
            final(self).applied() == old(self).commit(),
            final(self).log_model() == old(self).log_model() && final(self).term() == old(
                self,
            ).term() && final(self).commit() == old(self).commit(),
            r@.len() == old(self).commit() - old(self).applied(),
            forall|i: int|
                0 <= i < r@.len() ==> (#[trigger] r@[i]).index == old(self).applied() + 1 + i
                    && r@[i].term == old(self).log_model()[r@[i].index - old(self).base()].term
                    && r@[i].payload@ == old(self).log_model()[r@[i].index - old(
                    self,
                ).base()].payload@,
    {
        let mut out: Vec<LogEntry> = Vec::new();
        let base = self.log[0].index;
        let n = self.log.len();
        let mut idx: u64 = self.last_applied + 1;
        while idx <= self.commit_index
            invariant
                self.wf(),
                base == self.base(),
                n == self.log@.len(),
                old(self).applied() < idx <= self.commit_index + 1,
                self.commit_index == old(self).commit() && self.last_applied == old(self).applied(),
                self.log@ == old(self).log_model(),
                self.last_applied + 1 <= idx,
                out@.len() == idx - (self.last_applied + 1),
                forall|i: int|
                    0 <= i < out@.len() ==> (#[trigger] out@[i]).index == self.last_applied + 1 + i
                        && out@[i].term == self.log@[out@[i].index - base].term
                        && out@[i].payload@ == self.log@[out@[i].index - base].payload@,
            decreases self.commit_index + 1 - idx,
        {
            proof {
                assert(idx - base < self.log@.len());
            }
            let pos = (idx - base) as usize;
            let e = &self.log[pos];
            let ghost out0 = out@;
            out.push(LogEntry { term: e.term, index: idx, payload: bytes_clone(&e.payload) });
            proof {
                assert(forall|i: int| 0 <= i < out0.len() ==> out@[i] == out0[i]);
                assert(out@.last().index == idx);
            }
            idx = idx + 1;
        }
        self.last_applied = self.commit_index;
        out
    }
}

/// At most one vote per term: the handler's contract says a replica that
/// already voted for `c` in its current term grants the same term's vote
/// only to `c` again, so two different candidates can never both collect
/// its vote for one term.
pub proof fn lemma_one_vote_per_term(c1: u64, c2: u64, voted: Option<u64>)
    requires
        voted == Some(c1),  // what granting a vote to `c1` records
        voted is Some ==> voted == Some(c2) || voted is None,  // what a second grant demands
    ensures
        c2 == c1,
{
}

} // verus!

verus! {

/// How many match indexes are at least `n`, counted executably.
fn count_match_geq(v: &Vec<u64>, n: u64) -> (r: u64)
    ensures
        r == count_geq(v@, n),
        r <= v@.len(),
{
    let len = v.len();
    let mut count: u64 = 0;
    let mut i: usize = 0;
    proof {
        assert(v@.subrange(0, 0) =~= Seq::<u64>::empty());
    }
    while i < len
        invariant
            len == v@.len(),
            i <= len,
            count <= i,
            count == count_geq(v@.subrange(0, i as int), n),
        decreases len - i,
    {
        if v[i] >= n {
            count = count + 1;
        }
        proof {
            assert(v@.subrange(0, (i + 1) as int).drop_last() =~= v@.subrange(0, i as int));
            assert(v@.subrange(0, (i + 1) as int).last() == v@[i as int]);
        }
        i = i + 1;
    }
    proof {
        assert(v@.subrange(0, len as int) =~= v@);
    }
    count
}

impl Raft {
    /// Append entries from the leader of `args.term`: refuse stale terms,
    /// refuse when the previous entry does not match (with a hint that
    /// skips the whole conflicting term), else keep the log's prefix,
    /// reconcile the sent range, and follow the leader's commit index.
    pub fn handle_append_entries(&mut self, args: &AppendEntriesArgs) -> (reply:
        AppendEntriesReply)
        requires
            old(self).wf(),
            forall|i: int|
                0 <= i < args.entries@.len() ==> (#[trigger] args.entries@[i].index)
                    == args.prev_log_index + 1 + i,
            args.prev_log_index + args.entries@.len() + 1 <= u64::MAX,
        ensures
            final(self).wf(),
            reply.term == final(self).term(),
            final(self).term() == if args.term > old(self).term() {
                args.term
            } else {
                old(self).term()
            },
            args.term < old(self).term() ==> !reply.success && *final(self) == *old(self),
            args.term >= old(self).term() ==> final(self).role_spec() == Role::Follower,
            reply.success <==> (args.term >= old(self).term() && old(self).base()
                <= args.prev_log_index <= old(self).last_log_index() && old(self).commit()
                <= args.prev_log_index && old(self).log_model()[
                args.prev_log_index - old(self).base()
            ].term == args.prev_log_term),
            reply.success ==> {
                &&& final(self).base() == old(self).base()
                &&& final(self).last_log_index() >= args.prev_log_index + args.entries@.len()
                &&& forall|i: int|
                    0 <= i <= args.prev_log_index - old(self).base() ==> (#[trigger] final(self).log_model()[i]).term == old(self).log_model()[i].term && final(self).log_model()[i].payload@ == old(self).log_model()[i].payload@
                &&& forall|i: int|
                    0 <= i < args.entries@.len() ==> (#[trigger] final(self).log_model()[
                        args.prev_log_index + 1 + i - old(self).base()
                    ]).term == args.entries@[i].term
                &&& final(self).commit() == if args.leader_commit > old(self).commit() {
                    if args.leader_commit <= args.prev_log_index + args.entries@.len() {
                        args.leader_commit as int
                    } else {
                        args.prev_log_index + args.entries@.len()
                    }
                } else {
                    old(self).commit() as int
                }
            },
            !reply.success ==> final(self).commit() == old(self).commit(),
    {
        if args.term < self.current_term {
            return AppendEntriesReply {
                term: self.current_term,
                success: false,
                conflict_log_index: 0,
                conflict_log_term: 0,
            };
        }
        if args.term > self.current_term {
            self.current_term = args.term;
            self.voted_for = None;
        }
        self.role = Role::Follower;
        let base = self.log[0].index;
        let last = base + (self.log.len() - 1) as u64;
        if args.prev_log_index > last || args.prev_log_index < base
            || args.prev_log_index < self.commit_index {
            return AppendEntriesReply {
                term: self.current_term,
                success: false,
                conflict_log_index: if args.prev_log_index > last {
                    last + 1
                } else {
                    base
                },
                conflict_log_term: 0,
            };
        }
        let ppos = (args.prev_log_index - base) as usize;
        if self.log[ppos].term != args.prev_log_term {
            let cterm = self.log[ppos].term;
            let mut ci = ppos;
            while ci > 0 && self.log[ci - 1].term == cterm
                invariant
                    self.wf(),
                    ci <= ppos < self.log@.len(),
                decreases ci,
            {
                ci = ci - 1;
            }
            return AppendEntriesReply {
                term: self.current_term,
                success: false,
                conflict_log_index: base + ci as u64,
                conflict_log_term: cterm,
            };
        }
        // reconcile the sent range: keep matching entries, cut at the first
        // conflict, append what is missing
        let ghost pre_log = self.log@;
        let n = args.entries.len();
        let mut i: usize = 0;
        while i < n
            invariant
                self.wf(),
                n == args.entries@.len(),
                i <= n,
                base == self.base(),
                ppos == args.prev_log_index - base,
                ppos < self.log@.len(),
                self.log@.len() >= ppos + 1 + i,
                args.prev_log_index + args.entries@.len() + 1 <= u64::MAX,
                forall|k: int|
                    0 <= k < args.entries@.len() ==> (#[trigger] args.entries@[k].index)
                        == args.prev_log_index + 1 + k,
                forall|k: int|
                    0 <= k <= ppos ==> (#[trigger] self.log@[k]).term == pre_log[k].term
                        && self.log@[k].payload@ == pre_log[k].payload@,
                forall|k: int|
                    0 <= k < i ==> ppos + 1 + k < self.log@.len() && (#[trigger] self.log@[
                        ppos + 1 + k
                    ]).term == args.entries@[k].term,
                pre_log.len() <= u64::MAX,
                self.commit_index <= args.prev_log_index,
                self.commit_index == old(self).commit() && self.last_applied == old(self).applied(),
                self.current_term == if args.term > old(self).term() {
                    args.term
                } else {
                    old(self).term()
                },
                self.role == Role::Follower,
            decreases n - i, self.log@.len(),
        {
            let cur_len = self.log.len();
            let pos64: u64 = args.prev_log_index - base + 1 + i as u64;
            if pos64 < cur_len as u64 {
                let pos = pos64 as usize;
                if self.log[pos].term == args.entries[i].term {
                    i = i + 1;
                } else {
                    let ghost before = self.log@;
                    self.log.truncate(pos);
                    proof {
                        assert(self.log@ =~= before.subrange(0, pos as int));
                        assert forall|k: int| 0 <= k <= ppos implies (#[trigger] self.log@[k]).term
                            == pre_log[k].term && self.log@[k].payload@
                            == pre_log[k].payload@ by {
                            assert(self.log@[k] == before[k]);
                        }
                        assert forall|k: int|
                            0 <= k < i implies ppos + 1 + k < self.log@.len() && (
                        #[trigger] self.log@[ppos + 1 + k]).term == args.entries@[k].term by {
                            assert(self.log@[ppos + 1 + k] == before[ppos + 1 + k]);
                        }
                        assert forall|k: int|
                            0 <= k < self.log@.len() implies (#[trigger] self.log@[k]).index
                            == self.log@[0].index + k by {
                            assert(self.log@[k] == before[k]);
                        }
                    }
                }
            } else {
                proof {
                    assert(ppos + 1 + i == cur_len as int);
                }
                let e = &args.entries[i];
                let ghost before = self.log@;
                self.log.push(
                    LogEntry { term: e.term, index: e.index, payload: bytes_clone(&e.payload) },
                );
                proof {
                    assert(forall|k: int| 0 <= k < before.len() ==> self.log@[k] == before[k]);
                    assert(self.log@.last().index == args.prev_log_index + 1 + i);
                    assert forall|k: int|
                        0 <= k < self.log@.len() implies (#[trigger] self.log@[k]).index
                        == self.log@[0].index + k by {
                        if k < before.len() {
                            assert(self.log@[k] == before[k]);
                        }
                    }
                }
                i = i + 1;
            }
        }
        let last_new = args.prev_log_index + n as u64;
        proof {
            assert(pre_log == old(self).log_model());
            assert(base == old(self).base());
            assert(self.log@.len() >= ppos + 1 + n);
            assert(self.last_log_index() >= args.prev_log_index + n);
            assert forall|k: int|
                0 <= k <= args.prev_log_index - old(self).base() implies (
            #[trigger] self.log@[k]).term == old(self).log_model()[k].term && self.log@[k].payload@
                == old(self).log_model()[k].payload@ by {
                assert(0 <= k <= ppos);
            }
            assert forall|k: int|
                0 <= k < args.entries@.len() implies (#[trigger] self.log@[
                args.prev_log_index + 1 + k - old(self).base()
            ]).term == args.entries@[k].term by {
                assert(args.prev_log_index + 1 + k - old(self).base() == ppos + 1 + k);
                assert(self.log@[ppos + 1 + k].term == args.entries@[k].term);
            }
        }
        if args.leader_commit > self.commit_index {
            self.commit_index = if args.leader_commit <= last_new {
                args.leader_commit
            } else {
                last_new
            };
        }
        AppendEntriesReply {
            term: self.current_term,
            success: true,
            conflict_log_index: 0,
            conflict_log_term: 0,
        }
    }

    /// The leader advances its commit index to the highest log index that a
    /// majority already stores and that belongs to the leader's own term.
    pub fn advance_commit(&mut self, match_index: &Vec<u64>)
        requires
            old(self).wf(),
            old(self).role_spec() == Role::Leader,
            match_index@.len() == old(self).peers_spec(),
        ensures
            final(self).wf(),
            final(self).commit() >= old(self).commit(),
            final(self).term() == old(self).term() && final(self).log_model() == old(
                self,
            ).log_model() && final(self).role_spec() == old(self).role_spec(),
            final(self).commit() > old(self).commit() ==> 2 * count_geq(
                match_index@,
                final(self).commit(),
            ) > final(self).peers_spec() && final(self).log_model()[
                final(self).commit() - final(self).base()
            ].term == final(self).term(),
            forall|nn: u64|
                final(self).commit() < nn <= final(self).last_log_index() ==> !(2 * #[trigger]
                count_geq(match_index@, nn) > final(self).peers_spec() && final(self).log_model()[
                    nn - final(self).base()
                ].term == final(self).term()),
    {
        let base = self.log[0].index;
        let loglen = self.log.len();
        let last = base + (loglen - 1) as u64;
        let mut nn: u64 = last;
        while nn > self.commit_index
            invariant
                self.wf(),
                *self == *old(self),
                base == self.base(),
                loglen == self.log_model().len(),
                last == self.last_log_index(),
                self.commit() <= nn <= last,
                match_index@.len() == self.peers_spec(),
                forall|m: u64|
                    nn < m <= last ==> !(2 * #[trigger] count_geq(match_index@, m)
                        > self.peers_spec() && self.log_model()[m - self.base()].term
                        == self.term()),
            decreases nn,
        {
            let pos = (nn - base) as usize;
            if self.log[pos].term == self.current_term {
                let c = count_match_geq(match_index, nn);
                if 2 * c as u128 > self.peers as u128 {
                    self.commit_index = nn;
                    return;
                }
            }
            nn = nn - 1;
        }
    }
}

} // verus!

verus! {

impl Raft {
    /// The commit index this replica has reached.
    pub fn commit_index(&self) -> (r: u64)
        ensures
            r == self.commit(),
    {
        self.commit_index
    }

    /// The newest log index this replica holds.
    pub fn last_index(&self) -> (r: u64)
        requires
            self.wf(),
        ensures
            r == self.last_log_index(),
    {
        self.log[0].index + (self.log.len() - 1) as u64
    }

    /// The term of the entry at `index`, when the log still holds it.
    pub fn term_at(&self, index: u64) -> (r: Option<u64>)
        requires
            self.wf(),
        ensures
            match r {
                Some(t) => self.base() <= index <= self.last_log_index() && t == self.log_model()[
                    index - self.base()
                ].term,
                None => !(self.base() <= index <= self.last_log_index()),
            },
    {
        let base = self.log[0].index;
        let last = base + (self.log.len() - 1) as u64;
        if index < base || index > last {
            None
        } else {
            Some(self.log[(index - base) as usize].term)
        }
    }

    /// Copies of the entries with indexes in `[from, last]`, in order, for
    /// the leader to send to a follower.
    pub fn entries_from(&self, from: u64) -> (r: Vec<LogEntry>)
        requires
            self.wf(),
            self.base() < from,
        ensures
            r@.len() == if from <= self.last_log_index() {
                self.last_log_index() - from + 1
            } else {
                0int
            },
            forall|i: int|
                0 <= i < r@.len() ==> (#[trigger] r@[i]).index == from + i && r@[i].term
                    == self.log_model()[r@[i].index - self.base()].term && r@[i].payload@
                    == self.log_model()[r@[i].index - self.base()].payload@,
    {
        let base = self.log[0].index;
        let n = self.log.len();
        let last = base + (n - 1) as u64;
        let mut out: Vec<LogEntry> = Vec::new();
        if from > last {
            return out;
        }
        let mut idx: u64 = from;
        while idx <= last
            invariant
                self.wf(),
                base == self.base(),
                n == self.log@.len(),
                last == self.last_log_index(),
                base < from <= idx <= last + 1,
                out@.len() == idx - from,
                forall|i: int|
                    0 <= i < out@.len() ==> (#[trigger] out@[i]).index == from + i && out@[i].term
                        == self.log@[out@[i].index - base].term && out@[i].payload@ == self.log@[
                        out@[i].index - base
                    ].payload@,
            decreases last + 1 - idx,
        {
            proof {
                assert(idx - base < self.log@.len());
            }
            let pos = (idx - base) as usize;
            let e = &self.log[pos];
            let ghost out0 = out@;
            out.push(LogEntry { term: e.term, index: idx, payload: bytes_clone(&e.payload) });
            proof {
                assert(forall|i: int| 0 <= i < out0.len() ==> out@[i] == out0[i]);
            }
            idx = idx + 1;
        }
        out
    }
}

} // verus!

verus! {

/// Entries that can stand as a log: non-empty, contiguous indexes from the
/// sentinel on, and room left in the index space.
pub open spec fn saved_log_wf(log: Seq<LogEntry>) -> bool {
    &&& log.len() >= 1
    &&& forall|i: int| 0 <= i < log.len() ==> (#[trigger] log[i].index) == log[0].index + i
    &&& log[0].index + log.len() <= u64::MAX
}

impl Raft {
    /// The state that must be persisted before answering a vote or append:
    /// the current term, the vote of this term, and the whole log.
    pub fn saved_state(&self) -> (r: (u64, Option<u64>, Vec<LogEntry>))
        requires
            self.wf(),
        ensures
            r.0 == self.term(),
            r.1 == self.voted(),
            r.2@.len() == self.log_model().len(),
            forall|i: int|
                0 <= i < r.2@.len() ==> (#[trigger] r.2@[i]).term == self.log_model()[i].term
                    && r.2@[i].index == self.log_model()[i].index && r.2@[i].payload@
                    == self.log_model()[i].payload@,
            saved_log_wf(r.2@),
    {
        let n = self.log.len();
        let mut entries: Vec<LogEntry> = Vec::new();
        let mut i: usize = 0;
        while i < n
            invariant
                self.wf(),
                n == self.log@.len(),
                i <= n,
                entries@.len() == i,
                forall|j: int|
                    0 <= j < i ==> (#[trigger] entries@[j]).term == self.log@[j].term
                        && entries@[j].index == self.log@[j].index && entries@[j].payload@
                        == self.log@[j].payload@,
            decreases n - i,
        {
            let e = &self.log[i];
            let ghost before = entries@;
            entries.push(LogEntry { term: e.term, index: e.index, payload: bytes_clone(&e.payload) });
            proof {
                assert(forall|j: int| 0 <= j < before.len() ==> entries@[j] == before[j]);
            }
            i = i + 1;
        }
        (self.current_term, self.voted_for, entries)
    }

    /// Rebuild a replica from persisted state; refused exactly when the
    /// entries cannot stand as a log. The rebuilt replica is a follower
    /// whose commit and applied marks sit at the snapshot boundary, to be
    /// moved forward by its leader.
    pub fn from_saved(
        me: u64,
        peers: u64,
        term: u64,
        voted_for: Option<u64>,
        entries: Vec<LogEntry>,
    ) -> (r: Option<Raft>)
        requires
            peers >= 1,
            me < peers,
        ensures
            match r {
                Some(raft) => {
                    &&& saved_log_wf(entries@)
                    &&& raft.wf()
                    &&& raft.term() == term
                    &&& raft.voted() == voted_for
                    &&& raft.log_model() == entries@
                    &&& raft.role_spec() == Role::Follower
                    &&& raft.commit() == entries@[0].index && raft.applied() == entries@[0].index
                },
                None => !saved_log_wf(entries@),
            },
    {
        let n = entries.len();
        if n == 0 {
            return None;
        }
        let base = entries[0].index;
        if base > u64::MAX - (n as u64) {
            return None;
        }
        let mut i: usize = 1;
        while i < n
            invariant
                n == entries@.len(),
                1 <= i <= n,
                base == entries@[0].index,
                base + n <= u64::MAX,
                forall|j: int| 0 <= j < i ==> (#[trigger] entries@[j]).index == base + j,
            decreases n - i,
        {
            if entries[i].index != base + (i as u64) {
                proof {
                    assert(!saved_log_wf(entries@));
                }
                return None;
            }
            i = i + 1;
        }
        let mut votes: Vec<bool> = Vec::new();
        let mut k: u64 = 0;
        while k < peers
            invariant
                k <= peers,
                votes@.len() == k,
            decreases peers - k,
        {
            votes.push(false);
            k = k + 1;
        }
        Some(
            Raft {
                me,
                peers,
                current_term: term,
                voted_for,
                log: entries,
                commit_index: base,
                last_applied: base,
                role: Role::Follower,
                votes,
            },
        )
    }

    /// Install a snapshot that covers everything up to
    /// `last_included_index`: the log is reset to that boundary and the
    /// caller reinstalls the state machine from the snapshot's data. A
    /// stale or overflowing boundary, or a stale term, changes nothing.
    pub fn install_snapshot(&mut self, term: u64, last_included_index: u64, last_included_term: u64)
        -> (accepted: bool)
        requires
            old(self).wf(),
        ensures
            final(self).wf(),
            accepted <==> (term >= old(self).term() && last_included_index > old(self).commit()
                && last_included_index < u64::MAX),
            accepted ==> {
                &&& final(self).term() == if term > old(self).term() {
                    term
                } else {
                    old(self).term()
                }
                &&& final(self).role_spec() == Role::Follower
                &&& final(self).log_model().len() == 1
                &&& final(self).base() == last_included_index
                &&& final(self).log_model()[0].term == last_included_term
                &&& final(self).commit() == last_included_index && final(self).applied()
                    == last_included_index
            },
            !accepted ==> *final(self) == *old(self),
    {
        if term < self.current_term || last_included_index <= self.commit_index
            || last_included_index == u64::MAX {
            return false;
        }
        if term > self.current_term {
            self.current_term = term;
            self.voted_for = None;
        }
        self.role = Role::Follower;
        let mut log: Vec<LogEntry> = Vec::new();
        log.push(
            LogEntry { term: last_included_term, index: last_included_index, payload: Vec::new() },
        );
        self.log = log;
        self.commit_index = last_included_index;
        self.last_applied = last_included_index;
        true
    }

    /// Drop the applied prefix of the log after the state machine took a
    /// snapshot at `index`: the entry at `index` becomes the sentinel and
    /// everything after it stays.
    pub fn truncate_through(&mut self, index: u64)
        requires
            old(self).wf(),
            old(self).base() < index <= old(self).applied(),
        ensures
            final(self).wf(),
            final(self).base() == index,
            final(self).log_model().len() == old(self).log_model().len() - (index - old(
                self,
            ).base()),
            forall|i: int|
                0 <= i < final(self).log_model().len() ==> (#[trigger] final(self).log_model()[
                    i
                ]).term == old(self).log_model()[i + index - old(self).base()].term && final(self).log_model()[i].index == old(self).log_model()[i + index - old(self).base()].index
                    && final(self).log_model()[i].payload@ == old(self).log_model()[
                    i + index - old(self).base()
                ].payload@,
            final(self).term() == old(self).term() && final(self).voted() == old(self).voted(),
            final(self).commit() == old(self).commit() && final(self).applied() == old(
                self,
            ).applied(),
    {
        let base = self.log[0].index;
        let n = self.log.len();
        let mut log: Vec<LogEntry> = Vec::new();
        let mut idx: u64 = index;
        let last = base + (n - 1) as u64;
        while idx <= last
            invariant
                self.wf(),
                base == self.base(),
                n == self.log@.len(),
                last == self.last_log_index(),
                base < index <= idx <= last + 1,
                index <= self.applied(),
                log@.len() == idx - index,
                forall|i: int|
                    0 <= i < log@.len() ==> (#[trigger] log@[i]).term == self.log@[
                        i + index - base
                    ].term && log@[i].index == self.log@[i + index - base].index && log@[i].payload@
                        == self.log@[i + index - base].payload@,
            decreases last + 1 - idx,
        {
            proof {
                assert(idx - base < self.log@.len());
            }
            let pos = (idx - base) as usize;
            let e = &self.log[pos];
            let ghost before = log@;
            log.push(LogEntry { term: e.term, index: e.index, payload: bytes_clone(&e.payload) });
            proof {
                assert(forall|i: int| 0 <= i < before.len() ==> log@[i] == before[i]);
            }
            idx = idx + 1;
        }
        self.log = log;
    }
}

/// Saving the state and rebuilding from it restores the replica's term,
/// vote and log exactly: what `saved_state` hands out satisfies
/// `from_saved`'s validity test, so the round trip always succeeds.
pub proof fn lemma_saved_state_restores(s1: Raft, saved: (u64, Option<u64>, Vec<LogEntry>), r: Option<Raft>)
    requires
        s1.wf(),
        // what saved_state ensures of its output
        saved.0 == s1.term(),
        saved.1 == s1.voted(),
        saved_log_wf(saved.2@),
        saved.2@.len() == s1.log_model().len(),
        forall|i: int|
            0 <= i < saved.2@.len() ==> (#[trigger] saved.2@[i]).term == s1.log_model()[i].term
                && saved.2@[i].index == s1.log_model()[i].index && saved.2@[i].payload@
                == s1.log_model()[i].payload@,
        // what from_saved ensures of its result
        match r {
            Some(raft) => raft.term() == saved.0 && raft.voted() == saved.1 && raft.log_model()
                == saved.2@,
            None => !saved_log_wf(saved.2@),
        },
    ensures
        r is Some,
        r->Some_0.term() == s1.term(),
        r->Some_0.voted() == s1.voted(),
        r->Some_0.log_model().len() == s1.log_model().len(),
        forall|i: int|
            0 <= i < s1.log_model().len() ==> (#[trigger] r->Some_0.log_model()[i]).term
                == s1.log_model()[i].term && r->Some_0.log_model()[i].index == s1.log_model()[
                i
            ].index && r->Some_0.log_model()[i].payload@ == s1.log_model()[i].payload@,
{
}

} // verus!
