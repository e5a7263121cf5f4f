//! The client side of the transaction protocol: a transaction gathers its
//! write set locally, then turns it into the request sequence the commit
//! workflow sends — every prewrite in order, the primary commit, then the
//! secondary commits. Sending and retrying are the caller's work.

use vstd::prelude::*;

use crate::bytes_clone;
use crate::common::WriteOp;
use crate::service::{PrewriteRequest, CommitRequest};

verus! {

/// One buffered write of an open transaction.
pub struct WriteInfo {
    pub key: Vec<u8>,
    pub value: Vec<u8>,
    pub op: WriteOp,
}

/// An open transaction: its snapshot timestamp and its buffered writes.
/// The first buffered write's key is the primary key.
pub struct Transaction {
    start_ts: u64,
    seq: u64,
    writes: Vec<WriteInfo>,
}

impl Transaction {
    pub closed spec fn start(&self) -> u64 {
        self.start_ts
    }

    pub closed spec fn seq_no(&self) -> u64 {
        self.seq
    }

    pub closed spec fn writes_model(&self) -> Seq<WriteInfo> {
        self.writes@
    }

    /// The snapshot timestamp the transaction reads at.
    pub fn current_start_ts(&self) -> (r: u64)
        ensures
            r == self.start(),
    {
        self.start_ts
    }

    /// How many writes the transaction has buffered.
    pub fn write_count(&self) -> (r: usize)
        ensures
            r == self.writes_model().len(),
    {
        self.writes.len()
    }

    /// Begin at the snapshot timestamp the oracle handed out.
    pub fn begin(start_ts: u64) -> (r: Transaction)
        ensures
            r.start() == start_ts,
            r.seq_no() == 0,
            r.writes_model().len() == 0,
    {
        Transaction { start_ts, seq: 0, writes: Vec::new() }
    }

    /// Buffer a put.
    pub fn txn_set(&mut self, key: Vec<u8>, value: Vec<u8>)
        ensures
            final(self).writes_model().len() == old(self).writes_model().len() + 1,
            final(self).writes_model().last().key@ == key@,
            final(self).writes_model().last().value@ == value@,
            final(self).writes_model().last().op == WriteOp::Put,
            final(self).writes_model().drop_last() == old(self).writes_model(),
            final(self).start() == old(self).start() && final(self).seq_no() == old(self).seq_no(),
    {
        self.writes.push(WriteInfo { key, value, op: WriteOp::Put });
        proof {
            assert(self.writes@.drop_last() =~= old(self).writes_model());
        }
    }

    /// Buffer a delete.
    pub fn txn_delete(&mut self, key: Vec<u8>)
        ensures
            final(self).writes_model().len() == old(self).writes_model().len() + 1,
            final(self).writes_model().last().key@ == key@,
            final(self).writes_model().last().value@.len() == 0,
            final(self).writes_model().last().op == WriteOp::Delete,
            final(self).writes_model().drop_last() == old(self).writes_model(),
            final(self).start() == old(self).start() && final(self).seq_no() == old(self).seq_no(),
    {
        self.writes.push(WriteInfo { key, value: Vec::new(), op: WriteOp::Delete });
        proof {
            assert(self.writes@.drop_last() =~= old(self).writes_model());
        }
    }

    /// The next request sequence number within the transaction.
    pub fn next_seq(&mut self) -> (r: u64)
        requires
            old(self).seq_no() < u64::MAX,
        ensures
            r == old(self).seq_no() + 1,
            final(self).seq_no() == old(self).seq_no() + 1,
            final(self).start() == old(self).start(),
            final(self).writes_model() == old(self).writes_model(),
    {
        self.seq = self.seq + 1;
        self.seq
    }

    /// The prewrite requests of the commit workflow, one per buffered write
    /// in buffer order, every one naming the first write's key as primary,
    /// numbered from sequence 1.
    pub fn prewrite_requests(&self) -> (r: Vec<PrewriteRequest>)
        requires
            self.writes_model().len() > 0,
            self.writes_model().len() <= u64::MAX,
        ensures
            r@.len() == self.writes_model().len(),
            forall|i: int|
                0 <= i < r@.len() ==> {
                    let w = self.writes_model()[i];
                    &&& (#[trigger] r@[i]).key@ == w.key@
                    &&& r@[i].value@ == w.value@
                    &&& r@[i].op == crate::common::op_byte(w.op) as u64
                    &&& r@[i].primary@ == self.writes_model()[0].key@
                    &&& r@[i].ts == self.start()
                    &&& r@[i].seq == i + 1
                },
    {
        let n = self.writes.len();
        let mut out: Vec<PrewriteRequest> = Vec::new();
        let mut i: usize = 0;
        while i < n
            invariant
                n == self.writes@.len(),
                0 < n <= u64::MAX,
                i <= n,
                out@.len() == i,
                forall|j: int|
                    0 <= j < i ==> {
                        let w = self.writes_model()[j];
                        &&& (#[trigger] out@[j]).key@ == w.key@
                        &&& out@[j].value@ == w.value@
                        &&& out@[j].op == crate::common::op_byte(w.op) as u64
                        &&& out@[j].primary@ == self.writes_model()[0].key@
                        &&& out@[j].ts == self.start()
                        &&& out@[j].seq == j + 1
                    },
            decreases n - i,
        {
            let w = &self.writes[i];
            let req = PrewriteRequest {
                key: bytes_clone(&w.key),
                value: bytes_clone(&w.value),
                op: w.op.code_u8() as u64,
                primary: bytes_clone(&self.writes[0].key),
                ts: self.start_ts,
                seq: (i + 1) as u64,
            };
            out.push(req);
            i = i + 1;
        }
        out
    }

    /// The primary commit request: the first buffered write's key, with
    /// sequence number 1 in the commit timestamp's domain.
    pub fn primary_commit_request(&self, commit_ts: u64) -> (r: CommitRequest)
        requires
            self.writes_model().len() > 0,
        ensures
            r.is_primary,
            r.key@ == self.writes_model()[0].key@,
            r.primary@ == self.writes_model()[0].key@,
            r.op == crate::common::op_byte(self.writes_model()[0].op) as u64,
            r.start_ts == self.start(),
            r.commit_ts == commit_ts,
            r.seq == 1,
    {
        let w = &self.writes[0];
        CommitRequest {
            is_primary: true,
            primary: bytes_clone(&w.key),
            key: bytes_clone(&w.key),
            op: w.op.code_u8() as u64,
            start_ts: self.start_ts,
            commit_ts,
            seq: 1,
        }
    }

    /// The secondary commit requests, one per remaining write in buffer
    /// order, numbered from sequence 2.
    pub fn secondary_commit_requests(&self, commit_ts: u64) -> (r: Vec<CommitRequest>)
        requires
            self.writes_model().len() > 0,
            self.writes_model().len() <= u64::MAX - 1,
        ensures
            r@.len() == self.writes_model().len() - 1,
            forall|i: int|
                0 <= i < r@.len() ==> {
                    let w = self.writes_model()[i + 1];
                    &&& !(#[trigger] r@[i]).is_primary
                    &&& r@[i].key@ == w.key@
                    &&& r@[i].primary@ == self.writes_model()[0].key@
                    &&& r@[i].op == crate::common::op_byte(w.op) as u64
                    &&& r@[i].start_ts == self.start()
                    &&& r@[i].commit_ts == commit_ts
                    &&& r@[i].seq == i + 2
                },
    {
        let n = self.writes.len();
        let mut out: Vec<CommitRequest> = Vec::new();
        let mut i: usize = 1;
        while i < n
            invariant
                n == self.writes@.len(),
                0 < n <= u64::MAX - 1,
                1 <= i <= n,
                out@.len() == i - 1,
                forall|j: int|
                    0 <= j < i - 1 ==> {
                        let w = self.writes_model()[j + 1];
                        &&& !(#[trigger] out@[j]).is_primary
                        &&& out@[j].key@ == w.key@
                        &&& out@[j].primary@ == self.writes_model()[0].key@
                        &&& out@[j].op == crate::common::op_byte(w.op) as u64
                        &&& out@[j].start_ts == self.start()
                        &&& out@[j].commit_ts == commit_ts
                        &&& out@[j].seq == j + 2
                    },
            decreases n - i,
        {
            let w = &self.writes[i];
            let req = CommitRequest {
                is_primary: false,
                primary: bytes_clone(&self.writes[0].key),
                key: bytes_clone(&w.key),
                op: w.op.code_u8() as u64,
                start_ts: self.start_ts,
                commit_ts,
                seq: (i + 1) as u64,
            };
            out.push(req);
            i = i + 1;
        }
        out
    }
}

} // verus!
