//! Shared plain types: errors, the text-protocol request and response
//! shells, and the write operation tag.

use vstd::prelude::*;

verus! {

/// Errors of the storage layer.
#[derive(Debug, Clone, PartialEq, Eq, Structural)]
pub enum KvError {
    /// The key is not present.
    KeyNotFound,
    /// Anything the store cannot express otherwise.
    Unknown,
}

/// Errors surfaced to clients of the transactional service.
#[derive(Debug, Clone)]
pub enum KvRpcError {
    /// The key is not present at the read timestamp.
    KeyNotFound,
    /// This replica is not the leader; try another.
    NotLeader,
    /// The `(ts, seq)` pair was already applied.
    DuplicatedRequest,
    /// No reply arrived in time.
    Timeout,
    /// The reply channel was dropped.
    Recv,
    /// The transaction step conflicts and must be retried from the start.
    Abort(String),
    /// Anything else.
    Unknown(String),
}

/// The operation a transactional write performs.
#[derive(Debug, Clone, Copy, PartialEq, Eq, Structural)]
pub enum WriteOp {
    Put,
    Delete,
    Lock,
}

/// The single byte that stores a write operation.
pub open spec fn op_byte(op: WriteOp) -> u8 {
    match op {
        WriteOp::Put => 0,
        WriteOp::Delete => 1,
        WriteOp::Lock => 2,
    }
}

impl WriteOp {
    /// The stored byte of the operation.
    pub fn code_u8(&self) -> (r: u8)
        ensures
            r == op_byte(*self),
    {
        match self {
            WriteOp::Put => 0,
            WriteOp::Delete => 1,
            WriteOp::Lock => 2,
        }
    }

    /// The wire tag of the operation.
    pub fn code(&self) -> (r: u64)
        ensures
            r == self.code_spec(),
    {
        match self {
            WriteOp::Put => 0,
            WriteOp::Delete => 1,
            WriteOp::Lock => 2,
        }
    }

    pub open spec fn code_spec(&self) -> u64 {
        match self {
            WriteOp::Put => 0,
            WriteOp::Delete => 1,
            WriteOp::Lock => 2,
        }
    }

    /// The operation a wire tag names, if any.
    pub fn from_code(code: u64) -> (r: Option<WriteOp>)
        ensures
            match r {
                Some(op) => op.code_spec() == code,
                None => code > 2,
            },
    {
        if code == 0 {
            Some(WriteOp::Put)
        } else if code == 1 {
            Some(WriteOp::Delete)
        } else if code == 2 {
            Some(WriteOp::Lock)
        } else {
            None
        }
    }
}

/// One request of the plain text protocol that the simple server speaks.
pub struct Request {
    /// "Get", "Set", "Remove", "TSO", "PreWrite" or "Commit".
    pub cmd: String,
    /// Start timestamp of the transaction the command belongs to.
    pub ts: u64,
    /// The key the command works on.
    pub key: String,
    /// The value, where the command carries one.
    pub value: Option<String>,
    /// The transaction's primary key.
    pub primary: String,
    /// The commit timestamp, for "Commit".
    pub commit_ts: u64,
}

/// The reply to a [`Request`].
pub struct Response {
    /// "ok" or "err".
    pub status: String,
    /// The value, or the error message.
    pub result: Option<String>,
}

} // verus!
