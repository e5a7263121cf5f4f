//! The timestamp oracle: a strictly monotonic counter that survives
//! restarts through a checkpoint value the caller persists after every
//! handout.

use vstd::prelude::*;

verus! {

/// Hands out strictly increasing 64-bit timestamps.
pub struct TimestampOracle {
    next: u64,
}

impl TimestampOracle {
    /// The next timestamp this oracle will hand out.
    pub closed spec fn counter(&self) -> u64 {
        self.next
    }

    /// Open an oracle from the persisted checkpoint; a missing or
    /// unreadable checkpoint starts the counter at 1.
    pub fn open(saved: Option<u64>) -> (o: TimestampOracle)
        ensures
            o.counter() == match saved {
                Some(v) => v,
                None => 1u64,
            },
    {
        match saved {
            Some(v) => TimestampOracle { next: v },
            None => TimestampOracle { next: 1 },
        }
    }

    /// Hand out one timestamp; the caller must persist [`Self::checkpoint`]
    /// before exposing it. `None` only when the counter space is exhausted.
    pub fn fetch_one(&mut self) -> (r: Option<u64>)
        ensures
            match r {
                Some(ts) => old(self).counter() < u64::MAX && ts == old(self).counter()
                    && final(self).counter() == old(self).counter() + 1,
                None => old(self).counter() == u64::MAX && final(self).counter() == old(
                    self,
                ).counter(),
            },
    {
        if self.next == u64::MAX {
            None
        } else {
            let ts = self.next;
            self.next = self.next + 1;
            Some(ts)
        }
    }

    /// The value to persist so that a restart continues above every
    /// timestamp handed out so far.
    pub fn checkpoint(&self) -> (r: u64)
        ensures
            r == self.counter(),
    {
        self.next
    }
}

/// Strict monotonicity across restarts: a timestamp handed out before a
/// checkpoint was taken lies below the counter of any oracle reopened from
/// that checkpoint or a later one, so every later handout exceeds it.
pub proof fn lemma_monotonic_across_restart(ts: u64, cp: u64, saved: u64, o2: TimestampOracle)
    requires
        ts < cp,  // `ts` was handed out before the counter reached `cp`
        cp <= saved,  // the checkpoint persisted afterwards
        o2.counter() == saved,  // the oracle reopened from it
    ensures
        ts < o2.counter(),
{
}

} // verus!
