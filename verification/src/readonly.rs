//! The queue of read-only requests a replica parks per log index until the
//! index commits.

use vstd::prelude::*;

use crate::assoc::{assoc_map, assoc_unique, assoc_find, lemma_assoc_map_index,
    lemma_assoc_map_remove};

verus! {

/// Encoded read requests, grouped by the log index they wait for.
pub struct ReadOnly {
    req_status: Vec<(u64, Vec<Vec<u8>>)>,
}

/// The views of a batch of encoded requests.
pub open spec fn reqs_model(v: Seq<Vec<u8>>) -> Seq<Seq<u8>> {
    v.map_values(|r: Vec<u8>| r@)
}

impl ReadOnly {
    pub closed spec fn wf(&self) -> bool {
        assoc_unique(self.req_status@)
    }

    /// The parked requests, by log index.
    pub closed spec fn model(&self) -> Map<u64, Vec<Vec<u8>>> {
        assoc_map(self.req_status@)
    }

    pub fn new() -> (r: ReadOnly)
        ensures
            r.wf(),
            r.model() == Map::<u64, Vec<Vec<u8>>>::empty(),
    {
        ReadOnly { req_status: Vec::new() }
    }

    /// Forget every parked request.
    pub fn reset(&mut self)
        ensures
            final(self).wf(),
            final(self).model() == Map::<u64, Vec<Vec<u8>>>::empty(),
    {
        self.req_status = Vec::new();
    }

    /// Park `req` under `index`.
    pub fn add_request(&mut self, index: u64, req: Vec<u8>)
        requires
            old(self).wf(),
        ensures
            final(self).wf(),
            final(self).model().dom() == old(self).model().dom().insert(index),
            final(self).model()[index]@ == if old(self).model().dom().contains(index) {
                old(self).model()[index]@.push(req)
            } else {
                seq![req]
            },
            forall|x: u64|
                old(self).model().dom().contains(x) && x != index ==> final(self).model()[x] == old(
                    self,
                ).model()[x],
    {
        proof {
            lemma_assoc_map_index(self.req_status@);
        }
        let ghost m0 = self.model();
        let mut batch: Vec<Vec<u8>> = match assoc_find(&self.req_status, index) {
            Some(i) => {
                proof {
                    lemma_assoc_map_remove(self.req_status@, i as int);
                }
                let (_k, b) = self.req_status.remove(i);
                proof {
                    lemma_assoc_map_index(self.req_status@);
                    assert forall|j: int| 0 <= j < self.req_status@.len() implies self.req_status@[j].0
                        != index by {
                        if self.req_status@[j].0 == index {
                            assert(assoc_map(self.req_status@).dom().contains(index));
                            assert(!m0.remove(index).dom().contains(index));
                        }
                    }
                }
                b
            },
            None => Vec::new(),
        };
        batch.push(req);
        let ghost pre = self.req_status@;
        self.req_status.push((index, batch));
        proof {
            assert(self.req_status@.drop_last() =~= pre);
            assert(self.model() == assoc_map(pre).insert(index, self.req_status@.last().1));
            assert(assoc_unique(self.req_status@)) by {
                assert(forall|j: int| 0 <= j < pre.len() ==> self.req_status@[j] == pre[j]);
            }
            assert(self.model().dom() =~= m0.dom().insert(index));
            assert(forall|x: u64|
                m0.dom().contains(x) && x != index ==> self.model()[x] == m0[x]);
        }
    }

    /// Take the requests parked under `index`, the empty batch when none.
    pub fn pop_requests(&mut self, index: u64) -> (r: Vec<Vec<u8>>)
        requires
            old(self).wf(),
        ensures
            final(self).wf(),
            final(self).model() == old(self).model().remove(index),
            if old(self).model().dom().contains(index) {
                r == old(self).model()[index]
            } else {
                r@.len() == 0
            },
    {
        proof {
            lemma_assoc_map_index(self.req_status@);
        }
        match assoc_find(&self.req_status, index) {
            Some(i) => {
                proof {
                    lemma_assoc_map_remove(self.req_status@, i as int);
                }
                let (_k, b) = self.req_status.remove(i);
                proof {
                    assert(old(self).model()[index] == b);
                }
                b
            },
            None => {
                proof {
                    if old(self).model().dom().contains(index) {
                        let j = choose|j: int|
                            0 <= j < self.req_status@.len() && self.req_status@[j].0 == index;
                        assert(false);
                    }
                    assert(old(self).model().remove(index) =~= old(self).model());
                }
                Vec::new()
            },
        }
    }
}

} // verus!
