//! Linearizable reads without a log entry.

use vstd::prelude::*;

use crate::error::Result;
use crate::raft::ids::{self, lookup, sorted_ids};
use crate::raft::node::state::{self, NodeState, ReadToken, ReadView, Role};
use crate::raft::node::{PendingRead, RaftCore};
use crate::raft::storage::RaftStorage;

verus! {

broadcast use {vstd::std_specs::btree::group_btree_axioms, vstd::laws_cmp::group_laws_cmp};

impl<S: RaftStorage> RaftCore<S> {
    /// How many voters, the node included, have answered since `read` began.
    fn count_contacted(&self, read: &PendingRead) -> (r: usize)
        ensures
            r == self@.contacted(read@),
    {
        let voters = sorted_ids(&self.voters);
        let ghost p = state::in_touch(self@.config.id, self@.ack_count, read@.barrier);
        let mut count: usize = 0;
        let mut i: usize = 0;
        proof {
            ids::tally_none(voters@, p);
        }
        while i < voters.len()
            invariant
                i <= voters@.len(),
                count <= i,
                ids::strictly_ascending(voters@),
                p == state::in_touch(self@.config.id, self@.ack_count, read@.barrier),
                count == ids::tally(voters@.take(i as int).to_set(), p),
            decreases voters@.len() - i,
        {
            proof {
                ids::tally_step(voters@, i as int, p);
            }
            let v: u64 = voters[i];
            if v == self.config.id || lookup(&self.ack_count, v, 0) > lookup(&read.barrier, v, 0) {
                count = count + 1;
            }
            i = i + 1;
        }
        assert(voters@.take(i as int) =~= voters@);
        count
    }

    /// Releases the reads that are confirmed: the node still leads, an entry of
    /// its term has been applied, a majority has answered a request sent after
    /// the read began, and everything committed by then has been applied. A
    /// node that no longer leads drops its reads instead.
    pub(crate) fn maybe_release_reads(&mut self)
        requires
            old(self)@.wf(),
        ensures
            final(self)@.wf(),
            final(self)@ == old(self)@.release_reads(),
    {
        if self.role != Role::Leader {
            self.pending_reads.clear();
            assert(self@ =~= old(self)@.release_reads());
            return;
        }
        let current_term: u64 = self.current_term();
        if self.readable_term != Some(current_term) {
            return;
        }
        let quorum: usize = self.quorum();
        let ghost before = self@;
        let ghost reads = self@.pending_reads;
        let ghost mut seen: int = 0;
        let mut kept: usize = 0;
        let total: usize = self.pending_reads.len();
        assert(reads.skip(0) =~= reads);
        assert(reads.take(0) =~= Seq::empty());
        assert(self@.pending_reads =~= before.unconfirmed(reads.take(0)) + reads.skip(0));
        assert(self@ =~= NodeState {
            reads_buf: before.reads_buf + before.confirmed_tokens(reads.take(0)),
            pending_reads: before.unconfirmed(reads.take(0)) + reads.skip(0),
            ..before
        });
        while kept < self.pending_reads.len()
            invariant
                0 <= seen <= reads.len(),
                before == old(self)@,
                before.wf(),
                reads == before.pending_reads,
                quorum == before.quorum(),
                kept == before.unconfirmed(reads.take(seen)).len(),
                self@ == (NodeState {
                    reads_buf: before.reads_buf + before.confirmed_tokens(reads.take(seen)),
                    pending_reads: before.unconfirmed(reads.take(seen)) + reads.skip(seen),
                    ..before
                }),
            decreases reads.len() - seen,
        {
            let ghost was = self@;
            proof {
                assert(seen < reads.len()) by {
                    assert(self@.pending_reads.len() == self.pending_reads@.len());
                }
                assert(reads.take(seen + 1).drop_last() =~= reads.take(seen));
                assert(self@.pending_reads[kept as int] == reads[seen]);
                assert(self.pending_reads@[kept as int]@ == reads[seen]);
            }
            let contacted: usize = self.count_contacted(&self.pending_reads[kept]);
            if contacted >= quorum && self.last_applied >= self.pending_reads[kept].floor {
                let read = self.pending_reads.remove(kept);
                self.reads_buf.push(read.token);
                proof {
                    assert(self@.pending_reads =~= was.pending_reads.remove(kept as int));
                    assert(self@.pending_reads =~= before.unconfirmed(reads.take(seen + 1))
                        + reads.skip(seen + 1));
                    assert(self@.reads_buf =~= before.reads_buf + before.confirmed_tokens(
                        reads.take(seen + 1),
                    ));
                }
            } else {
                kept = kept + 1;
                assert(self@.pending_reads =~= before.unconfirmed(reads.take(seen + 1))
                    + reads.skip(seen + 1));
            }
            proof {
                seen = seen + 1;
            }
        }
        proof {
            assert(self@.pending_reads.len() == self.pending_reads@.len());
            assert(reads.take(seen) =~= reads);
            assert(self@.pending_reads =~= before.unconfirmed(reads));
            assert(self@ =~= before.release_reads());
        }
    }

    /// Registers a linearizable read. A node that does not lead drops the
    /// token: it could never vouch for the read. A leader contacts every voter
    /// at once, so that there are answers for the read to wait for.
    pub fn read_index(&mut self, token: ReadToken) -> (r: Result<()>)
        requires
            old(self)@.wf(),
            old(self)@.has_room(),
        ensures
            final(self)@.wf(),
            state::settled(
                r,
                final(self)@,
                old(self)@.read_index(token),
                S::reliable(),
                old(self)@.read_index_stops(token, final(self)@),
            ),
            old(self)@.role != Role::Leader ==> r is Ok,
    {
        if self.role != Role::Leader {
            return Ok(());
        }
        let ghost before = self@;
        let read = PendingRead {
            token,
            floor: self.commit_index,
            barrier: self.send_count.clone(),
        };
        self.pending_reads.push(read);
        assert(self@ =~= NodeState {
            pending_reads: before.pending_reads.push(
                ReadView { token, floor: before.commit_index, barrier: before.send_count },
            ),
            ..before
        });
        match self.broadcast_append() {
            Ok(_) => {},
            Err(e) => return Err(e),
        }
        self.maybe_release_reads();
        Ok(())
    }
}

} // verus!
