//! Replication bookkeeping: the leader-side stream handles and the
//! follower-side task registry.
//!
//! A leader keeps one ordered stream per follower. The handle stamps every
//! replicate request with the next sequence number; requests and their
//! acknowledgments travel in the same order, so the numbers it hands out
//! are exactly `0, 1, 2, ...` over the stream's lifetime.

use vstd::prelude::*;

use crate::messages::{CommitType, ReplicateRequest, ReplicateRequestV, ReplicateSubrequest,
    replicate_subrequest_views};
use crate::table::{assoc_map, distinct_keys, has_key, lemma_assoc_map_dom, lemma_assoc_map_index,
    lemma_assoc_map_push, lemma_assoc_map_remove, lemma_assoc_map_update};
use crate::types::NodeId;

verus! {

/// How many outgoing replicate requests a stream buffers before pushing
/// back on the leader.
pub const SYN_REPLICATION_STREAM_CAPACITY: usize = 5;

/// The leader-side handle of one follower's replication stream.
pub struct ReplicationStreamTaskHandle {
    follower_id: NodeId,
    next_replication_seqno: u64,
    issued: Ghost<Seq<u64>>,
}

/// The mathematical value of a stream handle.
#[verifier::ext_equal]
pub struct StreamModel {
    pub follower_id: Seq<char>,
    pub next_seqno: u64,
    /// Every sequence number the handle has stamped, in the order it
    /// stamped them.
    pub issued: Seq<u64>,
}

impl View for ReplicationStreamTaskHandle {
    type V = StreamModel;

    closed spec fn view(&self) -> StreamModel {
        StreamModel {
            follower_id: self.follower_id@,
            next_seqno: self.next_replication_seqno,
            issued: self.issued@,
        }
    }
}

/// A handle has stamped exactly the numbers below its counter, in order.
pub open spec fn stream_wf(m: StreamModel) -> bool {
    m.issued.len() == m.next_seqno && (forall|i: int| 0 <= i < m.issued.len() ==> m.issued[i] == i)
}

/// A fresh stream: no request stamped yet.
pub open spec fn fresh_stream(follower_id: Seq<char>) -> StreamModel {
    StreamModel { follower_id, next_seqno: 0, issued: Seq::empty() }
}

/// The sequence numbers a stream hands out are strictly increasing with no
/// gaps: the `i`-th request of a stream carries number `i`.
pub proof fn lemma_replication_seqnos_gapless(m: StreamModel)
    requires
        stream_wf(m),
    ensures
        forall|i: int, j: int| 0 <= i < j < m.issued.len() ==> m.issued[i] < m.issued[j],
        forall|i: int| 0 <= i < m.issued.len() ==> m.issued[i] == i,
{
}

impl ReplicationStreamTaskHandle {
    pub fn new(follower_id: NodeId) -> (r: ReplicationStreamTaskHandle)
        ensures
            r@ == fresh_stream(follower_id@),
    {
        ReplicationStreamTaskHandle {
            follower_id,
            next_replication_seqno: 0,
            issued: Ghost(Seq::empty()),
        }
    }

    /// Builds the next replicate request of this stream: it carries the
    /// handle's next sequence number, which is consumed.
    pub fn submit(
        &mut self,
        leader_id: NodeId,
        subrequests: Vec<ReplicateSubrequest>,
        commit_type: CommitType,
    ) -> (r: ReplicateRequest)
        requires
            old(self)@.next_seqno < u64::MAX,
        ensures
            r@ == (ReplicateRequestV {
                leader_id: leader_id@,
                follower_id: old(self)@.follower_id,
                subrequests: replicate_subrequest_views(subrequests@),
                commit_type,
                replication_seqno: old(self)@.next_seqno,
            }),
            final(self)@ == (StreamModel {
                follower_id: old(self)@.follower_id,
                next_seqno: (old(self)@.next_seqno + 1) as u64,
                issued: old(self)@.issued.push(old(self)@.next_seqno),
            }),
    {
        let replication_seqno = self.next_replication_seqno;
        self.next_replication_seqno = self.next_replication_seqno + 1;
        proof {
            self.issued@ = self.issued@.push(replication_seqno);
        }
        ReplicateRequest {
            leader_id,
            follower_id: self.follower_id.clone(),
            subrequests,
            commit_type,
            replication_seqno,
        }
    }
}

/// The leader's registry of replication streams, one per follower.
pub struct StreamTable {
    entries: Vec<(NodeId, ReplicationStreamTaskHandle)>,
}

impl View for StreamTable {
    type V = Map<Seq<char>, StreamModel>;

    closed spec fn view(&self) -> Map<Seq<char>, StreamModel> {
        assoc_map(self.entries@)
    }
}

impl StreamTable {
    pub closed spec fn wf(&self) -> bool {
        distinct_keys(self.entries@) && (forall|i: int|
            0 <= i < self.entries@.len() ==> stream_wf((#[trigger] self.entries@[i].1)@)
                && self.entries@[i].1@.follower_id == self.entries@[i].0@)
    }

    /// Every registered stream is well formed and keyed by its follower.
    pub proof fn lemma_wf_streams(&self)
        requires
            self.wf(),
        ensures
            forall|f: Seq<char>| #[trigger] self@.contains_key(f) ==> stream_wf(self@[f])
                && self@[f].follower_id == f,
    {
        lemma_assoc_map_dom(self.entries@);
        assert forall|f: Seq<char>| #[trigger] self@.contains_key(f) implies stream_wf(self@[f])
            && self@[f].follower_id == f by {
            let i = choose|i: int| 0 <= i < self.entries@.len() && self.entries@[i].0@ == f;
            lemma_assoc_map_index(self.entries@, i);
        }
    }

    pub fn new() -> (r: StreamTable)
        ensures
            r.wf(),
            r@ == Map::<Seq<char>, StreamModel>::empty(),
    {
        StreamTable { entries: Vec::new() }
    }

    fn find_index(&self, follower_id: &NodeId) -> (r: Option<usize>)
        requires
            self.wf(),
        ensures
            match r {
                Some(i) => i < self.entries@.len() && self.entries@[i as int].0@ == follower_id@
                    && self@.contains_key(follower_id@) && self@[follower_id@] == self.entries@[
                    i as int
                ].1@,
                None => !self@.contains_key(follower_id@),
            },
    {
        proof {
            lemma_assoc_map_dom(self.entries@);
        }
        let mut i: usize = 0;
        while i < self.entries.len()
            invariant
                i <= self.entries@.len(),
                forall|j: int| 0 <= j < i ==> self.entries@[j].0@ != follower_id@,
                self.wf(),
            decreases self.entries@.len() - i,
        {
            if self.entries[i].0 == *follower_id {
                proof {
                    lemma_assoc_map_index(self.entries@, i as int);
                }
                return Some(i);
            }
            i = i + 1;
        }
        proof {
            assert(!has_key(self.entries@, follower_id@));
        }
        None
    }

    pub fn contains(&self, follower_id: &NodeId) -> (r: bool)
        requires
            self.wf(),
        ensures
            r == self@.contains_key(follower_id@),
    {
        self.find_index(follower_id).is_some()
    }

    /// Registers a fresh stream to a follower not yet registered.
    pub fn open(&mut self, follower_id: &NodeId)
        requires
            old(self).wf(),
            !old(self)@.contains_key(follower_id@),
        ensures
            final(self).wf(),
            final(self)@ == old(self)@.insert(follower_id@, fresh_stream(follower_id@)),
    {
        let pair = (follower_id.clone(), ReplicationStreamTaskHandle::new(follower_id.clone()));
        proof {
            lemma_assoc_map_dom(self.entries@);
            lemma_assoc_map_push(self.entries@, pair);
        }
        self.entries.push(pair);
    }

    /// The next sequence number the follower's stream would stamp.
    pub fn next_seqno_of(&self, follower_id: &NodeId) -> (r: Option<u64>)
        requires
            self.wf(),
        ensures
            r is Some <==> self@.contains_key(follower_id@),
            r matches Some(seqno) ==> seqno == self@[follower_id@].next_seqno,
    {
        match self.find_index(follower_id) {
            Some(i) => Some(self.entries[i].1.next_replication_seqno),
            None => None,
        }
    }

    /// Evicts the stream of a follower; absent followers are left as they
    /// are.
    pub fn remove(&mut self, follower_id: &NodeId)
        requires
            old(self).wf(),
        ensures
            final(self).wf(),
            final(self)@ == old(self)@.remove(follower_id@),
    {
        match self.find_index(follower_id) {
            Some(i) => {
                proof {
                    lemma_assoc_map_remove(self.entries@, i as int);
                }
                let _ = self.entries.remove(i);
            },
            None => {
                proof {
                    assert(final(self)@ =~= old(self)@.remove(follower_id@));
                }
            },
        }
    }

    /// Stamps and hands out the next replicate request of a follower's
    /// stream.
    pub fn submit(
        &mut self,
        follower_id: &NodeId,
        leader_id: NodeId,
        subrequests: Vec<ReplicateSubrequest>,
        commit_type: CommitType,
    ) -> (r: ReplicateRequest)
        requires
            old(self).wf(),
            old(self)@.contains_key(follower_id@),
            old(self)@[follower_id@].next_seqno < u64::MAX,
        ensures
            final(self).wf(),
            r@ == (ReplicateRequestV {
                leader_id: leader_id@,
                follower_id: follower_id@,
                subrequests: replicate_subrequest_views(subrequests@),
                commit_type,
                replication_seqno: old(self)@[follower_id@].next_seqno,
            }),
            final(self)@ == old(self)@.insert(
                follower_id@,
                StreamModel {
                    follower_id: follower_id@,
                    next_seqno: (old(self)@[follower_id@].next_seqno + 1) as u64,
                    issued: old(self)@[follower_id@].issued.push(
                        old(self)@[follower_id@].next_seqno,
                    ),
                },
            ),
    {
        match self.find_index(follower_id) {
            Some(i) => {
                let ghost old_entries = self.entries@;
                let mut pair = self.entries.remove(i);
                let request = pair.1.submit(leader_id, subrequests, commit_type);
                self.entries.insert(i, pair);
                proof {
                    assert(self.entries@ =~= old_entries.update(i as int, self.entries@[i as int]));
                    lemma_assoc_map_update(old_entries, i as int, self.entries@[i as int]);
                }
                request
            },
            None => {
                proof {
                    assert(false);
                }
                ReplicateRequest {
                    leader_id,
                    follower_id: follower_id.clone(),
                    subrequests,
                    commit_type,
                    replication_seqno: 0,
                }
            },
        }
    }
}

/// The follower-side record of one leader's replication stream.
pub struct ReplicationTaskHandle {
    pub leader_id: NodeId,
    pub follower_id: NodeId,
}

/// The mathematical value of a task handle.
#[verifier::ext_equal]
pub struct TaskModel {
    pub leader_id: Seq<char>,
    pub follower_id: Seq<char>,
}

impl View for ReplicationTaskHandle {
    type V = TaskModel;

    open spec fn view(&self) -> TaskModel {
        TaskModel { leader_id: self.leader_id@, follower_id: self.follower_id@ }
    }
}

/// The follower's registry of replication tasks, one per leader.
pub struct TaskTable {
    entries: Vec<(NodeId, ReplicationTaskHandle)>,
}

impl View for TaskTable {
    type V = Map<Seq<char>, TaskModel>;

    closed spec fn view(&self) -> Map<Seq<char>, TaskModel> {
        assoc_map(self.entries@)
    }
}

impl TaskTable {
    pub closed spec fn wf(&self) -> bool {
        distinct_keys(self.entries@)
    }

    pub fn new() -> (r: TaskTable)
        ensures
            r.wf(),
            r@ == Map::<Seq<char>, TaskModel>::empty(),
    {
        TaskTable { entries: Vec::new() }
    }

    fn find_index(&self, leader_id: &NodeId) -> (r: Option<usize>)
        requires
            self.wf(),
        ensures
            match r {
                Some(i) => i < self.entries@.len() && self.entries@[i as int].0@ == leader_id@
                    && self@.contains_key(leader_id@),
                None => !self@.contains_key(leader_id@),
            },
    {
        proof {
            lemma_assoc_map_dom(self.entries@);
        }
        let mut i: usize = 0;
        while i < self.entries.len()
            invariant
                i <= self.entries@.len(),
                forall|j: int| 0 <= j < i ==> self.entries@[j].0@ != leader_id@,
                self.wf(),
            decreases self.entries@.len() - i,
        {
            if self.entries[i].0 == *leader_id {
                proof {
                    lemma_assoc_map_index(self.entries@, i as int);
                }
                return Some(i);
            }
            i = i + 1;
        }
        proof {
            assert(!has_key(self.entries@, leader_id@));
        }
        None
    }

    pub fn contains(&self, leader_id: &NodeId) -> (r: bool)
        requires
            self.wf(),
        ensures
            r == self@.contains_key(leader_id@),
    {
        self.find_index(leader_id).is_some()
    }

    /// Registers the task serving a leader not yet registered.
    pub fn insert(&mut self, leader_id: &NodeId, task: ReplicationTaskHandle)
        requires
            old(self).wf(),
            !old(self)@.contains_key(leader_id@),
        ensures
            final(self).wf(),
            final(self)@ == old(self)@.insert(leader_id@, task@),
    {
        let pair = (leader_id.clone(), task);
        proof {
            lemma_assoc_map_dom(self.entries@);
            lemma_assoc_map_push(self.entries@, pair);
        }
        self.entries.push(pair);
    }
}

} // verus!
