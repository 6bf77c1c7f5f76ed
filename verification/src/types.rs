//! Identifiers and error kinds shared across the ingester.

use vstd::prelude::*;

verus! {

/// The name of a node in the cluster.
pub type NodeId = String;

/// Identifies one shard's queue: the shard of `shard_id` within
/// `(index_uid, source_id)`. Stable, equality-comparable.
pub struct QueueId {
    pub index_uid: String,
    pub source_id: String,
    pub shard_id: u64,
}

/// The mathematical value of a `QueueId`.
#[verifier::ext_equal]
pub struct QueueIdV {
    pub index_uid: Seq<char>,
    pub source_id: Seq<char>,
    pub shard_id: u64,
}

impl View for QueueId {
    type V = QueueIdV;

    open spec fn view(&self) -> QueueIdV {
        QueueIdV {
            index_uid: self.index_uid@,
            source_id: self.source_id@,
            shard_id: self.shard_id,
        }
    }
}

impl QueueId {
    pub fn new(index_uid: String, source_id: String, shard_id: u64) -> (r: QueueId)
        ensures
            r@ == (QueueIdV { index_uid: index_uid@, source_id: source_id@, shard_id }),
    {
        QueueId { index_uid, source_id, shard_id }
    }

    /// A fresh `QueueId` denoting the same queue.
    pub fn duplicate(&self) -> (r: QueueId)
        ensures
            r@ == self@,
    {
        QueueId {
            index_uid: self.index_uid.clone(),
            source_id: self.source_id.clone(),
            shard_id: self.shard_id,
        }
    }
}

impl PartialEq for QueueId {
    fn eq(&self, other: &QueueId) -> (r: bool) {
        self.index_uid == other.index_uid && self.source_id == other.source_id
            && self.shard_id == other.shard_id
    }
}

impl vstd::std_specs::cmp::PartialEqSpecImpl for QueueId {
    open spec fn obeys_eq_spec() -> bool {
        true
    }

    open spec fn eq_spec(&self, other: &QueueId) -> bool {
        self@ == other@
    }
}

/// The error kinds an ingester surfaces to its callers. Per-subrequest
/// failures (a closed shard) are reported inside the responses instead.
#[derive(Debug)]
pub enum IngestError {
    /// A routing or protocol violation: the request reached the wrong node,
    /// a replication stream is already open, or an internal invariant broke.
    Internal,
    /// A peer needed to serve the request is not in the peer pool.
    IngesterUnavailable { ingester_id: NodeId },
    /// The request exceeded its deadline. Produced by the transport layer
    /// that drives this core, never by the core itself.
    Timeout,
}

} // verus!
