//! The requests and responses of the ingester's interface, with their
//! mathematical views.

use vstd::prelude::*;

use crate::position::Position;
use crate::types::{NodeId, QueueId, QueueIdV};
use crate::wal::record_views;

verus! {

/// Whether a persist request forces a commit boundary after its documents.
#[derive(Clone, Copy, PartialEq, Eq, Structural, Debug)]
pub enum CommitType {
    Auto,
    Force,
}

/// One shard's slice of a persist request.
pub struct PersistSubrequest {
    pub subrequest_id: u32,
    pub index_uid: String,
    pub source_id: String,
    pub shard_id: u64,
    pub follower_id: Option<NodeId>,
    pub doc_batch: Vec<Vec<u8>>,
}

#[verifier::ext_equal]
pub struct PersistSubrequestV {
    pub subrequest_id: u32,
    pub index_uid: Seq<char>,
    pub source_id: Seq<char>,
    pub shard_id: u64,
    pub follower_id: Option<Seq<char>>,
    pub docs: Seq<Seq<u8>>,
}

impl View for PersistSubrequest {
    type V = PersistSubrequestV;

    open spec fn view(&self) -> PersistSubrequestV {
        PersistSubrequestV {
            subrequest_id: self.subrequest_id,
            index_uid: self.index_uid@,
            source_id: self.source_id@,
            shard_id: self.shard_id,
            follower_id: match self.follower_id {
                Some(follower_id) => Some(follower_id@),
                None => None,
            },
            docs: record_views(self.doc_batch@),
        }
    }
}

impl PersistSubrequestV {
    pub open spec fn queue(self) -> QueueIdV {
        QueueIdV {
            index_uid: self.index_uid,
            source_id: self.source_id,
            shard_id: self.shard_id,
        }
    }
}

impl PersistSubrequest {
    /// The queue this subrequest addresses.
    pub fn queue_id(&self) -> (r: QueueId)
        ensures
            r@ == self@.queue(),
    {
        QueueId::new(self.index_uid.clone(), self.source_id.clone(), self.shard_id)
    }
}

pub open spec fn persist_subrequest_views(s: Seq<PersistSubrequest>) -> Seq<PersistSubrequestV> {
    s.map_values(|x: PersistSubrequest| x@)
}

pub struct PersistRequest {
    pub leader_id: NodeId,
    pub commit_type: CommitType,
    pub subrequests: Vec<PersistSubrequest>,
}

#[verifier::ext_equal]
pub struct PersistRequestV {
    pub leader_id: Seq<char>,
    pub commit_type: CommitType,
    pub subrequests: Seq<PersistSubrequestV>,
}

impl View for PersistRequest {
    type V = PersistRequestV;

    open spec fn view(&self) -> PersistRequestV {
        PersistRequestV {
            leader_id: self.leader_id@,
            commit_type: self.commit_type,
            subrequests: persist_subrequest_views(self.subrequests@),
        }
    }
}

pub struct PersistSuccess {
    pub subrequest_id: u32,
    pub index_uid: String,
    pub source_id: String,
    pub shard_id: u64,
    pub replication_position_inclusive: Position,
}

#[verifier::ext_equal]
pub struct PersistSuccessV {
    pub subrequest_id: u32,
    pub index_uid: Seq<char>,
    pub source_id: Seq<char>,
    pub shard_id: u64,
    pub replication_position_inclusive: Position,
}

impl View for PersistSuccess {
    type V = PersistSuccessV;

    open spec fn view(&self) -> PersistSuccessV {
        PersistSuccessV {
            subrequest_id: self.subrequest_id,
            index_uid: self.index_uid@,
            source_id: self.source_id@,
            shard_id: self.shard_id,
            replication_position_inclusive: self.replication_position_inclusive,
        }
    }
}

impl PersistSuccessV {
    pub open spec fn queue(self) -> QueueIdV {
        QueueIdV {
            index_uid: self.index_uid,
            source_id: self.source_id,
            shard_id: self.shard_id,
        }
    }
}

pub open spec fn persist_success_views(s: Seq<PersistSuccess>) -> Seq<PersistSuccessV> {
    s.map_values(|x: PersistSuccess| x@)
}

/// Why a subrequest failed while the request as a whole went through.
#[derive(Clone, Copy, PartialEq, Eq, Structural, Debug)]
pub enum PersistFailureReason {
    /// The shard rejects writes: it was closed, or its follower's
    /// replication stream broke.
    ShardClosed,
    /// An internal invariant broke while creating the shard: its queue
    /// already existed, or the follower needed for replication could not
    /// be reached.
    Internal,
}

pub struct PersistFailure {
    pub subrequest_id: u32,
    pub index_uid: String,
    pub source_id: String,
    pub shard_id: u64,
    pub reason: PersistFailureReason,
}

#[verifier::ext_equal]
pub struct PersistFailureV {
    pub subrequest_id: u32,
    pub index_uid: Seq<char>,
    pub source_id: Seq<char>,
    pub shard_id: u64,
    pub reason: PersistFailureReason,
}

impl View for PersistFailure {
    type V = PersistFailureV;

    open spec fn view(&self) -> PersistFailureV {
        PersistFailureV {
            subrequest_id: self.subrequest_id,
            index_uid: self.index_uid@,
            source_id: self.source_id@,
            shard_id: self.shard_id,
            reason: self.reason,
        }
    }
}

pub open spec fn persist_failure_views(s: Seq<PersistFailure>) -> Seq<PersistFailureV> {
    s.map_values(|x: PersistFailure| x@)
}

pub struct PersistResponse {
    pub leader_id: NodeId,
    pub successes: Vec<PersistSuccess>,
    pub failures: Vec<PersistFailure>,
}

/// One shard's slice of a replicate request.
pub struct ReplicateSubrequest {
    pub subrequest_id: u32,
    pub index_uid: String,
    pub source_id: String,
    pub shard_id: u64,
    pub from_position_exclusive: Position,
    pub to_position_inclusive: Position,
    pub doc_batch: Vec<Vec<u8>>,
}

#[verifier::ext_equal]
pub struct ReplicateSubrequestV {
    pub subrequest_id: u32,
    pub index_uid: Seq<char>,
    pub source_id: Seq<char>,
    pub shard_id: u64,
    pub from_position_exclusive: Position,
    pub to_position_inclusive: Position,
    pub docs: Seq<Seq<u8>>,
}

impl View for ReplicateSubrequest {
    type V = ReplicateSubrequestV;

    open spec fn view(&self) -> ReplicateSubrequestV {
        ReplicateSubrequestV {
            subrequest_id: self.subrequest_id,
            index_uid: self.index_uid@,
            source_id: self.source_id@,
            shard_id: self.shard_id,
            from_position_exclusive: self.from_position_exclusive,
            to_position_inclusive: self.to_position_inclusive,
            docs: record_views(self.doc_batch@),
        }
    }
}

impl ReplicateSubrequestV {
    pub open spec fn queue(self) -> QueueIdV {
        QueueIdV {
            index_uid: self.index_uid,
            source_id: self.source_id,
            shard_id: self.shard_id,
        }
    }
}

impl ReplicateSubrequest {
    /// The queue this subrequest addresses.
    pub fn queue_id(&self) -> (r: QueueId)
        ensures
            r@ == self@.queue(),
    {
        QueueId::new(self.index_uid.clone(), self.source_id.clone(), self.shard_id)
    }
}

pub open spec fn replicate_subrequest_views(s: Seq<ReplicateSubrequest>) -> Seq<
    ReplicateSubrequestV,
> {
    s.map_values(|x: ReplicateSubrequest| x@)
}

/// One ordered request on a leader-to-follower replication stream.
pub struct ReplicateRequest {
    pub leader_id: NodeId,
    pub follower_id: NodeId,
    pub subrequests: Vec<ReplicateSubrequest>,
    pub commit_type: CommitType,
    pub replication_seqno: u64,
}

#[verifier::ext_equal]
pub struct ReplicateRequestV {
    pub leader_id: Seq<char>,
    pub follower_id: Seq<char>,
    pub subrequests: Seq<ReplicateSubrequestV>,
    pub commit_type: CommitType,
    pub replication_seqno: u64,
}

impl View for ReplicateRequest {
    type V = ReplicateRequestV;

    open spec fn view(&self) -> ReplicateRequestV {
        ReplicateRequestV {
            leader_id: self.leader_id@,
            follower_id: self.follower_id@,
            subrequests: replicate_subrequest_views(self.subrequests@),
            commit_type: self.commit_type,
            replication_seqno: self.replication_seqno,
        }
    }
}

pub struct ReplicateSuccess {
    pub subrequest_id: u32,
    pub index_uid: String,
    pub source_id: String,
    pub shard_id: u64,
    pub replication_position_inclusive: Position,
}

#[verifier::ext_equal]
pub struct ReplicateSuccessV {
    pub subrequest_id: u32,
    pub index_uid: Seq<char>,
    pub source_id: Seq<char>,
    pub shard_id: u64,
    pub replication_position_inclusive: Position,
}

impl View for ReplicateSuccess {
    type V = ReplicateSuccessV;

    open spec fn view(&self) -> ReplicateSuccessV {
        ReplicateSuccessV {
            subrequest_id: self.subrequest_id,
            index_uid: self.index_uid@,
            source_id: self.source_id@,
            shard_id: self.shard_id,
            replication_position_inclusive: self.replication_position_inclusive,
        }
    }
}

pub open spec fn replicate_success_views(s: Seq<ReplicateSuccess>) -> Seq<ReplicateSuccessV> {
    s.map_values(|x: ReplicateSuccess| x@)
}

pub struct ReplicateFailure {
    pub subrequest_id: u32,
    pub index_uid: String,
    pub source_id: String,
    pub shard_id: u64,
    pub reason: PersistFailureReason,
}

#[verifier::ext_equal]
pub struct ReplicateFailureV {
    pub subrequest_id: u32,
    pub index_uid: Seq<char>,
    pub source_id: Seq<char>,
    pub shard_id: u64,
    pub reason: PersistFailureReason,
}

impl View for ReplicateFailure {
    type V = ReplicateFailureV;

    open spec fn view(&self) -> ReplicateFailureV {
        ReplicateFailureV {
            subrequest_id: self.subrequest_id,
            index_uid: self.index_uid@,
            source_id: self.source_id@,
            shard_id: self.shard_id,
            reason: self.reason,
        }
    }
}

pub open spec fn replicate_failure_views(s: Seq<ReplicateFailure>) -> Seq<ReplicateFailureV> {
    s.map_values(|x: ReplicateFailure| x@)
}

/// The acknowledgment a follower sends for one replicate request, carrying
/// the same sequence number.
pub struct ReplicateResponse {
    pub follower_id: NodeId,
    pub successes: Vec<ReplicateSuccess>,
    pub failures: Vec<ReplicateFailure>,
    pub replication_seqno: u64,
}

#[verifier::ext_equal]
pub struct ReplicateResponseV {
    pub follower_id: Seq<char>,
    pub successes: Seq<ReplicateSuccessV>,
    pub failures: Seq<ReplicateFailureV>,
    pub replication_seqno: u64,
}

impl View for ReplicateResponse {
    type V = ReplicateResponseV;

    open spec fn view(&self) -> ReplicateResponseV {
        ReplicateResponseV {
            follower_id: self.follower_id@,
            successes: replicate_success_views(self.successes@),
            failures: replicate_failure_views(self.failures@),
            replication_seqno: self.replication_seqno,
        }
    }
}

/// What awaiting a submitted replicate request yielded: the follower's
/// acknowledgment, or a broken stream.
pub enum ReplicationResult {
    Ack(ReplicateResponse),
    StreamBroken,
}

#[verifier::ext_equal]
pub enum ReplicationResultV {
    Ack(ReplicateResponseV),
    StreamBroken,
}

impl View for ReplicationResult {
    type V = ReplicationResultV;

    open spec fn view(&self) -> ReplicationResultV {
        match self {
            ReplicationResult::Ack(response) => ReplicationResultV::Ack(response@),
            ReplicationResult::StreamBroken => ReplicationResultV::StreamBroken,
        }
    }
}

pub open spec fn replication_result_views(s: Seq<ReplicationResult>) -> Seq<ReplicationResultV> {
    s.map_values(|x: ReplicationResult| x@)
}

/// The handshake opening a replication stream: its first syn message.
pub struct OpenReplicationStreamRequest {
    pub leader_id: NodeId,
    pub follower_id: NodeId,
}

/// The first ack message of a successfully opened replication stream.
pub struct OpenReplicationStreamResponse {
}

pub struct TruncateSubrequest {
    pub index_uid: String,
    pub source_id: String,
    pub shard_id: u64,
    pub to_position_inclusive: Position,
}

#[verifier::ext_equal]
pub struct TruncateSubrequestV {
    pub index_uid: Seq<char>,
    pub source_id: Seq<char>,
    pub shard_id: u64,
    pub to_position_inclusive: Position,
}

impl View for TruncateSubrequest {
    type V = TruncateSubrequestV;

    open spec fn view(&self) -> TruncateSubrequestV {
        TruncateSubrequestV {
            index_uid: self.index_uid@,
            source_id: self.source_id@,
            shard_id: self.shard_id,
            to_position_inclusive: self.to_position_inclusive,
        }
    }
}

impl TruncateSubrequestV {
    pub open spec fn queue(self) -> QueueIdV {
        QueueIdV {
            index_uid: self.index_uid,
            source_id: self.source_id,
            shard_id: self.shard_id,
        }
    }
}

impl TruncateSubrequest {
    /// The queue this subrequest addresses.
    pub fn queue_id(&self) -> (r: QueueId)
        ensures
            r@ == self@.queue(),
    {
        QueueId::new(self.index_uid.clone(), self.source_id.clone(), self.shard_id)
    }
}

pub open spec fn truncate_subrequest_views(s: Seq<TruncateSubrequest>) -> Seq<TruncateSubrequestV> {
    s.map_values(|x: TruncateSubrequest| x@)
}

pub struct TruncateRequest {
    pub ingester_id: NodeId,
    pub subrequests: Vec<TruncateSubrequest>,
}

pub struct TruncateResponse {
}

pub struct PingRequest {
    pub leader_id: NodeId,
    pub follower_id: Option<NodeId>,
}

pub struct PingResponse {
}

/// Opens a consumer fetch stream over one shard.
pub struct OpenFetchStreamRequest {
    pub client_id: String,
    pub index_uid: String,
    pub source_id: String,
    pub shard_id: u64,
    pub from_position_exclusive: Option<Position>,
    pub to_position_inclusive: Option<Position>,
}

impl OpenFetchStreamRequest {
    /// The queue this stream tails.
    pub fn queue_id(&self) -> (r: QueueId)
        ensures
            r@ == (QueueIdV {
                index_uid: self.index_uid@,
                source_id: self.source_id@,
                shard_id: self.shard_id,
            }),
    {
        QueueId::new(self.index_uid.clone(), self.source_id.clone(), self.shard_id)
    }
}

/// One frame of a fetch stream: the records after `from_position_exclusive`
/// up to `to_position_inclusive`, concatenated, with their lengths.
pub struct FetchResponse {
    pub from_position_exclusive: Position,
    pub to_position_inclusive: Position,
    pub mrecord_buffer: Vec<u8>,
    pub mrecord_lengths: Vec<usize>,
}

} // verus!
