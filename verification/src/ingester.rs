//! The ingester core: shard bookkeeping and the decision logic of
//! `persist`, `truncate`, `open_replication_stream`, `open_fetch_stream`,
//! `ping`, and startup sealing.
//!
//! The core is synchronous: it owns the write-ahead-log model and the shard
//! table, and hands back the replicate requests that must travel to a
//! follower. The asynchronous shell that runs a production node delivers
//! those requests, collects the acknowledgments, and feeds them back in.

use vstd::prelude::*;

use crate::mrecord::{doc_frames, encode_doc_batch, encode_eof, eof_frame, is_eof_frame,
    is_eof_mrecord};
use crate::messages::{CommitType, OpenReplicationStreamRequest, OpenReplicationStreamResponse,
    ReplicationResult, ReplicationResultV, replication_result_views,
    PersistFailure, PersistFailureReason, PersistFailureV, PersistRequest, PersistResponse,
    PersistSubrequest, PersistSubrequestV, PersistSuccess, PersistSuccessV, PingRequest,
    PingResponse,
    ReplicateFailure, ReplicateFailureV, ReplicateRequest, ReplicateRequestV, ReplicateResponse,
    ReplicateSubrequest, ReplicateSubrequestV, ReplicateSuccess, ReplicateSuccessV,
    TruncateRequest, TruncateResponse, TruncateSubrequestV, persist_failure_views,
    persist_success_views, replicate_failure_views, replicate_subrequest_views,
    replicate_success_views, truncate_subrequest_views};
use crate::position::Position;
use crate::replication::{ReplicationStreamTaskHandle, ReplicationTaskHandle, StreamModel,
    StreamTable, TaskModel, TaskTable, fresh_stream};
use crate::shard::{IngesterShard, ShardModel, ShardRoleV, ShardState, ShardTable};
use crate::types::{IngestError, NodeId, QueueId, QueueIdV};
use crate::wal::{AppendError, QueueModel, Wal, copy_batch, empty_queue, queue_append,
    queue_truncate, queue_wf, record_views};

verus! {

/// The process-wide state: the log, the shard table, and the two
/// replication registries.
pub struct IngesterState {
    pub wal: Wal,
    pub shards: ShardTable,
    pub replication_streams: StreamTable,
    pub replication_tasks: TaskTable,
}

/// The mathematical value of the state.
#[verifier::ext_equal]
pub struct StateModel {
    pub wal: Map<QueueIdV, QueueModel>,
    pub shards: Map<QueueIdV, ShardModel>,
    pub streams: Map<Seq<char>, StreamModel>,
    pub tasks: Map<Seq<char>, TaskModel>,
}

impl View for IngesterState {
    type V = StateModel;

    open spec fn view(&self) -> StateModel {
        StateModel {
            wal: self.wal@,
            shards: self.shards@,
            streams: self.replication_streams@,
            tasks: self.replication_tasks@,
        }
    }
}

/// What a shard's position may say given its queue: an offset is one the
/// queue has assigned, and only a closed shard sits at `Eof`.
pub open spec fn shard_position_ok(shard: ShardModel, queue: QueueModel) -> bool {
    match shard.position {
        Position::Beginning => true,
        Position::Offset(n) => (n as int) < queue.next(),
        Position::Eof => shard.state == ShardState::Closed,
    }
}

/// Every shard has a queue, and its position is one the queue assigned.
pub open spec fn shards_consistent(m: StateModel) -> bool {
    forall|q: QueueIdV| #[trigger]
        m.shards.contains_key(q) ==> m.wal.contains_key(q) && shard_position_ok(
            m.shards[q],
            m.wal[q],
        )
}

/// Every queue of the log model has offsets that fit in `u64`.
pub open spec fn wal_wf_model(m: StateModel) -> bool {
    forall|k: QueueIdV| #[trigger] m.wal.contains_key(k) ==> queue_wf(m.wal[k])
}

impl IngesterState {
    pub open spec fn wf(&self) -> bool {
        self.wal.wf() && self.shards.wf() && self.replication_streams.wf()
            && self.replication_tasks.wf() && shards_consistent(self@)
    }
}

/// No two shards' positions moved backwards between two states.
pub open spec fn shard_positions_monotone(
    before: Map<QueueIdV, ShardModel>,
    after: Map<QueueIdV, ShardModel>,
) -> bool {
    forall|q: QueueIdV|
        before.contains_key(q) && #[trigger] after.contains_key(q)
            ==> before[q].position.spec_le(after[q].position)
}

pub open spec fn pool_views(pool: Seq<NodeId>) -> Seq<Seq<char>> {
    pool.map_values(|n: NodeId| n@)
}

pub open spec fn pool_has(pool: Seq<Seq<char>>, id: Seq<char>) -> bool {
    exists|i: int| 0 <= i < pool.len() && pool[i] == id
}

/// An ingester node: its identity, its view of the peer pool, and its
/// state.
pub struct Ingester {
    pub self_node_id: NodeId,
    pub ingester_pool: Vec<NodeId>,
    pub state: IngesterState,
    pub replication_factor: usize,
}

/// What `persist` accumulates while walking the subrequests in input
/// order.
#[verifier::ext_equal]
pub struct PersistAccV {
    pub successes: Seq<PersistSuccessV>,
    pub failures: Seq<PersistFailureV>,
    /// Replicate subrequests grouped per follower, in first-seen order.
    pub groups: Seq<(Seq<char>, Seq<ReplicateSubrequestV>)>,
}

pub open spec fn empty_acc() -> PersistAccV {
    PersistAccV { successes: Seq::empty(), failures: Seq::empty(), groups: Seq::empty() }
}

pub open spec fn persist_fail(
    acc: PersistAccV,
    sub: PersistSubrequestV,
    reason: PersistFailureReason,
) -> PersistAccV {
    PersistAccV {
        failures: acc.failures.push(
            PersistFailureV {
                subrequest_id: sub.subrequest_id,
                index_uid: sub.index_uid,
                source_id: sub.source_id,
                shard_id: sub.shard_id,
                reason,
            },
        ),
        ..acc
    }
}

pub open spec fn persist_succeed(
    acc: PersistAccV,
    sub: PersistSubrequestV,
    position: Position,
) -> PersistAccV {
    PersistAccV {
        successes: acc.successes.push(
            PersistSuccessV {
                subrequest_id: sub.subrequest_id,
                index_uid: sub.index_uid,
                source_id: sub.source_id,
                shard_id: sub.shard_id,
                replication_position_inclusive: position,
            },
        ),
        ..acc
    }
}

pub open spec fn distinct_group_keys(groups: Seq<(Seq<char>, Seq<ReplicateSubrequestV>)>) -> bool {
    forall|a: int, b: int| 0 <= a < b < groups.len() ==> groups[a].0 != groups[b].0
}

/// Appends a replicate subrequest to its follower's group, keeping
/// first-seen group order.
pub open spec fn enqueue_in_groups(
    groups: Seq<(Seq<char>, Seq<ReplicateSubrequestV>)>,
    follower_id: Seq<char>,
    rsub: ReplicateSubrequestV,
) -> Seq<(Seq<char>, Seq<ReplicateSubrequestV>)> {
    if exists|i: int| 0 <= i < groups.len() && groups[i].0 == follower_id {
        let i = choose|i: int| 0 <= i < groups.len() && groups[i].0 == follower_id;
        groups.update(i, (follower_id, groups[i].1.push(rsub)))
    } else {
        groups.push((follower_id, seq![rsub]))
    }
}

pub open spec fn persist_enqueue(
    acc: PersistAccV,
    sub: PersistSubrequestV,
    follower_id: Seq<char>,
    from: Position,
    to: Position,
) -> PersistAccV {
    let rsub = ReplicateSubrequestV {
        subrequest_id: sub.subrequest_id,
        index_uid: sub.index_uid,
        source_id: sub.source_id,
        shard_id: sub.shard_id,
        from_position_exclusive: from,
        to_position_inclusive: to,
        docs: sub.docs,
    };
    PersistAccV { groups: enqueue_in_groups(acc.groups, follower_id, rsub), ..acc }
}

/// The append half of one persist subrequest: frame the documents, append
/// them, advance the shard, and record the outcome. A full queue closes
/// the shard and fails the subrequest.
pub open spec fn persist_append(
    st: StateModel,
    q: QueueIdV,
    sub: PersistSubrequestV,
    force: bool,
    acc: PersistAccV,
) -> (StateModel, PersistAccV) {
    let queue = st.wal[q];
    let frames = doc_frames(sub.docs, force);
    if queue.next() + frames.len() > u64::MAX {
        (
            StateModel {
                shards: st.shards.insert(
                    q,
                    ShardModel { state: ShardState::Closed, ..st.shards[q] },
                ),
                ..st
            },
            persist_fail(acc, sub, PersistFailureReason::ShardClosed),
        )
    } else {
        let last = (queue.next() + frames.len() - 1) as u64;
        let st1 = StateModel {
            wal: st.wal.insert(q, queue_append(queue, frames)),
            shards: st.shards.insert(
                q,
                ShardModel { position: Position::Offset(last), ..st.shards[q] },
            ),
            ..st
        };
        match sub.follower_id {
            Some(follower_id) => (
                st1,
                persist_enqueue(
                    acc,
                    sub,
                    follower_id,
                    st.shards[q].position,
                    Position::Offset(last),
                ),
            ),
            None => (st1, persist_succeed(acc, sub, Position::Offset(last))),
        }
    }
}

/// The create half: the queue must not exist yet; a pre-existing queue is
/// an internal invariant violation and fails the subrequest.
pub open spec fn persist_create_append(
    st: StateModel,
    q: QueueIdV,
    sub: PersistSubrequestV,
    force: bool,
    acc: PersistAccV,
    role: ShardRoleV,
) -> (StateModel, PersistAccV) {
    if st.wal.contains_key(q) {
        (st, persist_fail(acc, sub, PersistFailureReason::Internal))
    } else {
        let st1 = StateModel {
            wal: st.wal.insert(q, empty_queue()),
            shards: st.shards.insert(
                q,
                ShardModel { role, state: ShardState::Open, position: Position::Beginning },
            ),
            ..st
        };
        persist_append(st1, q, sub, force, acc)
    }
}

/// One persist subrequest. A missing shard is created lazily; a subrequest
/// carrying a follower first needs that follower's replication stream,
/// opened through the peer pool when missing - an unreachable follower
/// fails the subrequest. A closed shard fails it with `ShardClosed`.
pub open spec fn persist_step(
    st: StateModel,
    pool: Seq<Seq<char>>,
    sub: PersistSubrequestV,
    force: bool,
    acc: PersistAccV,
) -> (StateModel, PersistAccV) {
    let q = sub.queue();
    if !st.shards.contains_key(q) {
        match sub.follower_id {
            Some(follower_id) => {
                if st.streams.contains_key(follower_id) {
                    persist_create_append(st, q, sub, force, acc, ShardRoleV::Primary(follower_id))
                } else if pool_has(pool, follower_id) {
                    let st1 = StateModel {
                        streams: st.streams.insert(follower_id, fresh_stream(follower_id)),
                        ..st
                    };
                    persist_create_append(st1, q, sub, force, acc, ShardRoleV::Primary(follower_id))
                } else {
                    (st, persist_fail(acc, sub, PersistFailureReason::Internal))
                }
            },
            None => persist_create_append(st, q, sub, force, acc, ShardRoleV::Solo),
        }
    } else if st.shards[q].state == ShardState::Closed {
        (st, persist_fail(acc, sub, PersistFailureReason::ShardClosed))
    } else {
        match sub.follower_id {
            Some(follower_id) => {
                if st.streams.contains_key(follower_id) {
                    persist_append(st, q, sub, force, acc)
                } else if pool_has(pool, follower_id) {
                    let st1 = StateModel {
                        streams: st.streams.insert(follower_id, fresh_stream(follower_id)),
                        ..st
                    };
                    persist_append(st1, q, sub, force, acc)
                } else {
                    (st, persist_fail(acc, sub, PersistFailureReason::Internal))
                }
            },
            None => persist_append(st, q, sub, force, acc),
        }
    }
}

/// The subrequest walk of `persist`, in input order.
pub open spec fn persist_fold(
    st: StateModel,
    pool: Seq<Seq<char>>,
    subs: Seq<PersistSubrequestV>,
    force: bool,
) -> (StateModel, PersistAccV)
    decreases subs.len(),
{
    if subs.len() == 0 {
        (st, empty_acc())
    } else {
        let prev = persist_fold(st, pool, subs.drop_last(), force);
        persist_step(prev.0, pool, subs.last(), force, prev.1)
    }
}

/// After the walk, one replicate request per follower group is stamped and
/// submitted, in group order, while the state is still held: submission
/// order equals append order.
pub open spec fn submit_groups(
    st: StateModel,
    leader_id: Seq<char>,
    commit_type: CommitType,
    groups: Seq<(Seq<char>, Seq<ReplicateSubrequestV>)>,
) -> (StateModel, Seq<ReplicateRequestV>)
    decreases groups.len(),
{
    if groups.len() == 0 {
        (st, Seq::empty())
    } else {
        let prev = submit_groups(st, leader_id, commit_type, groups.drop_last());
        let follower_id = groups.last().0;
        let subrequests = groups.last().1;
        if prev.0.streams.contains_key(follower_id) {
            let stream = prev.0.streams[follower_id];
            let request = ReplicateRequestV {
                leader_id,
                follower_id,
                subrequests,
                commit_type,
                replication_seqno: stream.next_seqno,
            };
            (
                StateModel {
                    streams: prev.0.streams.insert(
                        follower_id,
                        StreamModel {
                            follower_id: stream.follower_id,
                            next_seqno: (stream.next_seqno + 1) as u64,
                            issued: stream.issued.push(stream.next_seqno),
                        },
                    ),
                    ..prev.0
                },
                prev.1.push(request),
            )
        } else {
            prev
        }
    }
}

/// What `persist` returns: the immediate outcomes, and the replicate
/// requests that must reach their followers before the pending
/// subrequests can be acknowledged.
pub struct PersistOutcome {
    pub leader_id: NodeId,
    pub successes: Vec<PersistSuccess>,
    pub failures: Vec<PersistFailure>,
    pub replicate_requests: Vec<ReplicateRequest>,
}

pub open spec fn group_views(groups: Seq<(NodeId, Vec<ReplicateSubrequest>)>) -> Seq<
    (Seq<char>, Seq<ReplicateSubrequestV>),
> {
    groups.map_values(|p: (NodeId, Vec<ReplicateSubrequest>)| (p.0@, replicate_subrequest_views(p.1@)))
}

pub open spec fn replicate_request_views(s: Seq<ReplicateRequest>) -> Seq<ReplicateRequestV> {
    s.map_values(|r: ReplicateRequest| r@)
}

/// Pushes one replicate subrequest into the group at index `j`.
fn push_into_group(
    groups: &mut Vec<(NodeId, Vec<ReplicateSubrequest>)>,
    j: usize,
    rsub: ReplicateSubrequest,
)
    requires
        j < old(groups).len(),
    ensures
        final(groups)@.len() == old(groups)@.len(),
        final(groups)@[j as int].0 == old(groups)@[j as int].0,
        final(groups)@[j as int].1@ == old(groups)@[j as int].1@.push(rsub),
        forall|m: int|
            0 <= m < old(groups)@.len() && m != j ==> final(groups)@[m] == old(groups)@[m],
{
    let mut pair = groups.remove(j);
    pair.1.push(rsub);
    groups.insert(j, pair);
}

/// Appends a replicate subrequest to its follower's group.
fn add_to_group(
    groups: &mut Vec<(NodeId, Vec<ReplicateSubrequest>)>,
    follower_id: &NodeId,
    rsub: ReplicateSubrequest,
)
    requires
        distinct_group_keys(group_views(old(groups)@)),
    ensures
        distinct_group_keys(group_views(final(groups)@)),
        group_views(final(groups)@) == enqueue_in_groups(
            group_views(old(groups)@),
            follower_id@,
            rsub@,
        ),
{
    let ghost old_views = group_views(groups@);
    let ghost rsub_view = rsub@;
    let mut j: usize = 0;
    while j < groups.len()
        invariant
            j <= groups@.len(),
            groups@ == old(groups)@,
            old_views == group_views(groups@),
            distinct_group_keys(old_views),
            rsub@ == rsub_view,
            forall|m: int| 0 <= m < j ==> old_views[m].0 != follower_id@,
        decreases groups@.len() - j,
    {
        if groups[j].0 == *follower_id {
            proof {
                assert(old_views[j as int].0 == follower_id@);
            }
            let ghost gi = choose|i: int|
                0 <= i < old_views.len() && old_views[i].0 == follower_id@;
            proof {
                if gi != j {
                    if gi < j {
                        assert(old_views[gi].0 != old_views[j as int].0);
                    } else {
                        assert(old_views[j as int].0 != old_views[gi].0);
                    }
                    assert(false);
                }
            }
            let ghost pre = groups@;
            let ghost rsub_ghost = rsub;
            push_into_group(groups, j, rsub);
            proof {
                assert(old_views[j as int] == (
                    pre[j as int].0@,
                    replicate_subrequest_views(pre[j as int].1@),
                ));
                assert(groups@.len() == pre.len());
                assert(groups@[j as int].1@ == pre[j as int].1@.push(rsub_ghost));
                assert(rsub_ghost@ == rsub_view);
                assert(replicate_subrequest_views(groups@[j as int].1@)
                    =~= replicate_subrequest_views(pre[j as int].1@).push(rsub_view));
                assert(group_views(groups@) =~= enqueue_in_groups(
                    old_views,
                    follower_id@,
                    rsub_view,
                ));
            }
            return ;
        }
        j = j + 1;
    }
    let mut batch: Vec<ReplicateSubrequest> = Vec::new();
    batch.push(rsub);
    proof {
        assert(forall|m: int| 0 <= m < old_views.len() ==> old_views[m].0 != follower_id@);
    }
    groups.push((follower_id.clone(), batch));
    proof {
        assert(replicate_subrequest_views(groups@.last().1@) =~= seq![rsub@]);
        assert(group_views(groups@) =~= enqueue_in_groups(old_views, follower_id@, rsub@));
        assert forall|a: int, b: int|
            0 <= a < b < group_views(groups@).len() implies group_views(groups@)[a].0
            != group_views(groups@)[b].0 by {
            if b < old_views.len() {
                assert(group_views(groups@)[a] == old_views[a]);
                assert(group_views(groups@)[b] == old_views[b]);
            } else {
                assert(group_views(groups@)[a] == old_views[a]);
            }
        }
    }
}

/// The append half of one persist subrequest, on the live state.
fn exec_persist_append(
    state: &mut IngesterState,
    queue_id: &QueueId,
    sub: &PersistSubrequest,
    force: bool,
    successes: &mut Vec<PersistSuccess>,
    failures: &mut Vec<PersistFailure>,
    groups: &mut Vec<(NodeId, Vec<ReplicateSubrequest>)>,
)
    requires
        old(state).wf(),
        queue_id@ == sub@.queue(),
        old(state)@.shards.contains_key(queue_id@),
        old(state)@.shards[queue_id@].state == ShardState::Open,
        sub@.docs.len() >= 1,
        distinct_group_keys(group_views(old(groups)@)),
    ensures
        final(state).wf(),
        distinct_group_keys(group_views(final(groups)@)),
        ({
            let (st2, acc2) = persist_append(
                old(state)@,
                queue_id@,
                sub@,
                force,
                PersistAccV {
                    successes: persist_success_views(old(successes)@),
                    failures: persist_failure_views(old(failures)@),
                    groups: group_views(old(groups)@),
                },
            );
            &&& final(state)@ == st2
            &&& persist_success_views(final(successes)@) == acc2.successes
            &&& persist_failure_views(final(failures)@) == acc2.failures
            &&& group_views(final(groups)@) == acc2.groups
        }),
{
    proof {
        state.wal.lemma_wf_queues();
    }
    let from_position = match state.shards.get(queue_id) {
        Some(shard) => shard.replication_position_inclusive(),
        None => {
            proof {
                assert(false);
            }
            Position::Beginning
        },
    };
    let records = encode_doc_batch(&sub.doc_batch, force);
    proof {
        assert(record_views(records@).len() >= 1);
        assert(records@.len() == record_views(records@).len());
    }
    match state.wal.append_records(queue_id, records) {
        Ok(last_offset) => {
            proof {
                assert(from_position.spec_le(Position::Offset(last_offset)));
            }
            state.shards.set_position(queue_id, Position::Offset(last_offset));
            match &sub.follower_id {
                Some(follower_ref) => {
                    let rsub = ReplicateSubrequest {
                        subrequest_id: sub.subrequest_id,
                        index_uid: sub.index_uid.clone(),
                        source_id: sub.source_id.clone(),
                        shard_id: sub.shard_id,
                        from_position_exclusive: from_position,
                        to_position_inclusive: Position::Offset(last_offset),
                        doc_batch: copy_batch(&sub.doc_batch),
                    };
                    add_to_group(groups, follower_ref, rsub);
                },
                None => {
                    successes.push(
                        PersistSuccess {
                            subrequest_id: sub.subrequest_id,
                            index_uid: sub.index_uid.clone(),
                            source_id: sub.source_id.clone(),
                            shard_id: sub.shard_id,
                            replication_position_inclusive: Position::Offset(last_offset),
                        },
                    );
                    proof {
                        assert(persist_success_views(successes@) =~= persist_success_views(
                            old(successes)@,
                        ).push(successes@.last()@));
                    }
                },
            }
            proof {
                assert forall|q: QueueIdV| #[trigger]
                    state@.shards.contains_key(q) implies state@.wal.contains_key(q)
                    && shard_position_ok(state@.shards[q], state@.wal[q]) by {
                    assert(old(state)@.shards.contains_key(q));
                }
            }
        },
        Err(error) => {
            proof {
                assert(error == AppendError::CapacityExceeded);
            }
            state.shards.close_shard(queue_id);
            failures.push(
                PersistFailure {
                    subrequest_id: sub.subrequest_id,
                    index_uid: sub.index_uid.clone(),
                    source_id: sub.source_id.clone(),
                    shard_id: sub.shard_id,
                    reason: PersistFailureReason::ShardClosed,
                },
            );
            proof {
                assert(persist_failure_views(failures@) =~= persist_failure_views(
                    old(failures)@,
                ).push(failures@.last()@));
                assert forall|q: QueueIdV| #[trigger]
                    state@.shards.contains_key(q) implies state@.wal.contains_key(q)
                    && shard_position_ok(state@.shards[q], state@.wal[q]) by {
                    assert(old(state)@.shards.contains_key(q));
                }
            }
        },
    }
}

/// The create half: ensure queue and shard exist, then append.
fn exec_persist_create_append(
    state: &mut IngesterState,
    queue_id: &QueueId,
    sub: &PersistSubrequest,
    force: bool,
    successes: &mut Vec<PersistSuccess>,
    failures: &mut Vec<PersistFailure>,
    groups: &mut Vec<(NodeId, Vec<ReplicateSubrequest>)>,
)
    requires
        old(state).wf(),
        queue_id@ == sub@.queue(),
        !old(state)@.shards.contains_key(queue_id@),
        sub@.docs.len() >= 1,
        distinct_group_keys(group_views(old(groups)@)),
    ensures
        final(state).wf(),
        distinct_group_keys(group_views(final(groups)@)),
        ({
            let role = match sub@.follower_id {
                Some(follower_id) => ShardRoleV::Primary(follower_id),
                None => ShardRoleV::Solo,
            };
            let (st2, acc2) = persist_create_append(
                old(state)@,
                queue_id@,
                sub@,
                force,
                PersistAccV {
                    successes: persist_success_views(old(successes)@),
                    failures: persist_failure_views(old(failures)@),
                    groups: group_views(old(groups)@),
                },
                role,
            );
            &&& final(state)@ == st2
            &&& persist_success_views(final(successes)@) == acc2.successes
            &&& persist_failure_views(final(failures)@) == acc2.failures
            &&& group_views(final(groups)@) == acc2.groups
        }),
{
    match state.wal.create_queue(queue_id) {
        Err(_) => {
            failures.push(
                PersistFailure {
                    subrequest_id: sub.subrequest_id,
                    index_uid: sub.index_uid.clone(),
                    source_id: sub.source_id.clone(),
                    shard_id: sub.shard_id,
                    reason: PersistFailureReason::Internal,
                },
            );
            proof {
                assert(persist_failure_views(failures@) =~= persist_failure_views(
                    old(failures)@,
                ).push(failures@.last()@));
            }
        },
        Ok(()) => {
            let shard = match &sub.follower_id {
                Some(follower_ref) => IngesterShard::new_primary(follower_ref.clone()),
                None => IngesterShard::new_solo(ShardState::Open, Position::Beginning),
            };
            state.shards.insert(queue_id.duplicate(), shard);
            proof {
                assert forall|q: QueueIdV| #[trigger]
                    state@.shards.contains_key(q) implies state@.wal.contains_key(q)
                    && shard_position_ok(state@.shards[q], state@.wal[q]) by {
                    if q != queue_id@ {
                        assert(old(state)@.shards.contains_key(q));
                    }
                }
            }
            exec_persist_append(state, queue_id, sub, force, successes, failures, groups);
        },
    }
}

/// After enqueueing, every group key is an old group key or the new
/// follower.
proof fn lemma_enqueue_in_groups_keys(
    groups: Seq<(Seq<char>, Seq<ReplicateSubrequestV>)>,
    follower_id: Seq<char>,
    rsub: ReplicateSubrequestV,
)
    ensures
        ({
            let g2 = enqueue_in_groups(groups, follower_id, rsub);
            forall|m: int|
                0 <= m < g2.len() ==> (#[trigger] g2[m]).0 == follower_id || exists|i: int|
                    0 <= i < groups.len() && (#[trigger] groups[i]).0 == g2[m].0
        }),
{
    let g2 = enqueue_in_groups(groups, follower_id, rsub);
    if exists|i: int| 0 <= i < groups.len() && groups[i].0 == follower_id {
        assert forall|m: int|
            0 <= m < g2.len() implies (#[trigger] g2[m]).0 == follower_id || exists|i: int|
            0 <= i < groups.len() && (#[trigger] groups[i]).0 == g2[m].0 by {
            assert(groups[m].0 == g2[m].0);
        }
    } else {
        assert forall|m: int|
            0 <= m < g2.len() implies (#[trigger] g2[m]).0 == follower_id || exists|i: int|
            0 <= i < groups.len() && (#[trigger] groups[i]).0 == g2[m].0 by {
            if m < groups.len() {
                assert(groups[m].0 == g2[m].0);
            }
        }
    }
}

/// `persist_append` keeps the registries, only advances the shard, and
/// keeps the shards consistent.
proof fn lemma_persist_append_properties(
    st: StateModel,
    q: QueueIdV,
    sub: PersistSubrequestV,
    force: bool,
    acc: PersistAccV,
)
    requires
        shards_consistent(st),
        wal_wf_model(st),
        st.shards.contains_key(q),
        st.shards[q].state == ShardState::Open,
        sub.docs.len() >= 1,
    ensures
        ({
            let (st2, acc2) = persist_append(st, q, sub, force, acc);
            &&& shards_consistent(st2)
            &&& wal_wf_model(st2)
            &&& st2.streams == st.streams
            &&& st2.tasks == st.tasks
            &&& forall|qq: QueueIdV| #[trigger]
                st.shards.contains_key(qq) ==> st2.shards.contains_key(qq)
            &&& shard_positions_monotone(st.shards, st2.shards)
            &&& forall|m: int|
                0 <= m < acc2.groups.len() ==> (exists|i: int|
                    0 <= i < acc.groups.len() && (#[trigger] acc.groups[i]).0 == acc2.groups[m].0)
                    || Some((#[trigger] acc2.groups[m]).0) == sub.follower_id
        }),
{
    let (st2, acc2) = persist_append(st, q, sub, force, acc);
    let queue = st.wal[q];
    let frames = doc_frames(sub.docs, force);
    assert(frames.len() >= 1);
    assert(queue_wf(queue));
    assert forall|k: QueueIdV| #[trigger] st2.wal.contains_key(k) implies queue_wf(st2.wal[k]) by {
        if k != q || queue.next() + frames.len() > u64::MAX {
            assert(st.wal.contains_key(k));
            assert(st2.wal[k] == st.wal[k]);
        }
    }
    if queue.next() + frames.len() > u64::MAX {
        assert forall|qq: QueueIdV| #[trigger]
            st2.shards.contains_key(qq) implies st2.wal.contains_key(qq) && shard_position_ok(
            st2.shards[qq],
            st2.wal[qq],
        ) by {
            assert(st.shards.contains_key(qq));
        }
    } else {
        let last = (queue.next() + frames.len() - 1) as u64;
        assert(st.shards[q].position.spec_le(Position::Offset(last)));
        assert forall|qq: QueueIdV| #[trigger]
            st2.shards.contains_key(qq) implies st2.wal.contains_key(qq) && shard_position_ok(
            st2.shards[qq],
            st2.wal[qq],
        ) by {
            if qq == q {
                assert(st2.shards[q] == (ShardModel {
                    position: Position::Offset(last),
                    ..st.shards[q]
                }));
                assert(st2.wal[q] == queue_append(queue, frames));
                assert(st2.wal[q].next() == queue.next() + frames.len());
                assert((last as int) == queue.next() + frames.len() - 1);
            } else {
                assert(st.shards.contains_key(qq));
                assert(st2.shards[qq] == st.shards[qq]);
                assert(st2.wal[qq] == st.wal[qq]);
            }
        }
        match sub.follower_id {
            Some(follower_id) => {
                lemma_enqueue_in_groups_keys(
                    acc.groups,
                    follower_id,
                    ReplicateSubrequestV {
                        subrequest_id: sub.subrequest_id,
                        index_uid: sub.index_uid,
                        source_id: sub.source_id,
                        shard_id: sub.shard_id,
                        from_position_exclusive: st.shards[q].position,
                        to_position_inclusive: Position::Offset(last),
                        docs: sub.docs,
                    },
                );
            },
            None => {},
        }
    }
}

/// One `persist_step` leaves shards consistent, only advances positions,
/// never drops a shard or a stream, only adds fresh streams, and ensures a
/// stream for every follower group it appends to.
pub proof fn lemma_persist_step_properties(
    st: StateModel,
    pool: Seq<Seq<char>>,
    sub: PersistSubrequestV,
    force: bool,
    acc: PersistAccV,
)
    requires
        shards_consistent(st),
        wal_wf_model(st),
        sub.docs.len() >= 1,
        forall|m: int| 0 <= m < acc.groups.len() ==> st.streams.contains_key(
            (#[trigger] acc.groups[m]).0,
        ),
    ensures
        ({
            let (st2, acc2) = persist_step(st, pool, sub, force, acc);
            &&& shards_consistent(st2)
            &&& wal_wf_model(st2)
            &&& forall|q: QueueIdV| #[trigger]
                st.shards.contains_key(q) ==> st2.shards.contains_key(q)
            &&& shard_positions_monotone(st.shards, st2.shards)
            &&& st2.tasks == st.tasks
            &&& forall|f: Seq<char>| #[trigger]
                st.streams.contains_key(f) ==> st2.streams.contains_key(f) && st2.streams[f]
                    == st.streams[f]
            &&& forall|f: Seq<char>| #[trigger]
                st2.streams.contains_key(f) ==> st.streams.contains_key(f) || st2.streams[f]
                    == fresh_stream(f)
            &&& forall|m: int| 0 <= m < acc2.groups.len() ==> st2.streams.contains_key(
                (#[trigger] acc2.groups[m]).0,
            )
        }),
{
    let q = sub.queue();
    let (st2, acc2) = persist_step(st, pool, sub, force, acc);
    if !st.shards.contains_key(q) {
        match sub.follower_id {
            Some(follower_id) => {
                if st.streams.contains_key(follower_id) || pool_has(pool, follower_id) {
                    let stb = if st.streams.contains_key(follower_id) {
                        st
                    } else {
                        StateModel {
                            streams: st.streams.insert(follower_id, fresh_stream(follower_id)),
                            ..st
                        }
                    };
                    lemma_persist_create_step(stb, st, q, sub, force, acc, follower_id);
                }
            },
            None => {
                if !st.wal.contains_key(q) {
                    let st1 = StateModel {
                        wal: st.wal.insert(q, empty_queue()),
                        shards: st.shards.insert(
                            q,
                            ShardModel {
                                role: ShardRoleV::Solo,
                                state: ShardState::Open,
                                position: Position::Beginning,
                            },
                        ),
                        ..st
                    };
                    assert(shards_consistent(st1)) by {
                        assert forall|qq: QueueIdV| #[trigger]
                            st1.shards.contains_key(qq) implies st1.wal.contains_key(qq)
                            && shard_position_ok(st1.shards[qq], st1.wal[qq]) by {
                            if qq != q {
                                assert(st.shards.contains_key(qq));
                            }
                        }
                    }
                    assert(wal_wf_model(st1)) by {
                        assert forall|k: QueueIdV| #[trigger]
                            st1.wal.contains_key(k) implies queue_wf(st1.wal[k]) by {
                            if k != q {
                                assert(st.wal.contains_key(k));
                            }
                        }
                    }
                    lemma_persist_append_properties(st1, q, sub, force, acc);
                    lemma_step_groups_helper(st, pool, sub, force, acc);
                }
            },
        }
    } else if st.shards[q].state == ShardState::Closed {
    } else {
        match sub.follower_id {
            Some(follower_id) => {
                if st.streams.contains_key(follower_id) || pool_has(pool, follower_id) {
                    let stb = if st.streams.contains_key(follower_id) {
                        st
                    } else {
                        StateModel {
                            streams: st.streams.insert(follower_id, fresh_stream(follower_id)),
                            ..st
                        }
                    };
                    lemma_persist_append_properties(stb, q, sub, force, acc);
                    lemma_step_groups_helper(st, pool, sub, force, acc);
                }
            },
            None => {
                lemma_persist_append_properties(st, q, sub, force, acc);
                lemma_step_groups_helper(st, pool, sub, force, acc);
            },
        }
    }
}

/// The create-then-append path of one step, starting from the state with
/// the follower's stream ensured.
proof fn lemma_persist_create_step(
    stb: StateModel,
    st: StateModel,
    q: QueueIdV,
    sub: PersistSubrequestV,
    force: bool,
    acc: PersistAccV,
    follower_id: Seq<char>,
)
    requires
        shards_consistent(st),
        wal_wf_model(st),
        sub.docs.len() >= 1,
        sub.queue() == q,
        sub.follower_id == Some(follower_id),
        !st.shards.contains_key(q),
        (if st.streams.contains_key(follower_id) {
            stb == st
        } else {
            stb == (StateModel {
                streams: st.streams.insert(follower_id, fresh_stream(follower_id)),
                ..st
            })
        }),
        stb.streams.contains_key(follower_id),
        forall|m: int| 0 <= m < acc.groups.len() ==> st.streams.contains_key(
            (#[trigger] acc.groups[m]).0,
        ),
    ensures
        ({
            let (st2, acc2) = persist_create_append(
                stb,
                q,
                sub,
                force,
                acc,
                ShardRoleV::Primary(follower_id),
            );
            &&& shards_consistent(st2)
            &&& wal_wf_model(st2)
            &&& forall|qq: QueueIdV| #[trigger]
                st.shards.contains_key(qq) ==> st2.shards.contains_key(qq)
            &&& shard_positions_monotone(st.shards, st2.shards)
            &&& st2.tasks == st.tasks
            &&& forall|f: Seq<char>| #[trigger]
                st.streams.contains_key(f) ==> st2.streams.contains_key(f) && st2.streams[f]
                    == st.streams[f]
            &&& forall|f: Seq<char>| #[trigger]
                st2.streams.contains_key(f) ==> st.streams.contains_key(f) || st2.streams[f]
                    == fresh_stream(f)
            &&& forall|m: int| 0 <= m < acc2.groups.len() ==> st2.streams.contains_key(
                (#[trigger] acc2.groups[m]).0,
            )
        }),
{
    assert(shards_consistent(stb));
    if !stb.wal.contains_key(q) {
        let st1 = StateModel {
            wal: stb.wal.insert(q, empty_queue()),
            shards: stb.shards.insert(
                q,
                ShardModel {
                    role: ShardRoleV::Primary(follower_id),
                    state: ShardState::Open,
                    position: Position::Beginning,
                },
            ),
            ..stb
        };
        assert(shards_consistent(st1)) by {
            assert forall|qq: QueueIdV| #[trigger]
                st1.shards.contains_key(qq) implies st1.wal.contains_key(qq) && shard_position_ok(
                st1.shards[qq],
                st1.wal[qq],
            ) by {
                if qq != q {
                    assert(stb.shards.contains_key(qq));
                }
            }
        }
        assert(wal_wf_model(st1)) by {
            assert forall|k: QueueIdV| #[trigger]
                st1.wal.contains_key(k) implies queue_wf(st1.wal[k]) by {
                if k != q {
                    assert(stb.wal.contains_key(k));
                }
            }
        }
        lemma_persist_append_properties(st1, q, sub, force, acc);
        let (st2, acc2) = persist_append(st1, q, sub, force, acc);
        assert forall|m: int| 0 <= m < acc2.groups.len() implies st2.streams.contains_key(
            (#[trigger] acc2.groups[m]).0,
        ) by {
            if Some(acc2.groups[m].0) != sub.follower_id {
                let i = choose|i: int|
                    0 <= i < acc.groups.len() && (#[trigger] acc.groups[i]).0 == acc2.groups[m].0;
                assert(st.streams.contains_key(acc.groups[i].0));
            }
        }
    }
}

/// Relates the group keys of a step's result to the streams of its result.
proof fn lemma_step_groups_helper(
    st: StateModel,
    pool: Seq<Seq<char>>,
    sub: PersistSubrequestV,
    force: bool,
    acc: PersistAccV,
)
    requires
        shards_consistent(st),
        sub.docs.len() >= 1,
        forall|m: int| 0 <= m < acc.groups.len() ==> st.streams.contains_key(
            (#[trigger] acc.groups[m]).0,
        ),
        ({
            let (st2, acc2) = persist_step(st, pool, sub, force, acc);
            &&& (forall|f: Seq<char>| #[trigger]
                st.streams.contains_key(f) ==> st2.streams.contains_key(f))
            &&& (forall|m: int|
                0 <= m < acc2.groups.len() ==> (exists|i: int|
                    0 <= i < acc.groups.len() && (#[trigger] acc.groups[i]).0 == acc2.groups[m].0)
                    || (Some((#[trigger] acc2.groups[m]).0) == sub.follower_id
                    && st2.streams.contains_key(acc2.groups[m].0)))
        }),
    ensures
        ({
            let (st2, acc2) = persist_step(st, pool, sub, force, acc);
            forall|m: int| 0 <= m < acc2.groups.len() ==> st2.streams.contains_key(
                (#[trigger] acc2.groups[m]).0,
            )
        }),
{
    let (st2, acc2) = persist_step(st, pool, sub, force, acc);
    assert forall|m: int| 0 <= m < acc2.groups.len() implies st2.streams.contains_key(
        (#[trigger] acc2.groups[m]).0,
    ) by {
        if !(Some(acc2.groups[m].0) == sub.follower_id && st2.streams.contains_key(
            acc2.groups[m].0,
        )) {
            let i = choose|i: int|
                0 <= i < acc.groups.len() && (#[trigger] acc.groups[i]).0 == acc2.groups[m].0;
            assert(st.streams.contains_key(acc.groups[i].0));
        }
    }
}

/// The subrequest walk preserves the step lemma's properties.
pub proof fn lemma_persist_fold_properties(
    st: StateModel,
    pool: Seq<Seq<char>>,
    subs: Seq<PersistSubrequestV>,
    force: bool,
)
    requires
        shards_consistent(st),
        wal_wf_model(st),
        forall|i: int| 0 <= i < subs.len() ==> (#[trigger] subs[i]).docs.len() >= 1,
    ensures
        ({
            let (st2, acc2) = persist_fold(st, pool, subs, force);
            &&& shards_consistent(st2)
            &&& wal_wf_model(st2)
            &&& forall|q: QueueIdV| #[trigger]
                st.shards.contains_key(q) ==> st2.shards.contains_key(q)
            &&& shard_positions_monotone(st.shards, st2.shards)
            &&& st2.tasks == st.tasks
            &&& forall|f: Seq<char>| #[trigger]
                st.streams.contains_key(f) ==> st2.streams.contains_key(f) && st2.streams[f]
                    == st.streams[f]
            &&& forall|f: Seq<char>| #[trigger]
                st2.streams.contains_key(f) ==> st.streams.contains_key(f) || st2.streams[f]
                    == fresh_stream(f)
            &&& forall|m: int| 0 <= m < acc2.groups.len() ==> st2.streams.contains_key(
                (#[trigger] acc2.groups[m]).0,
            )
        }),
    decreases subs.len(),
{
    if subs.len() > 0 {
        lemma_persist_fold_properties(st, pool, subs.drop_last(), force);
        let (st1, acc1) = persist_fold(st, pool, subs.drop_last(), force);
        assert(subs[subs.len() - 1] == subs.last());
        lemma_persist_step_properties(st1, pool, subs.last(), force, acc1);
        let (st2, acc2) = persist_step(st1, pool, subs.last(), force, acc1);
        assert forall|qq: QueueIdV|
            st.shards.contains_key(qq) && #[trigger] st2.shards.contains_key(
                qq,
            ) implies st.shards[qq].position.spec_le(st2.shards[qq].position) by {
            assert(st1.shards.contains_key(qq));
            crate::position::lemma_position_order_total(
                st.shards[qq].position,
                st1.shards[qq].position,
                st2.shards[qq].position,
            );
        }
    }
}

/// Submitting the follower groups touches only the stream registry.
pub proof fn lemma_submit_groups_properties(
    st: StateModel,
    leader_id: Seq<char>,
    commit_type: CommitType,
    groups: Seq<(Seq<char>, Seq<ReplicateSubrequestV>)>,
)
    ensures
        ({
            let (st2, _) = submit_groups(st, leader_id, commit_type, groups);
            st2.shards == st.shards && st2.wal == st.wal && st2.tasks == st.tasks
        }),
    decreases groups.len(),
{
    if groups.len() > 0 {
        lemma_submit_groups_properties(st, leader_id, commit_type, groups.drop_last());
    }
}

/// A queue sealed at startup: if its last record is not an end-of-stream
/// marker (or it retains none), one is appended.
pub open spec fn seal_queue(q: QueueModel) -> QueueModel {
    if q.records.len() > 0 && is_eof_frame(q.records.last()) {
        q
    } else {
        queue_append(q, seq![eof_frame()])
    }
}

/// The shard record of a sealed pre-existing queue.
pub open spec fn sealed_shard() -> ShardModel {
    ShardModel { role: ShardRoleV::Solo, state: ShardState::Closed, position: Position::Eof }
}

/// Startup recovery: every pre-existing queue is sealed and gets a solo,
/// closed shard at `Eof`.
pub open spec fn init_state(st: StateModel) -> StateModel {
    StateModel {
        wal: Map::new(
            |k: QueueIdV| st.wal.contains_key(k),
            |k: QueueIdV| seal_queue(st.wal[k]),
        ),
        shards: Map::new(
            |k: QueueIdV| st.shards.contains_key(k) || st.wal.contains_key(k),
            |k: QueueIdV|
                if st.wal.contains_key(k) {
                    sealed_shard()
                } else {
                    st.shards[k]
                },
        ),
        ..st
    }
}

/// After startup recovery every queue ends with an end-of-stream record.
pub proof fn lemma_init_seals_every_queue(st: StateModel)
    ensures
        forall|k: QueueIdV| #[trigger]
            init_state(st).wal.contains_key(k) ==> init_state(st).wal[k].records.len() > 0
                && is_eof_frame(init_state(st).wal[k].records.last()),
{
}

/// Startup recovery is idempotent: a second run changes nothing, and in
/// particular appends no redundant end-of-stream record.
pub proof fn lemma_init_idempotent(st: StateModel)
    ensures
        init_state(init_state(st)) == init_state(st),
{
    lemma_init_seals_every_queue(st);
    assert(init_state(init_state(st)).wal =~= init_state(st).wal);
    assert(init_state(init_state(st)).shards =~= init_state(st).shards);
    assert(init_state(init_state(st)) =~= init_state(st));
}

/// Appends an end-of-stream record to the queue if it is empty or its
/// last record is not one already.
pub fn append_eof_record_if_necessary(wal: &mut Wal, queue_id: &QueueId)
    requires
        old(wal).wf(),
        old(wal)@.contains_key(queue_id@),
        old(wal)@[queue_id@].next() < u64::MAX,
    ensures
        final(wal).wf(),
        final(wal)@ == old(wal)@.insert(queue_id@, seal_queue(old(wal)@[queue_id@])),
{
    let should_append_eof_record = match wal.last_record(queue_id) {
        None => true,
        Some(record) => !is_eof_mrecord(&record),
    };
    if should_append_eof_record {
        let result = wal.append_record(queue_id, encode_eof());
        proof {
            assert(result is Ok);
        }
    } else {
        proof {
            assert(final(wal)@ =~= old(wal)@.insert(queue_id@, seal_queue(old(wal)@[queue_id@])));
        }
    }
}

/// One truncate subrequest: an offset drops the records before and at it,
/// `Eof` deletes the queue and evicts its shard, `Beginning` does nothing.
/// Unknown queues are silently ignored.
pub open spec fn truncate_step(st: StateModel, sub: TruncateSubrequestV) -> StateModel {
    let q = sub.queue();
    match sub.to_position_inclusive {
        Position::Beginning => st,
        Position::Offset(n) => if st.wal.contains_key(q) {
            StateModel { wal: st.wal.insert(q, queue_truncate(st.wal[q], n as int)), ..st }
        } else {
            st
        },
        Position::Eof => StateModel {
            wal: st.wal.remove(q),
            shards: st.shards.remove(q),
            ..st
        },
    }
}

pub open spec fn truncate_fold(st: StateModel, subs: Seq<TruncateSubrequestV>) -> StateModel
    decreases subs.len(),
{
    if subs.len() == 0 {
        st
    } else {
        truncate_step(truncate_fold(st, subs.drop_last()), subs.last())
    }
}

impl Ingester {
    /// The node's identity.
    pub open spec fn id(&self) -> Seq<char> {
        self.self_node_id@
    }

    /// The peers this node can reach.
    pub open spec fn pool(&self) -> Seq<Seq<char>> {
        pool_views(self.ingester_pool@)
    }

    pub open spec fn wf(&self) -> bool {
        self.state.wf()
    }

    /// Makes a peer reachable.
    pub fn add_peer(&mut self, node_id: NodeId)
        requires
            old(self).wf(),
        ensures
            final(self).wf(),
            final(self).pool() == old(self).pool().push(node_id@),
            final(self).state@ == old(self).state@,
            final(self).id() == old(self).id(),
    {
        self.ingester_pool.push(node_id);
        proof {
            assert(self.pool() =~= old(self).pool().push(self.ingester_pool@.last()@));
        }
    }

    /// Appends each subrequest's documents to its shard's queue, in input
    /// order, creating missing shards lazily. Solo subrequests are
    /// acknowledged at once; subrequests with a follower become replicate
    /// requests, one per follower, stamped in submission order. The state
    /// and the outcome are exactly the walk `persist_fold` followed by
    /// `submit_groups`; a request addressed to another leader is refused
    /// untouched.
    pub fn persist(&mut self, persist_request: PersistRequest) -> (r: Result<
        PersistOutcome,
        IngestError,
    >)
        requires
            old(self).wf(),
            forall|i: int|
                0 <= i < persist_request@.subrequests.len() ==> (#[trigger]
                persist_request@.subrequests[i]).docs.len() >= 1,
            forall|f: Seq<char>| #[trigger]
                old(self).state@.streams.contains_key(f) ==> old(
                    self,
                ).state@.streams[f].next_seqno < u64::MAX,
        ensures
            final(self).wf(),
            final(self).id() == old(self).id(),
            final(self).pool() == old(self).pool(),
            persist_request@.leader_id != old(self).id() ==> (r matches Err(IngestError::Internal)
                && final(self).state@ == old(self).state@),
            persist_request@.leader_id == old(self).id() ==> (r matches Ok(outcome) && {
                let folded = persist_fold(
                    old(self).state@,
                    old(self).pool(),
                    persist_request@.subrequests,
                    persist_request@.commit_type == CommitType::Force,
                );
                let submitted = submit_groups(
                    folded.0,
                    old(self).id(),
                    persist_request@.commit_type,
                    folded.1.groups,
                );
                &&& final(self).state@ == submitted.0
                &&& outcome.leader_id@ == old(self).id()
                &&& persist_success_views(outcome.successes@) == folded.1.successes
                &&& persist_failure_views(outcome.failures@) == folded.1.failures
                &&& replicate_request_views(outcome.replicate_requests@) == submitted.1
            }),
            shard_positions_monotone(old(self).state@.shards, final(self).state@.shards),

    {
        if !(persist_request.leader_id == self.self_node_id) {
            return Err(IngestError::Internal);
        }
        let force_commit = match persist_request.commit_type {
            CommitType::Force => true,
            CommitType::Auto => false,
        };
        let ghost st0 = self.state@;
        let ghost pool0 = self.pool();
        let ghost subs = persist_request@.subrequests;
        let ghost id0 = self.self_node_id;
        let ghost pool_vec0 = self.ingester_pool@;
        let ghost rf0 = self.replication_factor;
        proof {
            self.state.wal.lemma_wf_queues();
        }
        let mut successes: Vec<PersistSuccess> = Vec::new();
        let mut failures: Vec<PersistFailure> = Vec::new();
        let mut groups: Vec<(NodeId, Vec<ReplicateSubrequest>)> = Vec::new();
        proof {
            assert(subs.take(0) =~= Seq::<PersistSubrequestV>::empty());
            assert(group_views(groups@) =~= Seq::<(Seq<char>, Seq<ReplicateSubrequestV>)>::empty());
            assert(persist_success_views(successes@) =~= Seq::<PersistSuccessV>::empty());
            assert(persist_failure_views(failures@) =~= Seq::<PersistFailureV>::empty());
        }
        let n = persist_request.subrequests.len();
        let mut i: usize = 0;
        while i < n
            invariant
                i <= n,
                n == subs.len(),
                subs == persist_request@.subrequests,
                self.self_node_id == id0,
                self.ingester_pool@ == pool_vec0,
                self.replication_factor == rf0,
                pool0 == self.pool(),
                self.state.wf(),
                shards_consistent(st0),
                wal_wf_model(st0),
                forall|k: int| 0 <= k < subs.len() ==> (#[trigger] subs[k]).docs.len() >= 1,
                distinct_group_keys(group_views(groups@)),
                ({
                    let folded = persist_fold(st0, pool0, subs.take(i as int), force_commit);
                    &&& self.state@ == folded.0
                    &&& persist_success_views(successes@) == folded.1.successes
                    &&& persist_failure_views(failures@) == folded.1.failures
                    &&& group_views(groups@) == folded.1.groups
                }),
            decreases n - i,
        {
            let ghost pre_state = self.state@;
            let ghost pre_acc = PersistAccV {
                successes: persist_success_views(successes@),
                failures: persist_failure_views(failures@),
                groups: group_views(groups@),
            };
            let sub = &persist_request.subrequests[i];
            proof {
                assert(subs[i as int] == sub@);
            }
            let queue_id = sub.queue_id();
            let ghost step_result = persist_step(pre_state, pool0, sub@, force_commit, pre_acc);
            let shard_exists = self.state.shards.contains(&queue_id);
            if !shard_exists {
                match &sub.follower_id {
                    Some(follower_ref) => {
                        if self.state.replication_streams.contains(follower_ref) {
                            exec_persist_create_append(
                                &mut self.state,
                                &queue_id,
                                sub,
                                force_commit,
                                &mut successes,
                                &mut failures,
                                &mut groups,
                            );
                        } else if self.pool_contains(follower_ref) {
                            self.state.replication_streams.open(follower_ref);
                            proof {
                                assert(shards_consistent(self.state@));
                            }
                            exec_persist_create_append(
                                &mut self.state,
                                &queue_id,
                                sub,
                                force_commit,
                                &mut successes,
                                &mut failures,
                                &mut groups,
                            );
                        } else {
                            failures.push(
                                PersistFailure {
                                    subrequest_id: sub.subrequest_id,
                                    index_uid: sub.index_uid.clone(),
                                    source_id: sub.source_id.clone(),
                                    shard_id: sub.shard_id,
                                    reason: PersistFailureReason::Internal,
                                },
                            );
                            proof {
                                assert(persist_failure_views(failures@) =~= pre_acc.failures.push(
                                    failures@.last()@,
                                ));
                            }
                        }
                    },
                    None => {
                        exec_persist_create_append(
                            &mut self.state,
                            &queue_id,
                            sub,
                            force_commit,
                            &mut successes,
                            &mut failures,
                            &mut groups,
                        );
                    },
                }
            } else {
                let closed = match self.state.shards.get(&queue_id) {
                    Some(shard) => shard.is_closed(),
                    None => {
                        proof {
                            assert(false);
                        }
                        false
                    },
                };
                if closed {
                    failures.push(
                        PersistFailure {
                            subrequest_id: sub.subrequest_id,
                            index_uid: sub.index_uid.clone(),
                            source_id: sub.source_id.clone(),
                            shard_id: sub.shard_id,
                            reason: PersistFailureReason::ShardClosed,
                        },
                    );
                    proof {
                        assert(persist_failure_views(failures@) =~= pre_acc.failures.push(
                            failures@.last()@,
                        ));
                    }
                } else {
                    match &sub.follower_id {
                        Some(follower_ref) => {
                            if self.state.replication_streams.contains(follower_ref) {
                                exec_persist_append(
                                    &mut self.state,
                                    &queue_id,
                                    sub,
                                    force_commit,
                                    &mut successes,
                                    &mut failures,
                                    &mut groups,
                                );
                            } else if self.pool_contains(follower_ref) {
                                self.state.replication_streams.open(follower_ref);
                                proof {
                                    assert(shards_consistent(self.state@));
                                }
                                exec_persist_append(
                                    &mut self.state,
                                    &queue_id,
                                    sub,
                                    force_commit,
                                    &mut successes,
                                    &mut failures,
                                    &mut groups,
                                );
                            } else {
                                failures.push(
                                    PersistFailure {
                                        subrequest_id: sub.subrequest_id,
                                        index_uid: sub.index_uid.clone(),
                                        source_id: sub.source_id.clone(),
                                        shard_id: sub.shard_id,
                                        reason: PersistFailureReason::Internal,
                                    },
                                );
                                proof {
                                    assert(persist_failure_views(failures@)
                                        =~= pre_acc.failures.push(failures@.last()@));
                                }
                            }
                        },
                        None => {
                            exec_persist_append(
                                &mut self.state,
                                &queue_id,
                                sub,
                                force_commit,
                                &mut successes,
                                &mut failures,
                                &mut groups,
                            );
                        },
                    }
                }
            }
            i = i + 1;
            proof {
                assert(self.state@ == step_result.0);
                assert(persist_success_views(successes@) == step_result.1.successes);
                assert(persist_failure_views(failures@) == step_result.1.failures);
                assert(group_views(groups@) == step_result.1.groups);
                assert(subs.take(i as int).drop_last() =~= subs.take(i - 1));
                assert(subs.take(i as int).last() == subs[i - 1]);
            }
        }
        proof {
            assert(subs.take(n as int) =~= subs);
        }
        let ghost folded = persist_fold(st0, pool0, subs, force_commit);
        proof {
            lemma_persist_fold_properties(st0, pool0, subs, force_commit);
        }
        let mut replicate_requests: Vec<ReplicateRequest> = Vec::new();
        let ghost st1 = self.state@;
        let ghost all_groups = group_views(groups@);
        let ghost g_total = all_groups.len();
        let ghost ct = persist_request@.commit_type;
        let ghost mut g: int = 0;
        proof {
            assert(all_groups.take(0) =~= Seq::<(Seq<char>, Seq<ReplicateSubrequestV>)>::empty());
            assert(group_views(groups@) =~= all_groups.skip(0));
            assert(replicate_request_views(replicate_requests@) =~= Seq::<
                ReplicateRequestV,
            >::empty());
        }
        while groups.len() > 0
            invariant
                0 <= g <= g_total,
                g_total == all_groups.len(),
                self.self_node_id == id0,
                self.ingester_pool@ == pool_vec0,
                self.replication_factor == rf0,
                self.state.wf(),
                ct == persist_request@.commit_type,
                group_views(groups@) == all_groups.skip(g),
                distinct_group_keys(all_groups),
                forall|m: int|
                    g <= m < g_total ==> self.state@.streams.contains_key(
                        (#[trigger] all_groups[m]).0,
                    ) && self.state@.streams[all_groups[m].0].next_seqno < u64::MAX,
                ({
                    let sg = submit_groups(st1, id0@, ct, all_groups.take(g));
                    &&& self.state@ == sg.0
                    &&& replicate_request_views(replicate_requests@) == sg.1
                }),
            decreases groups@.len(),
        {
            let ghost pre_state = self.state@;
            let ghost pre_reqs = replicate_request_views(replicate_requests@);
            let ghost pre_groups = groups@;
            proof {
                assert(g_total == all_groups.len());
                assert(groups@.len() > 0);
                assert(group_views(groups@).len() == groups@.len());
                assert(all_groups.skip(g).len() == g_total - g);
                assert(g < g_total);
                vstd::seq_lib::lemma_seq_skip_index(all_groups, g, 0);
                assert(all_groups.skip(g)[0] == all_groups[g]);
                assert(group_views(groups@)[0] == all_groups[g]);
            }
            let (follower_id, batch) = groups.remove(0);
            proof {
                assert(follower_id@ == all_groups[g].0);
                assert(replicate_subrequest_views(batch@) == all_groups[g].1);
                assert(groups@ == pre_groups.remove(0));
                assert forall|m: int|
                    0 <= m < group_views(groups@).len() implies group_views(groups@)[m]
                    == all_groups.skip(g + 1)[m] by {
                    vstd::seq_lib::lemma_seq_skip_index(all_groups, g, m + 1);
                    vstd::seq_lib::lemma_seq_skip_index(all_groups, g + 1, m);
                    assert(groups@[m] == pre_groups[m + 1]);
                    assert(group_views(pre_groups)[m + 1] == all_groups.skip(g)[m + 1]);
                }
                assert(group_views(groups@) =~= all_groups.skip(g + 1));
            }
            let leader_id = self.self_node_id.clone();
            proof {
                self.state.replication_streams.lemma_wf_streams();
                assert(pre_state.streams[all_groups[g].0].follower_id == all_groups[g].0);
            }
            let request = self.state.replication_streams.submit(
                &follower_id,
                leader_id,
                batch,
                persist_request.commit_type,
            );
            replicate_requests.push(request);
            proof {
                g = g + 1;
                assert(all_groups.take(g).drop_last() =~= all_groups.take(g - 1));
                assert(all_groups.take(g).last() == all_groups[g - 1]);
                assert(replicate_request_views(replicate_requests@) =~= pre_reqs.push(
                    replicate_requests@.last()@,
                ));
                let sg = submit_groups(st1, id0@, ct, all_groups.take(g));
                assert(self.state@ =~= sg.0);
                assert(self.state@ == sg.0);
                assert(replicate_request_views(replicate_requests@) =~= sg.1);
                assert forall|m: int|
                    g <= m < g_total implies self.state@.streams.contains_key(
                    (#[trigger] all_groups[m]).0,
                ) && self.state@.streams[all_groups[m].0].next_seqno < u64::MAX by {
                    assert(all_groups[g - 1].0 != all_groups[m].0);
                    assert(pre_state.streams.contains_key(all_groups[m].0));
                }
            }
        }
        proof {
            assert(all_groups.skip(g).len() == 0);
            assert(g == g_total);
            assert(all_groups.take(g) =~= all_groups);
            lemma_submit_groups_properties(st1, id0@, ct, all_groups);
        }
        let outcome = PersistOutcome {
            leader_id: self.self_node_id.clone(),
            successes,
            failures,
            replicate_requests,
        };
        Ok(outcome)
    }

    fn pool_contains(&self, node_id: &NodeId) -> (r: bool)
        ensures
            r == pool_has(self.pool(), node_id@),
    {
        let mut i: usize = 0;
        while i < self.ingester_pool.len()
            invariant
                i <= self.ingester_pool@.len(),
                forall|j: int| 0 <= j < i ==> pool_views(self.ingester_pool@)[j] != node_id@,
            decreases self.ingester_pool@.len() - i,
        {
            if self.ingester_pool[i] == *node_id {
                proof {
                    assert(pool_views(self.ingester_pool@)[i as int] == node_id@);
                }
                return true;
            }
            i = i + 1;
        }
        false
    }
}

impl Ingester {
    /// Builds an ingester over an existing log and runs startup recovery,
    /// sealing every pre-existing queue.
    pub fn try_new(
        self_node_id: NodeId,
        ingester_pool: Vec<NodeId>,
        wal: Wal,
        replication_factor: usize,
    ) -> (r: Result<Ingester, IngestError>)
        requires
            wal.wf(),
            forall|k: QueueIdV| #[trigger] wal@.contains_key(k) ==> wal@[k].next() < u64::MAX,
        ensures
            r is Ok,
            r matches Ok(ingester) ==> ({
                &&& ingester.wf()
                &&& ingester.id() == self_node_id@
                &&& ingester.pool() == pool_views(ingester_pool@)
                &&& ingester.replication_factor == replication_factor
                &&& ingester.state@ == init_state(
                    StateModel {
                        wal: wal@,
                        shards: Map::empty(),
                        streams: Map::empty(),
                        tasks: Map::empty(),
                    },
                )
            }),
    {
        let mut ingester = Ingester {
            self_node_id,
            ingester_pool,
            state: IngesterState {
                wal,
                shards: ShardTable::new(),
                replication_streams: StreamTable::new(),
                replication_tasks: TaskTable::new(),
            },
            replication_factor,
        };
        ingester.init();
        Ok(ingester)
    }

    /// Startup recovery: seals every queue with an end-of-stream record
    /// where one is missing, and registers a solo, closed shard at `Eof`
    /// for each. Running it twice appends nothing further.
    pub fn init(&mut self)
        requires
            old(self).wf(),
            forall|k: QueueIdV| #[trigger]
                old(self).state@.wal.contains_key(k) ==> old(self).state@.wal[k].next() < u64::MAX,
        ensures
            final(self).wf(),
            final(self).id() == old(self).id(),
            final(self).pool() == old(self).pool(),
            final(self).replication_factor == old(self).replication_factor,
            final(self).state@ == init_state(old(self).state@),
            shard_positions_monotone(old(self).state@.shards, final(self).state@.shards),
    {
        let ghost st0 = self.state@;
        let ghost id0 = self.self_node_id;
        let ghost pool_vec0 = self.ingester_pool@;
        let ghost rf0 = self.replication_factor;
        proof {
            self.state.wal.lemma_wf_queues();
        }
        let queue_ids = self.state.wal.queue_ids();
        let ghost ids = queue_ids@;
        let n = queue_ids.len();
        let mut i: usize = 0;
        while i < n
            invariant
                i <= n,
                n == ids.len(),
                queue_ids@ == ids,
                self.self_node_id == id0,
                self.ingester_pool@ == pool_vec0,
                self.replication_factor == rf0,
                self.state.wal.wf(),
                self.state.shards.wf(),
                self.state.replication_streams.wf(),
                self.state.replication_tasks.wf(),
                self.state@.streams == st0.streams,
                self.state@.tasks == st0.tasks,
                forall|a: int, b: int| 0 <= a < b < ids.len() ==> (#[trigger] ids[a])@ != (
                #[trigger] ids[b])@,
                forall|j: int| 0 <= j < ids.len() ==> st0.wal.contains_key((#[trigger] ids[j])@),
                forall|k: QueueIdV| #[trigger]
                    st0.wal.contains_key(k) ==> exists|j: int| 0 <= j < ids.len() && ids[j]@ == k,
                forall|k: QueueIdV| #[trigger] st0.wal.contains_key(k) ==> queue_wf(st0.wal[k])
                    && st0.wal[k].next() < u64::MAX,
                shards_consistent(st0),
                forall|k: QueueIdV|
                    self.state@.wal.contains_key(k) <==> #[trigger] st0.wal.contains_key(k),
                forall|j: int|
                    0 <= j < i ==> self.state@.wal[(#[trigger] ids[j])@] == seal_queue(
                        st0.wal[ids[j]@],
                    ) && self.state@.shards.contains_key(ids[j]@) && self.state@.shards[ids[j]@]
                        == sealed_shard(),
                forall|k: QueueIdV| #[trigger]
                    st0.wal.contains_key(k) && !(exists|j: int| 0 <= j < i && (#[trigger] ids[j])@
                        == k) ==> self.state@.wal[k] == st0.wal[k],
                forall|k: QueueIdV|
                    #![trigger self.state@.shards.contains_key(k)]
                    !(exists|j: int| 0 <= j < i && (#[trigger] ids[j])@ == k) ==> (
                    self.state@.shards.contains_key(k) <==> st0.shards.contains_key(k)) && (
                    st0.shards.contains_key(k) ==> self.state@.shards[k] == st0.shards[k]),
            decreases n - i,
        {
            let ghost entry_shards = self.state@.shards;
            let queue_id = &queue_ids[i];
            proof {
                assert(ids[i as int]@ == queue_id@);
                assert(st0.wal.contains_key(queue_id@));
                if exists|j: int| 0 <= j < i && (#[trigger] ids[j])@ == queue_id@ {
                    let j = choose|j: int| 0 <= j < i && (#[trigger] ids[j])@ == queue_id@;
                    assert(false);
                }
                assert(self.state@.wal[queue_id@] == st0.wal[queue_id@]);
            }
            append_eof_record_if_necessary(&mut self.state.wal, queue_id);
            let ghost pre_shards = self.state@.shards;
            self.state.shards.insert(queue_id.duplicate(), IngesterShard::new_solo(
                ShardState::Closed,
                Position::Eof,
            ));
            i = i + 1;
            proof {
                assert(self.state@.shards == pre_shards.insert(ids[i - 1]@, sealed_shard()));
                assert forall|j: int|
                    0 <= j < i implies self.state@.wal[(#[trigger] ids[j])@] == seal_queue(
                    st0.wal[ids[j]@],
                ) && self.state@.shards.contains_key(ids[j]@) && self.state@.shards[ids[j]@]
                    == sealed_shard() by {
                    if j < i - 1 {
                        assert(ids[j]@ != ids[i - 1]@);
                    }
                }
                assert forall|k: QueueIdV|
                    #![trigger self.state@.shards.contains_key(k)]
                    !(exists|j: int| 0 <= j < i && (#[trigger] ids[j])@ == k) implies (
                    self.state@.shards.contains_key(k) <==> st0.shards.contains_key(k)) && (
                    st0.shards.contains_key(k) ==> self.state@.shards[k] == st0.shards[k]) by {
                    assert(0 <= i - 1 < i && ids[i - 1]@ == ids[i - 1]@);
                    assert(k != ids[i - 1]@);
                    assert(!(exists|j: int| 0 <= j < i - 1 && (#[trigger] ids[j])@ == k)) by {
                        if exists|j: int| 0 <= j < i - 1 && (#[trigger] ids[j])@ == k {
                            let j = choose|j: int| 0 <= j < i - 1 && (#[trigger] ids[j])@ == k;
                            assert(0 <= j < i && ids[j]@ == k);
                        }
                    }
                    assert(pre_shards == entry_shards);
                    assert(entry_shards.contains_key(k) <==> st0.shards.contains_key(k));
                    assert(self.state@.shards.contains_key(k) == entry_shards.contains_key(k));
                    if st0.shards.contains_key(k) {
                        assert(entry_shards[k] == st0.shards[k]);
                        assert(self.state@.shards[k] == entry_shards[k]);
                    }
                }
            }
        }
        proof {
            assert forall|k: QueueIdV| #[trigger]
                st0.wal.contains_key(k) implies self.state@.wal[k] == seal_queue(st0.wal[k])
                && self.state@.shards.contains_key(k) && self.state@.shards[k]
                == sealed_shard() by {
                let j = choose|j: int| 0 <= j < ids.len() && ids[j]@ == k;
                assert(self.state@.wal[(ids[j])@] == seal_queue(st0.wal[ids[j]@]));
            }
            assert(self.state@.wal =~= init_state(st0).wal);
            assert forall|k: QueueIdV|
                #![trigger init_state(st0).shards.contains_key(k)]
                true implies (self.state@.shards.contains_key(k) == init_state(
                st0,
            ).shards.contains_key(k)) && (init_state(st0).shards.contains_key(k)
                ==> self.state@.shards[k] == init_state(st0).shards[k]) by {
                if st0.wal.contains_key(k) {
                } else {
                    if exists|j: int| 0 <= j < ids.len() && (#[trigger] ids[j])@ == k {
                        let j = choose|j: int| 0 <= j < ids.len() && (#[trigger] ids[j])@ == k;
                        assert(st0.wal.contains_key(ids[j]@));
                        assert(false);
                    }
                    if st0.shards.contains_key(k) {
                        assert(st0.wal.contains_key(k));
                        assert(false);
                    }
                }
            }
            assert(self.state@.shards =~= init_state(st0).shards);
            assert(self.state@ =~= init_state(st0));
            assert(shards_consistent(self.state@)) by {
                assert forall|q: QueueIdV| #[trigger]
                    self.state@.shards.contains_key(q) implies self.state@.wal.contains_key(q)
                    && shard_position_ok(self.state@.shards[q], self.state@.wal[q]) by {
                    assert(st0.wal.contains_key(q));
                }
            }
        }
    }

    /// Client-driven retention: per subrequest, an offset drops the
    /// records up to and including it, `Eof` deletes the queue and evicts
    /// its shard, `Beginning` is a no-op, and unknown queues are silently
    /// ignored. A request addressed to another ingester is refused
    /// untouched.
    pub fn truncate(&mut self, truncate_request: TruncateRequest) -> (r: Result<
        TruncateResponse,
        IngestError,
    >)
        requires
            old(self).wf(),
        ensures
            final(self).wf(),
            final(self).id() == old(self).id(),
            final(self).pool() == old(self).pool(),
            truncate_request.ingester_id@ != old(self).id() ==> (r matches Err(
                IngestError::Internal,
            ) && final(self).state@ == old(self).state@),
            truncate_request.ingester_id@ == old(self).id() ==> r is Ok && final(self).state@
                == truncate_fold(
                old(self).state@,
                truncate_subrequest_views(truncate_request.subrequests@),
            ),
            shard_positions_monotone(old(self).state@.shards, final(self).state@.shards),
    {
        if !(truncate_request.ingester_id == self.self_node_id) {
            return Err(IngestError::Internal);
        }
        let ghost st0 = self.state@;
        let ghost subs = truncate_subrequest_views(truncate_request.subrequests@);
        let ghost id0 = self.self_node_id;
        let ghost pool_vec0 = self.ingester_pool@;
        proof {
            assert(subs.take(0) =~= Seq::<TruncateSubrequestV>::empty());
        }
        let n = truncate_request.subrequests.len();
        let mut i: usize = 0;
        while i < n
            invariant
                i <= n,
                n == subs.len(),
                subs == truncate_subrequest_views(truncate_request.subrequests@),
                self.self_node_id == id0,
                self.ingester_pool@ == pool_vec0,
                self.state.wf(),
                self.state@ == truncate_fold(st0, subs.take(i as int)),
                shard_positions_monotone(st0.shards, self.state@.shards),
            decreases n - i,
        {
            let ghost pre_state = self.state@;
            let sub = &truncate_request.subrequests[i];
            proof {
                assert(subs[i as int] == sub@);
            }
            let queue_id = sub.queue_id();
            match sub.to_position_inclusive {
                Position::Beginning => {},
                Position::Offset(n_offset) => {
                    let _ = self.state.wal.truncate(&queue_id, n_offset);
                    proof {
                        if pre_state.wal.contains_key(queue_id@) {
                            assert(queue_truncate(pre_state.wal[queue_id@], n_offset as int).next()
                                == pre_state.wal[queue_id@].next());
                        }
                        assert(shards_consistent(self.state@)) by {
                            assert forall|q: QueueIdV| #[trigger]
                                self.state@.shards.contains_key(q) implies self.state@.wal.contains_key(
                                q,
                            ) && shard_position_ok(self.state@.shards[q], self.state@.wal[q]) by {
                                assert(pre_state.shards.contains_key(q));
                            }
                        }
                        assert(self.state@ =~= truncate_step(pre_state, sub@));
                    }
                },
                Position::Eof => {
                    let _ = self.state.wal.delete_queue(&queue_id);
                    self.state.shards.remove(&queue_id);
                    proof {
                        assert(self.state@.wal =~= pre_state.wal.remove(queue_id@));
                        assert(self.state@ =~= truncate_step(pre_state, sub@));
                        assert(shards_consistent(self.state@)) by {
                            assert forall|q: QueueIdV| #[trigger]
                                self.state@.shards.contains_key(q) implies self.state@.wal.contains_key(
                                q,
                            ) && shard_position_ok(self.state@.shards[q], self.state@.wal[q]) by {
                                assert(pre_state.shards.contains_key(q));
                            }
                        }
                    }
                },
            }
            i = i + 1;
            proof {
                assert(subs.take(i as int).drop_last() =~= subs.take(i - 1));
                assert(subs.take(i as int).last() == subs[i - 1]);
                assert(self.state@ == truncate_fold(st0, subs.take(i as int)));
            }
        }
        proof {
            assert(subs.take(n as int) =~= subs);
        }
        Ok(TruncateResponse {  })
    }

    /// The follower half of the stream handshake: the first syn message
    /// must address this node, and at most one stream per leader is
    /// served. On success the task is registered and the first ack, the
    /// open response, is returned.
    pub fn open_replication_stream(&mut self, open_request: OpenReplicationStreamRequest) -> (r:
        Result<OpenReplicationStreamResponse, IngestError>)
        requires
            old(self).wf(),
        ensures
            final(self).wf(),
            final(self).id() == old(self).id(),
            final(self).pool() == old(self).pool(),
            open_request.follower_id@ != old(self).id() ==> (r matches Err(IngestError::Internal)
                && final(self).state@ == old(self).state@),
            open_request.follower_id@ == old(self).id() && old(self).state@.tasks.contains_key(
                open_request.leader_id@,
            ) ==> (r matches Err(IngestError::Internal) && final(self).state@ == old(
                self,
            ).state@),
            open_request.follower_id@ == old(self).id() && !old(self).state@.tasks.contains_key(
                open_request.leader_id@,
            ) ==> r is Ok && final(self).state@ == (StateModel {
                tasks: old(self).state@.tasks.insert(
                    open_request.leader_id@,
                    TaskModel {
                        leader_id: open_request.leader_id@,
                        follower_id: open_request.follower_id@,
                    },
                ),
                ..old(self).state@
            }),
            final(self).state@.shards == old(self).state@.shards,
    {
        if !(open_request.follower_id == self.self_node_id) {
            return Err(IngestError::Internal);
        }
        if self.state.replication_tasks.contains(&open_request.leader_id) {
            return Err(IngestError::Internal);
        }
        let task = ReplicationTaskHandle {
            leader_id: open_request.leader_id.clone(),
            follower_id: open_request.follower_id,
        };
        self.state.replication_tasks.insert(&open_request.leader_id, task);
        proof {
            assert(shards_consistent(self.state@)) by {
                assert forall|q: QueueIdV| #[trigger]
                    self.state@.shards.contains_key(q) implies self.state@.wal.contains_key(q)
                    && shard_position_ok(self.state@.shards[q], self.state@.wal[q]) by {
                    assert(old(self).state@.shards.contains_key(q));
                }
            }
        }
        Ok(OpenReplicationStreamResponse {  })
    }

    /// Health probe. A request addressed to another leader, or one naming
    /// no follower, succeeds at once; otherwise the named follower must be
    /// reachable through the peer pool.
    pub fn ping(&self, ping_request: &PingRequest) -> (r: Result<PingResponse, IngestError>)
        ensures
            ping_request.leader_id@ != self.id() ==> r is Ok,
            ping_request.leader_id@ == self.id() ==> match ping_request.follower_id {
                None => r is Ok,
                Some(follower_id) => {
                    &&& pool_has(self.pool(), follower_id@) ==> r is Ok
                    &&& !pool_has(self.pool(), follower_id@) ==> (r matches Err(
                        IngestError::IngesterUnavailable { ingester_id },
                    ) && ingester_id@ == follower_id@)
                },
            },
    {
        if !(ping_request.leader_id == self.self_node_id) {
            return Ok(PingResponse {  });
        }
        match &ping_request.follower_id {
            None => Ok(PingResponse {  }),
            Some(follower_id) => {
                if self.pool_contains(follower_id) {
                    Ok(PingResponse {  })
                } else {
                    Err(IngestError::IngesterUnavailable { ingester_id: follower_id.clone() })
                }
            },
        }
    }
}

/// What the follower-side replication task accumulates while applying one
/// replicate request. `broken` marks a fatal protocol violation: the
/// positions of a subrequest contradict the replica's state.
#[verifier::ext_equal]
pub struct ReplicateAccV {
    pub successes: Seq<ReplicateSuccessV>,
    pub failures: Seq<ReplicateFailureV>,
    pub broken: bool,
}

pub open spec fn empty_replicate_acc() -> ReplicateAccV {
    ReplicateAccV { successes: Seq::empty(), failures: Seq::empty(), broken: false }
}

pub open spec fn replicate_fail(
    acc: ReplicateAccV,
    sub: ReplicateSubrequestV,
    reason: PersistFailureReason,
) -> ReplicateAccV {
    ReplicateAccV {
        failures: acc.failures.push(
            ReplicateFailureV {
                subrequest_id: sub.subrequest_id,
                index_uid: sub.index_uid,
                source_id: sub.source_id,
                shard_id: sub.shard_id,
                reason,
            },
        ),
        ..acc
    }
}

pub open spec fn replicate_succeed(
    acc: ReplicateAccV,
    sub: ReplicateSubrequestV,
    position: Position,
) -> ReplicateAccV {
    ReplicateAccV {
        successes: acc.successes.push(
            ReplicateSuccessV {
                subrequest_id: sub.subrequest_id,
                index_uid: sub.index_uid,
                source_id: sub.source_id,
                shard_id: sub.shard_id,
                replication_position_inclusive: position,
            },
        ),
        ..acc
    }
}

/// The apply half of one replicate subrequest, on an open replica shard:
/// the subrequest's positions must agree with the replica, the documents
/// are framed exactly as the leader framed them, and the shard advances to
/// the subrequest's upper position.
pub open spec fn replicate_apply(
    st: StateModel,
    q: QueueIdV,
    sub: ReplicateSubrequestV,
    force: bool,
    acc: ReplicateAccV,
) -> (StateModel, ReplicateAccV) {
    if sub.from_position_exclusive != st.shards[q].position {
        (st, ReplicateAccV { broken: true, ..acc })
    } else {
        let queue = st.wal[q];
        let frames = doc_frames(sub.docs, force);
        if queue.next() + frames.len() > u64::MAX {
            (
                StateModel {
                    shards: st.shards.insert(
                        q,
                        ShardModel { state: ShardState::Closed, ..st.shards[q] },
                    ),
                    ..st
                },
                replicate_fail(acc, sub, PersistFailureReason::ShardClosed),
            )
        } else {
            let last = (queue.next() + frames.len() - 1) as u64;
            if sub.to_position_inclusive != Position::Offset(last) {
                (st, ReplicateAccV { broken: true, ..acc })
            } else {
                (
                    StateModel {
                        wal: st.wal.insert(q, queue_append(queue, frames)),
                        shards: st.shards.insert(
                            q,
                            ShardModel { position: Position::Offset(last), ..st.shards[q] },
                        ),
                        ..st
                    },
                    replicate_succeed(acc, sub, Position::Offset(last)),
                )
            }
        }
    }
}

/// One replicate subrequest on the follower: ensure the replica shard
/// exists, refuse a closed one, then apply. After a fatal violation the
/// remaining subrequests are left untouched.
pub open spec fn replicate_step(
    st: StateModel,
    leader_id: Seq<char>,
    force: bool,
    sub: ReplicateSubrequestV,
    acc: ReplicateAccV,
) -> (StateModel, ReplicateAccV) {
    if acc.broken {
        (st, acc)
    } else {
        let q = sub.queue();
        if !st.shards.contains_key(q) {
            if st.wal.contains_key(q) {
                (st, replicate_fail(acc, sub, PersistFailureReason::Internal))
            } else {
                let st1 = StateModel {
                    wal: st.wal.insert(q, empty_queue()),
                    shards: st.shards.insert(
                        q,
                        ShardModel {
                            role: ShardRoleV::Replica(leader_id),
                            state: ShardState::Open,
                            position: Position::Beginning,
                        },
                    ),
                    ..st
                };
                replicate_apply(st1, q, sub, force, acc)
            }
        } else if st.shards[q].state == ShardState::Closed {
            (st, replicate_fail(acc, sub, PersistFailureReason::ShardClosed))
        } else {
            replicate_apply(st, q, sub, force, acc)
        }
    }
}

pub open spec fn replicate_fold(
    st: StateModel,
    leader_id: Seq<char>,
    force: bool,
    subs: Seq<ReplicateSubrequestV>,
) -> (StateModel, ReplicateAccV)
    decreases subs.len(),
{
    if subs.len() == 0 {
        (st, empty_replicate_acc())
    } else {
        let prev = replicate_fold(st, leader_id, force, subs.drop_last());
        replicate_step(prev.0, leader_id, force, subs.last(), prev.1)
    }
}

/// Once a prefix of the walk hit a fatal violation, the rest of the walk
/// changes nothing.
pub proof fn lemma_replicate_fold_frozen(
    st: StateModel,
    leader_id: Seq<char>,
    force: bool,
    subs: Seq<ReplicateSubrequestV>,
    k: int,
)
    requires
        0 <= k <= subs.len(),
        replicate_fold(st, leader_id, force, subs.take(k)).1.broken,
    ensures
        replicate_fold(st, leader_id, force, subs) == replicate_fold(
            st,
            leader_id,
            force,
            subs.take(k),
        ),
    decreases subs.len(),
{
    if k < subs.len() {
        assert(subs.drop_last().take(k) =~= subs.take(k));
        lemma_replicate_fold_frozen(st, leader_id, force, subs.drop_last(), k);
    } else {
        assert(subs.take(k) =~= subs);
    }
}

/// The apply half of one replicate subrequest, on the live state.
fn exec_replicate_apply(
    state: &mut IngesterState,
    queue_id: &QueueId,
    sub: &ReplicateSubrequest,
    force: bool,
    successes: &mut Vec<ReplicateSuccess>,
    failures: &mut Vec<ReplicateFailure>,
) -> (r: bool)
    requires
        old(state).wf(),
        queue_id@ == sub@.queue(),
        old(state)@.shards.contains_key(queue_id@),
        old(state)@.shards[queue_id@].state == ShardState::Open,
        sub@.docs.len() >= 1,
    ensures
        final(state).wf(),
        ({
            let (st2, acc2) = replicate_apply(
                old(state)@,
                queue_id@,
                sub@,
                force,
                ReplicateAccV {
                    successes: replicate_success_views(old(successes)@),
                    failures: replicate_failure_views(old(failures)@),
                    broken: false,
                },
            );
            &&& final(state)@ == st2
            &&& r == !acc2.broken
            &&& replicate_success_views(final(successes)@) == acc2.successes
            &&& replicate_failure_views(final(failures)@) == acc2.failures
        }),
{
    proof {
        state.wal.lemma_wf_queues();
    }
    let from_position = match state.shards.get(queue_id) {
        Some(shard) => shard.replication_position_inclusive(),
        None => {
            proof {
                assert(false);
            }
            Position::Beginning
        },
    };
    if !(sub.from_position_exclusive == from_position) {
        return false;
    }
    let next: u64 = match state.wal.current_position(queue_id) {
        None => 0,
        Some(position) => position + 1,
    };
    let records = encode_doc_batch(&sub.doc_batch, force);
    proof {
        assert(record_views(records@).len() >= 1);
        assert(records@.len() == record_views(records@).len());
    }
    if records.len() as u64 > u64::MAX - next {
        state.shards.close_shard(queue_id);
        failures.push(
            ReplicateFailure {
                subrequest_id: sub.subrequest_id,
                index_uid: sub.index_uid.clone(),
                source_id: sub.source_id.clone(),
                shard_id: sub.shard_id,
                reason: PersistFailureReason::ShardClosed,
            },
        );
        proof {
            assert(replicate_failure_views(failures@) =~= replicate_failure_views(
                old(failures)@,
            ).push(failures@.last()@));
            assert forall|q: QueueIdV| #[trigger]
                state@.shards.contains_key(q) implies state@.wal.contains_key(q)
                && shard_position_ok(state@.shards[q], state@.wal[q]) by {
                assert(old(state)@.shards.contains_key(q));
            }
        }
        return true;
    }
    let last_offset: u64 = next + records.len() as u64 - 1;
    if !(sub.to_position_inclusive == Position::Offset(last_offset)) {
        return false;
    }
    match state.wal.append_records(queue_id, records) {
        Ok(appended_last) => {
            proof {
                assert(appended_last == last_offset);
                assert(from_position.spec_le(Position::Offset(last_offset)));
            }
            state.shards.set_position(queue_id, Position::Offset(last_offset));
            successes.push(
                ReplicateSuccess {
                    subrequest_id: sub.subrequest_id,
                    index_uid: sub.index_uid.clone(),
                    source_id: sub.source_id.clone(),
                    shard_id: sub.shard_id,
                    replication_position_inclusive: Position::Offset(last_offset),
                },
            );
            proof {
                assert(replicate_success_views(successes@) =~= replicate_success_views(
                    old(successes)@,
                ).push(successes@.last()@));
                assert forall|q: QueueIdV| #[trigger]
                    state@.shards.contains_key(q) implies state@.wal.contains_key(q)
                    && shard_position_ok(state@.shards[q], state@.wal[q]) by {
                    assert(old(state)@.shards.contains_key(q));
                }
            }
            true
        },
        Err(_) => {
            proof {
                assert(false);
            }
            false
        },
    }
}

/// One follower-side step keeps the state consistent, only advances
/// positions, and leaves both registries alone.
pub proof fn lemma_replicate_step_properties(
    st: StateModel,
    leader_id: Seq<char>,
    force: bool,
    sub: ReplicateSubrequestV,
    acc: ReplicateAccV,
)
    requires
        shards_consistent(st),
        wal_wf_model(st),
        sub.docs.len() >= 1,
    ensures
        ({
            let (st2, acc2) = replicate_step(st, leader_id, force, sub, acc);
            &&& shards_consistent(st2)
            &&& wal_wf_model(st2)
            &&& forall|q: QueueIdV| #[trigger]
                st.shards.contains_key(q) ==> st2.shards.contains_key(q)
            &&& shard_positions_monotone(st.shards, st2.shards)
            &&& st2.streams == st.streams
            &&& st2.tasks == st.tasks
        }),
{
    let (st2, acc2) = replicate_step(st, leader_id, force, sub, acc);
    let q = sub.queue();
    if !acc.broken {
        if !st.shards.contains_key(q) && !st.wal.contains_key(q) {
            let st1 = StateModel {
                wal: st.wal.insert(q, empty_queue()),
                shards: st.shards.insert(
                    q,
                    ShardModel {
                        role: ShardRoleV::Replica(leader_id),
                        state: ShardState::Open,
                        position: Position::Beginning,
                    },
                ),
                ..st
            };
            lemma_replicate_apply_properties(st1, st, q, sub, force, acc);
        } else if st.shards.contains_key(q) && st.shards[q].state != ShardState::Closed {
            lemma_replicate_apply_properties(st, st, q, sub, force, acc);
        }
    }
}

/// The apply half of a follower-side step, starting from the state with
/// the replica shard ensured.
proof fn lemma_replicate_apply_properties(
    stb: StateModel,
    st: StateModel,
    q: QueueIdV,
    sub: ReplicateSubrequestV,
    force: bool,
    acc: ReplicateAccV,
)
    requires
        shards_consistent(st),
        wal_wf_model(st),
        sub.docs.len() >= 1,
        stb.shards.contains_key(q),
        stb.shards[q].state == ShardState::Open,
        stb.streams == st.streams,
        stb.tasks == st.tasks,
        (if st.shards.contains_key(q) {
            stb == st
        } else {
            !st.wal.contains_key(q) && stb == (StateModel {
                wal: st.wal.insert(q, empty_queue()),
                shards: st.shards.insert(
                    q,
                    ShardModel {
                        role: stb.shards[q].role,
                        state: ShardState::Open,
                        position: Position::Beginning,
                    },
                ),
                ..st
            })
        }),
    ensures
        ({
            let (st2, acc2) = replicate_apply(stb, q, sub, force, acc);
            &&& shards_consistent(st2)
            &&& wal_wf_model(st2)
            &&& forall|qq: QueueIdV| #[trigger]
                st.shards.contains_key(qq) ==> st2.shards.contains_key(qq)
            &&& shard_positions_monotone(st.shards, st2.shards)
            &&& st2.streams == st.streams
            &&& st2.tasks == st.tasks
        }),
{
    assert(shards_consistent(stb)) by {
        assert forall|qq: QueueIdV| #[trigger]
            stb.shards.contains_key(qq) implies stb.wal.contains_key(qq) && shard_position_ok(
            stb.shards[qq],
            stb.wal[qq],
        ) by {
            if !st.shards.contains_key(q) && qq != q {
                assert(st.shards.contains_key(qq));
            }
        }
    }
    assert(wal_wf_model(stb)) by {
        assert forall|k: QueueIdV| #[trigger] stb.wal.contains_key(k) implies queue_wf(
            stb.wal[k],
        ) by {
            if !st.shards.contains_key(q) && k != q {
                assert(st.wal.contains_key(k));
            }
        }
    }
    let (st2, acc2) = replicate_apply(stb, q, sub, force, acc);
    if sub.from_position_exclusive == stb.shards[q].position {
        let queue = stb.wal[q];
        let frames = doc_frames(sub.docs, force);
        assert(frames.len() >= 1);
        if queue.next() + frames.len() > u64::MAX {
            assert forall|qq: QueueIdV| #[trigger]
                st2.shards.contains_key(qq) implies st2.wal.contains_key(qq) && shard_position_ok(
                st2.shards[qq],
                st2.wal[qq],
            ) by {
                if qq != q {
                    assert(stb.shards.contains_key(qq));
                }
            }
        } else {
            let last = (queue.next() + frames.len() - 1) as u64;
            if sub.to_position_inclusive == Position::Offset(last) {
                assert(stb.shards[q].position.spec_le(Position::Offset(last)));
                assert forall|qq: QueueIdV| #[trigger]
                    st2.shards.contains_key(qq) implies st2.wal.contains_key(qq)
                    && shard_position_ok(st2.shards[qq], st2.wal[qq]) by {
                    if qq == q {
                        assert(st2.wal[q] == queue_append(queue, frames));
                        assert(st2.wal[q].next() == queue.next() + frames.len());
                    } else {
                        assert(stb.shards.contains_key(qq));
                        assert(st2.shards[qq] == stb.shards[qq]);
                        assert(st2.wal[qq] == stb.wal[qq]);
                    }
                }
                assert forall|k: QueueIdV| #[trigger] st2.wal.contains_key(k) implies queue_wf(
                    st2.wal[k],
                ) by {
                    if k != q {
                        assert(stb.wal.contains_key(k));
                        assert(st2.wal[k] == stb.wal[k]);
                    }
                }
            }
        }
    }
}

/// The follower-side walk preserves the step lemma's properties.
pub proof fn lemma_replicate_fold_properties(
    st: StateModel,
    leader_id: Seq<char>,
    force: bool,
    subs: Seq<ReplicateSubrequestV>,
)
    requires
        shards_consistent(st),
        wal_wf_model(st),
        forall|i: int| 0 <= i < subs.len() ==> (#[trigger] subs[i]).docs.len() >= 1,
    ensures
        ({
            let (st2, acc2) = replicate_fold(st, leader_id, force, subs);
            &&& shards_consistent(st2)
            &&& wal_wf_model(st2)
            &&& forall|q: QueueIdV| #[trigger]
                st.shards.contains_key(q) ==> st2.shards.contains_key(q)
            &&& shard_positions_monotone(st.shards, st2.shards)
            &&& st2.streams == st.streams
            &&& st2.tasks == st.tasks
        }),
    decreases subs.len(),
{
    if subs.len() > 0 {
        lemma_replicate_fold_properties(st, leader_id, force, subs.drop_last());
        let (st1, acc1) = replicate_fold(st, leader_id, force, subs.drop_last());
        assert(subs[subs.len() - 1] == subs.last());
        lemma_replicate_step_properties(st1, leader_id, force, subs.last(), acc1);
        let (st2, acc2) = replicate_step(st1, leader_id, force, subs.last(), acc1);
        assert forall|qq: QueueIdV|
            st.shards.contains_key(qq) && #[trigger] st2.shards.contains_key(
                qq,
            ) implies st.shards[qq].position.spec_le(st2.shards[qq].position) by {
            assert(st1.shards.contains_key(qq));
            crate::position::lemma_position_order_total(
                st.shards[qq].position,
                st1.shards[qq].position,
                st2.shards[qq].position,
            );
        }
    }
}

impl Ingester {
    /// The follower-side replication task: applies one replicate request
    /// under the state lock, creating replica shards lazily, and builds
    /// the acknowledgment carrying the request's sequence number. A
    /// subrequest whose positions contradict the replica poisons the
    /// stream: the walk stops there and the request fails as a whole.
    pub fn apply_replicate_request(&mut self, request: &ReplicateRequest) -> (r: Result<
        ReplicateResponse,
        IngestError,
    >)
        requires
            old(self).wf(),
            forall|i: int|
                0 <= i < request@.subrequests.len() ==> (#[trigger]
                request@.subrequests[i]).docs.len() >= 1,
        ensures
            final(self).wf(),
            final(self).id() == old(self).id(),
            final(self).pool() == old(self).pool(),
            ({
                let folded = replicate_fold(
                    old(self).state@,
                    request@.leader_id,
                    request@.commit_type == CommitType::Force,
                    request@.subrequests,
                );
                &&& final(self).state@ == folded.0
                &&& (folded.1.broken ==> r matches Err(IngestError::Internal))
                &&& (!folded.1.broken ==> (r matches Ok(ack) && {
                    &&& ack.follower_id@ == old(self).id()
                    &&& replicate_success_views(ack.successes@) == folded.1.successes
                    &&& replicate_failure_views(ack.failures@) == folded.1.failures
                    &&& ack.replication_seqno == request.replication_seqno
                }))
            }),
            shard_positions_monotone(old(self).state@.shards, final(self).state@.shards),
    {
        let force_commit = match request.commit_type {
            CommitType::Force => true,
            CommitType::Auto => false,
        };
        let ghost st0 = self.state@;
        let ghost subs = request@.subrequests;
        let ghost leader = request@.leader_id;
        let ghost id0 = self.self_node_id;
        let ghost pool_vec0 = self.ingester_pool@;
        proof {
            self.state.wal.lemma_wf_queues();
            assert(subs.take(0) =~= Seq::<ReplicateSubrequestV>::empty());
        }
        let mut successes: Vec<ReplicateSuccess> = Vec::new();
        let mut failures: Vec<ReplicateFailure> = Vec::new();
        proof {
            assert(replicate_success_views(successes@) =~= Seq::<ReplicateSuccessV>::empty());
            assert(replicate_failure_views(failures@) =~= Seq::<ReplicateFailureV>::empty());
        }
        let n = request.subrequests.len();
        let mut i: usize = 0;
        while i < n
            invariant
                i <= n,
                n == subs.len(),
                subs == request@.subrequests,
                leader == request@.leader_id,
                self.self_node_id == id0,
                self.ingester_pool@ == pool_vec0,
                id0 == old(self).self_node_id,
                pool_vec0 == old(self).ingester_pool@,
                st0 == old(self).state@,
                force_commit == (request@.commit_type == CommitType::Force),
                self.state.wf(),
                shards_consistent(st0),
                wal_wf_model(st0),
                forall|k: int| 0 <= k < subs.len() ==> (#[trigger] subs[k]).docs.len() >= 1,
                ({
                    let folded = replicate_fold(st0, leader, force_commit, subs.take(i as int));
                    &&& self.state@ == folded.0
                    &&& !folded.1.broken
                    &&& replicate_success_views(successes@) == folded.1.successes
                    &&& replicate_failure_views(failures@) == folded.1.failures
                }),
                forall|q: QueueIdV| #[trigger]
                    st0.shards.contains_key(q) ==> self.state@.shards.contains_key(q),
                shard_positions_monotone(st0.shards, self.state@.shards),
            decreases n - i,
        {
            let ghost pre_state = self.state@;
            let ghost pre_acc = ReplicateAccV {
                successes: replicate_success_views(successes@),
                failures: replicate_failure_views(failures@),
                broken: false,
            };
            let sub = &request.subrequests[i];
            proof {
                assert(subs[i as int] == sub@);
                self.state.wal.lemma_wf_queues();
                lemma_replicate_step_properties(pre_state, leader, force_commit, sub@, pre_acc);
            }
            let queue_id = sub.queue_id();
            let mut ok = true;
            let shard_exists = self.state.shards.contains(&queue_id);
            if !shard_exists {
                if self.state.wal.contains_queue(&queue_id) {
                    failures.push(
                        ReplicateFailure {
                            subrequest_id: sub.subrequest_id,
                            index_uid: sub.index_uid.clone(),
                            source_id: sub.source_id.clone(),
                            shard_id: sub.shard_id,
                            reason: PersistFailureReason::Internal,
                        },
                    );
                    proof {
                        assert(replicate_failure_views(failures@) =~= pre_acc.failures.push(
                            failures@.last()@,
                        ));
                    }
                } else {
                    match self.state.wal.create_queue(&queue_id) {
                        Ok(()) => {},
                        Err(_) => {
                            proof {
                                assert(false);
                            }
                        },
                    }
                    self.state.shards.insert(
                        queue_id.duplicate(),
                        IngesterShard::new_replica(request.leader_id.clone()),
                    );
                    proof {
                        assert forall|q: QueueIdV| #[trigger]
                            self.state@.shards.contains_key(q) implies self.state@.wal.contains_key(
                            q,
                        ) && shard_position_ok(self.state@.shards[q], self.state@.wal[q]) by {
                            if q != queue_id@ {
                                assert(pre_state.shards.contains_key(q));
                            }
                        }
                    }
                    ok = exec_replicate_apply(
                        &mut self.state,
                        &queue_id,
                        sub,
                        force_commit,
                        &mut successes,
                        &mut failures,
                    );
                }
            } else {
                let closed = match self.state.shards.get(&queue_id) {
                    Some(shard) => shard.is_closed(),
                    None => {
                        proof {
                            assert(false);
                        }
                        false
                    },
                };
                if closed {
                    failures.push(
                        ReplicateFailure {
                            subrequest_id: sub.subrequest_id,
                            index_uid: sub.index_uid.clone(),
                            source_id: sub.source_id.clone(),
                            shard_id: sub.shard_id,
                            reason: PersistFailureReason::ShardClosed,
                        },
                    );
                    proof {
                        assert(replicate_failure_views(failures@) =~= pre_acc.failures.push(
                            failures@.last()@,
                        ));
                    }
                } else {
                    ok = exec_replicate_apply(
                        &mut self.state,
                        &queue_id,
                        sub,
                        force_commit,
                        &mut successes,
                        &mut failures,
                    );
                }
            }
            i = i + 1;
            proof {
                assert(subs.take(i as int).drop_last() =~= subs.take(i - 1));
                assert(subs.take(i as int).last() == subs[i - 1]);
            }
            proof {
                assert forall|qq: QueueIdV| #[trigger]
                    st0.shards.contains_key(qq) implies self.state@.shards.contains_key(qq) by {
                    assert(pre_state.shards.contains_key(qq));
                }
                assert forall|qq: QueueIdV|
                    st0.shards.contains_key(qq) && #[trigger] self.state@.shards.contains_key(
                        qq,
                    ) implies st0.shards[qq].position.spec_le(self.state@.shards[qq].position) by {
                    assert(pre_state.shards.contains_key(qq));
                    crate::position::lemma_position_order_total(
                        st0.shards[qq].position,
                        pre_state.shards[qq].position,
                        self.state@.shards[qq].position,
                    );
                }
            }
            if !ok {
                proof {
                    assert(replicate_fold(st0, leader, force_commit, subs.take(i as int)).1.broken);
                    lemma_replicate_fold_frozen(st0, leader, force_commit, subs, i as int);
                }
                return Err(IngestError::Internal);
            }
            proof {
                let folded = replicate_fold(st0, leader, force_commit, subs.take(i as int));
                assert(self.state@ == folded.0);
            }
        }
        proof {
            assert(subs.take(n as int) =~= subs);
        }
        Ok(
            ReplicateResponse {
                follower_id: self.self_node_id.clone(),
                successes,
                failures,
                replication_seqno: request.replication_seqno,
            },
        )
    }
}

/// The shard table with every primary of the given follower evicted.
pub open spec fn evict_primaries_model(
    shards: Map<QueueIdV, ShardModel>,
    follower_id: Seq<char>,
) -> Map<QueueIdV, ShardModel> {
    Map::<QueueIdV, ShardModel>::new(
        |q: QueueIdV|
            shards.contains_key(q) && shards[q].role != ShardRoleV::Primary(follower_id),
        |q: QueueIdV| shards[q],
    )
}

pub open spec fn replicate_success_to_persist(s: ReplicateSuccessV) -> PersistSuccessV {
    PersistSuccessV {
        subrequest_id: s.subrequest_id,
        index_uid: s.index_uid,
        source_id: s.source_id,
        shard_id: s.shard_id,
        replication_position_inclusive: s.replication_position_inclusive,
    }
}

pub open spec fn replicate_failure_to_persist(f: ReplicateFailureV) -> PersistFailureV {
    PersistFailureV {
        subrequest_id: f.subrequest_id,
        index_uid: f.index_uid,
        source_id: f.source_id,
        shard_id: f.shard_id,
        reason: f.reason,
    }
}

pub open spec fn replicate_subrequest_to_failure(s: ReplicateSubrequestV) -> PersistFailureV {
    PersistFailureV {
        subrequest_id: s.subrequest_id,
        index_uid: s.index_uid,
        source_id: s.source_id,
        shard_id: s.shard_id,
        reason: PersistFailureReason::ShardClosed,
    }
}

/// Merging one replication result: an acknowledgment contributes its
/// successes and failures; a broken stream means the follower is presumed
/// down, so its primaries and its stream are evicted and the whole batch
/// fails with `ShardClosed`.
pub open spec fn finish_step(
    st: StateModel,
    request: ReplicateRequestV,
    result: ReplicationResultV,
    successes: Seq<PersistSuccessV>,
    failures: Seq<PersistFailureV>,
) -> (StateModel, Seq<PersistSuccessV>, Seq<PersistFailureV>) {
    match result {
        ReplicationResultV::Ack(ack) => (
            st,
            successes + ack.successes.map_values(|s: ReplicateSuccessV| replicate_success_to_persist(s)),
            failures + ack.failures.map_values(|f: ReplicateFailureV| replicate_failure_to_persist(f)),
        ),
        ReplicationResultV::StreamBroken => (
            StateModel {
                shards: evict_primaries_model(st.shards, request.follower_id),
                streams: st.streams.remove(request.follower_id),
                ..st
            },
            successes,
            failures + request.subrequests.map_values(
                |s: ReplicateSubrequestV| replicate_subrequest_to_failure(s),
            ),
        ),
    }
}

pub open spec fn finish_fold(
    st: StateModel,
    requests: Seq<ReplicateRequestV>,
    results: Seq<ReplicationResultV>,
    successes: Seq<PersistSuccessV>,
    failures: Seq<PersistFailureV>,
) -> (StateModel, Seq<PersistSuccessV>, Seq<PersistFailureV>)
    decreases requests.len(),
{
    if requests.len() == 0 || results.len() != requests.len() {
        (st, successes, failures)
    } else {
        let prev = finish_fold(
            st,
            requests.drop_last(),
            results.drop_last(),
            successes,
            failures,
        );
        finish_step(prev.0, requests.last(), results.last(), prev.1, prev.2)
    }
}

impl Ingester {
    /// Completes a persist call: merges each follower's replication result
    /// into the outcome. A broken stream closes the affected batch with
    /// `ShardClosed` failures and evicts the follower's primaries and its
    /// stream; later retries then create fresh shards.
    pub fn persist_finish(
        &mut self,
        outcome: PersistOutcome,
        results: Vec<ReplicationResult>,
    ) -> (r: PersistResponse)
        requires
            old(self).wf(),
            results@.len() == outcome.replicate_requests@.len(),
        ensures
            final(self).wf(),
            final(self).id() == old(self).id(),
            final(self).pool() == old(self).pool(),
            ({
                let fin = finish_fold(
                    old(self).state@,
                    replicate_request_views(outcome.replicate_requests@),
                    replication_result_views(results@),
                    persist_success_views(outcome.successes@),
                    persist_failure_views(outcome.failures@),
                );
                &&& final(self).state@ == fin.0
                &&& r.leader_id@ == outcome.leader_id@
                &&& persist_success_views(r.successes@) == fin.1
                &&& persist_failure_views(r.failures@) == fin.2
            }),
            shard_positions_monotone(old(self).state@.shards, final(self).state@.shards),
    {
        let ghost st0 = self.state@;
        let ghost id0 = self.self_node_id;
        let ghost pool_vec0 = self.ingester_pool@;
        let ghost all_reqs = replicate_request_views(outcome.replicate_requests@);
        let ghost all_results = replication_result_views(results@);
        let ghost base_succ = persist_success_views(outcome.successes@);
        let ghost base_fail = persist_failure_views(outcome.failures@);
        let ghost total = all_reqs.len();
        let PersistOutcome { leader_id, mut successes, mut failures, mut replicate_requests } =
            outcome;
        let mut results = results;
        let ghost mut k: int = 0;
        proof {
            assert(all_reqs.take(0) =~= Seq::<ReplicateRequestV>::empty());
            assert(all_results.take(0) =~= Seq::<ReplicationResultV>::empty());
        }
        while replicate_requests.len() > 0
            invariant
                0 <= k <= total,
                total == all_reqs.len(),
                total == all_results.len(),
                self.self_node_id == id0,
                self.ingester_pool@ == pool_vec0,
                id0 == old(self).self_node_id,
                pool_vec0 == old(self).ingester_pool@,
                st0 == old(self).state@,
                self.state.wf(),
                replicate_request_views(replicate_requests@) == all_reqs.skip(k),
                replication_result_views(results@) == all_results.skip(k),
                ({
                    let fin = finish_fold(
                        st0,
                        all_reqs.take(k),
                        all_results.take(k),
                        base_succ,
                        base_fail,
                    );
                    &&& self.state@ == fin.0
                    &&& persist_success_views(successes@) == fin.1
                    &&& persist_failure_views(failures@) == fin.2
                }),
                forall|q: QueueIdV| #[trigger]
                    self.state@.shards.contains_key(q) ==> st0.shards.contains_key(q)
                        && self.state@.shards[q] == st0.shards[q],
            decreases replicate_requests@.len(),
        {
            let ghost pre_state = self.state@;
            let ghost pre_succ = persist_success_views(successes@);
            let ghost pre_fail = persist_failure_views(failures@);
            let ghost pre_reqs = replicate_requests@;
            let ghost pre_results = results@;
            proof {
                assert(all_reqs.skip(k).len() == replicate_requests@.len());
                assert(all_results.skip(k).len() == results@.len());
                assert(all_reqs.skip(k)[0] == all_reqs[k]);
                assert(all_results.skip(k)[0] == all_results[k]);
                assert(replicate_request_views(replicate_requests@)[0] == all_reqs[k]);
                assert(replication_result_views(results@)[0] == all_results[k]);
            }
            let request = replicate_requests.remove(0);
            let result = results.remove(0);
            proof {
                assert(request@ == all_reqs[k]);
                assert(result@ == all_results[k]);
                assert forall|m: int|
                    0 <= m < replicate_request_views(replicate_requests@).len() implies
                    replicate_request_views(replicate_requests@)[m] == all_reqs.skip(k + 1)[m] by {
                    assert(replicate_requests@[m] == pre_reqs[m + 1]);
                    assert(replicate_request_views(pre_reqs)[m + 1] == all_reqs.skip(k)[m + 1]);
                    assert(all_reqs.skip(k)[m + 1] == all_reqs[k + m + 1]);
                    assert(all_reqs.skip(k + 1)[m] == all_reqs[k + 1 + m]);
                }
                assert(replicate_request_views(replicate_requests@) =~= all_reqs.skip(k + 1));
                assert forall|m: int|
                    0 <= m < replication_result_views(results@).len() implies
                    replication_result_views(results@)[m] == all_results.skip(k + 1)[m] by {
                    assert(results@[m] == pre_results[m + 1]);
                    assert(replication_result_views(pre_results)[m + 1] == all_results.skip(
                        k,
                    )[m + 1]);
                    assert(all_results.skip(k)[m + 1] == all_results[k + m + 1]);
                    assert(all_results.skip(k + 1)[m] == all_results[k + 1 + m]);
                }
                assert(replication_result_views(results@) =~= all_results.skip(k + 1));
            }
            match result {
                ReplicationResult::Ack(ack) => {
                    let ghost mapped_succ = ack@.successes.map_values(
                        |s: ReplicateSuccessV| replicate_success_to_persist(s),
                    );
                    let mut aj: usize = 0;
                    proof {
                        assert(persist_success_views(successes@) =~= pre_succ + mapped_succ.take(
                            0,
                        ));
                    }
                    while aj < ack.successes.len()
                        invariant
                            aj <= ack.successes@.len(),
                            mapped_succ == ack@.successes.map_values(
                                |s: ReplicateSuccessV| replicate_success_to_persist(s),
                            ),
                            mapped_succ.len() == ack.successes@.len(),
                            persist_success_views(successes@) == pre_succ + mapped_succ.take(
                                aj as int,
                            ),
                        decreases ack.successes@.len() - aj,
                    {
                        let item = &ack.successes[aj];
                        let ghost before_s = successes@;
                        successes.push(
                            PersistSuccess {
                                subrequest_id: item.subrequest_id,
                                index_uid: item.index_uid.clone(),
                                source_id: item.source_id.clone(),
                                shard_id: item.shard_id,
                                replication_position_inclusive:
                                    item.replication_position_inclusive,
                            },
                        );
                        aj = aj + 1;
                        proof {
                            assert(persist_success_views(successes@) =~= persist_success_views(
                                before_s,
                            ).push(successes@.last()@));
                            assert(successes@.last()@ == replicate_success_to_persist(
                                ack.successes@[aj - 1]@,
                            ));
                            assert(mapped_succ[aj - 1] == replicate_success_to_persist(
                                ack.successes@[aj - 1]@,
                            ));
                            assert(pre_succ + mapped_succ.take(aj - 1) + seq![
                                mapped_succ[aj - 1],
                            ] =~= pre_succ + mapped_succ.take(aj as int));
                            assert(persist_success_views(successes@) =~= pre_succ
                                + mapped_succ.take(aj as int));
                        }
                    }
                    proof {
                        assert(mapped_succ.take(ack.successes@.len() as int) =~= mapped_succ);
                    }
                    let ghost mapped_fail = ack@.failures.map_values(
                        |f: ReplicateFailureV| replicate_failure_to_persist(f),
                    );
                    let mut bj: usize = 0;
                    proof {
                        assert(persist_failure_views(failures@) =~= pre_fail + mapped_fail.take(
                            0,
                        ));
                    }
                    while bj < ack.failures.len()
                        invariant
                            bj <= ack.failures@.len(),
                            mapped_fail == ack@.failures.map_values(
                                |f: ReplicateFailureV| replicate_failure_to_persist(f),
                            ),
                            mapped_fail.len() == ack.failures@.len(),
                            persist_failure_views(failures@) == pre_fail + mapped_fail.take(
                                bj as int,
                            ),
                        decreases ack.failures@.len() - bj,
                    {
                        let item = &ack.failures[bj];
                        let ghost before_f = failures@;
                        failures.push(
                            PersistFailure {
                                subrequest_id: item.subrequest_id,
                                index_uid: item.index_uid.clone(),
                                source_id: item.source_id.clone(),
                                shard_id: item.shard_id,
                                reason: item.reason,
                            },
                        );
                        bj = bj + 1;
                        proof {
                            assert(persist_failure_views(failures@) =~= persist_failure_views(
                                before_f,
                            ).push(failures@.last()@));
                            assert(failures@.last()@ == replicate_failure_to_persist(
                                ack.failures@[bj - 1]@,
                            ));
                            assert(mapped_fail[bj - 1] == replicate_failure_to_persist(
                                ack.failures@[bj - 1]@,
                            ));
                            assert(pre_fail + mapped_fail.take(bj - 1) + seq![
                                mapped_fail[bj - 1],
                            ] =~= pre_fail + mapped_fail.take(bj as int));
                            assert(persist_failure_views(failures@) =~= pre_fail
                                + mapped_fail.take(bj as int));
                        }
                    }
                    proof {
                        assert(mapped_fail.take(ack.failures@.len() as int) =~= mapped_fail);
                    }
                },
                ReplicationResult::StreamBroken => {
                    self.state.shards.evict_primaries(&request.follower_id);
                    self.state.replication_streams.remove(&request.follower_id);
                    proof {
                        assert(self.state@.shards =~= evict_primaries_model(
                            pre_state.shards,
                            request@.follower_id,
                        ));
                        assert(shards_consistent(self.state@)) by {
                            assert forall|q: QueueIdV| #[trigger]
                                self.state@.shards.contains_key(q) implies
                                self.state@.wal.contains_key(q) && shard_position_ok(
                                self.state@.shards[q],
                                self.state@.wal[q],
                            ) by {
                                assert(pre_state.shards.contains_key(q));
                            }
                        }
                    }
                    let ghost mapped_fail = request@.subrequests.map_values(
                        |s: ReplicateSubrequestV| replicate_subrequest_to_failure(s),
                    );
                    let mut bj: usize = 0;
                    proof {
                        assert(persist_failure_views(failures@) =~= pre_fail + mapped_fail.take(
                            0,
                        ));
                    }
                    while bj < request.subrequests.len()
                        invariant
                            bj <= request.subrequests@.len(),
                            mapped_fail == request@.subrequests.map_values(
                                |s: ReplicateSubrequestV| replicate_subrequest_to_failure(s),
                            ),
                            mapped_fail.len() == request.subrequests@.len(),
                            persist_failure_views(failures@) == pre_fail + mapped_fail.take(
                                bj as int,
                            ),
                        decreases request.subrequests@.len() - bj,
                    {
                        let item = &request.subrequests[bj];
                        let ghost before_f = failures@;
                        failures.push(
                            PersistFailure {
                                subrequest_id: item.subrequest_id,
                                index_uid: item.index_uid.clone(),
                                source_id: item.source_id.clone(),
                                shard_id: item.shard_id,
                                reason: PersistFailureReason::ShardClosed,
                            },
                        );
                        bj = bj + 1;
                        proof {
                            assert(persist_failure_views(failures@) =~= persist_failure_views(
                                before_f,
                            ).push(failures@.last()@));
                            assert(failures@.last()@ == replicate_subrequest_to_failure(
                                request.subrequests@[bj - 1]@,
                            ));
                            assert(mapped_fail[bj - 1] == replicate_subrequest_to_failure(
                                request.subrequests@[bj - 1]@,
                            ));
                            assert(pre_fail + mapped_fail.take(bj - 1) + seq![
                                mapped_fail[bj - 1],
                            ] =~= pre_fail + mapped_fail.take(bj as int));
                            assert(persist_failure_views(failures@) =~= pre_fail
                                + mapped_fail.take(bj as int));
                        }
                    }
                    proof {
                        assert(mapped_fail.take(request.subrequests@.len() as int)
                            =~= mapped_fail);
                    }
                },
            }
            proof {
                k = k + 1;
                assert(all_reqs.take(k).drop_last() =~= all_reqs.take(k - 1));
                assert(all_reqs.take(k).last() == all_reqs[k - 1]);
                assert(all_results.take(k).drop_last() =~= all_results.take(k - 1));
                assert(all_results.take(k).last() == all_results[k - 1]);
                let fin = finish_fold(st0, all_reqs.take(k), all_results.take(k), base_succ,
                    base_fail);
                assert(self.state@ =~= fin.0);
                assert(self.state@ == fin.0);
                assert(persist_success_views(successes@) == fin.1);
                assert(persist_failure_views(failures@) == fin.2);
            }
        }
        proof {
            assert(all_reqs.skip(k).len() == 0);
            assert(k == total);
            assert(all_reqs.take(k) =~= all_reqs);
            assert(all_results.take(k) =~= all_results);
            assert forall|q: QueueIdV|
                st0.shards.contains_key(q) && #[trigger] self.state@.shards.contains_key(
                    q,
                ) implies st0.shards[q].position.spec_le(self.state@.shards[q].position) by {
                assert(self.state@.shards[q] == st0.shards[q]);
            }
        }
        PersistResponse { leader_id, successes, failures }
    }
}

/// The offset carried by a position; positions without one map to zero.
pub open spec fn offset_of(p: Position) -> int {
    match p {
        Position::Offset(n) => n as int,
        _ => 0,
    }
}

/// Nothing a log already holds is lost or rewritten between two states:
/// offsets only accumulate within a persist call.
pub open spec fn records_preserved(
    w1: Map<QueueIdV, QueueModel>,
    w2: Map<QueueIdV, QueueModel>,
) -> bool {
    forall|k: QueueIdV, off: int|
        w1.contains_key(k) && #[trigger] w1[k].contains_offset(off) ==> w2.contains_key(k)
            && w2[k].contains_offset(off) && w2[k].record_at(off) == w1[k].record_at(off)
}

/// One persist step never drops or rewrites a stored record.
pub proof fn lemma_persist_step_preserves_records(
    st: StateModel,
    pool: Seq<Seq<char>>,
    sub: PersistSubrequestV,
    force: bool,
    acc: PersistAccV,
)
    requires
        shards_consistent(st),
        wal_wf_model(st),
        sub.docs.len() >= 1,
    ensures
        records_preserved(st.wal, persist_step(st, pool, sub, force, acc).0.wal),
{
    let (st2, acc2) = persist_step(st, pool, sub, force, acc);
    assert forall|k: QueueIdV, off: int|
        st.wal.contains_key(k) && #[trigger] st.wal[k].contains_offset(off) implies
        st2.wal.contains_key(k) && st2.wal[k].contains_offset(off) && st2.wal[k].record_at(off)
        == st.wal[k].record_at(off) by {
        if st2.wal.contains_key(k) && st2.wal[k] != st.wal[k] {
            assert(st2.wal[k].first == st.wal[k].first);
            assert(st2.wal[k].records.len() >= st.wal[k].records.len());
            assert(st2.wal[k].record_at(off) == st.wal[k].record_at(off));
        }
    }
}

/// Record preservation composes over a range of the walk.
pub proof fn lemma_persist_fold_preserves_records(
    st: StateModel,
    pool: Seq<Seq<char>>,
    subs: Seq<PersistSubrequestV>,
    force: bool,
    a: int,
    b: int,
)
    requires
        shards_consistent(st),
        wal_wf_model(st),
        forall|i: int| 0 <= i < subs.len() ==> (#[trigger] subs[i]).docs.len() >= 1,
        0 <= a <= b <= subs.len(),
    ensures
        records_preserved(
            persist_fold(st, pool, subs.take(a), force).0.wal,
            persist_fold(st, pool, subs.take(b), force).0.wal,
        ),
    decreases b - a,
{
    let wa = persist_fold(st, pool, subs.take(a), force).0.wal;
    if a == b {
        assert(records_preserved(wa, wa));
    } else {
        lemma_persist_fold_preserves_records(st, pool, subs, force, a, b - 1);
        let (stp, accp) = persist_fold(st, pool, subs.take(b - 1), force);
        assert(forall|i: int|
            0 <= i < subs.take(b - 1).len() ==> (#[trigger] subs.take(b - 1)[i]).docs.len() >= 1);
        lemma_persist_fold_properties(st, pool, subs.take(b - 1), force);
        assert(subs.take(b).drop_last() =~= subs.take(b - 1));
        assert(subs.take(b).last() == subs[b - 1]);
        lemma_persist_step_preserves_records(stp, pool, subs[b - 1], force, accp);
        let wb1 = stp.wal;
        let wb = persist_fold(st, pool, subs.take(b), force).0.wal;
        assert forall|k: QueueIdV, off: int|
            wa.contains_key(k) && #[trigger] wa[k].contains_offset(off) implies wb.contains_key(k)
            && wb[k].contains_offset(off) && wb[k].record_at(off) == wa[k].record_at(off) by {
            assert(wb1.contains_key(k) && wb1[k].contains_offset(off) && wb1[k].record_at(off)
                == wa[k].record_at(off));
        }
    }
}

/// The acknowledged success `s` describes records the log `w` really
/// holds: `frames` sit at the offsets ending at the acknowledged one.
pub open spec fn success_written_exactly(
    w: Map<QueueIdV, QueueModel>,
    q: QueueIdV,
    s: PersistSuccessV,
    frames: Seq<Seq<u8>>,
) -> bool {
    let last = offset_of(s.replication_position_inclusive);
    &&& s.replication_position_inclusive is Offset
    &&& s.queue() == q
    &&& 0 <= last - frames.len() + 1
    &&& w.contains_key(q)
    &&& forall|m: int|
        0 <= m < frames.len() ==> #[trigger] w[q].contains_offset(last - frames.len() + 1 + m)
            && w[q].record_at(last - frames.len() + 1 + m) == frames[m]
}

/// Every immediately acknowledged persist subrequest is written exactly:
/// the frames of its documents (with a trailing commit when the commit was
/// forced) sit in the final log, in order, ending at the acknowledged
/// offset, untouched by the rest of the walk.
pub proof fn lemma_persist_success_exact(
    st: StateModel,
    pool: Seq<Seq<char>>,
    subs: Seq<PersistSubrequestV>,
    force: bool,
    i: int,
)
    requires
        shards_consistent(st),
        wal_wf_model(st),
        forall|j: int| 0 <= j < subs.len() ==> (#[trigger] subs[j]).docs.len() >= 1,
        0 <= i < subs.len(),
        persist_fold(st, pool, subs.take(i + 1), force).1.successes.len() > persist_fold(
            st,
            pool,
            subs.take(i),
            force,
        ).1.successes.len(),
    ensures
        success_written_exactly(
            persist_fold(st, pool, subs, force).0.wal,
            subs[i].queue(),
            persist_fold(st, pool, subs.take(i + 1), force).1.successes.last(),
            doc_frames(subs[i].docs, force),
        ),
{
    let prev = persist_fold(st, pool, subs.take(i), force);
    let cur = persist_fold(st, pool, subs.take(i + 1), force);
    assert(subs.take(i + 1).drop_last() =~= subs.take(i));
    assert(subs.take(i + 1).last() == subs[i]);
    assert(forall|j: int|
        0 <= j < subs.take(i).len() ==> (#[trigger] subs.take(i)[j]).docs.len() >= 1);
    lemma_persist_fold_properties(st, pool, subs.take(i), force);
    let (stp, accp) = prev;
    let sub = subs[i];
    let q = sub.queue();
    let frames = doc_frames(sub.docs, force);
    assert(frames.len() >= 1);
    let s = cur.1.successes.last();
    // a success was recorded, so the step took an append branch; identify
    // the state that append ran on
    let st_append = if !stp.shards.contains_key(q) {
        StateModel {
            wal: stp.wal.insert(q, empty_queue()),
            shards: stp.shards.insert(
                q,
                ShardModel {
                    role: ShardRoleV::Solo,
                    state: ShardState::Open,
                    position: Position::Beginning,
                },
            ),
            ..stp
        }
    } else {
        stp
    };
    let queue = st_append.wal[q];
    let last = queue.next() + frames.len() - 1;
    assert(cur.1.successes == accp.successes.push(s));
    assert(s.queue() == q && s.replication_position_inclusive == Position::Offset(last as u64));
    assert(queue_wf(queue)) by {
        if stp.shards.contains_key(q) {
            assert(stp.wal.contains_key(q));
        }
    }
    assert(last as u64 as int == last);
    assert(cur.0.wal.contains_key(q));
    assert(cur.0.wal[q] == queue_append(queue, frames));
    assert forall|m: int|
        0 <= m < frames.len() implies #[trigger] cur.0.wal[q].contains_offset(
        last - frames.len() + 1 + m,
    ) && cur.0.wal[q].record_at(last - frames.len() + 1 + m) == frames[m] by {
        assert(cur.0.wal[q].records == queue.records + frames);
        assert(cur.0.wal[q].records[queue.records.len() + m] == frames[m]);
    }
    lemma_persist_fold_preserves_records(st, pool, subs, force, i + 1, subs.len() as int);
    assert(subs.take(subs.len() as int) =~= subs);
    let fin = persist_fold(st, pool, subs, force);
    assert forall|m: int|
        0 <= m < frames.len() implies #[trigger] fin.0.wal[q].contains_offset(
        last - frames.len() + 1 + m,
    ) && fin.0.wal[q].record_at(last - frames.len() + 1 + m) == frames[m] by {
        assert(cur.0.wal[q].contains_offset(last - frames.len() + 1 + m));
    }
    assert(fin.0.wal.contains_key(q)) by {
        assert(cur.0.wal[q].contains_offset(last));
    }
    let last_post = offset_of(s.replication_position_inclusive);
    assert(last_post == last);
    assert forall|m: int|
        0 <= m < frames.len() implies #[trigger] fin.0.wal[q].contains_offset(
        last_post - frames.len() + 1 + m,
    ) && fin.0.wal[q].record_at(last_post - frames.len() + 1 + m) == frames[m] by {
        assert(fin.0.wal[q].contains_offset(last - frames.len() + 1 + m));
        assert(fin.0.wal[q].record_at(last - frames.len() + 1 + m) == frames[m]);
    }
    assert(cur.1.successes == prev.1.successes.push(s));
    assert(s.queue() == q);
    assert(s.replication_position_inclusive is Offset);
    assert(0 <= last_post - frames.len() + 1);
    assert(fin.0.wal.contains_key(q));
    assert(success_written_exactly(fin.0.wal, q, s, frames));
}

/// Replication mirrors the leader byte for byte: a follower whose queue
/// and shard position agree with the leader's before an append, applying
/// the replicate subrequest that append produced, ends with the identical
/// queue at the identical position, and the apply is accepted.
pub proof fn lemma_replication_mirrors(
    st_l: StateModel,
    q: QueueIdV,
    sub: PersistSubrequestV,
    force: bool,
    acc: PersistAccV,
    st_f: StateModel,
    acc_f: ReplicateAccV,
    follower_id: Seq<char>,
)
    requires
        shards_consistent(st_l),
        wal_wf_model(st_l),
        st_l.shards.contains_key(q),
        st_l.shards[q].state == ShardState::Open,
        sub.docs.len() >= 1,
        sub.queue() == q,
        sub.follower_id == Some(follower_id),
        st_l.wal[q].next() + doc_frames(sub.docs, force).len() <= u64::MAX,
        !acc_f.broken,
        st_f.shards.contains_key(q),
        st_f.shards[q].state == ShardState::Open,
        st_f.wal.contains_key(q),
        st_f.wal[q] == st_l.wal[q],
        st_f.shards[q].position == st_l.shards[q].position,
    ensures
        ({
            let (st_l2, acc_l2) = persist_append(st_l, q, sub, force, acc);
            let frames = doc_frames(sub.docs, force);
            let last = (st_l.wal[q].next() + frames.len() - 1) as u64;
            let rsub = ReplicateSubrequestV {
                subrequest_id: sub.subrequest_id,
                index_uid: sub.index_uid,
                source_id: sub.source_id,
                shard_id: sub.shard_id,
                from_position_exclusive: st_l.shards[q].position,
                to_position_inclusive: Position::Offset(last),
                docs: sub.docs,
            };
            let (st_f2, acc_f2) = replicate_apply(st_f, q, rsub, force, acc_f);
            &&& acc_l2.groups == enqueue_in_groups(acc.groups, follower_id, rsub)
            &&& !acc_f2.broken
            &&& st_f2.wal[q] == st_l2.wal[q]
            &&& st_f2.shards[q].position == st_l2.shards[q].position
            &&& st_f2.shards[q].position == Position::Offset(last)
        }),
{
}

/// The replicate subrequest `rsub` describes records the log `w` really
/// holds: the frames of its documents sit at the offsets ending at its
/// upper position.
pub open spec fn rsub_written_exactly(
    w: Map<QueueIdV, QueueModel>,
    rsub: ReplicateSubrequestV,
    force: bool,
) -> bool {
    let frames = doc_frames(rsub.docs, force);
    let last = offset_of(rsub.to_position_inclusive);
    &&& rsub.to_position_inclusive is Offset
    &&& frames.len() >= 1
    &&& 0 <= last - frames.len() + 1
    &&& w.contains_key(rsub.queue())
    &&& forall|m: int|
        0 <= m < frames.len() ==> #[trigger] w[rsub.queue()].contains_offset(
            last - frames.len() + 1 + m,
        ) && w[rsub.queue()].record_at(last - frames.len() + 1 + m) == frames[m]
}

/// Every member of every follower group is written exactly.
pub open spec fn groups_written_exactly(
    w: Map<QueueIdV, QueueModel>,
    groups: Seq<(Seq<char>, Seq<ReplicateSubrequestV>)>,
    force: bool,
) -> bool {
    forall|g: int, m: int|
        0 <= g < groups.len() && 0 <= m < groups[g].1.len() ==> rsub_written_exactly(
            w,
            #[trigger] groups[g].1[m],
            force,
        )
}

/// Written-exactly claims survive any state change that preserves the
/// stored records.
proof fn lemma_groups_written_preserved(
    w1: Map<QueueIdV, QueueModel>,
    w2: Map<QueueIdV, QueueModel>,
    groups: Seq<(Seq<char>, Seq<ReplicateSubrequestV>)>,
    force: bool,
)
    requires
        records_preserved(w1, w2),
        groups_written_exactly(w1, groups, force),
    ensures
        groups_written_exactly(w2, groups, force),
{
    assert forall|g: int, m: int|
        0 <= g < groups.len() && 0 <= m < groups[g].1.len() implies rsub_written_exactly(
        w2,
        #[trigger] groups[g].1[m],
        force,
    ) by {
        let rsub = groups[g].1[m];
        let frames = doc_frames(rsub.docs, force);
        let last = offset_of(rsub.to_position_inclusive);
        assert forall|k: int|
            0 <= k < frames.len() implies #[trigger] w2[rsub.queue()].contains_offset(
            last - frames.len() + 1 + k,
        ) && w2[rsub.queue()].record_at(last - frames.len() + 1 + k) == frames[k] by {
            assert(w1[rsub.queue()].contains_offset(last - frames.len() + 1 + k));
        }
        assert(w2.contains_key(rsub.queue())) by {
            assert(w1[rsub.queue()].contains_offset(last - frames.len() + 1 + (frames.len() - 1)));
        }
    }
}

/// One step keeps the groups written exactly: it appends before it
/// enqueues, and later appends only add records.
proof fn lemma_persist_step_groups_exact(
    st: StateModel,
    pool: Seq<Seq<char>>,
    sub: PersistSubrequestV,
    force: bool,
    acc: PersistAccV,
)
    requires
        shards_consistent(st),
        wal_wf_model(st),
        sub.docs.len() >= 1,
        groups_written_exactly(st.wal, acc.groups, force),
    ensures
        groups_written_exactly(
            persist_step(st, pool, sub, force, acc).0.wal,
            persist_step(st, pool, sub, force, acc).1.groups,
            force,
        ),
{
    let (st2, acc2) = persist_step(st, pool, sub, force, acc);
    lemma_persist_step_preserves_records(st, pool, sub, force, acc);
    lemma_groups_written_preserved(st.wal, st2.wal, acc.groups, force);
    if acc2.groups == acc.groups {
    } else {
        // the step appended and enqueued: identify the new subrequest
        let q = sub.queue();
        let st_append = if !st.shards.contains_key(q) {
            StateModel {
                wal: st.wal.insert(q, empty_queue()),
                shards: st.shards.insert(
                    q,
                    ShardModel {
                        role: match sub.follower_id {
                            Some(follower_id) => ShardRoleV::Primary(follower_id),
                            None => ShardRoleV::Solo,
                        },
                        state: ShardState::Open,
                        position: Position::Beginning,
                    },
                ),
                ..if st.streams.contains_key(sub.follower_id.unwrap()) {
                    st
                } else {
                    StateModel {
                        streams: st.streams.insert(
                            sub.follower_id.unwrap(),
                            fresh_stream(sub.follower_id.unwrap()),
                        ),
                        ..st
                    }
                }
            }
        } else {
            if st.streams.contains_key(sub.follower_id.unwrap()) {
                st
            } else {
                StateModel {
                    streams: st.streams.insert(
                        sub.follower_id.unwrap(),
                        fresh_stream(sub.follower_id.unwrap()),
                    ),
                    ..st
                }
            }
        };
        let queue = st_append.wal[q];
        let frames = doc_frames(sub.docs, force);
        let last = queue.next() + frames.len() - 1;
        let rsub = ReplicateSubrequestV {
            subrequest_id: sub.subrequest_id,
            index_uid: sub.index_uid,
            source_id: sub.source_id,
            shard_id: sub.shard_id,
            from_position_exclusive: st_append.shards[q].position,
            to_position_inclusive: Position::Offset(last as u64),
            docs: sub.docs,
        };
        assert(queue_wf(queue)) by {
            if st.shards.contains_key(q) {
                assert(st.wal.contains_key(q));
            }
        }
        assert(last as u64 as int == last);
        assert(acc2.groups == enqueue_in_groups(acc.groups, sub.follower_id.unwrap(), rsub));
        assert(rsub_written_exactly(st2.wal, rsub, force)) by {
            assert(st2.wal[q] == queue_append(queue, frames));
            assert forall|m: int|
                0 <= m < frames.len() implies #[trigger] st2.wal[q].contains_offset(
                last - frames.len() + 1 + m,
            ) && st2.wal[q].record_at(last - frames.len() + 1 + m) == frames[m] by {
                assert(st2.wal[q].records == queue.records + frames);
                assert(st2.wal[q].records[queue.records.len() + m] == frames[m]);
            }
        }
        let groups2 = enqueue_in_groups(acc.groups, sub.follower_id.unwrap(), rsub);
        assert forall|g: int, m: int|
            0 <= g < groups2.len() && 0 <= m < groups2[g].1.len() implies rsub_written_exactly(
            st2.wal,
            #[trigger] groups2[g].1[m],
            force,
        ) by {
            if exists|i: int|
                0 <= i < acc.groups.len() && acc.groups[i].0 == sub.follower_id.unwrap() {
                let i = choose|i: int|
                    0 <= i < acc.groups.len() && acc.groups[i].0 == sub.follower_id.unwrap();
                if g == i && m == groups2[g].1.len() - 1 {
                    assert(groups2[g].1[m] == rsub);
                } else {
                    assert(groups2[g].1[m] == acc.groups[g].1[m]);
                    assert(rsub_written_exactly(st2.wal, acc.groups[g].1[m], force));
                }
            } else {
                if g == groups2.len() - 1 {
                    assert(groups2[g].1[m] == rsub);
                } else {
                    assert(groups2[g].1[m] == acc.groups[g].1[m]);
                    assert(rsub_written_exactly(st2.wal, acc.groups[g].1[m], force));
                }
            }
        }
    }
}

/// Every replicate subrequest that `persist` hands out for delivery
/// describes records the leader's final log really holds: the frames of
/// its documents, in order, ending at its upper position. The follower's
/// walk appends exactly the same frames, so an acknowledged replicated
/// subrequest is written identically on both sides.
pub proof fn lemma_persist_groups_exact(
    st: StateModel,
    pool: Seq<Seq<char>>,
    subs: Seq<PersistSubrequestV>,
    force: bool,
)
    requires
        shards_consistent(st),
        wal_wf_model(st),
        forall|i: int| 0 <= i < subs.len() ==> (#[trigger] subs[i]).docs.len() >= 1,
    ensures
        groups_written_exactly(
            persist_fold(st, pool, subs, force).0.wal,
            persist_fold(st, pool, subs, force).1.groups,
            force,
        ),
    decreases subs.len(),
{
    if subs.len() == 0 {
    } else {
        lemma_persist_groups_exact(st, pool, subs.drop_last(), force);
        let (st1, acc1) = persist_fold(st, pool, subs.drop_last(), force);
        assert(forall|i: int|
            0 <= i < subs.drop_last().len() ==> (#[trigger] subs.drop_last()[i]).docs.len() >= 1);
        lemma_persist_fold_properties(st, pool, subs.drop_last(), force);
        assert(subs[subs.len() - 1] == subs.last());
        lemma_persist_step_groups_exact(st1, pool, subs.last(), force, acc1);
    }
}

} // verus!
