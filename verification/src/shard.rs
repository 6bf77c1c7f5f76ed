//! Per-shard state and the in-memory shard table.

use vstd::prelude::*;

use crate::position::Position;
use crate::table::{assoc_map, distinct_keys, has_key, lemma_assoc_map_dom, lemma_assoc_map_index,
    lemma_assoc_map_push, lemma_assoc_map_remove, lemma_assoc_map_update};
use crate::types::{NodeId, QueueId, QueueIdV};

verus! {

/// A closed shard rejects further persist and replicate subrequests.
#[derive(Clone, Copy, PartialEq, Eq, Structural, Debug)]
pub enum ShardState {
    Open,
    Closed,
}

/// The role a shard was created with; it never changes afterwards.
pub enum ShardRole {
    /// No follower: only the local log.
    Solo,
    /// Leader replicating to the named follower.
    Primary(NodeId),
    /// Follower mirroring the named leader.
    Replica(NodeId),
}

/// The mathematical value of a role.
#[verifier::ext_equal]
pub enum ShardRoleV {
    Solo,
    Primary(Seq<char>),
    Replica(Seq<char>),
}

impl View for ShardRole {
    type V = ShardRoleV;

    open spec fn view(&self) -> ShardRoleV {
        match self {
            ShardRole::Solo => ShardRoleV::Solo,
            ShardRole::Primary(follower_id) => ShardRoleV::Primary(follower_id@),
            ShardRole::Replica(leader_id) => ShardRoleV::Replica(leader_id@),
        }
    }
}

/// The per-queue shard record: role, open/closed state, and the highest
/// position known to be durable (and replicated, when a follower is
/// configured).
pub struct IngesterShard {
    role: ShardRole,
    shard_state: ShardState,
    replication_position_inclusive: Position,
}

/// The mathematical value of a shard.
#[verifier::ext_equal]
pub struct ShardModel {
    pub role: ShardRoleV,
    pub state: ShardState,
    pub position: Position,
}

impl View for IngesterShard {
    type V = ShardModel;

    closed spec fn view(&self) -> ShardModel {
        ShardModel {
            role: self.role@,
            state: self.shard_state,
            position: self.replication_position_inclusive,
        }
    }
}

impl IngesterShard {
    pub fn new_solo(state: ShardState, position: Position) -> (r: IngesterShard)
        ensures
            r@ == (ShardModel { role: ShardRoleV::Solo, state, position }),
    {
        IngesterShard {
            role: ShardRole::Solo,
            shard_state: state,
            replication_position_inclusive: position,
        }
    }

    pub fn new_primary(follower_id: NodeId) -> (r: IngesterShard)
        ensures
            r@ == (ShardModel {
                role: ShardRoleV::Primary(follower_id@),
                state: ShardState::Open,
                position: Position::Beginning,
            }),
    {
        IngesterShard {
            role: ShardRole::Primary(follower_id),
            shard_state: ShardState::Open,
            replication_position_inclusive: Position::Beginning,
        }
    }

    pub fn new_replica(leader_id: NodeId) -> (r: IngesterShard)
        ensures
            r@ == (ShardModel {
                role: ShardRoleV::Replica(leader_id@),
                state: ShardState::Open,
                position: Position::Beginning,
            }),
    {
        IngesterShard {
            role: ShardRole::Replica(leader_id),
            shard_state: ShardState::Open,
            replication_position_inclusive: Position::Beginning,
        }
    }

    pub fn is_closed(&self) -> (r: bool)
        ensures
            r == (self@.state == ShardState::Closed),
    {
        match self.shard_state {
            ShardState::Closed => true,
            ShardState::Open => false,
        }
    }

    pub fn is_solo(&self) -> (r: bool)
        ensures
            r == (self@.role is Solo),
    {
        match self.role {
            ShardRole::Solo => true,
            _ => false,
        }
    }

    pub fn is_primary(&self) -> (r: bool)
        ensures
            r == (self@.role is Primary),
    {
        match self.role {
            ShardRole::Primary(_) => true,
            _ => false,
        }
    }

    pub fn is_replica(&self) -> (r: bool)
        ensures
            r == (self@.role is Replica),
    {
        match self.role {
            ShardRole::Replica(_) => true,
            _ => false,
        }
    }

    /// The follower this primary shard replicates to, if any.
    pub fn follower_id(&self) -> (r: Option<&NodeId>)
        ensures
            match r {
                Some(follower_id) => self@.role == ShardRoleV::Primary(follower_id@),
                None => !(self@.role is Primary),
            },
    {
        match &self.role {
            ShardRole::Primary(follower_id) => Some(follower_id),
            _ => None,
        }
    }

    pub fn replication_position_inclusive(&self) -> (r: Position)
        ensures
            r == self@.position,
    {
        self.replication_position_inclusive
    }

    /// Advances the replication position; it never moves backwards.
    pub fn set_replication_position_inclusive(&mut self, position: Position)
        requires
            old(self)@.position.spec_le(position),
        ensures
            final(self)@ == (ShardModel { position, ..old(self)@ }),
    {
        self.replication_position_inclusive = position;
    }

    pub fn close(&mut self)
        ensures
            final(self)@ == (ShardModel { state: ShardState::Closed, ..old(self)@ }),
    {
        self.shard_state = ShardState::Closed;
    }
}

/// The in-memory mapping from queue ids to shard records.
pub struct ShardTable {
    entries: Vec<(QueueId, IngesterShard)>,
}

impl View for ShardTable {
    type V = Map<QueueIdV, ShardModel>;

    closed spec fn view(&self) -> Map<QueueIdV, ShardModel> {
        assoc_map(self.entries@)
    }
}

impl ShardTable {
    pub closed spec fn wf(&self) -> bool {
        distinct_keys(self.entries@)
    }

    pub fn new() -> (r: ShardTable)
        ensures
            r.wf(),
            r@ == Map::<QueueIdV, ShardModel>::empty(),
    {
        ShardTable { entries: Vec::new() }
    }

    fn find_index(&self, queue_id: &QueueId) -> (r: Option<usize>)
        requires
            self.wf(),
        ensures
            match r {
                Some(i) => i < self.entries@.len() && self.entries@[i as int].0@ == queue_id@
                    && self@.contains_key(queue_id@) && self@[queue_id@] == self.entries@[
                    i as int
                ].1@,
                None => !self@.contains_key(queue_id@),
            },
    {
        proof {
            lemma_assoc_map_dom(self.entries@);
        }
        let mut i: usize = 0;
        while i < self.entries.len()
            invariant
                i <= self.entries@.len(),
                forall|j: int| 0 <= j < i ==> self.entries@[j].0@ != queue_id@,
                self.wf(),
            decreases self.entries@.len() - i,
        {
            if self.entries[i].0 == *queue_id {
                proof {
                    lemma_assoc_map_index(self.entries@, i as int);
                }
                return Some(i);
            }
            i = i + 1;
        }
        proof {
            assert(!has_key(self.entries@, queue_id@));
        }
        None
    }

    pub fn contains(&self, queue_id: &QueueId) -> (r: bool)
        requires
            self.wf(),
        ensures
            r == self@.contains_key(queue_id@),
    {
        self.find_index(queue_id).is_some()
    }

    /// The shard of a queue, if any.
    pub fn get(&self, queue_id: &QueueId) -> (r: Option<&IngesterShard>)
        requires
            self.wf(),
        ensures
            r is Some <==> self@.contains_key(queue_id@),
            r matches Some(shard) ==> shard@ == self@[queue_id@],
    {
        match self.find_index(queue_id) {
            Some(i) => Some(&self.entries[i].1),
            None => None,
        }
    }

    /// Inserts or replaces the shard of a queue.
    pub fn insert(&mut self, queue_id: QueueId, shard: IngesterShard)
        requires
            old(self).wf(),
        ensures
            final(self).wf(),
            final(self)@ == old(self)@.insert(queue_id@, shard@),
    {
        match self.find_index(&queue_id) {
            Some(i) => {
                let ghost old_entries = self.entries@;
                let _ = self.entries.remove(i);
                self.entries.insert(i, (queue_id, shard));
                proof {
                    assert(self.entries@ =~= old_entries.update(i as int, self.entries@[i as int]));
                    lemma_assoc_map_update(old_entries, i as int, self.entries@[i as int]);
                }
            },
            None => {
                proof {
                    lemma_assoc_map_dom(self.entries@);
                    lemma_assoc_map_push(self.entries@, (queue_id, shard));
                }
                self.entries.push((queue_id, shard));
            },
        }
    }

    /// Removes the shard of a queue; absent queues are left as they are.
    pub fn remove(&mut self, queue_id: &QueueId)
        requires
            old(self).wf(),
        ensures
            final(self).wf(),
            final(self)@ == old(self)@.remove(queue_id@),
    {
        match self.find_index(queue_id) {
            Some(i) => {
                proof {
                    lemma_assoc_map_remove(self.entries@, i as int);
                }
                let _ = self.entries.remove(i);
            },
            None => {
                proof {
                    assert(final(self)@ =~= old(self)@.remove(queue_id@));
                }
            },
        }
    }

    /// Advances the replication position of an existing shard.
    pub fn set_position(&mut self, queue_id: &QueueId, position: Position)
        requires
            old(self).wf(),
            old(self)@.contains_key(queue_id@),
            old(self)@[queue_id@].position.spec_le(position),
        ensures
            final(self).wf(),
            final(self)@ == old(self)@.insert(
                queue_id@,
                ShardModel { position, ..old(self)@[queue_id@] },
            ),
    {
        match self.find_index(queue_id) {
            Some(i) => {
                let ghost old_entries = self.entries@;
                let mut pair = self.entries.remove(i);
                pair.1.set_replication_position_inclusive(position);
                self.entries.insert(i, pair);
                proof {
                    assert(self.entries@ =~= old_entries.update(i as int, self.entries@[i as int]));
                    lemma_assoc_map_update(old_entries, i as int, self.entries@[i as int]);
                }
            },
            None => {
                proof {
                    assert(false);
                }
            },
        }
    }

    /// Closes an existing shard.
    pub fn close_shard(&mut self, queue_id: &QueueId)
        requires
            old(self).wf(),
            old(self)@.contains_key(queue_id@),
        ensures
            final(self).wf(),
            final(self)@ == old(self)@.insert(
                queue_id@,
                ShardModel { state: ShardState::Closed, ..old(self)@[queue_id@] },
            ),
    {
        match self.find_index(queue_id) {
            Some(i) => {
                let ghost old_entries = self.entries@;
                let mut pair = self.entries.remove(i);
                pair.1.close();
                self.entries.insert(i, pair);
                proof {
                    assert(self.entries@ =~= old_entries.update(i as int, self.entries@[i as int]));
                    lemma_assoc_map_update(old_entries, i as int, self.entries@[i as int]);
                }
            },
            None => {
                proof {
                    assert(false);
                }
            },
        }
    }

    /// Closes and evicts every primary shard replicating to the given
    /// follower: used when the follower's replication stream breaks.
    pub fn evict_primaries(&mut self, follower_id: &NodeId)
        requires
            old(self).wf(),
        ensures
            final(self).wf(),
            final(self)@ == Map::<QueueIdV, ShardModel>::new(
                |q: QueueIdV|
                    old(self)@.contains_key(q) && old(self)@[q].role != ShardRoleV::Primary(
                        follower_id@,
                    ),
                |q: QueueIdV| old(self)@[q],
            ),
    {
        proof {
            lemma_assoc_map_dom(self.entries@);
        }
        let ghost entries0 = self.entries@;
        let mut kept: Vec<(QueueId, IngesterShard)> = Vec::new();
        let mut i: usize = 0;
        while i < self.entries.len()
            invariant
                i <= self.entries@.len(),
                self.entries@ == entries0,
                self.wf(),
                distinct_keys(kept@),
                forall|m: int|
                    0 <= m < kept@.len() ==> exists|j: int|
                        0 <= j < i && (#[trigger] kept@[m]).0@ == entries0[j].0@ && kept@[m].1@
                            == entries0[j].1@,
                forall|j: int|
                    0 <= j < i && (#[trigger] entries0[j]).1@.role != ShardRoleV::Primary(
                        follower_id@,
                    ) ==> exists|m: int|
                        0 <= m < kept@.len() && (#[trigger] kept@[m]).0@ == entries0[j].0@
                            && kept@[m].1@ == entries0[j].1@,
                forall|m: int|
                    0 <= m < kept@.len() ==> (#[trigger] kept@[m]).1@.role != ShardRoleV::Primary(
                        follower_id@,
                    ),
            decreases self.entries@.len() - i,
        {
            let keep = !shard_is_primary_of(&self.entries[i].1, follower_id);
            if keep {
                let shard_copy = copy_shard(&self.entries[i].1);
                proof {
                    assert forall|m: int| 0 <= m < kept@.len() implies (#[trigger] kept@[m]).0@
                        != self.entries@[i as int].0@ by {
                        let j = choose|j: int|
                            0 <= j < i && (#[trigger] kept@[m]).0@ == entries0[j].0@ && kept@[m].1@
                                == entries0[j].1@;
                        assert(entries0[j].0@ != entries0[i as int].0@);
                    }
                    assert(!has_key(kept@, self.entries@[i as int].0@));
                }
                let ghost kept_before = kept@;
                kept.push((self.entries[i].0.duplicate(), shard_copy));
                proof {
                    assert(kept@.last().0@ == entries0[i as int].0@);
                    assert(kept@.last().1@ == entries0[i as int].1@);
                    assert forall|a: int, b: int|
                        0 <= a < b < kept@.len() implies kept@[a].0@ != kept@[b].0@ by {
                        if b == kept@.len() - 1 {
                            assert(kept@[a] == kept_before[a]);
                            assert(kept_before[a].0@ != entries0[i as int].0@);
                        } else {
                            assert(kept@[a] == kept_before[a]);
                            assert(kept@[b] == kept_before[b]);
                        }
                    }
                    assert forall|m: int|
                        0 <= m < kept@.len() implies exists|j: int|
                        0 <= j < i + 1 && (#[trigger] kept@[m]).0@ == entries0[j].0@ && kept@[m].1@
                            == entries0[j].1@ by {
                        if m < kept@.len() - 1 {
                            assert(kept@[m] == kept_before[m]);
                            let j = choose|j: int|
                                0 <= j < i && (#[trigger] kept_before[m]).0@ == entries0[j].0@
                                    && kept_before[m].1@ == entries0[j].1@;
                            assert(0 <= j < i + 1 && kept@[m].0@ == entries0[j].0@ && kept@[m].1@
                                == entries0[j].1@);
                        } else {
                            assert(kept@[m].0@ == entries0[i as int].0@ && kept@[m].1@ == entries0[
                                i as int
                            ].1@);
                        }
                    }
                    assert forall|j: int|
                        0 <= j < i + 1 && (#[trigger] entries0[j]).1@.role != ShardRoleV::Primary(
                            follower_id@,
                        ) implies exists|m: int|
                        0 <= m < kept@.len() && (#[trigger] kept@[m]).0@ == entries0[j].0@
                            && kept@[m].1@ == entries0[j].1@ by {
                        if j < i {
                            let m = choose|m: int|
                                0 <= m < kept_before.len() && (#[trigger] kept_before[m]).0@
                                    == entries0[j].0@ && kept_before[m].1@ == entries0[j].1@;
                            assert(kept@[m] == kept_before[m]);
                            assert(0 <= m < kept@.len() && kept@[m].0@ == entries0[j].0@
                                && kept@[m].1@ == entries0[j].1@);
                        } else {
                            let m = kept@.len() - 1;
                            assert(0 <= m < kept@.len() && kept@[m].0@ == entries0[j].0@
                                && kept@[m].1@ == entries0[j].1@);
                        }
                    }
                }
            } else {
                proof {
                    assert(entries0[i as int].1@.role == ShardRoleV::Primary(follower_id@));
                }
            }
            i = i + 1;
        }
        self.entries = kept;
        proof {
            lemma_assoc_map_dom(self.entries@);
            lemma_assoc_map_dom(entries0);
            let target = Map::<QueueIdV, ShardModel>::new(
                |q: QueueIdV|
                    assoc_map(entries0).contains_key(q) && assoc_map(entries0)[q].role
                        != ShardRoleV::Primary(follower_id@),
                |q: QueueIdV| assoc_map(entries0)[q],
            );
            assert forall|q: QueueIdV| #[trigger]
                self@.contains_key(q) implies target.contains_key(q) && self@[q] == target[q] by {
                let m = choose|m: int| 0 <= m < self.entries@.len() && self.entries@[m].0@ == q;
                lemma_assoc_map_index(self.entries@, m);
                let j = choose|j: int|
                    0 <= j < entries0.len() && (#[trigger] self.entries@[m]).0@ == entries0[j].0@
                        && self.entries@[m].1@ == entries0[j].1@;
                lemma_assoc_map_index(entries0, j);
            }
            assert forall|q: QueueIdV| #[trigger]
                target.contains_key(q) implies self@.contains_key(q) by {
                let j = choose|j: int| 0 <= j < entries0.len() && entries0[j].0@ == q;
                lemma_assoc_map_index(entries0, j);
                assert(entries0[j].1@.role != ShardRoleV::Primary(follower_id@));
                let m = choose|m: int|
                    0 <= m < self.entries@.len() && (#[trigger] self.entries@[m]).0@ == entries0[
                        j
                    ].0@ && self.entries@[m].1@ == entries0[j].1@;
                assert(has_key(self.entries@, q));
            }
            assert(self@ =~= target);
        }
    }

    /// How many shards the table holds.
    pub fn len(&self) -> (r: usize)
        requires
            self.wf(),
        ensures
            r == self@.dom().len(),
    {
        proof {
            lemma_assoc_map_dom_len(self.entries@);
        }
        self.entries.len()
    }
}

/// Whether a shard is a primary replicating to the given follower.
fn shard_is_primary_of(shard: &IngesterShard, follower_id: &NodeId) -> (r: bool)
    ensures
        r == (shard@.role == ShardRoleV::Primary(follower_id@)),
{
    match &shard.role {
        ShardRole::Primary(entry_follower) => *entry_follower == *follower_id,
        _ => false,
    }
}

/// A fresh shard record equal to the given one.
fn copy_shard(shard: &IngesterShard) -> (r: IngesterShard)
    ensures
        r@ == shard@,
{
    let role = match &shard.role {
        ShardRole::Solo => ShardRole::Solo,
        ShardRole::Primary(follower_id) => ShardRole::Primary(follower_id.clone()),
        ShardRole::Replica(leader_id) => ShardRole::Replica(leader_id.clone()),
    };
    IngesterShard {
        role,
        shard_state: shard.shard_state,
        replication_position_inclusive: shard.replication_position_inclusive,
    }
}

/// Under distinct keys, the map has exactly one key per entry.
proof fn lemma_assoc_map_dom_len(entries: Seq<(QueueId, IngesterShard)>)
    requires
        distinct_keys(entries),
    ensures
        assoc_map(entries).dom().finite(),
        assoc_map(entries).dom().len() == entries.len(),
    decreases entries.len(),
{
    if entries.len() == 0 {
        assert(assoc_map(entries).dom() =~= Set::<QueueIdV>::empty());
    } else {
        crate::table::lemma_distinct_drop_last(entries);
        lemma_assoc_map_dom_len(entries.drop_last());
        lemma_assoc_map_dom(entries.drop_last());
        assert(!has_key(entries.drop_last(), entries.last().0@)) by {
            if has_key(entries.drop_last(), entries.last().0@) {
                let j = choose|j: int|
                    0 <= j < entries.drop_last().len() && entries.drop_last()[j].0@
                        == entries.last().0@;
                assert(entries[j].0@ == entries[entries.len() - 1].0@);
            }
        }
        assert(assoc_map(entries).dom() =~= assoc_map(entries.drop_last()).dom().insert(
            entries.last().0@,
        ));
    }
}

} // verus!
