//! Consumer-facing fetch streams: tailing one shard's records in offset
//! order, bounded per emission by a byte budget.

use vstd::prelude::*;

use crate::ingester::Ingester;
use crate::messages::{FetchResponse, OpenFetchStreamRequest};
use crate::position::Position;
use crate::types::{IngestError, QueueId, QueueIdV};
use crate::wal::{QueueModel, Wal};

verus! {

/// The default byte budget of one fetch frame.
pub const DEFAULT_BATCH_NUM_BYTES: usize = 1048576;

/// A long-lived consumer stream over one shard: the position it has
/// delivered up to (exclusive), its upper bound, and its per-frame byte
/// budget.
pub struct FetchStream {
    pub queue_id: QueueId,
    pub position: Position,
    pub to_position_inclusive: Position,
    pub batch_num_bytes: usize,
}

/// The first offset a fetch at `pos` would deliver: everything retained
/// for `Beginning`, the successor offset for `Offset`, nothing for `Eof`.
pub open spec fn fetch_start(q: QueueModel, pos: Position) -> int {
    match pos {
        Position::Beginning => q.first,
        Position::Offset(n) => if n + 1 >= q.first {
            n + 1
        } else {
            q.first
        },
        Position::Eof => q.next(),
    }
}

/// One past the last offset the stream's upper bound admits.
pub open spec fn fetch_end(q: QueueModel, to: Position) -> int {
    match to {
        Position::Eof => q.next(),
        Position::Offset(m) => if m + 1 <= q.next() {
            m + 1
        } else {
            q.next()
        },
        Position::Beginning => q.first,
    }
}

/// How many records fit in the budget, reading greedily from `start`.
pub open spec fn greedy_count(q: QueueModel, start: int, end: int, budget: int) -> nat
    decreases end - start,
{
    if start >= end {
        0
    } else if q.record_at(start).len() <= budget {
        1 + greedy_count(q, start + 1, end, budget - q.record_at(start).len())
    } else {
        0
    }
}

/// How many records one frame carries: what fits in the budget, but at
/// least one when any is available, so the stream always progresses.
pub open spec fn fetch_count(q: QueueModel, start: int, end: int, budget: int) -> nat {
    let g = greedy_count(q, start, end, budget);
    if g == 0 && start < end {
        1
    } else {
        g
    }
}

/// The concatenation of `count` records from `start`.
pub open spec fn concat_records(q: QueueModel, start: int, count: nat) -> Seq<u8>
    decreases count,
{
    if count == 0 {
        Seq::empty()
    } else {
        concat_records(q, start, (count - 1) as nat) + q.record_at(start + count - 1)
    }
}

impl Ingester {
    /// Opens a fetch stream over one shard, from the requested position
    /// (the beginning when none is given) to the requested upper bound
    /// (`Eof`, the whole stream, when none is given), with the default
    /// byte budget. An unknown shard is refused.
    pub fn open_fetch_stream(&self, request: &OpenFetchStreamRequest) -> (r: Result<
        FetchStream,
        IngestError,
    >)
        requires
            self.wf(),
        ensures
            r is Ok <==> self.state@.shards.contains_key(
                QueueIdV {
                    index_uid: request.index_uid@,
                    source_id: request.source_id@,
                    shard_id: request.shard_id,
                },
            ),
            r matches Err(e) ==> e is Internal,
            r matches Ok(stream) ==> ({
                &&& stream.queue_id@ == (QueueIdV {
                    index_uid: request.index_uid@,
                    source_id: request.source_id@,
                    shard_id: request.shard_id,
                })
                &&& stream.position == (match request.from_position_exclusive {
                    Some(position) => position,
                    None => Position::Beginning,
                })
                &&& stream.to_position_inclusive == (match request.to_position_inclusive {
                    Some(position) => position,
                    None => Position::Eof,
                })
                &&& stream.batch_num_bytes == DEFAULT_BATCH_NUM_BYTES
            }),
    {
        let queue_id = request.queue_id();
        if !self.state.shards.contains(&queue_id) {
            return Err(IngestError::Internal);
        }
        let position = match request.from_position_exclusive {
            Some(position) => position,
            None => Position::Beginning,
        };
        let to_position_inclusive = match request.to_position_inclusive {
            Some(position) => position,
            None => Position::Eof,
        };
        Ok(
            FetchStream {
                queue_id,
                position,
                to_position_inclusive,
                batch_num_bytes: DEFAULT_BATCH_NUM_BYTES,
            },
        )
    }
}

impl FetchStream {
    /// Whether the stream is complete: its shard is gone or closed, and
    /// no record up to the stream's upper bound remains undelivered. A
    /// completed stream will never emit another frame; an open shard may
    /// still receive records, so the stream stays live.
    pub fn is_complete(&self, ingester: &Ingester) -> (r: bool)
        requires
            ingester.wf(),
        ensures
            r == ({
                if !ingester.state@.shards.contains_key(self.queue_id@) {
                    true
                } else if !ingester.state@.wal.contains_key(self.queue_id@) {
                    false
                } else {
                    let q = ingester.state@.wal[self.queue_id@];
                    ingester.state@.shards[self.queue_id@].state == crate::shard::ShardState::Closed
                        && fetch_start(q, self.position) >= fetch_end(
                        q,
                        self.to_position_inclusive,
                    )
                }
            }),
    {
        let closed = match ingester.state.shards.get(&self.queue_id) {
            None => {
                return true;
            },
            Some(shard) => shard.is_closed(),
        };
        if !closed {
            return false;
        }
        let ghost q = ingester.state@.wal[self.queue_id@];
        let from: u64 = match self.position {
            Position::Beginning => 0,
            Position::Offset(n) => {
                if n == u64::MAX {
                    proof {
                        ingester.state.wal.lemma_wf_queues();
                    }
                    return true;
                }
                n + 1
            },
            Position::Eof => {
                proof {
                    ingester.state.wal.lemma_wf_queues();
                }
                return true;
            },
        };
        proof {
            ingester.state.wal.lemma_wf_queues();
            assert(ingester.state@.shards.contains_key(self.queue_id@));
            assert(ingester.state@.wal.contains_key(self.queue_id@));
        }
        let ghost lo0: int = if from <= q.first {
            q.first
        } else {
            from as int
        };
        proof {
            assert(fetch_start(q, self.position) == lo0);
        }
        let rows = match self.to_position_inclusive {
            Position::Beginning => {
                return true;
            },
            Position::Eof => ingester.state.wal.range_from(&self.queue_id, from),
            Position::Offset(cap) => {
                proof {
                    ingester.state.wal.lemma_wf_queues();
                }
                let rows = ingester.state.wal.range_from(&self.queue_id, from);
                match rows {
                    None => None,
                    Some(rows) => {
                        let ghost lo: int = if from <= q.first {
                            q.first
                        } else {
                            from as int
                        };
                        proof {
                            assert(fetch_start(q, self.position) == lo);
                        }
                        if rows.len() > 0 && rows[0].0 <= cap {
                            proof {
                                assert(rows@[0].0 == lo);
                                assert(fetch_start(q, self.position) < fetch_end(
                                    q,
                                    self.to_position_inclusive,
                                ));
                            }
                            return false;
                        }
                        proof {
                            if rows@.len() == 0 {
                                assert(lo >= q.next());
                            } else {
                                assert(rows@[0].0 == lo);
                                assert(lo > cap);
                            }
                            assert(fetch_start(q, self.position) >= fetch_end(
                                q,
                                self.to_position_inclusive,
                            ));
                        }
                        return true;
                    },
                }
            },
        };
        match rows {
            None => {
                proof {
                    assert(ingester.state@.shards.contains_key(self.queue_id@));
                    assert(ingester.state@.wal.contains_key(self.queue_id@));
                    assert(false);
                }
                true
            },
            Some(rows) => rows.len() == 0,
        }
    }

    /// The next frame of the stream, or `None` where no new record is
    /// available yet (the caller then waits for the shard's new-records
    /// signal). A frame carries the records after the stream's position,
    /// in offset order, as many as fit the byte budget but at least one,
    /// and advances the position past them.
    pub fn fetch_next(&mut self, wal: &Wal) -> (r: Option<FetchResponse>)
        requires
            wal.wf(),
        ensures
            final(self).queue_id@ == old(self).queue_id@,
            final(self).to_position_inclusive == old(self).to_position_inclusive,
            final(self).batch_num_bytes == old(self).batch_num_bytes,
            !wal@.contains_key(old(self).queue_id@) ==> r is None && final(self).position == old(
                self,
            ).position,
            wal@.contains_key(old(self).queue_id@) ==> ({
                let q = wal@[old(self).queue_id@];
                let start = fetch_start(q, old(self).position);
                let end = fetch_end(q, old(self).to_position_inclusive);
                let count = fetch_count(q, start, end, old(self).batch_num_bytes as int);
                if start >= end {
                    r is None && final(self).position == old(self).position
                } else {
                    r matches Some(response) && ({
                        &&& response.from_position_exclusive == old(self).position
                        &&& response.to_position_inclusive == Position::Offset(
                            (start + count - 1) as u64,
                        )
                        &&& response.mrecord_buffer@ == concat_records(q, start, count)
                        &&& response.mrecord_lengths@.len() == count
                        &&& forall|j: int|
                            0 <= j < count ==> #[trigger] response.mrecord_lengths@[j]
                                == q.record_at(start + j).len()
                        &&& final(self).position == Position::Offset((start + count - 1) as u64)
                    })
                }
            }),
    {
        proof {
            wal.lemma_wf_queues();
        }
        let ghost q = wal@[self.queue_id@];
        let from: u64 = match self.position {
            Position::Beginning => 0,
            Position::Offset(n) => {
                if n == u64::MAX {
                    proof {
                        if wal@.contains_key(self.queue_id@) {
                            assert(fetch_start(q, self.position) >= fetch_end(
                                q,
                                self.to_position_inclusive,
                            ));
                        }
                    }
                    return None;
                }
                n + 1
            },
            Position::Eof => {
                proof {
                    if wal@.contains_key(self.queue_id@) {
                        assert(fetch_start(q, self.position) >= fetch_end(
                            q,
                            self.to_position_inclusive,
                        ));
                    }
                }
                return None;
            },
        };
        let rows = match wal.range_from(&self.queue_id, from) {
            None => {
                return None;
            },
            Some(rows) => rows,
        };
        let ghost start = fetch_start(q, self.position);
        let ghost end = fetch_end(q, self.to_position_inclusive);
        proof {
            assert(start == (if from <= q.first {
                q.first
            } else {
                from as int
            }));
        }
        let cap: u64 = match self.to_position_inclusive {
            Position::Eof => u64::MAX,
            Position::Offset(m) => m,
            Position::Beginning => {
                proof {
                    assert(start >= end);
                }
                return None;
            },
        };
        if rows.len() == 0 {
            proof {
                assert(start >= end);
            }
            return None;
        }
        let lo: u64 = rows[0].0;
        if cap < lo {
            proof {
                assert(end <= start);
            }
            return None;
        }
        let usable: usize = if cap - lo >= (rows.len() - 1) as u64 {
            rows.len()
        } else {
            (cap - lo + 1) as usize
        };
        proof {
            assert(lo == start);
            assert(usable == end - start);
            assert forall|j: int| 0 <= j < usable implies (#[trigger] rows@[j]).0 == start + j
                && rows@[j].1@ == q.record_at(start + j) by {}
        }
        let budget0 = self.batch_num_bytes;
        let mut g: usize = 0;
        let mut remaining: usize = budget0;
        while g < usable && rows[g].1.len() <= remaining
            invariant
                0 <= g <= usable,
                usable <= rows@.len(),
                usable == end - start,
                wal.wf(),
                wal@.contains_key(self.queue_id@),
                q == wal@[self.queue_id@],
                forall|j: int|
                    0 <= j < usable ==> (#[trigger] rows@[j]).0 == start + j && rows@[j].1@
                        == q.record_at(start + j),
                greedy_count(q, start, end, budget0 as int) == g + greedy_count(
                    q,
                    start + g,
                    end,
                    remaining as int,
                ),
                remaining <= budget0,
            decreases usable - g,
        {
            proof {
                assert(q.record_at(start + g).len() <= remaining);
                assert(greedy_count(q, start + g, end, remaining as int) == 1 + greedy_count(
                    q,
                    start + g + 1,
                    end,
                    remaining - q.record_at(start + g).len(),
                ));
            }
            remaining = remaining - rows[g].1.len();
            g = g + 1;
        }
        proof {
            if g == usable {
                assert(greedy_count(q, start + g, end, remaining as int) == 0);
            } else {
                assert(q.record_at(start + g).len() > remaining);
                assert(greedy_count(q, start + g, end, remaining as int) == 0);
            }
            assert(greedy_count(q, start, end, budget0 as int) == g);
        }
        let count: usize = if g == 0 {
            1
        } else {
            g
        };
        proof {
            assert(count == fetch_count(q, start, end, budget0 as int));
            assert(count <= usable);
        }
        let mut buffer: Vec<u8> = Vec::new();
        let mut lengths: Vec<usize> = Vec::new();
        let mut j: usize = 0;
        while j < count
            invariant
                0 <= j <= count,
                count <= usable,
                usable <= rows@.len(),
                usable == end - start,
                forall|m: int|
                    0 <= m < usable ==> (#[trigger] rows@[m]).0 == start + m && rows@[m].1@
                        == q.record_at(start + m),
                buffer@ == concat_records(q, start, j as nat),
                lengths@.len() == j,
                forall|m: int|
                    0 <= m < j ==> #[trigger] lengths@[m] == q.record_at(start + m).len(),
            decreases count - j,
        {
            let record = &rows[j].1;
            lengths.push(record.len());
            let mut b: usize = 0;
            let ghost buffer_before = buffer@;
            while b < record.len()
                invariant
                    b <= record@.len(),
                    buffer@ == buffer_before + record@.take(b as int),
                decreases record@.len() - b,
            {
                buffer.push(record[b]);
                b = b + 1;
                proof {
                    assert(buffer_before + record@.take(b - 1) + seq![record@[b - 1]]
                        =~= buffer_before + record@.take(b as int));
                }
            }
            proof {
                assert(record@.take(record@.len() as int) =~= record@);
            }
            j = j + 1;
            proof {
                assert(buffer@ == concat_records(q, start, (j - 1) as nat) + q.record_at(
                    start + j - 1,
                ));
                assert(buffer@ == concat_records(q, start, j as nat));
            }
        }
        let last_offset: u64 = rows[count - 1].0;
        proof {
            assert(last_offset == start + count - 1);
        }
        let from_position_exclusive = self.position;
        self.position = Position::Offset(last_offset);
        Some(
            FetchResponse {
                from_position_exclusive,
                to_position_inclusive: Position::Offset(last_offset),
                mrecord_buffer: buffer,
                mrecord_lengths: lengths,
            },
        )
    }
}

} // verus!
