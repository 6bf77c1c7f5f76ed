//! An in-memory model of the record-oriented write-ahead log.
//!
//! The storage-engine contract the ingester relies on: per-queue ordered
//! offsets, atomic append of a sequence of records, prefix truncation,
//! deletion, and the highest assigned offset. Offsets keep growing across
//! truncation: a queue remembers the next offset it will assign even when
//! every record has been dropped. The asynchronous, on-disk engine that
//! backs a production node obeys the same contract; this model is what the
//! verified core reads and writes.

use vstd::prelude::*;

use crate::table::{assoc_map, distinct_keys, has_key, lemma_assoc_map_dom, lemma_assoc_map_index,
    lemma_assoc_map_push, lemma_assoc_map_remove, lemma_assoc_map_update};
use crate::types::{QueueId, QueueIdV};

verus! {

/// One queue: records at the contiguous offsets
/// `first_offset, first_offset + 1, ...`.
pub struct Queue {
    first_offset: u64,
    records: Vec<Vec<u8>>,
}

/// The mathematical value of a queue.
#[verifier::ext_equal]
pub struct QueueModel {
    /// The offset of the first retained record; records dropped by
    /// truncation keep their offsets assigned.
    pub first: int,
    /// The retained records, in offset order: record `i` sits at offset
    /// `first + i`.
    pub records: Seq<Seq<u8>>,
}

impl QueueModel {
    /// The offset the next appended record will receive.
    pub open spec fn next(self) -> int {
        self.first + self.records.len()
    }

    pub open spec fn contains_offset(self, offset: int) -> bool {
        self.first <= offset < self.next()
    }

    /// The record at an assigned, retained offset.
    pub open spec fn record_at(self, offset: int) -> Seq<u8> {
        self.records[offset - self.first]
    }
}

/// Offsets fit in `u64`.
pub open spec fn queue_wf(q: QueueModel) -> bool {
    0 <= q.first && q.next() <= u64::MAX
}

/// A queue that was never appended to and never truncated.
pub open spec fn empty_queue() -> QueueModel {
    QueueModel { first: 0, records: Seq::empty() }
}

/// The byte sequences held by a vector of records.
pub open spec fn record_views(records: Seq<Vec<u8>>) -> Seq<Seq<u8>> {
    records.map_values(|r: Vec<u8>| r@)
}

/// Appending `records` to a queue.
pub open spec fn queue_append(q: QueueModel, records: Seq<Seq<u8>>) -> QueueModel {
    QueueModel { first: q.first, records: q.records + records }
}

/// Truncation drops the records at offsets `<= upto` and leaves the next
/// offset to assign unchanged.
pub open spec fn queue_truncate(q: QueueModel, upto: int) -> QueueModel {
    if upto < q.first {
        q
    } else {
        let cut = if upto + 1 <= q.next() {
            upto + 1
        } else {
            q.next()
        };
        QueueModel { first: cut, records: q.records.skip(cut - q.first) }
    }
}

/// Truncation is exact: it keeps the next offset to assign, drops every
/// record at or below the cut, and leaves the rest untouched.
pub proof fn lemma_queue_truncate_drops_prefix(q: QueueModel, upto: int)
    ensures
        queue_truncate(q, upto).next() == q.next(),
        queue_truncate(q, upto).first >= q.first,
        forall|off: int|
            #[trigger] queue_truncate(q, upto).contains_offset(off) <==> q.contains_offset(off)
                && off > upto,
        forall|off: int|
            #[trigger] queue_truncate(q, upto).contains_offset(off) ==> queue_truncate(
                q,
                upto,
            ).record_at(off) == q.record_at(off),
{
    let t = queue_truncate(q, upto);
    assert(t.next() == q.next());
    assert forall|off: int| #[trigger]
        t.contains_offset(off) implies t.record_at(off) == q.record_at(off) by {
        if upto >= q.first {
            assert(t.records[off - t.first] == q.records[off - q.first]);
        }
    }
}

impl View for Queue {
    type V = QueueModel;

    closed spec fn view(&self) -> QueueModel {
        QueueModel { first: self.first_offset as int, records: record_views(self.records@) }
    }
}

impl Queue {
    pub closed spec fn wf(&self) -> bool {
        queue_wf(self@)
    }
}

/// The multi-queue write-ahead log.
pub struct Wal {
    entries: Vec<(QueueId, Queue)>,
}

impl View for Wal {
    type V = Map<QueueIdV, QueueModel>;

    closed spec fn view(&self) -> Map<QueueIdV, QueueModel> {
        assoc_map(self.entries@)
    }
}

/// The error of `Wal::create_queue`.
#[derive(Clone, Copy, PartialEq, Eq, Structural, Debug)]
pub enum CreateQueueError {
    AlreadyExists,
}

/// The error of `Wal::delete_queue` and `Wal::truncate`.
#[derive(Clone, Copy, PartialEq, Eq, Structural, Debug)]
pub enum MissingQueue {
    MissingQueue,
}

/// The error of `Wal::append_records`.
#[derive(Clone, Copy, PartialEq, Eq, Structural, Debug)]
pub enum AppendError {
    /// The queue was never created, or was deleted.
    MissingQueue,
    /// The append would exhaust the offset space: the model's one storage
    /// fault, standing for the storage engine's I/O failures.
    CapacityExceeded,
}

impl Wal {
    pub closed spec fn wf(&self) -> bool {
        distinct_keys(self.entries@) && (forall|i: int|
            0 <= i < self.entries@.len() ==> (#[trigger] self.entries@[i].1).wf())
    }

    /// Every queue of a well-formed log has offsets that fit in `u64`.
    pub proof fn lemma_wf_queues(&self)
        requires
            self.wf(),
        ensures
            forall|k: QueueIdV| #[trigger] self@.contains_key(k) ==> queue_wf(self@[k]),
    {
        lemma_assoc_map_dom(self.entries@);
        assert forall|k: QueueIdV| #[trigger] self@.contains_key(k) implies queue_wf(self@[k]) by {
            let i = choose|i: int| 0 <= i < self.entries@.len() && self.entries@[i].0@ == k;
            lemma_assoc_map_index(self.entries@, i);
        }
    }

    pub fn new() -> (r: Wal)
        ensures
            r.wf(),
            r@ == Map::<QueueIdV, QueueModel>::empty(),
    {
        Wal { entries: Vec::new() }
    }

    /// The index of the entry carrying `queue_id`, if any.
    fn find_index(&self, queue_id: &QueueId) -> (r: Option<usize>)
        requires
            self.wf(),
        ensures
            match r {
                Some(i) => i < self.entries@.len() && self.entries@[i as int].0@ == queue_id@
                    && self@.contains_key(queue_id@) && self@[queue_id@] == self.entries@[
                    i as int
                ].1@,
                None => !self@.contains_key(queue_id@),
            },
    {
        proof {
            lemma_assoc_map_dom(self.entries@);
        }
        let mut i: usize = 0;
        while i < self.entries.len()
            invariant
                i <= self.entries@.len(),
                forall|j: int| 0 <= j < i ==> self.entries@[j].0@ != queue_id@,
                self.wf(),
            decreases self.entries@.len() - i,
        {
            if self.entries[i].0 == *queue_id {
                proof {
                    lemma_assoc_map_index(self.entries@, i as int);
                }
                return Some(i);
            }
            i = i + 1;
        }
        proof {
            assert(!has_key(self.entries@, queue_id@));
        }
        None
    }

    pub fn contains_queue(&self, queue_id: &QueueId) -> (r: bool)
        requires
            self.wf(),
        ensures
            r == self@.contains_key(queue_id@),
    {
        self.find_index(queue_id).is_some()
    }

    /// Creates an empty queue; refuses a queue id already present.
    pub fn create_queue(&mut self, queue_id: &QueueId) -> (r: Result<(), CreateQueueError>)
        requires
            old(self).wf(),
        ensures
            final(self).wf(),
            old(self)@.contains_key(queue_id@) ==> r == Err::<(), CreateQueueError>(
                CreateQueueError::AlreadyExists,
            ) && final(self)@ == old(self)@,
            !old(self)@.contains_key(queue_id@) ==> r is Ok && final(self)@ == old(self)@.insert(
                queue_id@,
                empty_queue(),
            ),
    {
        match self.find_index(queue_id) {
            Some(_) => Err(CreateQueueError::AlreadyExists),
            None => {
                let pair = (queue_id.duplicate(), Queue { first_offset: 0, records: Vec::new() });
                proof {
                    lemma_assoc_map_dom(self.entries@);
                    lemma_assoc_map_push(self.entries@, pair);
                    assert(pair.1@ =~= empty_queue());
                }
                self.entries.push(pair);
                Ok(())
            },
        }
    }

    /// Deletes a queue and every record it retains.
    pub fn delete_queue(&mut self, queue_id: &QueueId) -> (r: Result<(), MissingQueue>)
        requires
            old(self).wf(),
        ensures
            final(self).wf(),
            !old(self)@.contains_key(queue_id@) ==> r == Err::<(), MissingQueue>(
                MissingQueue::MissingQueue,
            ) && final(self)@ == old(self)@,
            old(self)@.contains_key(queue_id@) ==> r is Ok && final(self)@ == old(self)@.remove(
                queue_id@,
            ),
    {
        match self.find_index(queue_id) {
            None => Err(MissingQueue::MissingQueue),
            Some(i) => {
                proof {
                    lemma_assoc_map_remove(self.entries@, i as int);
                }
                self.entries.remove(i);
                Ok(())
            },
        }
    }

    /// Atomically appends a sequence of records, returning the offset of
    /// the last. Fails on a missing queue, and when the records would not
    /// fit in the offset space, in which case the log is unchanged.
    pub fn append_records(&mut self, queue_id: &QueueId, records: Vec<Vec<u8>>) -> (r: Result<
        u64,
        AppendError,
    >)
        requires
            old(self).wf(),
            records@.len() >= 1,
        ensures
            final(self).wf(),
            !old(self)@.contains_key(queue_id@) ==> r == Err::<u64, AppendError>(
                AppendError::MissingQueue,
            ) && final(self)@ == old(self)@,
            old(self)@.contains_key(queue_id@) && old(self)@[queue_id@].next() + records@.len()
                > u64::MAX ==> r == Err::<u64, AppendError>(AppendError::CapacityExceeded)
                && final(self)@ == old(self)@,
            old(self)@.contains_key(queue_id@) && old(self)@[queue_id@].next() + records@.len()
                <= u64::MAX ==> r == Ok::<u64, AppendError>(
                (old(self)@[queue_id@].next() + records@.len() - 1) as u64,
            ) && final(self)@ == old(self)@.insert(
                queue_id@,
                queue_append(old(self)@[queue_id@], record_views(records@)),
            ),
    {
        let i = match self.find_index(queue_id) {
            None => {
                return Err(AppendError::MissingQueue);
            },
            Some(i) => i,
        };
        let ghost old_entries = self.entries@;
        let ghost q = self.entries@[i as int].1@;
        let mut pair = self.entries.remove(i);
        let next: u64 = pair.1.first_offset + pair.1.records.len() as u64;
        if records.len() as u64 > u64::MAX - next {
            self.entries.insert(i, pair);
            proof {
                assert(self.entries@ =~= old_entries);
            }
            return Err(AppendError::CapacityExceeded);
        }
        let last_offset: u64 = next + records.len() as u64 - 1;
        let ghost new_records = record_views(records@);
        let mut k: usize = 0;
        let n = records.len();
        while k < n
            invariant
                k <= n,
                n == records@.len(),
                new_records == record_views(records@),
                pair.1@ =~= queue_append(q, new_records.take(k as int)),
                pair.1.first_offset == q.first,
                pair.0 == old_entries[i as int].0,
                i < old_entries.len(),
                q.next() + new_records.len() <= u64::MAX,
                new_records.len() == n,
            decreases n - k,
        {
            let rec = copy_bytes(&records[k]);
            proof {
                assert(rec@ == new_records[k as int]);
            }
            let ghost before = pair.1@;
            pair.1.records.push(rec);
            k = k + 1;
            proof {
                assert(pair.1@.records =~= before.records.push(new_records[k - 1]));
                assert(q.records + new_records.take(k - 1) + seq![new_records[k - 1]] =~= q.records
                    + new_records.take(k as int));
                assert(pair.1@ =~= queue_append(q, new_records.take(k as int)));
            }
        }
        proof {
            assert(new_records.take(n as int) =~= new_records);
            assert(pair.1@ =~= queue_append(q, new_records));
        }
        self.entries.insert(i, pair);
        proof {
            assert(self.entries@ =~= old_entries.update(i as int, self.entries@[i as int]));
            lemma_assoc_map_update(old_entries, i as int, self.entries@[i as int]);
        }
        Ok(last_offset)
    }

    /// Appends a single record, returning its offset.
    pub fn append_record(&mut self, queue_id: &QueueId, record: Vec<u8>) -> (r: Result<
        u64,
        AppendError,
    >)
        requires
            old(self).wf(),
        ensures
            final(self).wf(),
            !old(self)@.contains_key(queue_id@) ==> r == Err::<u64, AppendError>(
                AppendError::MissingQueue,
            ) && final(self)@ == old(self)@,
            old(self)@.contains_key(queue_id@) && old(self)@[queue_id@].next() + 1 > u64::MAX
                ==> r == Err::<u64, AppendError>(AppendError::CapacityExceeded) && final(self)@
                == old(self)@,
            old(self)@.contains_key(queue_id@) && old(self)@[queue_id@].next() + 1 <= u64::MAX
                ==> r == Ok::<u64, AppendError>(old(self)@[queue_id@].next() as u64)
                && final(self)@ == old(self)@.insert(
                queue_id@,
                queue_append(old(self)@[queue_id@], seq![record@]),
            ),
    {
        let ghost rec = record@;
        let mut records: Vec<Vec<u8>> = Vec::new();
        records.push(record);
        proof {
            assert(record_views(records@) =~= seq![rec]);
        }
        self.append_records(queue_id, records)
    }

    /// Drops the records at offsets `<= to_offset_inclusive`.
    pub fn truncate(&mut self, queue_id: &QueueId, to_offset_inclusive: u64) -> (r: Result<
        (),
        MissingQueue,
    >)
        requires
            old(self).wf(),
        ensures
            final(self).wf(),
            !old(self)@.contains_key(queue_id@) ==> r == Err::<(), MissingQueue>(
                MissingQueue::MissingQueue,
            ) && final(self)@ == old(self)@,
            old(self)@.contains_key(queue_id@) ==> r is Ok && final(self)@ == old(self)@.insert(
                queue_id@,
                queue_truncate(old(self)@[queue_id@], to_offset_inclusive as int),
            ),
    {
        let i = match self.find_index(queue_id) {
            None => {
                return Err(MissingQueue::MissingQueue);
            },
            Some(i) => i,
        };
        let ghost old_entries = self.entries@;
        let ghost q = self.entries@[i as int].1@;
        let mut pair = self.entries.remove(i);
        let first = pair.1.first_offset;
        let len = pair.1.records.len();
        if to_offset_inclusive >= first {
            let avail: u64 = to_offset_inclusive - first;
            let drop_n: u64 = if avail >= len as u64 {
                len as u64
            } else {
                avail + 1
            };
            let tail = pair.1.records.split_off(drop_n as usize);
            pair.1.records = tail;
            pair.1.first_offset = first + drop_n;
            proof {
                assert(pair.1@.records =~= queue_truncate(q, to_offset_inclusive as int).records);
                assert(pair.1@ =~= queue_truncate(q, to_offset_inclusive as int));
            }
        } else {
            proof {
                assert(pair.1@ =~= queue_truncate(q, to_offset_inclusive as int));
            }
        }
        self.entries.insert(i, pair);
        proof {
            assert(self.entries@ =~= old_entries.update(i as int, self.entries@[i as int]));
            lemma_assoc_map_update(old_entries, i as int, self.entries@[i as int]);
        }
        Ok(())
    }

    /// The highest assigned offset, or `None` where no record was ever
    /// appended.
    pub fn current_position(&self, queue_id: &QueueId) -> (r: Option<u64>)
        requires
            self.wf(),
            self@.contains_key(queue_id@),
        ensures
            r == (if self@[queue_id@].next() == 0 {
                Option::<u64>::None
            } else {
                Option::<u64>::Some((self@[queue_id@].next() - 1) as u64)
            }),
    {
        match self.find_index(queue_id) {
            None => {
                proof {
                    assert(false);
                }
                None
            },
            Some(i) => {
                let next: u64 = self.entries[i].1.first_offset + self.entries[i].1.records.len()
                    as u64;
                if next == 0 {
                    None
                } else {
                    Some(next - 1)
                }
            },
        }
    }

    /// The last retained record, or `None` where the queue retains none.
    pub fn last_record(&self, queue_id: &QueueId) -> (r: Option<Vec<u8>>)
        requires
            self.wf(),
            self@.contains_key(queue_id@),
        ensures
            r is Some <==> self@[queue_id@].records.len() > 0,
            r matches Some(record) ==> record@ == self@[queue_id@].records.last(),
    {
        match self.find_index(queue_id) {
            None => {
                proof {
                    assert(false);
                }
                None
            },
            Some(i) => {
                let len = self.entries[i].1.records.len();
                if len == 0 {
                    None
                } else {
                    Some(copy_bytes(&self.entries[i].1.records[len - 1]))
                }
            },
        }
    }

    /// The retained records at offsets `>= from`, with their offsets, in
    /// offset order. `None` where the queue does not exist.
    pub fn range_from(&self, queue_id: &QueueId, from: u64) -> (r: Option<Vec<(u64, Vec<u8>)>>)
        requires
            self.wf(),
        ensures
            r is Some <==> self@.contains_key(queue_id@),
            r matches Some(out) ==> {
                let q = self@[queue_id@];
                let lo = if from <= q.first {
                    q.first
                } else {
                    from as int
                };
                let n = if lo <= q.next() {
                    q.next() - lo
                } else {
                    0
                };
                out@.len() == n && (forall|j: int|
                    0 <= j < n ==> (#[trigger] out@[j]).0 == lo + j && out@[j].1@ == q.record_at(
                        lo + j,
                    ))
            },
    {
        let i = match self.find_index(queue_id) {
            None => {
                return None;
            },
            Some(i) => i,
        };
        proof {
            self.lemma_wf_queues();
        }
        let first = self.entries[i].1.first_offset;
        let len = self.entries[i].1.records.len();
        let start: usize = if from <= first {
            0
        } else if from - first <= len as u64 {
            (from - first) as usize
        } else {
            len
        };
        let mut out: Vec<(u64, Vec<u8>)> = Vec::new();
        let mut j: usize = start;
        while j < len
            invariant
                start <= j <= len,
                self.wf(),
                i < self.entries@.len(),
                self.entries@[i as int].0@ == queue_id@,
                self@.contains_key(queue_id@),
                self@[queue_id@] == self.entries@[i as int].1@,
                first == self.entries@[i as int].1@.first,
                len == self.entries@[i as int].1@.records.len(),
                out@.len() == j - start,
                forall|m: int|
                    0 <= m < out@.len() ==> (#[trigger] out@[m]).0 == first + start + m
                        && out@[m].1@ == self.entries@[i as int].1@.records[start + m],
            decreases len - j,
        {
            let record = copy_bytes(&self.entries[i].1.records[j]);
            out.push((first + j as u64, record));
            j = j + 1;
        }
        Some(out)
    }

    /// One fresh `QueueId` for each queue, without duplicates.
    pub fn queue_ids(&self) -> (r: Vec<QueueId>)
        requires
            self.wf(),
        ensures
            forall|a: int, b: int| 0 <= a < b < r@.len() ==> (#[trigger] r@[a])@ != (#[trigger] r@[b])@,
            forall|j: int| 0 <= j < r@.len() ==> self@.contains_key((#[trigger] r@[j])@),
            forall|k: QueueIdV| #[trigger] self@.contains_key(k) ==> exists|j: int|
                0 <= j < r@.len() && r@[j]@ == k,
    {
        proof {
            lemma_assoc_map_dom(self.entries@);
        }
        let mut out: Vec<QueueId> = Vec::new();
        let mut i: usize = 0;
        while i < self.entries.len()
            invariant
                i <= self.entries@.len(),
                self.wf(),
                out@.len() == i,
                forall|j: int| 0 <= j < i ==> (#[trigger] out@[j])@ == self.entries@[j].0@,
            decreases self.entries@.len() - i,
        {
            out.push(self.entries[i].0.duplicate());
            i = i + 1;
        }
        proof {
            assert forall|k: QueueIdV| #[trigger] self@.contains_key(k) implies exists|j: int|
                0 <= j < out@.len() && out@[j]@ == k by {
                let j = choose|j: int| 0 <= j < self.entries@.len() && self.entries@[j].0@ == k;
                assert(out@[j]@ == k);
            }
            assert forall|j: int| 0 <= j < out@.len() implies self@.contains_key(
                (#[trigger] out@[j])@,
            ) by {
                assert(has_key(self.entries@, self.entries@[j].0@));
            }
        }
        out
    }
}

/// A fresh copy of a batch of byte records.
pub fn copy_batch(records: &Vec<Vec<u8>>) -> (r: Vec<Vec<u8>>)
    ensures
        record_views(r@) == record_views(records@),
{
    let mut out: Vec<Vec<u8>> = Vec::new();
    let mut i: usize = 0;
    while i < records.len()
        invariant
            i <= records@.len(),
            record_views(out@) =~= record_views(records@).take(i as int),
        decreases records@.len() - i,
    {
        let ghost pre = out@;
        out.push(copy_bytes(&records[i]));
        i = i + 1;
        proof {
            assert(record_views(out@) =~= record_views(pre).push(records@[i - 1]@));
            assert(record_views(records@).take(i as int) =~= record_views(records@).take(i - 1).push(
                records@[i - 1]@,
            ));
        }
    }
    proof {
        assert(record_views(records@).take(records@.len() as int) =~= record_views(records@));
    }
    out
}

/// A fresh copy of a byte record.
pub fn copy_bytes(bytes: &Vec<u8>) -> (r: Vec<u8>)
    ensures
        r@ == bytes@,
{
    let mut out: Vec<u8> = Vec::new();
    let mut i: usize = 0;
    while i < bytes.len()
        invariant
            i <= bytes@.len(),
            out@ == bytes@.take(i as int),
        decreases bytes@.len() - i,
    {
        out.push(bytes[i]);
        i = i + 1;
        proof {
            assert(bytes@.take(i - 1).push(bytes@[i - 1]) =~= bytes@.take(i as int));
        }
    }
    proof {
        assert(bytes@.take(bytes@.len() as int) =~= bytes@);
    }
    out
}

} // verus!
