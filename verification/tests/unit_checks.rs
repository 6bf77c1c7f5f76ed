use ingester::fetch::FetchStream;
use ingester::ingester::Ingester;
use ingester::messages::{CommitType, OpenReplicationStreamRequest, PersistFailureReason,
    PersistRequest, PersistSubrequest, PingRequest, ReplicationResult, TruncateRequest};
use ingester::mrecord::{is_eof_mrecord, MRecord};
use ingester::position::Position;
use ingester::types::{IngestError, QueueId};
use ingester::wal::Wal;

fn s(text: &str) -> String {
    text.to_string()
}

fn queue_id(index_uid: &str, source_id: &str, shard_id: u64) -> QueueId {
    QueueId::new(s(index_uid), s(source_id), shard_id)
}

fn doc(text: &str) -> Vec<u8> {
    text.as_bytes().to_vec()
}

fn solo_subrequest(id: u32, index_uid: &str, shard_id: u64, docs: Vec<Vec<u8>>) -> PersistSubrequest {
    PersistSubrequest {
        subrequest_id: id,
        index_uid: s(index_uid),
        source_id: s("test-source"),
        shard_id,
        follower_id: None,
        doc_batch: docs,
    }
}

#[test]
fn codec_round_trip() {
    let records = vec![
        MRecord::Doc(doc("test-doc-foo")),
        MRecord::Doc(Vec::new()),
        MRecord::Commit,
        MRecord::Eof,
    ];
    let expected: Vec<Vec<u8>> = vec![
        b"\0\0test-doc-foo".to_vec(),
        b"\0\0".to_vec(),
        b"\0\x01".to_vec(),
        b"\0\x02".to_vec(),
    ];
    for (record, bytes) in records.into_iter().zip(expected) {
        let encoded = record.encode();
        assert_eq!(encoded, bytes);
        let decoded = MRecord::decode(&encoded).unwrap();
        assert_eq!(decoded.encode(), bytes);
    }
}

#[test]
fn codec_rejects_invalid_frames() {
    assert!(MRecord::decode(&Vec::new()).is_err());
    assert!(MRecord::decode(&vec![0u8]).is_err());
    assert!(MRecord::decode(&vec![1u8, 0u8]).is_err());
    assert!(MRecord::decode(&vec![0u8, 3u8]).is_err());
    assert!(MRecord::decode(&vec![0u8, 1u8, 7u8]).is_err());
    assert!(MRecord::decode(&vec![0u8, 2u8, 7u8]).is_err());
}

#[test]
fn codec_eof_peek() {
    assert!(is_eof_mrecord(&b"\0\x02".to_vec()));
    assert!(!is_eof_mrecord(&b"\0\x01".to_vec()));
    assert!(!is_eof_mrecord(&b"\0\x02x".to_vec()));
    assert!(!is_eof_mrecord(&b"\0\0test".to_vec()));
}

#[test]
fn position_order_and_offsets() {
    assert!(Position::Beginning.le(Position::Offset(0)));
    assert!(Position::Offset(0).le(Position::Offset(1)));
    assert!(!Position::Offset(1).le(Position::Offset(0)));
    assert!(Position::Offset(u64::MAX).le(Position::Eof));
    assert!(!Position::Eof.le(Position::Offset(u64::MAX)));
    assert!(Position::Eof.le(Position::Eof));
    assert_eq!(Position::Offset(7).as_offset(), Some(7));
    assert_eq!(Position::Beginning.as_offset(), None);
    assert_eq!(Position::Eof.as_offset(), None);
}

#[test]
fn wal_truncate_keeps_next_offset() {
    let mut wal = Wal::new();
    let qid = queue_id("test-index:0", "test-source", 1);
    wal.create_queue(&qid).unwrap();
    let last = wal
        .append_records(&qid, vec![doc("a"), doc("b"), doc("c")])
        .unwrap();
    assert_eq!(last, 2);
    wal.truncate(&qid, 1).unwrap();
    assert_eq!(wal.range_from(&qid, 0).unwrap(), vec![(2, doc("c"))]);
    assert_eq!(wal.current_position(&qid), Some(2));
    // truncating everything keeps the next offset to assign
    wal.truncate(&qid, 10).unwrap();
    assert_eq!(wal.range_from(&qid, 0).unwrap(), Vec::<(u64, Vec<u8>)>::new());
    let next = wal.append_records(&qid, vec![doc("d")]).unwrap();
    assert_eq!(next, 3);
}

#[test]
fn persist_routing_error() {
    let mut ingester = Ingester::try_new(s("test-ingester-0"), Vec::new(), Wal::new(), 1).unwrap();
    let request = PersistRequest {
        leader_id: s("test-ingester-1"),
        commit_type: CommitType::Auto,
        subrequests: vec![solo_subrequest(0, "test-index:0", 1, vec![doc("test-doc-010")])],
    };
    assert!(matches!(ingester.persist(request), Err(IngestError::Internal)));
    assert_eq!(ingester.state.shards.len(), 0);
}

#[test]
fn truncate_routing_error() {
    let mut ingester = Ingester::try_new(s("test-ingester-0"), Vec::new(), Wal::new(), 1).unwrap();
    let request = TruncateRequest { ingester_id: s("other"), subrequests: Vec::new() };
    assert!(matches!(ingester.truncate(request), Err(IngestError::Internal)));
}

#[test]
fn persist_on_sealed_shard_fails_shard_closed() {
    let mut wal = Wal::new();
    let qid = queue_id("test-index:0", "test-source", 1);
    wal.create_queue(&qid).unwrap();
    let mut ingester = Ingester::try_new(s("test-ingester-0"), Vec::new(), wal, 1).unwrap();

    let request = PersistRequest {
        leader_id: s("test-ingester-0"),
        commit_type: CommitType::Auto,
        subrequests: vec![solo_subrequest(0, "test-index:0", 1, vec![doc("test-doc-010")])],
    };
    let outcome = ingester.persist(request).unwrap();
    assert_eq!(outcome.successes.len(), 0);
    assert_eq!(outcome.failures.len(), 1);
    assert_eq!(outcome.failures[0].reason, PersistFailureReason::ShardClosed);
    // the sealed queue is untouched
    assert_eq!(
        ingester.state.wal.range_from(&qid, 0).unwrap(),
        vec![(0, b"\0\x02".to_vec())]
    );
}

#[test]
fn persist_with_unreachable_follower_fails() {
    let mut leader = Ingester::try_new(s("test-leader"), Vec::new(), Wal::new(), 2).unwrap();
    let request = PersistRequest {
        leader_id: s("test-leader"),
        commit_type: CommitType::Auto,
        subrequests: vec![PersistSubrequest {
            subrequest_id: 0,
            index_uid: s("test-index:0"),
            source_id: s("test-source"),
            shard_id: 1,
            follower_id: Some(s("test-follower")),
            doc_batch: vec![doc("test-doc-010")],
        }],
    };
    let outcome = leader.persist(request).unwrap();
    assert_eq!(outcome.successes.len(), 0);
    assert_eq!(outcome.failures.len(), 1);
    assert_eq!(outcome.failures[0].reason, PersistFailureReason::Internal);
    // the queue was not created
    let qid = queue_id("test-index:0", "test-source", 1);
    assert!(leader.state.wal.range_from(&qid, 0).is_none());
    assert_eq!(leader.state.shards.len(), 0);
}

#[test]
fn replication_seqnos_increase_per_request() {
    let mut leader =
        Ingester::try_new(s("test-leader"), vec![s("test-follower")], Wal::new(), 2).unwrap();
    for expected_seqno in 0u64..3 {
        let request = PersistRequest {
            leader_id: s("test-leader"),
            commit_type: CommitType::Auto,
            subrequests: vec![PersistSubrequest {
                subrequest_id: 0,
                index_uid: s("test-index:0"),
                source_id: s("test-source"),
                shard_id: 1,
                follower_id: Some(s("test-follower")),
                doc_batch: vec![doc("test-doc-010")],
            }],
        };
        let outcome = leader.persist(request).unwrap();
        assert_eq!(outcome.replicate_requests.len(), 1);
        assert_eq!(outcome.replicate_requests[0].replication_seqno, expected_seqno);
        let results = vec![ReplicationResult::Ack(
            ingester::messages::ReplicateResponse {
                follower_id: s("test-follower"),
                successes: Vec::new(),
                failures: Vec::new(),
                replication_seqno: expected_seqno,
            },
        )];
        leader.persist_finish(outcome, results);
    }
}

#[test]
fn broken_stream_evicts_follower_shards() {
    let mut leader =
        Ingester::try_new(s("test-leader"), vec![s("test-follower")], Wal::new(), 2).unwrap();
    let request = PersistRequest {
        leader_id: s("test-leader"),
        commit_type: CommitType::Auto,
        subrequests: vec![PersistSubrequest {
            subrequest_id: 0,
            index_uid: s("test-index:0"),
            source_id: s("test-source"),
            shard_id: 1,
            follower_id: Some(s("test-follower")),
            doc_batch: vec![doc("test-doc-010")],
        }],
    };
    let outcome = leader.persist(request).unwrap();
    assert_eq!(leader.state.shards.len(), 1);
    assert!(leader.state.replication_streams.contains(&s("test-follower")));

    let response = leader.persist_finish(outcome, vec![ReplicationResult::StreamBroken]);
    assert_eq!(response.successes.len(), 0);
    assert_eq!(response.failures.len(), 1);
    assert_eq!(response.failures[0].reason, PersistFailureReason::ShardClosed);
    // the follower's primaries and its stream are evicted
    assert_eq!(leader.state.shards.len(), 0);
    assert!(!leader.state.replication_streams.contains(&s("test-follower")));
}

#[test]
fn open_replication_stream_routing_and_duplicates() {
    let mut follower = Ingester::try_new(s("test-follower"), Vec::new(), Wal::new(), 2).unwrap();
    let wrong = OpenReplicationStreamRequest {
        leader_id: s("test-leader"),
        follower_id: s("someone-else"),
    };
    assert!(matches!(follower.open_replication_stream(wrong), Err(IngestError::Internal)));

    let open = OpenReplicationStreamRequest {
        leader_id: s("test-leader"),
        follower_id: s("test-follower"),
    };
    follower.open_replication_stream(open).unwrap();
    let duplicate = OpenReplicationStreamRequest {
        leader_id: s("test-leader"),
        follower_id: s("test-follower"),
    };
    assert!(matches!(
        follower.open_replication_stream(duplicate),
        Err(IngestError::Internal)
    ));
}

#[test]
fn ping_checks_the_peer_pool() {
    let ingester =
        Ingester::try_new(s("test-leader"), vec![s("test-follower")], Wal::new(), 2).unwrap();
    // not the leader: trivially fine
    assert!(ingester.ping(&PingRequest { leader_id: s("other"), follower_id: None }).is_ok());
    // no follower to check
    assert!(ingester
        .ping(&PingRequest { leader_id: s("test-leader"), follower_id: None })
        .is_ok());
    // reachable follower
    assert!(ingester
        .ping(&PingRequest {
            leader_id: s("test-leader"),
            follower_id: Some(s("test-follower")),
        })
        .is_ok());
    // unreachable follower
    match ingester.ping(&PingRequest {
        leader_id: s("test-leader"),
        follower_id: Some(s("test-unknown")),
    }) {
        Err(IngestError::IngesterUnavailable { ingester_id }) => {
            assert_eq!(ingester_id, "test-unknown");
        },
        _ => panic!("expected the follower to be unavailable"),
    }
}

#[test]
fn fetch_respects_byte_budget_but_delivers_one() {
    let mut wal = Wal::new();
    let qid = queue_id("test-index:0", "test-source", 1);
    wal.create_queue(&qid).unwrap();
    wal.append_records(&qid, vec![doc("aaaa"), doc("bb"), doc("cc")]).unwrap();

    let mut stream = FetchStream {
        queue_id: queue_id("test-index:0", "test-source", 1),
        position: Position::Beginning,
        to_position_inclusive: Position::Eof,
        batch_num_bytes: 4,
    };
    // the first record fills the budget by itself
    let frame = stream.fetch_next(&wal).unwrap();
    assert_eq!(frame.mrecord_lengths, vec![4]);
    assert_eq!(frame.to_position_inclusive, Position::Offset(0));
    // the next two fit together
    let frame = stream.fetch_next(&wal).unwrap();
    assert_eq!(frame.mrecord_buffer, b"bbcc".to_vec());
    assert_eq!(frame.to_position_inclusive, Position::Offset(2));
    // an oversized record is still delivered alone
    let mut tiny = FetchStream {
        queue_id: queue_id("test-index:0", "test-source", 1),
        position: Position::Beginning,
        to_position_inclusive: Position::Eof,
        batch_num_bytes: 1,
    };
    let frame = tiny.fetch_next(&wal).unwrap();
    assert_eq!(frame.mrecord_lengths, vec![4]);
}

#[test]
fn apply_replicate_request_rejects_position_mismatch() {
    let mut follower = Ingester::try_new(s("test-follower"), Vec::new(), Wal::new(), 2).unwrap();
    let request = ingester::messages::ReplicateRequest {
        leader_id: s("test-leader"),
        follower_id: s("test-follower"),
        subrequests: vec![ingester::messages::ReplicateSubrequest {
            subrequest_id: 0,
            index_uid: s("test-index:0"),
            source_id: s("test-source"),
            shard_id: 1,
            // claims the replica already sits at offset 4: it does not
            from_position_exclusive: Position::Offset(4),
            to_position_inclusive: Position::Offset(5),
            doc_batch: vec![doc("test-doc-010")],
        }],
        commit_type: CommitType::Auto,
        replication_seqno: 0,
    };
    assert!(matches!(
        follower.apply_replicate_request(&request),
        Err(IngestError::Internal)
    ));
}

#[test]
fn fetch_stream_completion() {
    let mut wal = Wal::new();
    let qid = queue_id("test-index:0", "test-source", 1);
    wal.create_queue(&qid).unwrap();
    wal.append_records(&qid, vec![MRecord::Doc(doc("test-doc-010")).encode()]).unwrap();
    // startup sealing closes the shard and appends the end-of-stream record
    let ingester = Ingester::try_new(s("test-ingester-0"), Vec::new(), wal, 1).unwrap();

    let mut stream = FetchStream {
        queue_id: queue_id("test-index:0", "test-source", 1),
        position: Position::Beginning,
        to_position_inclusive: Position::Eof,
        batch_num_bytes: 1024,
    };
    assert!(!stream.is_complete(&ingester));
    let frame = stream.fetch_next(&ingester.state.wal).unwrap();
    assert_eq!(frame.mrecord_lengths.len(), 2);
    assert_eq!(frame.to_position_inclusive, Position::Offset(1));
    assert!(stream.is_complete(&ingester));
    assert!(stream.fetch_next(&ingester.state.wal).is_none());
}
