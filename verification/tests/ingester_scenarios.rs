use ingester::fetch::FetchStream;
use ingester::ingester::Ingester;
use ingester::messages::{CommitType, OpenFetchStreamRequest, OpenReplicationStreamRequest,
    PersistRequest, PersistSubrequest, ReplicationResult, TruncateRequest, TruncateSubrequest};
use ingester::mrecord::MRecord;
use ingester::position::Position;
use ingester::types::QueueId;
use ingester::wal::Wal;

fn s(text: &str) -> String {
    text.to_string()
}

fn queue_id(index_uid: &str, source_id: &str, shard_id: u64) -> QueueId {
    QueueId::new(s(index_uid), s(source_id), shard_id)
}

fn doc(text: &str) -> Vec<u8> {
    text.as_bytes().to_vec()
}

fn encoded_doc(text: &str) -> Vec<u8> {
    MRecord::Doc(doc(text)).encode()
}

fn records_of(ingester: &Ingester, qid: &QueueId) -> Vec<(u64, Vec<u8>)> {
    ingester.state.wal.range_from(qid, 0).expect("queue should exist")
}

#[test]
fn test_ingester_init() {
    let mut wal = Wal::new();

    let queue_id_01 = queue_id("test-index:0", "test-source", 1);
    wal.create_queue(&queue_id_01).unwrap();
    wal.append_records(&queue_id_01, vec![encoded_doc("test-doc-foo")]).unwrap();
    wal.truncate(&queue_id_01, 0).unwrap();

    let queue_id_02 = queue_id("test-index:0", "test-source", 2);
    wal.create_queue(&queue_id_02).unwrap();
    wal.append_records(&queue_id_02, vec![encoded_doc("test-doc-foo")]).unwrap();

    let queue_id_03 = queue_id("test-index:0", "test-source", 3);
    wal.create_queue(&queue_id_03).unwrap();

    let mut ingester = Ingester::try_new(s("test-ingester-0"), Vec::new(), wal, 2).unwrap();

    // It should only append EOF records if necessary.
    ingester.init();

    assert_eq!(ingester.state.shards.len(), 3);

    for qid in [&queue_id_01, &queue_id_02, &queue_id_03] {
        let shard = ingester.state.shards.get(qid).unwrap();
        assert!(shard.is_solo());
        assert!(shard.is_closed());
        assert_eq!(shard.replication_position_inclusive(), Position::Eof);
    }

    assert_eq!(records_of(&ingester, &queue_id_01), vec![(1, b"\0\x02".to_vec())]);
    assert_eq!(
        records_of(&ingester, &queue_id_02),
        vec![(0, b"\0\0test-doc-foo".to_vec()), (1, b"\0\x02".to_vec())]
    );
    assert_eq!(records_of(&ingester, &queue_id_03), vec![(0, b"\0\x02".to_vec())]);
}

#[test]
fn test_ingester_persist() {
    let mut ingester = Ingester::try_new(s("test-ingester-0"), Vec::new(), Wal::new(), 1).unwrap();

    let persist_request = PersistRequest {
        leader_id: s("test-ingester-0"),
        commit_type: CommitType::Force,
        subrequests: vec![
            PersistSubrequest {
                subrequest_id: 0,
                index_uid: s("test-index:0"),
                source_id: s("test-source"),
                shard_id: 1,
                follower_id: None,
                doc_batch: vec![doc("test-doc-010")],
            },
            PersistSubrequest {
                subrequest_id: 1,
                index_uid: s("test-index:1"),
                source_id: s("test-source"),
                shard_id: 1,
                follower_id: None,
                doc_batch: vec![doc("test-doc-110"), doc("test-doc-111")],
            },
        ],
    };
    let outcome = ingester.persist(persist_request).unwrap();
    assert_eq!(outcome.successes.len(), 2);
    assert_eq!(outcome.failures.len(), 0);
    assert!(outcome.replicate_requests.is_empty());

    assert_eq!(ingester.state.shards.len(), 2);

    let queue_id_01 = queue_id("test-index:0", "test-source", 1);
    let solo_shard_01 = ingester.state.shards.get(&queue_id_01).unwrap();
    assert!(solo_shard_01.is_solo());
    assert!(!solo_shard_01.is_closed());
    assert_eq!(solo_shard_01.replication_position_inclusive(), Position::Offset(1));

    assert_eq!(
        records_of(&ingester, &queue_id_01),
        vec![(0, b"\0\0test-doc-010".to_vec()), (1, b"\0\x01".to_vec())]
    );

    let queue_id_11 = queue_id("test-index:1", "test-source", 1);
    let solo_shard_11 = ingester.state.shards.get(&queue_id_11).unwrap();
    assert!(solo_shard_11.is_solo());
    assert!(!solo_shard_11.is_closed());
    assert_eq!(solo_shard_11.replication_position_inclusive(), Position::Offset(2));

    assert_eq!(
        records_of(&ingester, &queue_id_11),
        vec![
            (0, b"\0\0test-doc-110".to_vec()),
            (1, b"\0\0test-doc-111".to_vec()),
            (2, b"\0\x01".to_vec()),
        ]
    );
}

#[test]
fn test_ingester_open_replication_stream() {
    let mut ingester = Ingester::try_new(s("test-follower"), Vec::new(), Wal::new(), 1).unwrap();

    let open_stream_request = OpenReplicationStreamRequest {
        leader_id: s("test-leader"),
        follower_id: s("test-follower"),
    };
    ingester.open_replication_stream(open_stream_request).unwrap();

    assert!(ingester.state.replication_tasks.contains(&s("test-leader")));
}

#[test]
fn test_ingester_persist_replicate() {
    let mut leader =
        Ingester::try_new(s("test-leader"), vec![s("test-follower")], Wal::new(), 2).unwrap();
    let mut follower = Ingester::try_new(s("test-follower"), Vec::new(), Wal::new(), 2).unwrap();

    let persist_request = PersistRequest {
        leader_id: s("test-leader"),
        commit_type: CommitType::Force,
        subrequests: vec![
            PersistSubrequest {
                subrequest_id: 0,
                index_uid: s("test-index:0"),
                source_id: s("test-source"),
                shard_id: 1,
                follower_id: Some(s("test-follower")),
                doc_batch: vec![doc("test-doc-010")],
            },
            PersistSubrequest {
                subrequest_id: 1,
                index_uid: s("test-index:1"),
                source_id: s("test-source"),
                shard_id: 1,
                follower_id: Some(s("test-follower")),
                doc_batch: vec![doc("test-doc-110"), doc("test-doc-111")],
            },
        ],
    };
    let outcome = leader.persist(persist_request).unwrap();
    assert_eq!(outcome.replicate_requests.len(), 1);
    assert_eq!(outcome.replicate_requests[0].replication_seqno, 0);

    let open_stream_request = OpenReplicationStreamRequest {
        leader_id: s("test-leader"),
        follower_id: s("test-follower"),
    };
    follower.open_replication_stream(open_stream_request).unwrap();

    let ack = follower.apply_replicate_request(&outcome.replicate_requests[0]).unwrap();
    assert_eq!(ack.replication_seqno, 0);
    assert_eq!(ack.successes.len(), 2);
    assert_eq!(ack.failures.len(), 0);

    let persist_response = leader.persist_finish(outcome, vec![ReplicationResult::Ack(ack)]);
    assert_eq!(persist_response.leader_id, "test-leader");
    assert_eq!(persist_response.successes.len(), 2);
    assert_eq!(persist_response.failures.len(), 0);

    let queue_id_01 = queue_id("test-index:0", "test-source", 1);
    let queue_id_11 = queue_id("test-index:1", "test-source", 1);

    assert_eq!(leader.state.shards.len(), 2);
    let primary_shard_01 = leader.state.shards.get(&queue_id_01).unwrap();
    assert!(primary_shard_01.is_primary());
    assert!(!primary_shard_01.is_closed());
    assert_eq!(primary_shard_01.replication_position_inclusive(), Position::Offset(1));

    let primary_shard_11 = leader.state.shards.get(&queue_id_11).unwrap();
    assert!(primary_shard_11.is_primary());
    assert!(!primary_shard_11.is_closed());
    assert_eq!(primary_shard_11.replication_position_inclusive(), Position::Offset(2));

    assert_eq!(follower.state.shards.len(), 2);
    let replica_shard_01 = follower.state.shards.get(&queue_id_01).unwrap();
    assert!(replica_shard_01.is_replica());
    assert!(!replica_shard_01.is_closed());
    assert_eq!(replica_shard_01.replication_position_inclusive(), Position::Offset(1));

    let replica_shard_11 = follower.state.shards.get(&queue_id_11).unwrap();
    assert!(replica_shard_11.is_replica());
    assert!(!replica_shard_11.is_closed());
    assert_eq!(replica_shard_11.replication_position_inclusive(), Position::Offset(2));

    // leader and follower logs are byte-identical
    for qid in [&queue_id_01, &queue_id_11] {
        assert_eq!(records_of(&leader, qid), records_of(&follower, qid));
    }
    assert_eq!(
        records_of(&leader, &queue_id_01),
        vec![(0, b"\0\0test-doc-010".to_vec()), (1, b"\0\x01".to_vec())]
    );
    assert_eq!(
        records_of(&leader, &queue_id_11),
        vec![
            (0, b"\0\0test-doc-110".to_vec()),
            (1, b"\0\0test-doc-111".to_vec()),
            (2, b"\0\x01".to_vec()),
        ]
    );
}

#[test]
fn test_persist_replicate_auto_commit() {
    let mut leader =
        Ingester::try_new(s("test-leader"), vec![s("test-follower")], Wal::new(), 2).unwrap();
    let mut follower = Ingester::try_new(s("test-follower"), Vec::new(), Wal::new(), 2).unwrap();

    let persist_request = PersistRequest {
        leader_id: s("test-leader"),
        commit_type: CommitType::Auto,
        subrequests: vec![
            PersistSubrequest {
                subrequest_id: 0,
                index_uid: s("test-index:0"),
                source_id: s("test-source"),
                shard_id: 1,
                follower_id: Some(s("test-follower")),
                doc_batch: vec![doc("test-doc-010")],
            },
            PersistSubrequest {
                subrequest_id: 1,
                index_uid: s("test-index:1"),
                source_id: s("test-source"),
                shard_id: 1,
                follower_id: Some(s("test-follower")),
                doc_batch: vec![doc("test-doc-110"), doc("test-doc-111")],
            },
        ],
    };
    let outcome = leader.persist(persist_request).unwrap();

    let open_stream_request = OpenReplicationStreamRequest {
        leader_id: s("test-leader"),
        follower_id: s("test-follower"),
    };
    follower.open_replication_stream(open_stream_request).unwrap();
    let ack = follower.apply_replicate_request(&outcome.replicate_requests[0]).unwrap();
    let persist_response = leader.persist_finish(outcome, vec![ReplicationResult::Ack(ack)]);
    assert_eq!(persist_response.successes.len(), 2);
    assert_eq!(persist_response.failures.len(), 0);

    let queue_id_01 = queue_id("test-index:0", "test-source", 1);
    let queue_id_11 = queue_id("test-index:1", "test-source", 1);

    // no commit records under Auto commit
    assert_eq!(records_of(&leader, &queue_id_01), vec![(0, b"\0\0test-doc-010".to_vec())]);
    assert_eq!(
        records_of(&leader, &queue_id_11),
        vec![(0, b"\0\0test-doc-110".to_vec()), (1, b"\0\0test-doc-111".to_vec())]
    );
    assert_eq!(
        leader.state.shards.get(&queue_id_01).unwrap().replication_position_inclusive(),
        Position::Offset(0)
    );
    assert_eq!(
        follower.state.shards.get(&queue_id_11).unwrap().replication_position_inclusive(),
        Position::Offset(1)
    );
    for qid in [&queue_id_01, &queue_id_11] {
        assert_eq!(records_of(&leader, qid), records_of(&follower, qid));
    }
}

#[test]
fn test_ingester_open_fetch_stream() {
    let mut ingester = Ingester::try_new(s("test-ingester-0"), Vec::new(), Wal::new(), 1).unwrap();

    let persist_request = PersistRequest {
        leader_id: s("test-ingester-0"),
        commit_type: CommitType::Auto,
        subrequests: vec![
            PersistSubrequest {
                subrequest_id: 0,
                index_uid: s("test-index:0"),
                source_id: s("test-source"),
                shard_id: 1,
                follower_id: None,
                doc_batch: vec![doc("test-doc-010")],
            },
            PersistSubrequest {
                subrequest_id: 1,
                index_uid: s("test-index:0"),
                source_id: s("test-source"),
                shard_id: 2,
                follower_id: None,
                doc_batch: vec![doc("test-doc-020")],
            },
        ],
    };
    ingester.persist(persist_request).unwrap();

    let open_fetch_stream_request = OpenFetchStreamRequest {
        client_id: s("test-client"),
        index_uid: s("test-index:0"),
        source_id: s("test-source"),
        shard_id: 1,
        from_position_exclusive: None,
        to_position_inclusive: None,
    };
    let mut fetch_stream: FetchStream =
        ingester.open_fetch_stream(&open_fetch_stream_request).unwrap();

    let fetch_response = fetch_stream.fetch_next(&ingester.state.wal).unwrap();
    assert_eq!(fetch_response.from_position_exclusive, Position::Beginning);
    assert_eq!(fetch_response.to_position_inclusive, Position::Offset(0));
    assert_eq!(fetch_response.mrecord_buffer, b"\0\0test-doc-010".to_vec());
    assert_eq!(fetch_response.mrecord_lengths, vec![14]);

    let persist_request = PersistRequest {
        leader_id: s("test-ingester-0"),
        commit_type: CommitType::Auto,
        subrequests: vec![PersistSubrequest {
            subrequest_id: 0,
            index_uid: s("test-index:0"),
            source_id: s("test-source"),
            shard_id: 1,
            follower_id: None,
            doc_batch: vec![doc("test-doc-011"), doc("test-doc-012")],
        }],
    };
    ingester.persist(persist_request).unwrap();

    let fetch_response = fetch_stream.fetch_next(&ingester.state.wal).unwrap();
    assert_eq!(fetch_response.from_position_exclusive, Position::Offset(0));
    assert_eq!(fetch_response.to_position_inclusive, Position::Offset(2));
    assert_eq!(
        fetch_response.mrecord_buffer,
        b"\0\0test-doc-011\0\0test-doc-012".to_vec()
    );
    assert_eq!(fetch_response.mrecord_lengths, vec![14, 14]);

    // nothing new: the stream waits
    assert!(fetch_stream.fetch_next(&ingester.state.wal).is_none());
}

#[test]
fn test_ingester_truncate() {
    let mut ingester = Ingester::try_new(s("test-ingester-0"), Vec::new(), Wal::new(), 1).unwrap();

    let persist_request = PersistRequest {
        leader_id: s("test-ingester-0"),
        commit_type: CommitType::Auto,
        subrequests: vec![
            PersistSubrequest {
                subrequest_id: 0,
                index_uid: s("test-index:0"),
                source_id: s("test-source"),
                shard_id: 1,
                follower_id: None,
                doc_batch: vec![doc("test-doc-010"), doc("test-doc-011")],
            },
            PersistSubrequest {
                subrequest_id: 1,
                index_uid: s("test-index:0"),
                source_id: s("test-source"),
                shard_id: 2,
                follower_id: None,
                doc_batch: vec![doc("test-doc-020")],
            },
        ],
    };
    ingester.persist(persist_request).unwrap();

    let truncate_request = TruncateRequest {
        ingester_id: s("test-ingester-0"),
        subrequests: vec![
            TruncateSubrequest {
                index_uid: s("test-index:0"),
                source_id: s("test-source"),
                shard_id: 1,
                to_position_inclusive: Position::Offset(0),
            },
            TruncateSubrequest {
                index_uid: s("test-index:0"),
                source_id: s("test-source"),
                shard_id: 2,
                to_position_inclusive: Position::Eof,
            },
            TruncateSubrequest {
                index_uid: s("test-index:1337"),
                source_id: s("test-source"),
                shard_id: 1,
                to_position_inclusive: Position::Offset(1337),
            },
        ],
    };
    ingester.truncate(truncate_request).unwrap();

    let queue_id_01 = queue_id("test-index:0", "test-source", 1);
    let queue_id_02 = queue_id("test-index:0", "test-source", 2);

    assert_eq!(ingester.state.shards.len(), 1);
    assert!(ingester.state.shards.get(&queue_id_01).is_some());
    assert!(ingester.state.shards.get(&queue_id_02).is_none());

    assert_eq!(records_of(&ingester, &queue_id_01), vec![(1, b"\0\0test-doc-011".to_vec())]);
    assert!(ingester.state.wal.range_from(&queue_id_02, 0).is_none());
}
