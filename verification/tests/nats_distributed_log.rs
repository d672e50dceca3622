use convex_cluster::commit_delta::{
    CommitDelta,
    DeltaTableIdentity,
    DocumentUpdate,
    PublicDocumentId,
    RaftNatsOutboxOrigin,
    ReplicationPoisonKind,
    TableNamespace,
    TabletId,
    Timestamp,
};
use convex_cluster::delta_envelope::{
    DeltaEnvelope,
    EnvelopeError,
    EnvelopeErrorKind,
    PayloadReadings,
    SerializedDeltaTableNamespace,
    DELTA_ENVELOPE_SCHEMA_VERSION,
};
use convex_cluster::nats_distributed_log::{
    decode_delta_envelope,
    malformed_envelope,
    validate_delta_envelope_version,
    validate_nats_delta_envelope,
    MessageOrigin,
    NatsConfig,
    NatsDistributedLog,
    Reception,
    RetentionGap,
    SkipReason,
};
use convex_cluster::ordered::SortedMap;
use convex_cluster::partition::{PartitionId, TableName, WriteSource};

fn ts(nanos: u64) -> Timestamp {
    Timestamp::from_nanos(nanos).unwrap()
}

fn empty_delta(write_source: WriteSource) -> CommitDelta {
    CommitDelta {
        ts: ts(42),
        document_writes: Vec::new(),
        document_updates: Vec::new(),
        index_writes: Vec::new(),
        write_source,
        write_bytes: 0,
        tablet_id_to_table_identity: SortedMap::new(),
        source_partition: Some(PartitionId(1)),
    }
}

fn no_readings() -> PayloadReadings {
    PayloadReadings { update_tablets: vec![], component_ids: vec![] }
}

fn named(table: &str) -> DeltaTableIdentity {
    DeltaTableIdentity::new(TableNamespace::Global, TableName::parse(table).unwrap())
}

/// A commit with one update of a table.
fn data_delta(table: &str) -> CommitDelta {
    let mut delta = empty_delta(WriteSource::new("data"));
    delta.document_updates =
        vec![DocumentUpdate { tablet_id: TabletId([5; 16]), encoded: vec![1, 2] }];
    delta.tablet_id_to_table_identity.insert(TabletId([5; 16]), named(table));
    delta
}

#[test]
fn replica_apply_filters_use_broad_partition_subjects() {
    assert_eq!(
        NatsDistributedLog::partition_filter_subjects(vec![PartitionId(0), PartitionId(2)]),
        vec!["convex.commits.0".to_string(), "convex.commits.2".to_string()],
    );
}

#[test]
fn empty_source_partition_delta_is_frontier_heartbeat() {
    let heartbeat = empty_delta(WriteSource::new("remote_read_frontier_heartbeat_test"));
    assert!(NatsDistributedLog::is_frontier_heartbeat_delta(&heartbeat));

    let mut no_source = heartbeat.clone();
    no_source.source_partition = None;
    assert!(!NatsDistributedLog::is_frontier_heartbeat_delta(&no_source));
}

#[test]
fn malformed_envelope_is_classified_as_poison() {
    let poison = malformed_envelope("invalid type: string \"broken\", expected u32");
    assert_eq!(poison.kind, ReplicationPoisonKind::MalformedEnvelope);
    assert!(poison.reason.contains("failed to deserialize delta envelope"));
}

#[test]
fn unknown_envelope_version_is_classified_as_poison() -> Result<(), EnvelopeError> {
    let delta = empty_delta(WriteSource::unknown());
    let mut envelope = DeltaEnvelope::from_delta(&delta, "source", None)?;
    envelope.schema_version = DELTA_ENVELOPE_SCHEMA_VERSION + 1;

    let poison = validate_delta_envelope_version(&envelope)
        .expect_err("unknown schema versions must be rejected");
    assert_eq!(poison.kind, ReplicationPoisonKind::UnsupportedEnvelopeVersion);
    assert!(poison.reason.contains("unsupported delta envelope schema version"));
    Ok(())
}

#[test]
fn explicit_null_origin_fields_are_not_treated_as_missing() -> Result<(), EnvelopeError> {
    let delta = empty_delta(WriteSource::unknown());
    let mut envelope = DeltaEnvelope::from_delta(&delta, "source", None)?;
    envelope.source_raft_node_id = None;
    envelope.source_partition = None;

    assert_eq!(envelope.source_raft_node_id(), None);
    assert_eq!(envelope.to_delta(no_readings())?.source_partition, None);
    Ok(())
}

#[test]
fn data_delta_requires_non_null_nats_origin_identity() -> Result<(), EnvelopeError> {
    let delta = empty_delta(WriteSource::unknown());
    let mut envelope = DeltaEnvelope::from_delta(&delta, "source", None)?;
    // The origin checks run before protobuf decoding, so an opaque payload
    // is sufficient to prove malformed origin metadata fails closed.
    let readings = || PayloadReadings {
        update_tablets: vec![Err("no document".to_string())],
        component_ids: vec![],
    };
    envelope.document_updates_proto = vec![vec![]];
    envelope.source_partition = None;
    let poison = decode_delta_envelope(envelope.clone(), readings())
        .expect_err("a data delta with null source_partition must fail closed");
    assert_eq!(poison.kind, ReplicationPoisonKind::InvalidDeltaPayload);
    assert!(poison.reason.contains("non-null source_partition"));

    envelope.source_partition = Some(1);
    envelope.source_node = String::new();
    let poison = decode_delta_envelope(envelope, readings())
        .expect_err("a NATS data delta with an empty source_node must fail closed");
    assert_eq!(poison.kind, ReplicationPoisonKind::InvalidDeltaPayload);
    assert!(poison.reason.contains("non-empty source_node"));
    Ok(())
}

#[test]
fn envelope_roundtrip_preserves_component_namespace_identity() -> Result<(), EnvelopeError> {
    let component = PublicDocumentId { text: "component-44".to_string() };
    let mut delta = empty_delta(WriteSource::unknown());
    delta.tablet_id_to_table_identity.insert(TabletId([0; 16]), named("_modules"));
    delta.tablet_id_to_table_identity.insert(
        TabletId([0xff; 16]),
        DeltaTableIdentity::new(
            TableNamespace::ByComponent(component.clone()),
            TableName::parse("_modules").unwrap(),
        ),
    );

    let envelope = DeltaEnvelope::from_delta(&delta, "source", None)?;
    assert_eq!(envelope.tablet_mapping[0].tablet_id, "00".repeat(16));
    assert_eq!(envelope.tablet_mapping[1].tablet_id, "ff".repeat(16));
    assert_eq!(
        envelope.tablet_mapping[1].namespace,
        SerializedDeltaTableNamespace::ByComponent { component_id: "component-44".to_string() }
    );
    let readings = PayloadReadings {
        update_tablets: vec![],
        component_ids: vec![Err("global".to_string()), Ok(component)],
    };
    let decoded = envelope.to_delta(readings)?;
    let identities = &decoded.tablet_id_to_table_identity;
    assert_eq!(identities.len(), 2);
    for tablet in [TabletId([0; 16]), TabletId([0xff; 16])] {
        assert_eq!(identities.get(&tablet), delta.tablet_id_to_table_identity.get(&tablet));
    }
    Ok(())
}

#[test]
fn invalid_document_proto_is_classified_as_poison() -> Result<(), EnvelopeError> {
    let delta = empty_delta(WriteSource::unknown());
    let mut envelope = DeltaEnvelope::from_delta(&delta, "source", None)?;
    envelope.document_updates_proto.push(vec![0x80]);

    let readings = PayloadReadings {
        update_tablets: vec![Err("buffer underflow".to_string())],
        component_ids: vec![],
    };
    let poison =
        decode_delta_envelope(envelope, readings).expect_err("invalid protobuf must be rejected");
    assert_eq!(poison.kind, ReplicationPoisonKind::InvalidDeltaPayload);
    assert!(poison.reason.contains("failed to decode delta payload"));
    Ok(())
}

#[test]
fn retention_gap_detects_ack_floor_behind_first_retained() {
    assert_eq!(
        NatsDistributedLog::retention_gap(10, 100, 98, 98, ts(0)),
        Some(RetentionGap {
            expected_stream_sequence: 99,
            first_retained_sequence: 100,
            ack_floor_stream_sequence: 98,
            delivered_stream_sequence: 98,
        }),
    );
}

#[test]
fn retention_gap_detects_fresh_from_beginning_after_retention() {
    assert_eq!(
        NatsDistributedLog::retention_gap(10, 2, 0, 0, ts(0)),
        Some(RetentionGap {
            expected_stream_sequence: 1,
            first_retained_sequence: 2,
            ack_floor_stream_sequence: 0,
            delivered_stream_sequence: 0,
        }),
    );
}

#[test]
fn retention_gap_allows_contiguous_resume() {
    assert_eq!(NatsDistributedLog::retention_gap(10, 99, 98, 98, ts(0)), None);
}

#[test]
fn retention_gap_allows_empty_stream() {
    assert_eq!(NatsDistributedLog::retention_gap(0, 0, 0, 0, ts(0)), None);
}

#[test]
fn retention_gap_allows_checkpointed_consumer_without_sequence() {
    assert_eq!(NatsDistributedLog::retention_gap(10, 100, 0, 0, ts(42)), None);
}

fn log(name: &str, partition: Option<u32>) -> NatsDistributedLog {
    NatsDistributedLog::new(&NatsConfig {
        url: "nats://localhost:4222".to_string(),
        consumer_name: Some(name.to_string()),
        partition_id: partition,
    })
}

fn heard() -> MessageOrigin {
    MessageOrigin { subject: "convex.commits.1".to_string(), stream_sequence: Some(17) }
}

fn data_readings() -> PayloadReadings {
    PayloadReadings {
        update_tablets: vec![Ok(TabletId([5; 16]))],
        component_ids: vec![Err("global".to_string())],
    }
}

#[test]
fn published_commits_are_delivered_to_others_once() {
    let publisher = log("node-a", Some(1));
    let delta = data_delta("messages");
    let envelope = publisher.publish(&delta).unwrap();

    let reader = log("node-b", None);
    match reader.receive(heard(), ts(41), Ok(envelope.clone()), data_readings()) {
        Reception::Deliver(got) => {
            assert_eq!(got.ts, delta.ts);
            assert_eq!(got.document_updates, delta.document_updates);
            assert_eq!(got.source_partition, delta.source_partition);
        },
        _ => panic!("not delivered"),
    }
    assert!(matches!(
        reader.receive(heard(), ts(42), Ok(envelope.clone()), data_readings()),
        Reception::Skip { reason: SkipReason::AlreadyApplied, ts: 42 }
    ));
    assert!(matches!(
        publisher.receive(heard(), ts(0), Ok(envelope), data_readings()),
        Reception::Skip { reason: SkipReason::SelfPublished, ts: 42 }
    ));
}

#[test]
fn what_cannot_be_read_stops_the_consumer() {
    let reader = log("node-b", None);
    match reader.receive(heard(), ts(0), Err("no JSON".to_string()), no_readings()) {
        Reception::Poison(gap) => {
            assert_eq!(gap.kind, ReplicationPoisonKind::MalformedEnvelope);
            assert_eq!(gap.consumer_name.as_deref(), Some("node-b"));
            assert_eq!(gap.subject.as_deref(), Some("convex.commits.1"));
            assert_eq!(gap.stream_sequence, Some(17));
            assert_eq!(gap.source_node, None);
            assert!(gap.message().starts_with("replication poison gap: failed to deserialize"));
        },
        _ => panic!("accepted"),
    }
    let mut envelope = log("node-a", Some(1)).publish(&data_delta("messages")).unwrap();
    envelope.source_node = String::new();
    assert!(validate_nats_delta_envelope(&envelope)
        .unwrap_err()
        .reason
        .starts_with("invalid NATS delta origin: "));
    assert!(matches!(
        reader.receive(heard(), ts(0), Ok(envelope), data_readings()),
        Reception::Poison(gap) if gap.kind == ReplicationPoisonKind::InvalidDeltaPayload
    ));
    let gap = NatsDistributedLog::retention_gap(10, 100, 98, 98, ts(0)).unwrap();
    let poison = reader.retention_poison(gap, ts(0));
    assert_eq!(poison.kind, ReplicationPoisonKind::RetentionGap);
    assert_eq!(poison.stream_sequence, Some(99));
}

#[test]
fn commits_go_to_the_broad_subject_first() {
    let publisher = log("node-a", Some(1));
    assert_eq!(publisher.source_node().as_deref(), Some("node-a"));
    let interested = Some(vec!["node-a".to_string(), "node-b".to_string()]);
    assert_eq!(
        publisher.publish_subjects(&data_delta("messages"), &interested),
        ["convex.commits.1", "convex.commits.node.node-b"]
    );
    assert_eq!(
        publisher.publish_subjects(&data_delta("messages"), &None),
        ["convex.commits.1"]
    );
    let system = publisher.publish_subjects(&data_delta("_modules"), &interested);
    assert_eq!(system.len(), 2);
    assert_eq!(system[0], "convex.commits.1");
    let heartbeat = publisher.publish_subjects(&empty_delta(WriteSource::unknown()), &interested);
    assert_eq!(heartbeat.len(), 2);
    assert_ne!(heartbeat[1], system[1]);
    assert_eq!(NatsDistributedLog::stream_subjects(), ["convex.commits", "convex.commits.>"]);
    assert_eq!(log("node-a", None).publish_subject, "convex.commits");
}

#[test]
fn envelopes_name_their_source() {
    let kind = |result: Result<DeltaEnvelope, EnvelopeError>| match result {
        Ok(_) => panic!("accepted"),
        Err(error) => error.kind,
    };
    let mut unidentified = data_delta("messages");
    unidentified.tablet_id_to_table_identity = SortedMap::new();
    assert_eq!(
        kind(DeltaEnvelope::from_delta(&unidentified, "node", None)),
        EnvelopeErrorKind::MissingTabletIdentity
    );
    let mut nowhere = data_delta("messages");
    nowhere.source_partition = None;
    assert_eq!(
        kind(DeltaEnvelope::from_delta(&nowhere, "node", None)),
        EnvelopeErrorKind::NoDeltaPartition
    );
    assert_eq!(
        kind(DeltaEnvelope::from_delta(&data_delta("messages"), "", None)),
        EnvelopeErrorKind::NoDeltaSource
    );
    let origin = RaftNatsOutboxOrigin::new("node-p2a".to_string(), 4, PartitionId(2)).unwrap();
    let error = DeltaEnvelope::from_raft_nats_outbox(&data_delta("messages"), &origin).unwrap_err();
    assert_eq!(error.kind, EnvelopeErrorKind::OriginPartitionMismatch);
    assert!(RaftNatsOutboxOrigin::new(String::new(), 4, PartitionId(2)).is_none());

    let origin = RaftNatsOutboxOrigin::new("node-p1a".to_string(), 4, PartitionId(1)).unwrap();
    let envelope = DeltaEnvelope::from_raft_nats_outbox(&data_delta("messages"), &origin).unwrap();
    assert_eq!(envelope.raft_nats_outbox_origin().unwrap(), origin);
    assert_eq!(envelope.raft_nats_outbox_origin_if_present().unwrap(), Some(origin));
}
