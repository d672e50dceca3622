use convex_cluster::checkpoint::CheckpointData;
use convex_cluster::cluster_genesis::canonicalize_checkpoint;
use convex_cluster::commit_delta::{CommitDelta, RaftNatsOutboxOrigin, Timestamp};
use convex_cluster::delta_envelope::PayloadReadings;
use convex_cluster::json::JsonValue;
use convex_cluster::ordered::SortedMap;
use convex_cluster::partition::{PartitionId, WriteSource};
use convex_cluster::raft_state_machine::{
    EntryError,
    RaftStateMachineEntry,
    TwoPhaseRedoEntry,
    TwoPhaseTransactionId,
};

fn delta(ts: u64, source: &str, partition: u32) -> CommitDelta {
    CommitDelta {
        ts: Timestamp::from_nanos(ts).unwrap(),
        document_writes: Vec::new(),
        document_updates: Vec::new(),
        index_writes: Vec::new(),
        write_source: WriteSource::new(source),
        write_bytes: 0,
        tablet_id_to_table_identity: SortedMap::new(),
        source_partition: Some(PartitionId(partition)),
    }
}

fn origin(node: &str, raft_node: u64, partition: u32) -> RaftNatsOutboxOrigin {
    RaftNatsOutboxOrigin::new(node.to_string(), raft_node, PartitionId(partition)).unwrap()
}

#[test]
fn commit_delta_entry_roundtrips() {
    let delta = delta(7, "raft-entry-test", 0);
    let entry =
        RaftStateMachineEntry::commit_delta(&delta, 3, Some(&origin("node-p0a", 3, 0))).unwrap();
    entry.validate_transport().unwrap();
    match entry {
        RaftStateMachineEntry::CommitDelta { envelope } => {
            assert_eq!(envelope.source_raft_node_id(), Some(3));
            let readings = PayloadReadings { update_tablets: vec![], component_ids: vec![] };
            assert_eq!(envelope.to_delta(readings).unwrap().ts, delta.ts);
        },
        _ => panic!("expected commit delta entry"),
    }
}

#[test]
fn raft_data_entry_requires_non_null_origin_fields() {
    let delta = delta(8, "raft-origin-fields-test", 1);
    let entry =
        RaftStateMachineEntry::commit_delta(&delta, 4, Some(&origin("node-p1a", 4, 1))).unwrap();
    let RaftStateMachineEntry::CommitDelta { mut envelope } = entry else {
        panic!("expected commit delta entry")
    };
    envelope.document_updates_proto = vec![vec![]];
    envelope.source_raft_node_id = None;
    let error = RaftStateMachineEntry::CommitDelta { envelope: envelope.clone() }
        .validate_transport()
        .expect_err("Raft data entry with null proposer must fail closed");
    assert!(error.message().contains("source_raft_node_id"));

    envelope.source_raft_node_id = Some(4);
    envelope.source_partition = None;
    let error = RaftStateMachineEntry::CommitDelta { envelope }
        .validate_transport()
        .expect_err("Raft data entry with null partition must fail closed");
    assert!(error.message().contains("source_partition"));
}

#[test]
fn cluster_genesis_entry_roundtrips() {
    let payload = canonicalize_checkpoint(CheckpointData {
        timestamp: Timestamp::from_nanos(9).unwrap(),
        documents: Vec::new(),
        globals: SortedMap::new(),
    });
    let entry = RaftStateMachineEntry::cluster_genesis(&payload);
    entry.validate_transport().unwrap();
    match entry {
        RaftStateMachineEntry::ClusterGenesis { manifest, checkpoint_base64 } => {
            assert_eq!(manifest, payload.manifest);
            assert_eq!(base64::decode(&checkpoint_base64).unwrap(), payload.checkpoint_bytes);
            assert_eq!(checkpoint_base64.len(), 4 * ((payload.checkpoint_bytes.len() + 2) / 3));
            assert!(checkpoint_base64.starts_with("CAka"), "{checkpoint_base64}");
        },
        _ => panic!("expected cluster genesis entry"),
    }
}

#[test]
fn two_phase_rollback_entry_roundtrips() {
    let transaction_id = TwoPhaseTransactionId { text: "transaction-1".to_string() };
    let entry = RaftStateMachineEntry::two_phase_rollback(transaction_id.clone());
    entry.validate_transport().unwrap();
    match entry {
        RaftStateMachineEntry::TwoPhaseRollback { transaction_id: decoded } => {
            assert_eq!(decoded, transaction_id)
        },
        _ => panic!("expected 2PC rollback entry"),
    }
    let redo = TwoPhaseRedoEntry { json: JsonValue::from_u64(5) };
    assert!(matches!(
        RaftStateMachineEntry::two_phase_prepare(redo.clone()),
        RaftStateMachineEntry::TwoPhasePrepare { redo: kept } if kept == redo
    ));
}

#[test]
fn a_proposer_is_the_member_that_the_origin_names() {
    let delta = delta(7, "raft-entry-test", 0);
    let error =
        RaftStateMachineEntry::commit_delta(&delta, 4, Some(&origin("node-p0a", 3, 0)))
            .unwrap_err();
    assert_eq!(error, EntryError::ProposerMismatch);
    assert_eq!(
        error.message(),
        "Raft proposer ID does not match durable NATS outbox origin"
    );
    let entry = RaftStateMachineEntry::commit_delta(&delta, 4, None).unwrap();
    let RaftStateMachineEntry::CommitDelta { envelope } = entry else {
        panic!("expected commit delta entry")
    };
    assert_eq!(envelope.source_node, "");
    assert_eq!(envelope.source_raft_node_id(), Some(4));
    assert!(matches!(
        RaftStateMachineEntry::commit_delta(&delta, 3, Some(&origin("node-p1a", 3, 1))),
        Err(EntryError::Envelope(_))
    ));
}
