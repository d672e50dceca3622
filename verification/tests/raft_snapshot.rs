use convex_cluster::checkpoint::{
    create_checkpoint,
    CheckpointData,
    CheckpointPersistence,
    LogKey,
    DocumentLogEntry,
    InternalDocumentId,
    Order,
    PersistenceGlobalKey,
    TimeBound,
    TimestampRange,
};
use convex_cluster::commit_delta::Timestamp;
use convex_cluster::json::JsonValue;
use convex_cluster::ordered::SortedMap;
use convex_cluster::raft_snapshot::{
    decode_snapshot,
    encode_snapshot,
    load_state_machine_index,
    state_machine_index_persistence_write,
    RaftSnapshotEnvelope,
    RaftSnapshotError,
    RaftSnapshotTemporarilyUnavailable,
    RAFT_STATE_MACHINE_INDEX_KEY,
};
use convex_cluster::snapshot_checkpointer::{
    checkpoint_from_bytes,
    checkpoint_from_proto,
    checkpoint_to_bytes,
    checkpoint_to_proto,
    CheckpointError,
    SnapshotCheckpointer,
};

fn ts(nanos: u64) -> Timestamp {
    Timestamp::from_nanos(nanos).unwrap()
}

fn checkpoint(state_machine_index: u64) -> CheckpointData {
    let mut globals = SortedMap::new();
    globals.insert(
        RAFT_STATE_MACHINE_INDEX_KEY.to_string(),
        JsonValue::from_u64(state_machine_index),
    );
    CheckpointData { timestamp: ts(42), documents: Vec::new(), globals }
}

#[test]
fn test_snapshot_envelope_round_trip() -> Result<(), RaftSnapshotError> {
    let bytes = encode_snapshot(9, 3, 8, &checkpoint(8))?;
    let decoded = decode_snapshot(&bytes, 9, 3)?;
    assert_eq!(decoded.raft_index, 9);
    assert_eq!(decoded.raft_term, 3);
    assert_eq!(decoded.state_machine_index, 8);
    assert_eq!(decoded.checkpoint.timestamp, ts(42));
    Ok(())
}

#[test]
fn test_snapshot_envelope_rejects_metadata_mismatch() -> Result<(), RaftSnapshotError> {
    let bytes = encode_snapshot(9, 3, 8, &checkpoint(8))?;
    assert!(decode_snapshot(&bytes, 10, 3).is_err());
    assert!(decode_snapshot(&bytes, 9, 4).is_err());
    Ok(())
}

#[test]
fn test_snapshot_envelope_rejects_corruption() -> Result<(), RaftSnapshotError> {
    let bytes = encode_snapshot(9, 3, 8, &checkpoint(8))?;
    let mut envelope = RaftSnapshotEnvelope::decode(bytes.as_slice()).unwrap();
    envelope.checkpoint_bytes.push(0);
    assert!(decode_snapshot(&envelope.encode_to_vec(), 9, 3).is_err());
    Ok(())
}

#[test]
fn every_mismatch_has_its_error() {
    let refused = |bytes: &[u8]| decode_snapshot(bytes, 9, 3).unwrap_err();
    assert_eq!(
        encode_snapshot(7, 3, 8, &checkpoint(8)).unwrap_err(),
        RaftSnapshotError::IndexPrecedesStateMachine { raft_index: 7, state_machine_index: 8 }
    );
    let bytes = encode_snapshot(9, 3, 8, &checkpoint(8)).unwrap();
    let envelope = RaftSnapshotEnvelope::decode(&bytes).unwrap();
    assert_eq!(envelope.encode_to_vec(), bytes);

    let mut newer = envelope.clone();
    newer.format_version = 9;
    assert_eq!(
        refused(&newer.encode_to_vec()),
        RaftSnapshotError::UnsupportedVersion { version: 9 }
    );
    assert_eq!(
        decode_snapshot(&bytes, 10, 3).unwrap_err(),
        RaftSnapshotError::IndexMismatch { payload: 9, metadata: 10 }
    );
    assert_eq!(
        decode_snapshot(&bytes, 9, 4).unwrap_err(),
        RaftSnapshotError::TermMismatch { payload: 3, metadata: 4 }
    );
    let mut beyond = envelope.clone();
    beyond.state_machine_index = 10;
    assert_eq!(
        refused(&beyond.encode_to_vec()),
        RaftSnapshotError::StateMachineBeyondSnapshot { state_machine_index: 10, raft_index: 9 }
    );
    let mut altered = envelope.clone();
    altered.checkpoint_bytes.push(0);
    assert_eq!(refused(&altered.encode_to_vec()), RaftSnapshotError::DigestMismatch);
    let mut later = envelope.clone();
    later.checkpoint_timestamp = 43;
    assert_eq!(
        refused(&later.encode_to_vec()),
        RaftSnapshotError::TimestampMismatch { checkpoint: 42, envelope: 43 }
    );
    let lagging = encode_snapshot(9, 3, 8, &checkpoint(7)).unwrap();
    assert_eq!(
        refused(&lagging),
        RaftSnapshotError::StateMachineMismatch { checkpoint: 7, envelope: 8 }
    );
    assert!(decode_snapshot(&[0xff], 9, 3).is_err());
    assert!(!RaftSnapshotTemporarilyUnavailable.message().is_empty());
}

#[test]
fn the_durable_index_is_read_back() {
    let write = state_machine_index_persistence_write(77);
    assert_eq!(write.key, RAFT_STATE_MACHINE_INDEX_KEY);
    assert_eq!(write.value.as_str(), "77");
    assert_eq!(load_state_machine_index(&Some(write.value)), Ok(77));
    assert_eq!(load_state_machine_index(&None), Ok(0));
    let odd = JsonValue::parse("\"x\"").unwrap();
    assert!(load_state_machine_index(&Some(odd)).is_err());
}

fn document(id: u8, at: u64, value: Option<Vec<u8>>, prev: Option<u64>) -> DocumentLogEntry {
    DocumentLogEntry {
        ts: ts(at),
        id: InternalDocumentId::from_bytes(&[id; 32]).unwrap(),
        value,
        prev_ts: prev.map(ts),
    }
}

#[test]
fn checkpoints_survive_their_bytes() -> Result<(), CheckpointError> {
    let mut globals = SortedMap::new();
    globals.insert("b".to_string(), JsonValue::parse("{\"x\": [1, null]}").unwrap());
    globals.insert("a".to_string(), JsonValue::from_u64(u64::MAX));
    let stored = CheckpointData {
        timestamp: ts(9),
        documents: vec![
            document(1, 3, Some(vec![0xff; 300]), None),
            document(2, 0, None, Some(0)),
        ],
        globals,
    };
    let read = checkpoint_from_bytes(&checkpoint_to_bytes(&stored))?;
    assert_eq!(read.timestamp, stored.timestamp);
    assert_eq!(read.documents, stored.documents);
    assert_eq!(read.globals.len(), 2);
    assert_eq!(read.globals.get(&"b".to_string()).unwrap().as_str(), "{\"x\":[1,null]}");
    assert_eq!(
        read.globals.get(&"a".to_string()).unwrap().as_u64(),
        Some(u64::MAX)
    );
    assert_eq!(
        checkpoint_from_bytes(&[0x0a]).err(),
        Some(CheckpointError::Undecodable)
    );
    Ok(())
}

#[test]
fn checkpoints_are_stored_under_their_time() {
    let objects = SnapshotCheckpointer::objects(&checkpoint(1));
    assert_eq!(objects.key, "checkpoint-42");
    assert_eq!(objects.latest, b"checkpoint-42");
    assert_eq!(objects.body, checkpoint_to_bytes(&checkpoint(1)));
    assert_eq!(SnapshotCheckpointer::checkpoint_timestamp(Some(ts(3))), Ok(ts(3)));
    assert_eq!(
        SnapshotCheckpointer::checkpoint_timestamp(None),
        Err(CheckpointError::NoData)
    );
    assert_eq!(SnapshotCheckpointer::new().interval_ms, 30_000);
}

#[test]
fn a_checkpoint_can_be_read_like_a_store() {
    let values = vec![Some(JsonValue::from_u64(5)), None, None, None, None];
    let data = create_checkpoint(
        ts(9),
        vec![
            document(1, 5, Some(vec![2]), Some(3)),
            document(1, 3, Some(vec![1]), None),
            document(2, 4, None, None),
        ],
        &values,
    );
    let store = CheckpointPersistence::from_checkpoint(data, 12);
    assert!(!store.is_fresh());
    assert_eq!(store.version(), 12);
    let times = |order| {
        let range = TimestampRange { start: TimeBound::Excluded(ts(3)), end: TimeBound::Unbounded };
        let found = store.load_documents(range, order);
        found.iter().map(|entry| entry.ts.nanos()).collect::<Vec<u64>>()
    };
    assert_eq!(times(Order::Asc), [4, 5]);
    assert_eq!(times(Order::Desc), [5, 4]);
    let id = InternalDocumentId::from_bytes(&[1; 32]).unwrap();
    assert_eq!(store.previous_revision(id, ts(5)).unwrap().value, Some(vec![1]));
    assert_eq!(store.previous_revision(id, ts(3)), None);
    assert_eq!(store.revision_at(id, ts(5)).unwrap().value, Some(vec![2]));
    assert_eq!(store.revision_at(id, ts(4)), None);
    let queries = vec![
        LogKey { ts: ts(5), id },
        LogKey { ts: ts(3), id },
        LogKey { ts: ts(4), id: InternalDocumentId::from_bytes(&[2; 32]).unwrap() },
    ];
    let before = store.previous_revisions(&queries);
    assert_eq!(before.len(), 1);
    assert_eq!((before[0].0.ts, before[0].1.ts), (ts(5), ts(3)));
    let at = store.previous_revisions_of_documents(&queries);
    assert_eq!(at.iter().map(|(_, entry)| entry.ts.nanos()).collect::<Vec<u64>>(), [5, 3, 4]);
    let name = PersistenceGlobalKey::MaxRepeatableTimestamp.to_name();
    assert_eq!(store.get_persistence_global(&name).unwrap().as_u64(), Some(5));
    let missing = PersistenceGlobalKey::IndexByIdIndex.to_name();
    assert!(store.get_persistence_global(&missing).is_none());
}

#[test]
fn checkpoints_survive_their_messages() {
    let mut globals = SortedMap::new();
    globals.insert("a".to_string(), JsonValue::parse("\"tables\"").unwrap());
    let stored = CheckpointData {
        timestamp: ts(9),
        documents: vec![
            document(1, 3, Some(vec![]), None),
            document(2, 0, None, Some(0)),
        ],
        globals,
    };
    let message = checkpoint_to_proto(&stored);
    let read = checkpoint_from_proto(message.clone()).unwrap();
    assert_eq!(read.timestamp, stored.timestamp);
    assert_eq!(read.documents, stored.documents);
    assert_eq!(read.globals.get(&"a".to_string()).unwrap().as_str(), "\"tables\"");

    let mut misnamed = message;
    misnamed.documents[1].id_bytes.pop();
    assert_eq!(
        checkpoint_from_proto(misnamed).err(),
        Some(CheckpointError::DocumentIdLength { len: 31 })
    );
}

#[test]
fn snapshots_are_read_at_their_place_only() {
    let bytes = encode_snapshot(9, 3, 8, &checkpoint(8)).unwrap();
    for (index, term, is_there) in [(9, 3, true), (8, 3, false), (9, 2, false), (10, 4, false)] {
        assert_eq!(decode_snapshot(&bytes, index, term).is_ok(), is_there);
    }
    let other = encode_snapshot(9, 3, 7, &checkpoint(8)).unwrap();
    assert!(decode_snapshot(&other, 9, 3).is_err());
}

#[test]
fn every_value_survives_its_bytes() {
    let values = [
        "{\"node-1\":5}",
        "\"a.b\"",
        "\"1e5 \\\" 2.5\"",
        "[\"\\u0000\",true,false,null]",
        "-9223372036854775808",
        "18446744073709551615",
        "{}",
        "{\"a.e\":[[],{}]}",
    ];
    let mut globals = SortedMap::new();
    for (place, value) in values.iter().enumerate() {
        globals.insert(format!("global-{place}"), JsonValue::parse(value).unwrap());
    }
    globals.insert(RAFT_STATE_MACHINE_INDEX_KEY.to_string(), JsonValue::from_u64(8));
    let stored = CheckpointData { timestamp: ts(42), documents: Vec::new(), globals };

    let read = checkpoint_from_bytes(&checkpoint_to_bytes(&stored)).unwrap();
    let sent = encode_snapshot(9, 3, 8, &stored).unwrap();
    let received = decode_snapshot(&sent, 9, 3).unwrap().checkpoint;
    for back in [read, received] {
        assert_eq!(back.globals.len(), values.len() + 1);
        for (place, value) in values.iter().enumerate() {
            let name = format!("global-{place}");
            assert_eq!(back.globals.get(&name).unwrap().as_str(), *value);
        }
    }
}
