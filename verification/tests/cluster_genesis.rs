use convex_cluster::checkpoint::{CheckpointData, PersistenceGlobalKey};
use convex_cluster::cluster_genesis::{
    accept_payload,
    canonicalize_checkpoint,
    validate_manifest,
    validate_payload,
    ClusterGenesisManifest,
    ClusterGenesisMarker,
    ClusterReadiness,
    GenesisError,
    NatsClusterGenesisStore,
};
use convex_cluster::commit_delta::Timestamp;
use convex_cluster::json::JsonValue;
use convex_cluster::ordered::SortedMap;
use convex_cluster::partition::PartitionId;
use convex_cluster::snapshot_checkpointer::CheckpointError;

fn checkpoint() -> CheckpointData {
    let mut globals = SortedMap::new();
    globals.insert(
        PersistenceGlobalKey::TablesTabletId.to_name(),
        JsonValue::parse("\"tables\"").unwrap(),
    );
    globals.insert(
        PersistenceGlobalKey::ReplicationFrontiers.to_name(),
        JsonValue::parse("{\"0\": 9}").unwrap(),
    );
    CheckpointData {
        timestamp: Timestamp::from_nanos(7).unwrap(),
        documents: Vec::new(),
        globals,
    }
}

#[test]
fn canonical_payload_is_stable_and_strips_node_local_progress() -> Result<(), GenesisError> {
    let first = canonicalize_checkpoint(checkpoint());
    let second = canonicalize_checkpoint(checkpoint());
    assert_eq!(first, second);

    let decoded = validate_payload(&first.manifest, &first.checkpoint_bytes)?;
    assert!(!decoded
        .globals
        .contains_key(&PersistenceGlobalKey::ReplicationFrontiers.to_name()));
    let marker = ClusterGenesisMarker::parse(
        decoded.globals.get(&PersistenceGlobalKey::ClusterGenesis.to_name()).unwrap(),
    )?;
    assert_eq!(marker.genesis_id, first.manifest.genesis_id);
    assert_eq!(
        decoded
            .globals
            .get(&PersistenceGlobalKey::TablesTabletId.to_name())
            .unwrap()
            .as_str(),
        "\"tables\""
    );
    Ok(())
}

#[test]
fn payload_corruption_fails_closed() {
    let mut payload = canonicalize_checkpoint(checkpoint());
    payload.checkpoint_bytes.push(0);
    let error = match validate_payload(&payload.manifest, &payload.checkpoint_bytes) {
        Ok(_) => panic!("corrupt payload unexpectedly validated"),
        Err(error) => error,
    };
    assert!(error.message().contains("digest does not match"));
}

#[test]
fn the_genesis_of_a_genesis_is_the_same() -> Result<(), GenesisError> {
    let first = canonicalize_checkpoint(checkpoint());
    let decoded = validate_payload(&first.manifest, &first.checkpoint_bytes)?;
    assert_eq!(canonicalize_checkpoint(decoded), first);
    Ok(())
}

#[test]
fn progress_does_not_change_the_genesis() {
    let mut ahead = checkpoint();
    ahead.globals.insert(
        PersistenceGlobalKey::AppliedDataDeltaIds.to_name(),
        JsonValue::parse("[1,2]").unwrap(),
    );
    ahead.globals.remove(&PersistenceGlobalKey::ReplicationFrontiers.to_name());
    assert_eq!(canonicalize_checkpoint(ahead), canonicalize_checkpoint(checkpoint()));
    let mut other = checkpoint();
    other.timestamp = Timestamp::from_nanos(8).unwrap();
    assert_ne!(canonicalize_checkpoint(other), canonicalize_checkpoint(checkpoint()));
}

fn parsed(json: &str) -> Result<ClusterGenesisMarker, GenesisError> {
    ClusterGenesisMarker::parse(&JsonValue::parse(json).unwrap())
}

#[test]
fn markers_are_read_strictly() {
    let marker = parsed("{\"genesis_id\":\"abc\",\"format_version\":1}").unwrap();
    assert_eq!((marker.format_version, marker.genesis_id.as_str()), (1, "abc"));
    assert_eq!(parsed("[1,\"abc\"]").unwrap().genesis_id, "abc");
    for malformed in [
        "{}",
        "7",
        "[1]",
        "[1,\"abc\",2]",
        "{\"format_version\":1}",
        "{\"format_version\":\"1\",\"genesis_id\":\"a\"}",
        "{\"format_version\":4294967296,\"genesis_id\":\"a\"}",
        "{\"format_version\":1,\"genesis_id\":2}",
    ] {
        assert_eq!(parsed(malformed), Err(GenesisError::MalformedMarker), "{malformed}");
    }
    assert_eq!(
        parsed("{\"format_version\":2,\"genesis_id\":\"a\"}").unwrap_err().message(),
        "Unsupported cluster genesis format version 2"
    );
    assert_eq!(
        parsed("{\"format_version\":1,\"genesis_id\":\"\"}").unwrap_err().message(),
        "Cluster genesis ID must not be empty"
    );
}

fn manifest(id: &str, sum: &str) -> ClusterGenesisManifest {
    ClusterGenesisManifest {
        format_version: 1,
        genesis_id: id.to_string(),
        payload_sha256: sum.to_string(),
    }
}

#[test]
fn manifests_are_checked() {
    assert_eq!(validate_manifest(&manifest("a", "b")), Ok(()));
    let mut newer = manifest("a", "b");
    newer.format_version = 3;
    assert_eq!(
        validate_manifest(&newer).unwrap_err().message(),
        "Unsupported cluster genesis manifest version 3"
    );
    assert_eq!(
        validate_manifest(&manifest("", "b")).unwrap_err().message(),
        "Cluster genesis manifest ID must not be empty"
    );
    assert_eq!(
        validate_manifest(&manifest("a", "")).unwrap_err().message(),
        "Cluster genesis payload digest must not be empty"
    );
}

#[test]
fn payloads_need_their_marker() {
    let m = manifest("a", "sum");
    let refused = |held, marker| match accept_payload(&m, "sum", held, marker) {
        Ok(_) => panic!("accepted"),
        Err(error) => error.message(),
    };
    assert_eq!(
        refused(Err(CheckpointError::Undecodable), None),
        "Failed to decode cluster genesis checkpoint: Failed to decode checkpoint"
    );
    assert_eq!(
        refused(Ok(checkpoint()), None),
        "Cluster genesis checkpoint is missing its durable marker"
    );
    let other = ClusterGenesisMarker { format_version: 1, genesis_id: "b".to_string() };
    assert_eq!(
        refused(Ok(checkpoint()), Some(Ok(other))),
        "Cluster genesis checkpoint ID b does not match manifest a"
    );
    let own = ClusterGenesisMarker { format_version: 1, genesis_id: "a".to_string() };
    assert!(accept_payload(&m, "sum", Ok(checkpoint()), Some(Ok(own))).is_ok());
}

#[test]
fn keys_hold_the_digest_of_the_secret() {
    let store = NatsClusterGenesisStore::new(b"abc");
    // The SHA-256 digest of "abc".
    let name = "ba7816bf8f01cfea414140de5dae2223b00361a396177a9cb410ff61f20015ad";
    assert_eq!(store.manifest_key(), name);
    assert_eq!(store.payload_key("id"), format!("{name}-id"));
    assert_eq!(store.partition_ready_key(PartitionId(3)), format!("{name}.partition.3"));
}

#[test]
fn a_published_genesis_is_never_replaced() {
    let store = NatsClusterGenesisStore::new(b"abc");
    let mine = manifest("mine", "m");
    let theirs = manifest("theirs", "t");
    assert_eq!(store.publish_manifest(&mine, &None), Ok(true));
    assert_eq!(store.publish_manifest(&mine, &Some(mine.clone())), Ok(false));
    assert_eq!(
        store.publish_manifest(&mine, &Some(theirs.clone())).unwrap_err().message(),
        "Cluster already has genesis theirs, refusing conflicting genesis mine"
    );
    assert_eq!(store.publication_lost(&mine, &Some(mine.clone())), Ok(()));
    assert_eq!(
        store.publication_lost(&mine, &Some(theirs.clone())).unwrap_err().message(),
        "Concurrent cluster genesis theirs conflicts with mine"
    );
    assert_eq!(
        store.publication_lost(&mine, &None).unwrap_err().message(),
        "Cluster genesis manifest disappeared after create race"
    );

    let partition = PartitionId(2);
    assert_eq!(store.mark_partition_ready(partition, &mine, &None), Ok(true));
    assert_eq!(store.mark_partition_ready(partition, &mine, &Some(mine.clone())), Ok(false));
    assert_eq!(
        store
            .mark_partition_ready(partition, &mine, &Some(theirs.clone()))
            .unwrap_err()
            .message(),
        "Partition partition-2 reports conflicting cluster genesis theirs"
    );
    assert_eq!(store.readiness_lost(&mine, &Some(mine.clone())), Ok(()));
    assert_eq!(
        store.readiness_lost(&mine, &Some(theirs)).unwrap_err().message(),
        "Partition genesis race conflicted"
    );
    assert_eq!(
        store.readiness_lost(&mine, &None).unwrap_err().message(),
        "Partition genesis readiness disappeared after create race"
    );
}

#[test]
fn payloads_are_uploaded_once() {
    let store = NatsClusterGenesisStore::new(b"abc");
    let payload = canonicalize_checkpoint(checkpoint());
    assert_eq!(store.put_payload(&payload, None), Ok(true));
    assert_eq!(store.put_payload(&payload, Some(payload.checkpoint_bytes.clone())), Ok(false));
    assert_eq!(
        store.put_payload(&payload, Some(vec![1])),
        Err(GenesisError::DigestMismatch)
    );
    let mut lying = payload.clone();
    lying.checkpoint_bytes.push(1);
    let key = store.payload_key(&payload.manifest.genesis_id);
    assert_eq!(
        store
            .put_payload(&lying, Some(payload.checkpoint_bytes.clone()))
            .unwrap_err()
            .message(),
        format!("Cluster genesis object {key} already contains different bytes")
    );
    assert_eq!(store.load_payload(&payload.manifest, None), Ok(None));
}

#[test]
fn a_cluster_is_ready_when_all_partitions_agree() {
    let store = NatsClusterGenesisStore::new(b"abc");
    let mine = manifest("mine", "m");
    let mark = || Some(mine.clone());
    let ready = |n, marks: &Vec<Option<ClusterGenesisManifest>>| {
        store.all_partitions_ready(n, marks, &mine)
    };
    assert_eq!(ready(0, &vec![]), Ok(ClusterReadiness::Ready));
    assert_eq!(ready(2, &vec![]), Ok(ClusterReadiness::Read { partition: 0 }));
    assert_eq!(ready(2, &vec![mark()]), Ok(ClusterReadiness::Read { partition: 1 }));
    assert_eq!(ready(2, &vec![mark(), mark()]), Ok(ClusterReadiness::Ready));
    assert_eq!(ready(2, &vec![None]), Ok(ClusterReadiness::NotReady));
    assert_eq!(
        ready(2, &vec![mark(), Some(manifest("theirs", "t"))]).unwrap_err().message(),
        "Partition 1 is ready on conflicting genesis theirs"
    );
}

#[test]
fn values_of_a_genesis_are_read_back() -> Result<(), GenesisError> {
    let mut stored = checkpoint();
    stored.globals.insert("owners".to_string(), JsonValue::parse("{\"node-1\":5}").unwrap());
    stored.globals.insert("address".to_string(), JsonValue::parse("\"a.b\"").unwrap());
    let payload = canonicalize_checkpoint(stored);
    let read = validate_payload(&payload.manifest, &payload.checkpoint_bytes)?;
    assert_eq!(read.globals.get(&"owners".to_string()).unwrap().as_str(), "{\"node-1\":5}");
    assert_eq!(read.globals.get(&"address".to_string()).unwrap().as_str(), "\"a.b\"");
    Ok(())
}
