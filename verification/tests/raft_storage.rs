use convex_cluster::checkpoint::CheckpointData;
use convex_cluster::commit_delta::Timestamp;
use convex_cluster::json::JsonValue;
use convex_cluster::ordered::SortedMap;
use convex_cluster::partition::PartitionId;
use convex_cluster::raft_node::EntryKind;
use convex_cluster::raft_snapshot::{
    decode_snapshot,
    encode_snapshot,
    RAFT_STATE_MACHINE_INDEX_KEY,
};
use convex_cluster::raft_storage::{
    ConfState,
    ConvexRaftStorage,
    HardState,
    LogEntry,
    RaftStorageError,
    RegionState,
    RegionWrite,
    Snapshot,
};

/// The bytes of a snapshot at a place in the log.
fn snapshot_bytes(index: u64, term: u64) -> Vec<u8> {
    let mut globals = SortedMap::new();
    globals.insert(RAFT_STATE_MACHINE_INDEX_KEY.to_string(), JsonValue::from_u64(index));
    let checkpoint = CheckpointData {
        timestamp: Timestamp::from_nanos(index.max(1)).unwrap(),
        documents: Vec::new(),
        globals,
    };
    encode_snapshot(index, term, index, &checkpoint).unwrap()
}

fn test_snapshot(index: u64, term: u64, voters: Vec<u64>) -> Snapshot {
    Snapshot {
        index,
        term,
        conf_state: ConfState::of_voters(voters),
        data: snapshot_bytes(index, term),
    }
}

/// Opens the storage of a group over what was kept of it.
fn open(partition: u32, kept: RegionState, peers: Vec<u64>) -> ConvexRaftStorage {
    let (mut storage, batch) = ConvexRaftStorage::new(PartitionId(partition), kept, peers);
    storage.written(&batch);
    storage
}

/// The storage after a restart.
fn reopen(storage: &ConvexRaftStorage, peers: Vec<u64>) -> ConvexRaftStorage {
    open(storage.partition_id().0, storage.region().clone(), peers)
}

/// Stages a snapshot and installs it at once.
fn apply_snapshot(storage: &mut ConvexRaftStorage, snapshot: &Snapshot) {
    let batch = storage.stage_snapshot(snapshot, None).unwrap();
    storage.written(&batch);
    let (batch, _) = storage.commit_pending_snapshot_install().unwrap();
    storage.written(&batch);
}

fn entry(index: u64, term: u64, data: &[u8]) -> LogEntry {
    LogEntry { index, term, kind: EntryKind::Normal, data: data.to_vec(), context: Vec::new() }
}

#[test]
fn test_create_storage() {
    let storage = open(0, RegionState::new(), vec![1, 2, 3]);
    assert_eq!(storage.partition_id(), PartitionId(0));
    assert_eq!(storage.first_index(None), 1);
    assert_eq!(storage.last_index(None), 0);
    assert_eq!(storage.region_id(), open(0, RegionState::new(), vec![]).region_id());
}

#[test]
fn test_append_and_read_entries() {
    let storage = open(0, RegionState::new(), vec![1]);
    let batch = storage.append_entries(vec![entry(1, 1, b"test data")]);
    assert_eq!(batch.len(), 1);
    match &batch[0] {
        RegionWrite::Entries(entries) => {
            assert_eq!(entries.len(), 1);
            assert_eq!(entries[0].data, b"test data");
        },
        other => panic!("{other:?}"),
    }
    assert!(storage.append_entries(vec![]).is_empty());
    assert_eq!(storage.check_entries(1, Some(1)), Ok(()));
    assert_eq!(storage.check_entries(1, Some(2)), Err(RaftStorageError::Compacted));
}

#[test]
fn test_hardstate_persistence() {
    let mut storage = open(0, RegionState::new(), vec![1]);
    assert_eq!(storage.hard_state(), HardState { term: 0, vote: 0, commit: 0 });
    let batch = storage.set_hardstate(HardState { term: 5, vote: 2, commit: 10 });
    storage.written(&batch);

    let retrieved = storage.hard_state();
    assert_eq!(retrieved.term, 5);
    assert_eq!(retrieved.vote, 2);
    assert_eq!(retrieved.commit, 10);
}

#[test]
fn test_applied_index_persistence() {
    let mut storage = open(0, RegionState::new(), vec![1]);
    assert_eq!(storage.applied_index(), Ok(0));
    let batch = storage.set_applied_index(7);
    storage.written(&batch);
    assert_eq!(storage.applied_index(), Ok(7));
}

#[test]
fn test_initial_state_with_peers() {
    let storage = open(1, RegionState::new(), vec![1, 2, 3]);
    let (_, conf_state) = storage.initial_state();
    assert_eq!(conf_state.voters, vec![1, 2, 3]);
}

#[test]
fn test_clones_share_configuration_updates_and_snapshot_membership() {
    let mut storage = open(0, RegionState::new(), vec![1]);
    let batch = storage
        .set_conf_state_and_applied_index(&ConfState::of_voters(vec![1, 2]), 1)
        .unwrap();
    storage.written(&batch);
    assert_eq!(storage.initial_state().1.voters, vec![1, 2]);

    apply_snapshot(&mut storage, &test_snapshot(2, 2, vec![2, 3]));
    assert_eq!(storage.initial_state().1.voters, vec![2, 3]);
    assert_eq!(storage.applied_index(), Ok(2));
}

#[test]
fn test_state_survives_reopen() {
    let mut storage = open(0, RegionState::new(), vec![1, 2, 3]);
    let hs = HardState { term: 1, vote: 1, commit: 1 };
    let batch = storage.append_entries_and_hardstate(vec![entry(1, 1, b"persisted")], hs);
    assert_eq!(batch.len(), 2, "entries and hard state go in one batch");
    storage.written(&batch);

    let reopened = reopen(&storage, vec![1, 2, 3]);
    let (hard_state, conf_state) = reopened.initial_state();
    assert_eq!(hard_state.term, 1);
    assert_eq!(hard_state.vote, 1);
    assert_eq!(conf_state.voters, vec![1, 2, 3]);
    assert_eq!(reopened.last_index(Some(1)), 1);
}

#[test]
fn test_snapshot_persists_and_reloads() {
    let mut source = open(0, RegionState::new(), vec![1, 2, 3]);
    let batch = source.set_hardstate(HardState { term: 2, vote: 0, commit: 5 });
    source.written(&batch);
    assert!(
        source.snapshot_place(true).is_err(),
        "snapshot must not use commit index before applied index is persisted",
    );
    let batch = source.set_applied_index(5);
    source.written(&batch);
    let index = source.snapshot_place(true).unwrap();
    let term = source.term(index, Some(2)).unwrap();
    let snapshot = source.snapshot(index, term, snapshot_bytes(index, term));
    assert_eq!(snapshot.index, 5);
    assert_eq!(snapshot.term, 2);
    let decoded = decode_snapshot(&snapshot.data, 5, 2).unwrap();
    assert_eq!(decoded.state_machine_index, 5);

    let mut destination = open(0, RegionState::new(), vec![1, 2, 3]);
    apply_snapshot(&mut destination, &snapshot);
    for storage in [&destination, &reopen(&destination, vec![1, 2, 3])] {
        assert_eq!(storage.first_index(None), 6);
        assert_eq!(storage.last_index(None), 5);
        assert_eq!(storage.term(5, None), Ok(2));
        assert_eq!(storage.applied_index(), Ok(5));
        assert_eq!(storage.hard_state().commit, 5);
        assert!(storage.pending_snapshot_install().unwrap().is_none());
    }
}

#[test]
fn test_staged_snapshot_survives_restart_and_finalize_retry() {
    let snapshot = test_snapshot(5, 2, vec![1, 2, 3]);
    let mut storage = open(0, RegionState::new(), vec![1, 2, 3]);
    let batch = storage.set_applied_index(2);
    storage.written(&batch);
    let batch = storage.stage_snapshot(&snapshot, None).unwrap();
    storage.written(&batch);
    assert_eq!(storage.applied_index(), Ok(2));
    assert_eq!(storage.pending_snapshot_install().unwrap().unwrap().snapshot, snapshot);

    let mut restarted = reopen(&storage, vec![1, 2, 3]);
    // A batch that is not written changes nothing.
    let (_lost, index) = restarted.commit_pending_snapshot_install().unwrap();
    assert_eq!(index, 5);
    assert_eq!(restarted.applied_index(), Ok(2));
    assert!(restarted.pending_snapshot_install().unwrap().is_some());

    let (batch, index) = restarted.commit_pending_snapshot_install().unwrap();
    assert_eq!(index, 5);
    restarted.written(&batch);
    assert_eq!(restarted.applied_index(), Ok(5));
    assert_eq!(restarted.hard_state().commit, 5);
    assert!(restarted.pending_snapshot_install().unwrap().is_none());
}

#[test]
fn test_snapshot_stage_rejects_stale_mismatched_and_competing_generations() {
    let mut storage = open(0, RegionState::new(), vec![1, 2, 3]);
    let batch = storage.set_applied_index(5);
    storage.written(&batch);

    let stale = test_snapshot(5, 2, vec![1, 2, 3]);
    assert!(storage.stage_snapshot(&stale, None).is_err());

    let mut mismatched = test_snapshot(6, 2, vec![1, 2, 3]);
    mismatched.index = 7;
    assert!(storage.stage_snapshot(&mismatched, None).is_err());

    let accepted = test_snapshot(6, 2, vec![1, 2, 3]);
    let batch = storage.stage_snapshot(&accepted, None).unwrap();
    storage.written(&batch);
    let batch = storage.stage_snapshot(&accepted, None).unwrap();
    storage.written(&batch);
    let competing = test_snapshot(7, 2, vec![1, 2, 3]);
    assert!(storage.stage_snapshot(&competing, None).is_err());
}

#[test]
fn every_refusal_has_its_error() {
    let mut storage = open(0, RegionState::new(), vec![1]);
    assert_eq!(
        storage.commit_pending_snapshot_install().unwrap_err(),
        RaftStorageError::NothingStaged
    );
    assert_eq!(storage.term(4, None), Err(RaftStorageError::Compacted));
    assert_eq!(storage.term(0, None), Ok(0));
    assert_eq!(
        storage.snapshot_place(false),
        Err(RaftStorageError::SnapshotTemporarilyUnavailable)
    );
    let batch = storage.set_applied_index(9);
    storage.written(&batch);
    assert_eq!(
        storage
            .set_conf_state_and_applied_index(&ConfState::of_voters(vec![1]), 8)
            .unwrap_err(),
        RaftStorageError::AppliedIndexBackwards
    );
    assert_eq!(
        storage.stage_snapshot(&test_snapshot(9, 1, vec![1]), None).unwrap_err().message(),
        "Rejecting stale Raft snapshot at index 9 because durable applied index is 9"
    );
    storage.written(&vec![RegionWrite::AppliedIndex(vec![1, 2])]);
    let error = storage.applied_index().unwrap_err();
    assert_eq!(error, RaftStorageError::InvalidAppliedIndex { raw: vec![1, 2] });
    assert_eq!(error.message(), "Invalid Raft applied index value: [1, 2]");
    storage.written(&vec![RegionWrite::AppliedIndex(vec![])]);
    assert_eq!(
        storage.applied_index().unwrap_err().message(),
        "Invalid Raft applied index value: []"
    );

    let mut half = open(0, RegionState::new(), vec![1]);
    half.written(&vec![RegionWrite::PendingSnapshot(test_snapshot(3, 1, vec![1]))]);
    assert_eq!(
        half.pending_snapshot_install().unwrap_err(),
        RaftStorageError::IncompleteIntent
    );
    let members = half.set_conf_state(&ConfState::of_voters(vec![4]));
    half.written(&members);
    assert_eq!(half.conf_state().voters, vec![4]);
}

#[test]
fn entries_are_written_whole() {
    let storage = open(0, RegionState::new(), vec![1]);
    let mut first = entry(1, 1, b"first");
    first.context = vec![9, 8, 7];
    let written = [first, entry(2, 1, b"second")];
    match &storage.append_entries(written.to_vec())[0] {
        RegionWrite::Entries(entries) => assert_eq!(entries.as_slice(), written.as_slice()),
        other => panic!("{other:?}"),
    }
}
