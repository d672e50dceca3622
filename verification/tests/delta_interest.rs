use convex_cluster::interest_tracker::DeltaInterestTracker;
use convex_cluster::invalidation::{
    IndexKeys,
    InvalidationCursor,
    InvalidationDependency,
    InvalidationEvent,
    InvalidationEventId,
    InvalidationIdentity,
    InvalidationIndex,
    InvalidationOwnerId,
    InvalidationRegistration,
    InvalidationRegistrationId,
    InvalidationRegistryError,
    InvalidationUnregistration,
    InvalidationWrite,
    INVALIDATION_OWNERSHIP_PROTOCOL_VERSION,
};
use convex_cluster::invalidation_registry::{InvalidationInbox, InvalidationOwnerRegistry};
use convex_cluster::ordered::NameSet;
use convex_cluster::read_set::{dependencies_from_read_set, IndexReads, Interval, ReadSet};

const CATALOG_VERSION: u64 = 7;

fn owner(name: &str) -> InvalidationOwnerId {
    InvalidationOwnerId(name.to_string())
}

fn index(tablet_id: &str, descriptor: &str) -> InvalidationIndex {
    InvalidationIndex {
        tablet_id: tablet_id.to_string(),
        descriptor: descriptor.to_string(),
    }
}

fn registration(
    owner_id: InvalidationOwnerId,
    registration_id: &str,
    evaluation_cursor: u64,
    dependencies: impl IntoIterator<Item = InvalidationDependency>,
) -> InvalidationRegistration {
    InvalidationRegistration {
        protocol_version: INVALIDATION_OWNERSHIP_PROTOCOL_VERSION,
        registration_id: InvalidationRegistrationId(registration_id.to_string()),
        generation: 1,
        owner_id,
        catalog_version: CATALOG_VERSION,
        evaluation_cursor: InvalidationCursor(evaluation_cursor),
        dependencies: dependencies.into_iter().collect(),
    }
}

fn registration_at_generation(
    owner_id: InvalidationOwnerId,
    registration_id: &str,
    generation: u64,
    evaluation_cursor: u64,
    dependencies: impl IntoIterator<Item = InvalidationDependency>,
) -> InvalidationRegistration {
    let mut registration =
        registration(owner_id, registration_id, evaluation_cursor, dependencies);
    registration.generation = generation;
    registration
}

fn unregistration(
    owner_id: InvalidationOwnerId,
    registration_id: &str,
    generation: u64,
) -> InvalidationUnregistration {
    InvalidationUnregistration {
        protocol_version: INVALIDATION_OWNERSHIP_PROTOCOL_VERSION,
        registration_id: InvalidationRegistrationId(registration_id.to_string()),
        generation,
        owner_id,
        catalog_version: CATALOG_VERSION,
    }
}

fn event(
    owner_id: InvalidationOwnerId,
    cursor: u64,
    tablet_id: &str,
    descriptor: Option<&str>,
    key: Option<&[u8]>,
) -> InvalidationEvent {
    event_with_contract(
        owner_id,
        cursor,
        cursor,
        cursor.saturating_sub(1),
        tablet_id,
        descriptor,
        key,
        true,
    )
}

fn event_with_contract(
    owner_id: InvalidationOwnerId,
    cursor: u64,
    owner_sequence: u64,
    predecessor_owner_sequence: u64,
    tablet_id: &str,
    descriptor: Option<&str>,
    key: Option<&[u8]>,
    index_keys_complete: bool,
) -> InvalidationEvent {
    let mut index_keys = Vec::new();
    if let Some(descriptor) = descriptor {
        index_keys.push(IndexKeys {
            descriptor: descriptor.to_string(),
            keys: key.into_iter().map(<[u8]>::to_vec).collect(),
        });
    }
    InvalidationEvent {
        protocol_version: INVALIDATION_OWNERSHIP_PROTOCOL_VERSION,
        event_id: InvalidationEventId {
            owner_id,
            owner_sequence,
        },
        predecessor_owner_sequence,
        commit_cursor: InvalidationCursor(cursor),
        catalog_version: CATALOG_VERSION,
        writes: vec![InvalidationWrite {
            tablet_id: tablet_id.to_string(),
            index_keys_complete,
            index_keys,
        }],
    }
}

#[test]
fn read_set_conversion_preserves_point_range_and_scan_dependencies() {
    let point_tablet = "tablet-1".to_string();
    let range_tablet = "tablet-2".to_string();
    let scan_tablet = "tablet-3".to_string();
    let reads = ReadSet {
        indexed: vec![
            IndexReads {
                index: index(&point_tablet, "by_id"),
                intervals: vec![Interval { start: vec![1, 2], end: Some(vec![1, 2, 0]) }],
            },
            IndexReads {
                index: index(&range_tablet, "by_creation_time"),
                intervals: vec![Interval { start: vec![3], end: Some(vec![8]) }],
            },
            IndexReads {
                index: index(&scan_tablet, "by_creation_time"),
                intervals: vec![Interval { start: vec![], end: None }],
            },
        ],
        searched: vec![],
    };

    let dependencies = dependencies_from_read_set(&reads);
    assert!(dependencies.iter().any(|dependency| matches!(
        dependency,
        InvalidationDependency::Point { key, .. } if key == &[1, 2]
    )));
    assert!(dependencies.iter().any(|dependency| matches!(
        dependency,
        InvalidationDependency::IndexRange {
            start_inclusive,
            end_exclusive: Some(end_exclusive),
            ..
        } if start_inclusive == &[3] && end_exclusive == &[8]
    )));
    assert!(dependencies.contains(&InvalidationDependency::TableScan {
        tablet_id: scan_tablet,
    }));
    assert_eq!(dependencies.len(), 3);
}

#[test]
fn searched_tablets_are_scanned_and_dependencies_are_listed_once() {
    let reads = ReadSet {
        indexed: vec![IndexReads {
            index: index("tasks", "by_id"),
            intervals: vec![
                Interval { start: vec![7], end: Some(vec![7, 0]) },
                Interval { start: vec![7], end: Some(vec![7, 0]) },
            ],
        }],
        searched: vec!["messages".to_string(), "messages".to_string()],
    };
    let dependencies = dependencies_from_read_set(&reads);
    assert_eq!(dependencies.len(), 2);
    assert!(dependencies.contains(&InvalidationDependency::Point {
        index: index("tasks", "by_id"),
        key: vec![7],
    }));
    assert!(dependencies.contains(&InvalidationDependency::TableScan {
        tablet_id: "messages".to_string(),
    }));
}

#[test]
fn point_dependencies_match_only_the_point() {
    let owner_id = owner("owner-a");
    let mut registry = InvalidationOwnerRegistry::new(
        owner_id.clone(),
        CATALOG_VERSION,
        InvalidationCursor(10),
        10,
        16,
    );
    registry
        .register(registration(
            owner_id.clone(),
            "subscription-a",
            10,
            [InvalidationDependency::Point {
                index: index("tasks", "by_id"),
                key: b"task-1".to_vec(),
            }],
        ))
        .unwrap();

    assert!(registry
        .apply_event(event(
            owner_id.clone(),
            11,
            "tasks",
            Some("by_id"),
            Some(b"task-2"),
        ))
        .unwrap()
        .is_empty());
    assert_eq!(
        registry
            .apply_event(event(owner_id, 12, "tasks", Some("by_id"), Some(b"task-1"),))
            .unwrap()
            .len(),
        1
    );
}

#[test]
fn range_dependencies_match_index_keys_and_missing_keys_conservatively() {
    let owner_id = owner("owner-a");
    let mut registry = InvalidationOwnerRegistry::new(
        owner_id.clone(),
        CATALOG_VERSION,
        InvalidationCursor(20),
        20,
        16,
    );
    registry
        .register(registration(
            owner_id.clone(),
            "subscription-a",
            20,
            [InvalidationDependency::IndexRange {
                index: index("tasks", "by_status"),
                start_inclusive: b"open".to_vec(),
                end_exclusive: Some(b"pending".to_vec()),
            }],
        ))
        .unwrap();

    assert!(registry
        .apply_event(event(
            owner_id.clone(),
            21,
            "tasks",
            Some("by_status"),
            Some(b"closed"),
        ))
        .unwrap()
        .is_empty());
    assert_eq!(
        registry
            .apply_event(event(
                owner_id.clone(),
                22,
                "tasks",
                Some("by_status"),
                Some(b"open"),
            ))
            .unwrap()
            .len(),
        1
    );
    assert_eq!(
        registry
            .apply_event(event(owner_id, 23, "tasks", None, None))
            .unwrap()
            .len(),
        1,
        "missing index keys must cause a safe false positive"
    );
}

#[test]
fn uncertified_index_keys_invalidate_even_when_known_keys_do_not_match() {
    let owner_id = owner("owner-a");
    let mut registry = InvalidationOwnerRegistry::new(
        owner_id.clone(),
        CATALOG_VERSION,
        InvalidationCursor(24),
        24,
        16,
    );
    registry
        .register(registration(
            owner_id.clone(),
            "subscription-a",
            24,
            [InvalidationDependency::Point {
                index: index("tasks", "by_id"),
                key: b"task-1".to_vec(),
            }],
        ))
        .unwrap();

    let incomplete = event_with_contract(
        owner_id,
        25,
        25,
        24,
        "tasks",
        Some("by_id"),
        Some(b"different-task"),
        false,
    );
    assert_eq!(registry.apply_event(incomplete).unwrap().len(), 1);
}

#[test]
fn table_scan_matches_every_write_to_the_table() {
    let owner_id = owner("owner-a");
    let mut registry = InvalidationOwnerRegistry::new(
        owner_id.clone(),
        CATALOG_VERSION,
        InvalidationCursor(30),
        30,
        16,
    );
    registry
        .register(registration(
            owner_id.clone(),
            "subscription-a",
            30,
            [InvalidationDependency::TableScan {
                tablet_id: "messages".to_string(),
            }],
        ))
        .unwrap();

    assert!(registry
        .apply_event(event(owner_id.clone(), 31, "tasks", None, None))
        .unwrap()
        .is_empty());
    assert_eq!(
        registry
            .apply_event(event(owner_id, 32, "messages", None, None))
            .unwrap()
            .len(),
        1
    );
}

#[test]
fn one_subscription_can_register_dependencies_with_multiple_owners() {
    let owner_a = owner("owner-a");
    let owner_b = owner("owner-b");
    let mut registry_a = InvalidationOwnerRegistry::new(
        owner_a.clone(),
        CATALOG_VERSION,
        InvalidationCursor(40),
        40,
        16,
    );
    let mut registry_b = InvalidationOwnerRegistry::new(
        owner_b.clone(),
        CATALOG_VERSION,
        InvalidationCursor(40),
        40,
        16,
    );
    registry_a
        .register(registration(
            owner_a.clone(),
            "subscription-a",
            40,
            [InvalidationDependency::TableScan {
                tablet_id: "users".to_string(),
            }],
        ))
        .unwrap();
    registry_b
        .register(registration(
            owner_b.clone(),
            "subscription-a",
            40,
            [InvalidationDependency::TableScan {
                tablet_id: "tasks".to_string(),
            }],
        ))
        .unwrap();

    let from_a = registry_a
        .apply_event(event(owner_a, 41, "users", None, None))
        .unwrap();
    let from_b = registry_b
        .apply_event(event(owner_b, 41, "tasks", None, None))
        .unwrap();
    assert_eq!(from_a.len(), 1);
    assert_eq!(from_b.len(), 1);
    assert_ne!(from_a[0], from_b[0]);
    assert_eq!(
        from_a[0].registration_id,
        InvalidationRegistrationId("subscription-a".to_string())
    );
    assert_eq!(from_a[0].registration_id, from_b[0].registration_id);
}

#[test]
fn invalidation_inbox_deduplicates_duplicate_and_reordered_deliveries() {
    let registration_id = InvalidationRegistrationId("subscription-a".to_string());
    let identity_at = |cursor| InvalidationIdentity {
        registration_id: registration_id.clone(),
        registration_generation: 1,
        event_id: InvalidationEventId {
            owner_id: owner("owner-a"),
            owner_sequence: cursor,
        },
        commit_cursor: InvalidationCursor(cursor),
    };
    let older = identity_at(50);
    let newer = identity_at(51);
    let newest = identity_at(52);
    let mut inbox = InvalidationInbox::new(2);

    assert!(inbox.accept(newer.clone()));
    assert!(inbox.accept(older.clone()), "delivery order is irrelevant");
    assert!(!inbox.accept(newer));
    assert!(!inbox.accept(older.clone()));
    assert!(inbox.accept(newest));
    assert!(
        inbox.accept(identity_at(51)),
        "an evicted identity may cause a safe duplicate rerun"
    );
}

#[test]
fn retained_event_replay_reemits_identities_and_rejects_payload_mismatch() {
    let owner_id = owner("owner-a");
    let dependency = InvalidationDependency::TableScan {
        tablet_id: "tasks".to_string(),
    };
    let mut registry = InvalidationOwnerRegistry::new(
        owner_id.clone(),
        CATALOG_VERSION,
        InvalidationCursor(55),
        55,
        16,
    );
    registry
        .register(registration(
            owner_id.clone(),
            "subscription-a",
            55,
            [dependency.clone()],
        ))
        .unwrap();
    let committed = event(owner_id.clone(), 56, "tasks", None, None);
    let first_delivery = registry.apply_event(committed.clone()).unwrap();
    assert_eq!(first_delivery.len(), 1);

    registry
        .unregister(unregistration(owner_id.clone(), "subscription-a", 1))
        .unwrap();
    registry
        .register(registration_at_generation(
            owner_id.clone(),
            "subscription-a",
            2,
            56,
            [dependency.clone()],
        ))
        .unwrap();
    registry
        .register(registration(
            owner_id.clone(),
            "subscription-b",
            56,
            [dependency],
        ))
        .unwrap();
    let current_delivery = registry
        .apply_event(event(owner_id, 57, "tasks", None, None))
        .unwrap();
    assert_eq!(current_delivery.len(), 2);

    let repeated_delivery = registry.apply_event(committed.clone()).unwrap();
    assert_eq!(
        repeated_delivery, first_delivery,
        "replay output is journaled independently of current registrations"
    );
    let mut conflicting = committed;
    conflicting.writes[0].tablet_id = "messages".to_string();
    assert!(matches!(
        registry.apply_event(conflicting),
        Err(InvalidationRegistryError::EventIdentityCollision { owner_sequence: 56 })
    ));
}

#[test]
fn evicted_event_identity_fails_closed_for_exact_and_conflicting_payloads() {
    let owner_id = owner("owner-a");
    let mut registry = InvalidationOwnerRegistry::new(
        owner_id.clone(),
        CATALOG_VERSION,
        InvalidationCursor(55),
        55,
        1,
    );
    let evicted = event(owner_id.clone(), 56, "tasks", None, None);
    registry.apply_event(evicted.clone()).unwrap();
    registry
        .apply_event(event(owner_id, 57, "messages", None, None))
        .unwrap();

    assert!(matches!(
        registry.apply_event(evicted.clone()),
        Err(InvalidationRegistryError::EventOutsideReplayWindow {
            owner_sequence: 56,
            retained_from_owner_sequence_exclusive: 56,
        })
    ));
    let mut conflicting = evicted;
    conflicting.writes[0].tablet_id = "users".to_string();
    assert!(matches!(
        registry.apply_event(conflicting),
        Err(InvalidationRegistryError::EventOutsideReplayWindow {
            owner_sequence: 56,
            retained_from_owner_sequence_exclusive: 56,
        })
    ));
}

#[test]
fn owner_sequence_allows_global_cursor_jumps() {
    let owner_id = owner("owner-a");
    let mut registry = InvalidationOwnerRegistry::new(
        owner_id.clone(),
        CATALOG_VERSION,
        InvalidationCursor(100),
        7,
        16,
    );
    let next = event_with_contract(owner_id.clone(), 1_000, 8, 7, "tasks", None, None, false);
    assert!(registry.apply_event(next).unwrap().is_empty());
}

#[test]
fn owner_sequence_rejects_wrong_predecessor_for_the_next_sequence() {
    let owner_id = owner("owner-a");
    let mut registry = InvalidationOwnerRegistry::new(
        owner_id.clone(),
        CATALOG_VERSION,
        InvalidationCursor(100),
        7,
        16,
    );
    let wrong_predecessor =
        event_with_contract(owner_id, 101, 8, 6, "tasks", None, None, false);
    assert!(matches!(
        registry.apply_event(wrong_predecessor),
        Err(InvalidationRegistryError::OwnerSequenceGap {
            expected_sequence: 8,
            received_sequence: 8,
            expected_predecessor: 7,
            received_predecessor: 6,
        })
    ));
}

#[test]
fn owner_sequence_rejects_non_contiguous_sequence_with_current_predecessor() {
    let owner_id = owner("owner-a");
    let mut registry = InvalidationOwnerRegistry::new(
        owner_id.clone(),
        CATALOG_VERSION,
        InvalidationCursor(100),
        7,
        16,
    );
    let skipped_sequence = event_with_contract(owner_id, 101, 9, 7, "tasks", None, None, false);
    assert!(matches!(
        registry.apply_event(skipped_sequence),
        Err(InvalidationRegistryError::OwnerSequenceGap {
            expected_sequence: 8,
            received_sequence: 9,
            expected_predecessor: 7,
            received_predecessor: 7,
        })
    ));
}

#[test]
fn registration_replays_writes_between_evaluation_and_installation() {
    let owner_id = owner("owner-a");
    let mut registry = InvalidationOwnerRegistry::new(
        owner_id.clone(),
        CATALOG_VERSION,
        InvalidationCursor(60),
        60,
        16,
    );
    registry
        .apply_event(event(owner_id.clone(), 61, "tasks", None, None))
        .unwrap();
    registry
        .apply_event(event(owner_id.clone(), 62, "messages", None, None))
        .unwrap();

    let replay = registry
        .register(registration(
            owner_id.clone(),
            "subscription-a",
            60,
            [InvalidationDependency::TableScan {
                tablet_id: "tasks".to_string(),
            }],
        ))
        .unwrap();
    assert_eq!(replay.from_exclusive, InvalidationCursor(60));
    assert_eq!(replay.through_inclusive, InvalidationCursor(62));
    assert_eq!(replay.invalidations.len(), 1);
    assert_eq!(
        replay.invalidations[0].commit_cursor,
        InvalidationCursor(61)
    );

    assert_eq!(
        registry
            .apply_event(event(owner_id, 63, "tasks", None, None))
            .unwrap()
            .len(),
        1,
        "writes after the registration cursor use live matching"
    );
}

#[test]
fn registration_fails_closed_when_owner_is_behind_or_replay_has_a_gap() {
    let owner_id = owner("owner-a");
    let mut behind = InvalidationOwnerRegistry::new(
        owner_id.clone(),
        CATALOG_VERSION,
        InvalidationCursor(69),
        69,
        16,
    );
    assert!(matches!(
        behind.register(registration(owner_id.clone(), "behind", 70, [])),
        Err(InvalidationRegistryError::OwnerBehind { .. })
    ));

    let mut truncated = InvalidationOwnerRegistry::new(
        owner_id.clone(),
        CATALOG_VERSION,
        InvalidationCursor(70),
        70,
        1,
    );
    truncated
        .apply_event(event(owner_id.clone(), 71, "tasks", None, None))
        .unwrap();
    truncated
        .apply_event(event(owner_id.clone(), 72, "tasks", None, None))
        .unwrap();
    assert!(matches!(
        truncated.register(registration(owner_id, "gap", 70, [])),
        Err(InvalidationRegistryError::ReplayGap { .. })
    ));
}

#[test]
fn stale_registration_generation_cannot_replace_a_newer_incarnation() {
    let owner_id = owner("owner-a");
    let dependency = InvalidationDependency::TableScan {
        tablet_id: "tasks".to_string(),
    };
    let mut registry = InvalidationOwnerRegistry::new(
        owner_id.clone(),
        CATALOG_VERSION,
        InvalidationCursor(75),
        75,
        16,
    );
    registry
        .register(registration_at_generation(
            owner_id.clone(),
            "subscription-a",
            2,
            75,
            [dependency.clone()],
        ))
        .unwrap();
    assert!(matches!(
        registry.register(registration_at_generation(
            owner_id.clone(),
            "subscription-a",
            1,
            75,
            [dependency.clone()],
        )),
        Err(InvalidationRegistryError::StaleRegistrationGeneration {
            current: 2,
            received: 1,
        })
    ));
    assert!(matches!(
        registry.register(registration_at_generation(
            owner_id.clone(),
            "subscription-a",
            2,
            75,
            [InvalidationDependency::TableScan {
                tablet_id: "messages".to_string(),
            }],
        )),
        Err(InvalidationRegistryError::RegistrationGenerationCollision { generation: 2 })
    ));
    registry
        .register(registration_at_generation(
            owner_id.clone(),
            "subscription-a",
            3,
            75,
            [dependency],
        ))
        .unwrap();
    let invalidations = registry
        .apply_event(event(owner_id, 76, "tasks", None, None))
        .unwrap();
    assert_eq!(invalidations.len(), 1);
    assert_eq!(invalidations[0].registration_generation, 3);
}

#[test]
fn stale_unregistration_cannot_remove_or_resurrect_a_newer_registration() {
    let owner_id = owner("owner-a");
    let dependency = InvalidationDependency::TableScan {
        tablet_id: "tasks".to_string(),
    };
    let mut registry = InvalidationOwnerRegistry::new(
        owner_id.clone(),
        CATALOG_VERSION,
        InvalidationCursor(80),
        80,
        16,
    );
    registry
        .register(registration_at_generation(
            owner_id.clone(),
            "subscription-a",
            2,
            80,
            [dependency.clone()],
        ))
        .unwrap();

    assert!(matches!(
        registry.unregister(unregistration(owner_id.clone(), "subscription-a", 1,)),
        Err(InvalidationRegistryError::StaleRegistrationGeneration {
            current: 2,
            received: 1,
        })
    ));
    let still_active = registry
        .apply_event(event(owner_id.clone(), 81, "tasks", None, None))
        .unwrap();
    assert_eq!(still_active.len(), 1);
    assert_eq!(still_active[0].registration_generation, 2);

    let mut wrong_owner = unregistration(owner("owner-b"), "subscription-a", 2);
    assert!(matches!(
        registry.unregister(wrong_owner.clone()),
        Err(InvalidationRegistryError::WrongOwner)
    ));
    wrong_owner.owner_id = owner_id.clone();
    wrong_owner.catalog_version += 1;
    assert!(matches!(
        registry.unregister(wrong_owner),
        Err(InvalidationRegistryError::CatalogVersionMismatch { .. })
    ));

    let tombstone = unregistration(owner_id.clone(), "subscription-a", 2);
    registry.unregister(tombstone.clone()).unwrap();
    registry
        .unregister(tombstone)
        .expect("an exact tombstone retry is idempotent");
    assert!(
        registry
            .apply_event(event(owner_id.clone(), 82, "tasks", None, None))
            .unwrap()
            .is_empty(),
        "the tombstone removes the active generation"
    );
    assert!(matches!(
        registry.register(registration_at_generation(
            owner_id.clone(),
            "subscription-a",
            1,
            82,
            [dependency.clone()],
        )),
        Err(InvalidationRegistryError::StaleRegistrationGeneration {
            current: 2,
            received: 1,
        })
    ));
    assert!(matches!(
        registry.register(registration_at_generation(
            owner_id.clone(),
            "subscription-a",
            2,
            82,
            [dependency.clone()],
        )),
        Err(InvalidationRegistryError::RegistrationGenerationCollision { generation: 2 })
    ));
    registry
        .register(registration_at_generation(
            owner_id,
            "subscription-a",
            3,
            82,
            [dependency],
        ))
        .unwrap();
}

#[test]
fn registration_protocol_is_versioned_and_serializable() {
    let registration = registration(
        owner("owner-a"),
        "subscription-a",
        80,
        [InvalidationDependency::TableScan { tablet_id: "tasks".to_string() }],
    );
    let mut wrong_version = registration;
    wrong_version.protocol_version += 1;
    let mut registry = InvalidationOwnerRegistry::new(
        owner("owner-a"),
        CATALOG_VERSION,
        InvalidationCursor(80),
        80,
        16,
    );
    assert!(matches!(
        registry.register(wrong_version),
        Err(InvalidationRegistryError::UnsupportedProtocol { .. })
    ));
}

#[test]
fn events_behind_the_cursor_are_refused() {
    let owner_id = owner("owner-a");
    let mut registry = InvalidationOwnerRegistry::new(
        owner_id.clone(),
        CATALOG_VERSION,
        InvalidationCursor(100),
        7,
        16,
    );
    let reordered = event_with_contract(owner_id.clone(), 99, 8, 7, "tasks", None, None, false);
    assert!(matches!(
        registry.apply_event(reordered),
        Err(InvalidationRegistryError::ReorderedCommitCursor {
            owner_cursor: InvalidationCursor(100),
            event_cursor: InvalidationCursor(99),
        })
    ));
    let mut foreign = event(owner("owner-b"), 101, "tasks", None, None);
    foreign.predecessor_owner_sequence = 7;
    assert!(matches!(
        registry.apply_event(foreign),
        Err(InvalidationRegistryError::WrongOwner)
    ));
    assert!(matches!(
        registry.register(registration_at_generation(
            owner_id,
            "ahead",
            1,
            101,
            [],
        )),
        Err(InvalidationRegistryError::OwnerBehind {
            owner_cursor: InvalidationCursor(100),
            evaluation_cursor: InvalidationCursor(101),
        })
    ));
}

/// The names in a set, in their order.
fn listed(set: &NameSet) -> Vec<String> {
    (0..set.len()).map(|i| set.key_at(i).clone()).collect()
}

fn names(of: &[&str]) -> NameSet {
    let mut set = NameSet::new();
    for name in of {
        set.insert(name.to_string(), ());
    }
    set
}

#[test]
fn interest_tracker_ref_counts_tables() {
    let mut tracker = DeltaInterestTracker::new();

    tracker.add_tables(&names(&["messages", "tasks"]), 0);
    tracker.add_tables(&names(&["tasks"]), 0);
    assert_eq!(listed(&tracker.snapshot(0)), ["messages", "tasks"]);

    tracker.remove_tables(&names(&["tasks"]), 0);
    assert_eq!(listed(&tracker.snapshot(0)), ["messages", "tasks"]);

    tracker.remove_tables(&names(&["messages", "tasks"]), 0);
    assert!(listed(&tracker.snapshot(0)).is_empty());
}

#[test]
fn interest_tracker_recent_tables_expire() {
    let mut tracker = DeltaInterestTracker::new();
    let now = 1_000_000_000u64;
    let second = 1_000_000_000u64;

    tracker.refresh_recent_tables_at(&names(&["tasks"]), now, 30 * second);
    assert_eq!(listed(&tracker.snapshot(now)), ["tasks"]);

    tracker.prune_expired_at(now + 29 * second);
    assert_eq!(listed(&tracker.snapshot(now + 29 * second)), ["tasks"]);

    tracker.prune_expired_at(now + 30 * second);
    assert!(listed(&tracker.snapshot(now + 30 * second)).is_empty());
}

#[test]
fn a_shorter_refresh_does_not_cut_interest_off() {
    let mut tracker = DeltaInterestTracker::new();
    tracker.refresh_recent_tables_at(&names(&["tasks"]), 100, 50);
    tracker.refresh_recent_tables_at(&names(&["tasks"]), 110, 10);
    assert_eq!(listed(&tracker.snapshot(149)), ["tasks"]);
    assert!(listed(&tracker.snapshot(150)).is_empty());
}

fn scan_tasks() -> [InvalidationDependency; 1] {
    [InvalidationDependency::TableScan { tablet_id: "tasks".to_string() }]
}

#[test]
fn answers_last_as_long_as_the_replay_window() {
    let owner_id = owner("owner-a");
    let mut registry = InvalidationOwnerRegistry::new(
        owner_id.clone(),
        CATALOG_VERSION,
        InvalidationCursor(100),
        100,
        3,
    );
    registry.register(registration(owner_id.clone(), "a", 100, scan_tasks())).unwrap();
    let mut answers = Vec::new();
    for cursor in 101..=105u64 {
        let applied = event(owner_id.clone(), cursor, "tasks", None, None);
        answers.push(registry.apply_event(applied).unwrap());
        let id = format!("other-{cursor}");
        registry.register(registration(owner_id.clone(), &id, cursor, scan_tasks())).unwrap();
        if cursor % 2 == 0 {
            registry.unregister(unregistration(owner_id.clone(), &id, 1)).unwrap();
        }
    }
    for (i, cursor) in (101..=105u64).enumerate() {
        let again = registry.apply_event(event(owner_id.clone(), cursor, "tasks", None, None));
        if cursor <= 102 {
            assert!(matches!(
                again,
                Err(InvalidationRegistryError::EventOutsideReplayWindow {
                    owner_sequence,
                    retained_from_owner_sequence_exclusive: 102,
                }) if owner_sequence == cursor
            ));
        } else {
            assert_eq!(again.unwrap(), answers[i]);
        }
    }
    let altered = event(owner_id.clone(), 104, "messages", None, None);
    assert!(matches!(
        registry.apply_event(altered),
        Err(InvalidationRegistryError::EventIdentityCollision { owner_sequence: 104 })
    ));
    let replay = registry
        .register(registration(owner_id.clone(), "late", 103, scan_tasks()))
        .unwrap();
    let heard: Vec<u64> =
        replay.invalidations.iter().map(|identity| identity.commit_cursor.0).collect();
    assert_eq!(heard, [104, 105]);
    let next = registry.apply_event(event(owner_id, 106, "tasks", None, None)).unwrap();
    assert!(next.iter().any(|identity| identity.registration_id.0 == "late"));
}

#[test]
fn an_unregistered_id_stays_silent_until_a_later_generation() {
    let owner_id = owner("owner-a");
    let mut registry = InvalidationOwnerRegistry::new(
        owner_id.clone(),
        CATALOG_VERSION,
        InvalidationCursor(100),
        100,
        16,
    );
    let at = |generation, cursor| {
        registration_at_generation(owner_id.clone(), "a", generation, cursor, scan_tasks())
    };
    registry.register(at(3, 100)).unwrap();
    registry.unregister(unregistration(owner_id.clone(), "a", 3)).unwrap();
    for cursor in 101..=103u64 {
        let applied = event(owner_id.clone(), cursor, "tasks", None, None);
        assert_eq!(registry.apply_event(applied).unwrap(), vec![]);
        assert!(matches!(
            registry.register(at(2, cursor)),
            Err(InvalidationRegistryError::StaleRegistrationGeneration { current: 3, received: 2 })
        ));
        assert!(matches!(
            registry.register(at(3, cursor)),
            Err(InvalidationRegistryError::RegistrationGenerationCollision { generation: 3 })
        ));
        registry.unregister(unregistration(owner_id.clone(), "a", 3)).unwrap();
    }
    registry.register(at(4, 103)).unwrap();
    let heard = registry.apply_event(event(owner_id.clone(), 104, "tasks", None, None)).unwrap();
    assert_eq!(heard.len(), 1);
    assert_eq!(heard[0].registration_generation, 4);
}

#[test]
fn a_refresh_without_a_table_or_a_time_keeps_nothing() {
    let mut tracker = DeltaInterestTracker::new();
    assert!(!tracker.refresh_recent_tables_at(&names(&[]), 100, 50));
    assert!(!tracker.refresh_recent_tables_at(&names(&["tasks"]), 100, 0));
    assert!(!tracker.refresh_recent_tables_at(&names(&["tasks"]), 100, u64::MAX));
    assert!(listed(&tracker.snapshot(100)).is_empty());
    assert!(tracker.refresh_recent_tables_at(&names(&["tasks"]), 100, 50));
    assert_eq!(listed(&tracker.snapshot(100)), ["tasks"]);
}

#[test]
fn no_write_to_what_was_read_is_missed() {
    let reads = ReadSet {
        indexed: vec![IndexReads {
            index: index("tasks", "by_status"),
            intervals: vec![
                Interval { start: vec![3], end: Some(vec![8]) },
                Interval { start: vec![9], end: Some(vec![9, 0]) },
            ],
        }],
        searched: vec!["messages".to_string()],
    };
    let dependencies = dependencies_from_read_set(&reads);
    let hit = |tablet_id: &str, descriptor: &str, keys: Vec<Vec<u8>>, complete: bool| {
        let write = InvalidationWrite {
            tablet_id: tablet_id.to_string(),
            index_keys_complete: complete,
            index_keys: vec![IndexKeys { descriptor: descriptor.to_string(), keys }],
        };
        dependencies.iter().any(|dependency| dependency.matches(&write))
    };
    assert!(hit("tasks", "by_status", vec![vec![3]], true));
    assert!(hit("tasks", "by_status", vec![vec![1], vec![7, 255]], true));
    assert!(hit("tasks", "by_status", vec![vec![9]], true));
    assert!(!hit("tasks", "by_status", vec![vec![8], vec![9, 0]], true));
    assert!(hit("tasks", "by_status", vec![vec![8]], false), "not all keys are known");
    assert!(hit("messages", "by_text", vec![], true), "the table was searched");
    assert!(!hit("users", "by_status", vec![vec![3]], false));
}
