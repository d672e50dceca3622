use convex_cluster::ordered::SortedMap;
use convex_cluster::partition::{
    routed_partition_for_table,
    uses_metadata_owner,
    PartitionId,
    PartitionMap,
    PlacementError,
    PlacementMetadata,
    PlacementMetadataSource,
    PlacementRule,
    PlacementState,
    PlacementTarget,
    PlacementVersion,
    StaticPlacementConfig,
    TableName,
    WriteSource,
};

fn table(name: &str) -> TableName {
    TableName::parse(name).unwrap()
}

#[test]
fn test_single_partition() {
    let map = PartitionMap::single_partition();
    assert_eq!(
        map.partition_for_table(&table("messages")),
        PartitionId::default_partition()
    );
    assert_eq!(
        map.partition_for_table(&table("_tables")),
        PartitionId::default_partition()
    );
    assert!(map.is_local(&table("anything")));
}

#[test]
fn test_multi_partition() {
    let map =
        PartitionMap::from_config("messages=1,users=1,projects=2,tasks=2", PartitionId(1), 3);

    // Assigned tables.
    assert_eq!(
        map.partition_for_table(&table("messages")),
        PartitionId(1)
    );
    assert_eq!(
        map.partition_for_table(&table("users")),
        PartitionId(1)
    );
    assert_eq!(
        map.partition_for_table(&table("projects")),
        PartitionId(2)
    );
    assert_eq!(
        map.partition_for_table(&table("tasks")),
        PartitionId(2)
    );

    // Unassigned user table defaults to partition 0.
    assert_eq!(
        map.partition_for_table(&table("other")),
        PartitionId::default_partition()
    );

    // System tables always partition 0.
    assert_eq!(
        map.partition_for_table(&table("_tables")),
        PartitionId::default_partition()
    );
    assert_eq!(
        map.partition_for_table(&table("_modules")),
        PartitionId::default_partition()
    );

    // Local ownership.
    assert!(map.is_local(&table("messages")));
    assert!(map.is_local(&table("users")));
    assert!(!map.is_local(&table("projects")));
    assert!(!map.is_local(&table("tasks")));
    // System tables are on partition 0, not partition 1.
    assert!(!map.is_local(&table("_tables")));

    // Tables for partition.
    let p1_tables = map.tables_for_partition(PartitionId(1));
    assert_eq!(p1_tables.len(), 2);
    let p2_tables = map.tables_for_partition(PartitionId(2));
    assert_eq!(p2_tables.len(), 2);
}

#[test]
fn test_empty_config() {
    let map = PartitionMap::from_config("", PartitionId(0), 1);
    assert_eq!(
        map.partition_for_table(&table("messages")),
        PartitionId::default_partition()
    );
}

#[test]
fn test_all_partitions() {
    let map = PartitionMap::from_config("a=1,b=2", PartitionId(0), 3);
    let all = map.all_partitions();
    assert_eq!(all, vec![PartitionId(0), PartitionId(1), PartitionId(2)]);
}

#[test]
fn test_placement_version_defaults_to_static() {
    let map = PartitionMap::from_config("a=1", PartitionId(0), 2);
    assert_eq!(map.placement_version(), PlacementVersion::static_version());
}

#[test]
fn test_placement_version_from_config() {
    let map = PartitionMap::from_config_with_version(
        "a=1",
        PartitionId(0),
        2,
        PlacementVersion::new(42),
    );
    assert_eq!(map.placement_version(), PlacementVersion::new(42));
}

#[test]
fn test_static_placement_metadata_builds_runtime_partition_map() {
    let metadata = PlacementMetadata::from_static_config(StaticPlacementConfig {
        table_assignments: "messages=0,projects=1",
        num_partitions: 2,
        placement_version: PlacementVersion::new(7),
    });

    assert_eq!(metadata.source(), PlacementMetadataSource::StaticConfig);
    assert_eq!(metadata.version(), PlacementVersion::new(7));
    assert_eq!(metadata.num_partitions(), 2);
    assert_eq!(
        metadata
            .table_assignments()
            .get(&"projects".to_string()),
        Some(&PartitionId(1)),
    );

    let map = metadata.into_partition_map(PartitionId(1));
    assert_eq!(
        map.partition_for_table(&table("messages")),
        PartitionId(0),
    );
    assert_eq!(
        map.partition_for_table(&table("projects")),
        PartitionId(1),
    );
    assert!(map.is_local(&table("projects")));
    assert_eq!(map.placement_version(), PlacementVersion::new(7));
}

#[test]
fn test_static_placement_metadata_keeps_table_targets_explicit() {
    let metadata = PlacementMetadata::from_static_config(StaticPlacementConfig {
        table_assignments: "messages=0,projects=1",
        num_partitions: 2,
        placement_version: PlacementVersion::new(3),
    });
    let rules = metadata.rules();

    assert!(rules.contains(&PlacementRule {
        target: PlacementTarget::Table(table("messages")),
        owner: PartitionId(0),
    }));
    assert!(rules.contains(&PlacementRule {
        target: PlacementTarget::Table(table("projects")),
        owner: PartitionId(1),
    }));
}

#[test]
fn test_placement_state_refreshes_to_newer_metadata() -> Result<(), PlacementError> {
    let mut state = PlacementState::new(
        PartitionId(1),
        PlacementMetadata::from_static_config(StaticPlacementConfig {
            table_assignments: "messages=0,projects=1",
            num_partitions: 2,
            placement_version: PlacementVersion::new(1),
        }),
    )?;

    state.refresh(PlacementMetadata::from_static_config(
        StaticPlacementConfig {
            table_assignments: "messages=1,projects=0",
            num_partitions: 2,
            placement_version: PlacementVersion::new(2),
        },
    ))?;

    let map = state.partition_map();
    assert_eq!(state.placement_version(), PlacementVersion::new(2));
    assert_eq!(
        map.partition_for_table(&table("messages")),
        PartitionId(1),
    );
    assert_eq!(
        map.partition_for_table(&table("projects")),
        PartitionId(0),
    );
    Ok(())
}

#[test]
fn test_placement_state_rejects_version_downgrade() -> Result<(), PlacementError> {
    let mut state = PlacementState::new(
        PartitionId(0),
        PlacementMetadata::from_static_config(StaticPlacementConfig {
            table_assignments: "messages=0",
            num_partitions: 2,
            placement_version: PlacementVersion::new(3),
        }),
    )?;

    let err = state
        .refresh(PlacementMetadata::from_static_config(
            StaticPlacementConfig {
                table_assignments: "messages=1",
                num_partitions: 2,
                placement_version: PlacementVersion::new(2),
            },
        ))
        .unwrap_err();

    assert!(err
        .message()
        .contains("Refusing to refresh placement metadata"));
    assert_eq!(state.placement_version(), PlacementVersion::new(3));
    Ok(())
}

#[test]
fn test_routed_partition_for_table_keeps_non_deploy_system_tables_local() {
    let map = PartitionMap::from_config("messages=1", PartitionId(1), 2);
    assert_eq!(
        routed_partition_for_table(
            &table("_modules"),
            &map,
            &WriteSource::new("cron_tick"),
        ),
        None
    );
}

#[test]
fn test_routed_partition_for_table_routes_deploy_system_tables_to_owner() {
    let map = PartitionMap::from_config("messages=1", PartitionId(1), 2);
    assert_eq!(
        routed_partition_for_table(
            &table("_modules"),
            &map,
            &WriteSource::new("finish_push"),
        ),
        Some(PartitionId::default_partition())
    );
}

#[test]
fn malformed_assignments_are_passed_over() {
    let map = PartitionMap::from_config(" a = 1 ,b,c=x,=2,d=2", PartitionId(0), 3);
    assert_eq!(map.partition_for_table(&table("a")), PartitionId(1));
    assert_eq!(map.partition_for_table(&table("b")), PartitionId(0));
    assert_eq!(map.partition_for_table(&table("c")), PartitionId(0));
    assert_eq!(map.partition_for_table(&table("d")), PartitionId(2));
    let kept: &SortedMap<String, PartitionId> = map.assignments();
    assert_eq!(kept.len(), 2);
}

#[test]
fn the_local_partition_has_to_exist() {
    let metadata = |num_partitions| {
        PlacementMetadata::from_static_config(StaticPlacementConfig {
            table_assignments: "",
            num_partitions,
            placement_version: PlacementVersion::new(1),
        })
    };
    let refused = match PlacementState::new(PartitionId(2), metadata(2)) {
        Ok(_) => panic!("accepted"),
        Err(error) => error,
    };
    assert_eq!(
        refused,
        PlacementError::LocalPartitionOutside {
            local_partition: PartitionId(2),
            num_partitions: 2,
        }
    );
    assert!(PlacementState::new(PartitionId(2), metadata(3)).is_ok());
}

#[test]
fn names_print_as_they_are_logged() {
    assert_eq!(PartitionId(7).print(), "partition-7");
    assert!(uses_metadata_owner(&WriteSource::new("finish_push")));
    assert!(!uses_metadata_owner(&WriteSource::unknown()));
    assert!(TableName::parse("").is_none());
    assert!(table("_tables").is_system());
    assert!(!table("tables").is_system());
}

#[test]
fn refreshes_never_go_back() -> Result<(), PlacementError> {
    let metadata = |version: u64| {
        PlacementMetadata::from_static_config(StaticPlacementConfig {
            table_assignments: "messages=1",
            num_partitions: 2,
            placement_version: PlacementVersion::new(version),
        })
    };
    let mut state = PlacementState::new(PartitionId(0), metadata(3))?;
    for (offered, kept) in [(5, 5), (4, 5), (5, 5), (9, 9), (3, 9), (8, 9), (10, 10)] {
        let accepted = state.refresh(metadata(offered)).is_ok();
        assert_eq!(accepted, offered == kept);
        assert_eq!(state.placement_version(), PlacementVersion::new(kept));
    }
    Ok(())
}
