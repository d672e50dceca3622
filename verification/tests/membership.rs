use convex_cluster::membership::{
    clamped_millis,
    current_unix_timestamp_millis,
    ClusterNodeId,
    MembershipError,
    MembershipLivenessTracker,
    MembershipSnapshot,
    MembershipVersion,
    NodeMembership,
    SerializedMembershipSnapshot,
};
use convex_cluster::node_addresses::NodeAddresses;
use convex_cluster::partition::PartitionId;

const SECOND: u64 = 1_000_000_000;

#[test]
fn test_membership_snapshot_converts_to_node_addresses() -> Result<(), MembershipError> {
    let snapshot = MembershipSnapshot::new(
        MembershipVersion::new(7),
        vec![
            NodeMembership::new(ClusterNodeId::new("p0a")?, PartitionId(0), "node-p0a:50051")?,
            NodeMembership::new(ClusterNodeId::new("p0b")?, PartitionId(0), "node-p0b:50051")?,
            {
                let mut node = NodeMembership::new(
                    ClusterNodeId::new("p1-draining")?,
                    PartitionId(1),
                    "node-p1-old:50051",
                )?;
                node.draining = true;
                node
            },
            NodeMembership::new(ClusterNodeId::new("p1a")?, PartitionId(1), "node-p1a:50051")?,
        ],
    );

    let addresses = snapshot.to_node_addresses();
    assert_eq!(
        addresses.address_for(PartitionId(0)),
        Some("node-p0a:50051")
    );
    assert_eq!(
        addresses.addresses_for(PartitionId(0)).unwrap(),
        &["node-p0a:50051".to_string(), "node-p0b:50051".to_string(),],
    );
    assert_eq!(
        addresses.address_for(PartitionId(1)),
        Some("node-p1a:50051")
    );
    Ok(())
}

#[test]
fn test_membership_snapshot_registration_replaces_advertised_address() -> Result<(), MembershipError> {
    let existing = NodeMembership::new(
        ClusterNodeId::new("partition-0-peer-0")?,
        PartitionId(0),
        "node-p0a:50051",
    )?;
    let snapshot = MembershipSnapshot::new(MembershipVersion::bootstrap(), vec![existing]);
    let mut replacement = NodeMembership::new(
        ClusterNodeId::new("partition-0-peer-0")?,
        PartitionId(0),
        "random-p0a-20260701:50051",
    )?;
    replacement.generation = 2;

    let updated = snapshot.with_registered_node(replacement.clone());

    assert_eq!(updated.version(), MembershipVersion::new(1));
    let registered = updated.nodes().get(&replacement.node_id).unwrap();
    assert_eq!(registered.grpc_addr, replacement.grpc_addr);
    assert_eq!(registered.generation, 2);
    assert_eq!(registered.lease_renewal_sequence, Some(1));
    assert_eq!(
        updated.to_node_addresses().address_for(PartitionId(0)),
        Some("random-p0a-20260701:50051")
    );

    let mut restarted = replacement;
    restarted.grpc_addr = "random-p0a-after-restart:50051".to_string();
    let renewed = updated.with_registered_node(restarted.clone());
    let registered = renewed.nodes().get(&restarted.node_id).unwrap();
    assert_eq!(registered.grpc_addr, restarted.grpc_addr);
    assert_eq!(registered.lease_renewal_sequence, Some(2));
    Ok(())
}

#[test]
fn test_membership_liveness_uses_renewals_not_skewed_timestamps() -> Result<(), MembershipError> {
    let healthy_past_id = ClusterNodeId::new("healthy-past")?;
    let healthy_future_id = ClusterNodeId::new("healthy-future")?;
    let stale_past_id = ClusterNodeId::new("stale-past")?;
    let stale_future_id = ClusterNodeId::new("stale-future")?;
    let mut snapshot = MembershipSnapshot::new(MembershipVersion::bootstrap(), vec![]);

    for (node_id, heartbeat_expires_at_ms) in [
        (healthy_past_id.clone(), 1),
        (healthy_future_id.clone(), u64::MAX),
        (stale_past_id.clone(), 1),
        (stale_future_id.clone(), u64::MAX),
    ] {
        let mut node = NodeMembership::new(
            node_id.clone(),
            PartitionId(0),
            &format!("{}:50051", node_id.as_str()),
        )?;
        node.heartbeat_expires_at_ms = Some(heartbeat_expires_at_ms);
        snapshot = snapshot.with_registered_node(node);
    }

    let ttl = 10 * SECOND;
    let started_at = 5 * SECOND;
    let mut tracker = MembershipLivenessTracker::new(ttl);
    let initially_live = tracker.live_snapshot_at(&snapshot, started_at, 1_000);
    assert_eq!(initially_live.nodes().len(), 4);

    for node_id in [&healthy_past_id, &healthy_future_id] {
        snapshot =
            snapshot.with_registered_node(snapshot.nodes().get(node_id).unwrap().clone());
    }
    let renewed_at = started_at + 9 * SECOND;
    let renewed = tracker.live_snapshot_at(&snapshot, renewed_at, 1_000);
    assert_eq!(renewed.nodes().len(), 4);

    let live = tracker.live_snapshot_at(&snapshot, started_at + ttl, 1_000);
    assert!(live.nodes().contains_key(&healthy_past_id));
    assert!(live.nodes().contains_key(&healthy_future_id));
    assert!(!live.nodes().contains_key(&stale_past_id));
    assert!(!live.nodes().contains_key(&stale_future_id));
    Ok(())
}

#[test]
fn test_membership_newer_generation_supersedes_older_generation() -> Result<(), MembershipError> {
    let node_id = ClusterNodeId::new("partition-0-peer-0")?;
    let mut old = NodeMembership::new(node_id.clone(), PartitionId(0), "old:50051")?;
    old.generation = 7;
    old.heartbeat_expires_at_ms = Some(u64::MAX);
    let initial = MembershipSnapshot::new(MembershipVersion::bootstrap(), vec![])
        .with_registered_node(old.clone());

    let mut replacement =
        NodeMembership::new(node_id.clone(), PartitionId(0), "replacement:50051")?;
    replacement.generation = 8;
    replacement.heartbeat_expires_at_ms = Some(1);
    let updated = initial.with_registered_node(replacement);
    let current = updated.nodes().get(&node_id).unwrap();
    assert_eq!(current.generation, 8);
    assert_eq!(current.grpc_addr, "replacement:50051");
    assert_eq!(current.lease_renewal_sequence, Some(2));

    old.grpc_addr = "late-old:50051".to_string();
    let rejected = updated.with_registered_node(old);
    assert!(rejected.same(&updated));

    let ttl = 10 * SECOND;
    let started_at = 5 * SECOND;
    let mut tracker = MembershipLivenessTracker::new(ttl);
    tracker.live_snapshot_at(&initial, started_at, 1_000);
    let live = tracker.live_snapshot_at(&updated, started_at + ttl, 1_000);
    assert_eq!(live.nodes().get(&node_id).unwrap().generation, 8);
    Ok(())
}

#[test]
fn test_membership_static_and_drain_liveness() -> Result<(), MembershipError> {
    let static_node = NodeMembership::new(
        ClusterNodeId::new("bootstrap")?,
        PartitionId(0),
        "bootstrap:50051",
    )?;
    let draining_id = ClusterNodeId::new("draining")?;
    let mut draining =
        NodeMembership::new(draining_id.clone(), PartitionId(0), "draining:50051")?;
    draining.draining = true;
    draining.heartbeat_expires_at_ms = Some(u64::MAX);
    let snapshot = MembershipSnapshot::new(MembershipVersion::bootstrap(), vec![static_node])
        .with_registered_node(draining);

    let ttl = 10 * SECOND;
    let started_at = 5 * SECOND;
    let mut tracker = MembershipLivenessTracker::new(ttl);
    tracker.live_snapshot_at(&snapshot, started_at, 1_000);
    let live = tracker.live_snapshot_at(&snapshot, started_at + ttl * 10, 1_000);
    assert!(live.nodes().contains_key(&ClusterNodeId::new("bootstrap")?));
    assert!(!live.nodes().contains_key(&draining_id));
    Ok(())
}

/// Partition 0 at two addresses and partition 1 at one.
fn two_partitions() -> NodeAddresses {
    let mut addresses = NodeAddresses::new();
    addresses.set(
        PartitionId(0),
        vec!["node-p0a:50051".to_string(), "node-p0b:50051".to_string()],
    );
    addresses.add_address(PartitionId(1), "node-p1a:50051".to_string());
    addresses
}

#[test]
fn test_membership_snapshot_bootstraps_from_node_addresses() {
    let addresses = two_partitions();

    let snapshot =
        MembershipSnapshot::from_node_addresses(MembershipVersion::bootstrap(), &addresses);

    assert_eq!(snapshot.version(), MembershipVersion::bootstrap());
    assert_eq!(snapshot.nodes().len(), 3);
    let back = snapshot.to_node_addresses();
    assert_eq!(back.len(), addresses.len());
    for partition in [PartitionId(0), PartitionId(1)] {
        assert_eq!(back.addresses_for(partition), addresses.addresses_for(partition));
    }
}

#[test]
fn test_membership_snapshot_serialization_round_trip() -> Result<(), MembershipError> {
    let mut node =
        NodeMembership::new(ClusterNodeId::new("p0a")?, PartitionId(0), "node-p0a:50051")?;
    node.http_origin = Some("http://node-p0a:3210".to_string());
    node.raft_addr = Some("node-p0a:50061".to_string());
    node.generation = 3;
    node.lease_renewal_sequence = Some(17);
    node.heartbeat_expires_at_ms = Some(u64::MAX);

    let snapshot = MembershipSnapshot::new(MembershipVersion::new(11), vec![node]);
    let decoded = SerializedMembershipSnapshot::from_snapshot(&snapshot).into_snapshot()?;

    assert!(decoded.same(&snapshot));
    assert_eq!(decoded.version(), MembershipVersion::new(11));
    Ok(())
}

#[test]
fn empty_names_and_addresses_are_refused() {
    assert_eq!(
        ClusterNodeId::new("  ").err().map(|error| error.message()),
        Some("cluster node id cannot be empty".to_string())
    );
    let id = ClusterNodeId::new("p0a").unwrap();
    assert_eq!(
        NodeMembership::new(id, PartitionId(0), " ").err().map(|error| error.message()),
        Some("cluster membership node p0a cannot have an empty gRPC address".to_string())
    );
}

#[test]
fn a_stored_entry_without_a_name_is_refused() -> Result<(), MembershipError> {
    let node = NodeMembership::new(ClusterNodeId::new("p0a")?, PartitionId(0), "a:1")?;
    let snapshot = MembershipSnapshot::new(MembershipVersion::new(1), vec![node]);
    let mut stored = SerializedMembershipSnapshot::from_snapshot(&snapshot);
    stored.nodes[0].node_id = String::new();
    assert!(stored.into_snapshot().is_err());
    Ok(())
}

#[test]
fn registration_leaves_other_nodes_alone() -> Result<(), MembershipError> {
    let a = NodeMembership::new(ClusterNodeId::new("a")?, PartitionId(0), "a:1")?;
    let b = NodeMembership::new(ClusterNodeId::new("b")?, PartitionId(1), "b:1")?;
    let snapshot = MembershipSnapshot::new(MembershipVersion::new(4), vec![a, b]);
    let mut again = NodeMembership::new(ClusterNodeId::new("b")?, PartitionId(1), "b:2")?;
    again.generation = 9;
    let updated = snapshot.with_registered_node(again);
    assert_eq!(updated.version(), MembershipVersion::new(5));
    let kept = updated.nodes().get(&ClusterNodeId::new("a")?).unwrap();
    assert!(kept.same(snapshot.nodes().get(&ClusterNodeId::new("a")?).unwrap()));
    assert_eq!(updated.nodes().len(), 2);
    Ok(())
}

#[test]
fn wall_clock_readings_are_clamped() {
    assert_eq!(clamped_millis(None), 0);
    assert_eq!(clamped_millis(Some(1_234)), 1_234);
    assert_eq!(clamped_millis(Some(u128::MAX)), u64::MAX);
    assert!(current_unix_timestamp_millis() > 0);
}

fn listing(count: usize) -> NodeAddresses {
    let mut addresses = NodeAddresses::new();
    for i in 0..count {
        addresses.add_address(PartitionId(4), format!("node-{i}:50051"));
    }
    addresses.add_address(PartitionId(1), "other:50051".to_string());
    addresses
}

#[test]
fn up_to_ten_addresses_keep_their_order() {
    let version = MembershipVersion::bootstrap();
    let ten = listing(10);
    let snapshot = MembershipSnapshot::from_node_addresses(version, &ten);
    assert_eq!(snapshot.nodes().len(), 11);
    let node = snapshot
        .nodes()
        .get(&ClusterNodeId::new("partition-4-peer-9").unwrap())
        .unwrap();
    assert_eq!((node.grpc_addr.as_str(), node.draining), ("node-9:50051", false));
    assert_eq!(node.lease_renewal_sequence, None);
    let back = snapshot.to_node_addresses();
    for partition in [PartitionId(1), PartitionId(4)] {
        assert_eq!(back.addresses_for(partition), ten.addresses_for(partition));
    }

    let eleven = listing(11);
    let back =
        MembershipSnapshot::from_node_addresses(version, &eleven).to_node_addresses();
    let served = back.addresses_for(PartitionId(4)).unwrap();
    assert_eq!(served.len(), 11);
    assert_eq!(served[2], "node-10:50051", "names stand in the order of text");
}

#[test]
fn deadlines_do_not_decide_who_lives() {
    let with_deadlines = |renewals: u64, deadline: u64| {
        let mut nodes = Vec::new();
        for (name, renewed) in [("renewed", renewals), ("silent", 1)] {
            let id = ClusterNodeId::new(name).unwrap();
            let mut node = NodeMembership::new(id, PartitionId(0), "node:50051").unwrap();
            node.lease_renewal_sequence = Some(renewed);
            node.heartbeat_expires_at_ms = Some(deadline);
            nodes.push(node);
        }
        MembershipSnapshot::new(MembershipVersion::bootstrap(), nodes)
    };
    let mut early = MembershipLivenessTracker::new(10);
    let mut late = MembershipLivenessTracker::new(10);
    for (renewals, at) in [(1, 100), (2, 106), (3, 112), (4, 125)] {
        let a = early.live_snapshot_at(&with_deadlines(renewals, 1), at, 5_000);
        let b = late.live_snapshot_at(&with_deadlines(renewals, u64::MAX), at, 0);
        for name in ["renewed", "silent"] {
            let id = ClusterNodeId::new(name).unwrap();
            assert_eq!(a.nodes().contains_key(&id), b.nodes().contains_key(&id));
        }
        assert_eq!(a.nodes().len(), if at < 110 { 2 } else { 1 });
    }
}

#[test]
fn an_older_entry_does_not_bring_a_node_back() {
    let id = ClusterNodeId::new("node").unwrap();
    let renewed = |renewals: u64| {
        let mut node =
            NodeMembership::new(id.clone(), PartitionId(0), "node:50051").unwrap();
        node.lease_renewal_sequence = Some(renewals);
        node.heartbeat_expires_at_ms = Some(1);
        MembershipSnapshot::new(MembershipVersion::bootstrap(), vec![node])
    };
    let mut tracker = MembershipLivenessTracker::new(10);
    let sightings = [
        (4, 100, true),
        (4, 109, true),
        (3, 109, false),
        (4, 110, false),
        (2, 111, false),
        (5, 112, true),
        (4, 113, false),
        (5, 121, true),
        (5, 122, false),
    ];
    for (renewals, at, lives) in sightings {
        let live = tracker.live_snapshot_at(&renewed(renewals), at, 0);
        assert_eq!(live.nodes().contains_key(&id), lives, "renewal {renewals} at {at}");
    }
}
