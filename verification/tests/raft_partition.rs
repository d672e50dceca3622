use convex_cluster::partition::PartitionId;
use convex_cluster::raft_node::RaftNodeConfig;
use convex_cluster::raft_partition::{LeadershipEvent, RaftPartitionManager};

fn config() -> RaftNodeConfig {
    RaftNodeConfig {
        node_id: 1,
        partition_id: PartitionId(0),
        peers: vec![1],
        election_tick: 10,
        heartbeat_tick: 3,
    }
}

#[test]
fn test_partition_state_defaults() {
    let manager = RaftPartitionManager::new(config(), 0);
    let state = manager.state();

    assert!(!state.is_leader());
    assert!(!state.is_leader_ready());
    assert!(!state.has_leader_serving_lease(0));
    assert_eq!(state.leader_id(), 0);
    assert_eq!(state.partition_id(), PartitionId(0));
    assert_eq!(state.node_id(), 1);
}

#[test]
fn test_leadership_updates_shared_state() {
    let mut manager = RaftPartitionManager::new(config(), 0);
    assert!(!manager.state().is_leader());
    assert!(manager.take_node().is_some());
    assert!(manager.take_node().is_none());

    manager.apply(LeadershipEvent::BecameLeader);
    assert!(manager.apply(LeadershipEvent::LeaderChanged { leader_id: 1 }).leader_changed);
    manager.apply(LeadershipEvent::LeaderReady);
    manager.apply(LeadershipEvent::ServingLeaseRefreshed { valid_until: 500 });

    let state = manager.state();
    assert!(state.is_leader());
    assert!(state.is_leader_ready());
    assert!(state.has_leader_serving_lease(499));
    assert!(!state.has_leader_serving_lease(500));
    assert_eq!(state.leader_id(), 1, "Shared state should expose the elected leader ID");
    assert!(state.can_serve_as_leader(499));
}

#[test]
fn test_became_leader_discards_tso_reserved_batch() {
    let mut manager = RaftPartitionManager::new(config(), 0);
    assert!(manager.apply(LeadershipEvent::BecameLeader).discard_reserved_batch);
    assert!(!manager.apply(LeadershipEvent::LeaderReady).discard_reserved_batch);
    assert!(manager.apply(LeadershipEvent::LostLeadership).discard_reserved_batch);
}

#[test]
fn a_deposed_leader_does_not_serve() {
    let mut manager = RaftPartitionManager::new(config(), 0);
    manager.apply(LeadershipEvent::BecameLeader);
    manager.apply(LeadershipEvent::LeaderReady);
    manager.apply(LeadershipEvent::ServingLeaseRefreshed { valid_until: 500 });
    manager.apply(LeadershipEvent::LostLeadership);
    assert!(!manager.state().can_serve_as_leader(1));
    manager.apply(LeadershipEvent::BecameLeader);
    assert!(!manager.state().is_leader_ready());
    assert!(!manager.state().has_leader_serving_lease(1));
}

#[test]
fn nobody_serves_before_the_genesis() {
    let mut manager = RaftPartitionManager::new_with_cluster_genesis_gate(config(), 0, false);
    manager.apply(LeadershipEvent::BecameLeader);
    manager.apply(LeadershipEvent::LeaderReady);
    manager.apply(LeadershipEvent::ServingLeaseRefreshed { valid_until: 500 });
    let mut state = manager.state();
    assert!(!state.is_cluster_genesis_ready());
    assert!(!state.can_serve_as_leader(1));
    state.mark_cluster_genesis_ready();
    assert!(state.can_serve_as_leader(1));
    assert_eq!(state.not_running(), "Raft node for partition partition-0 not running");
    assert_eq!(
        state.stopped_before_applied(7),
        "Raft node for partition partition-0 stopped before marking index 7 applied"
    );
}
