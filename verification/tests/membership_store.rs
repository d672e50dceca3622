use convex_cluster::membership::{
    ClusterNodeId,
    MembershipSnapshot,
    MembershipVersion,
    NodeMembership,
};
use convex_cluster::membership_store::{
    ensure_initialized,
    initialized,
    Initialization,
    Registration,
    RegistrationAction,
    RegistrationEvent,
};
use convex_cluster::partition::PartitionId;

fn node(name: &str) -> NodeMembership {
    NodeMembership::new(ClusterNodeId::new(name).unwrap(), PartitionId(0), "a:1").unwrap()
}

fn directory(nodes: Vec<NodeMembership>) -> MembershipSnapshot {
    MembershipSnapshot::new(MembershipVersion::new(3), nodes)
}

#[test]
fn the_first_node_creates_the_directory() {
    let mut registration = Registration::new(node("a"));
    assert_eq!(registration.step(RegistrationEvent::Empty), RegistrationAction::Create);
    assert_eq!(registration.step(RegistrationEvent::Stored), RegistrationAction::Finish);
    let stored = registration.snapshot().unwrap();
    assert_eq!(stored.version(), MembershipVersion::bootstrap());
    let entry = stored.nodes().get(&ClusterNodeId::new("a").unwrap()).unwrap();
    assert_eq!(entry.lease_renewal_sequence, Some(1));
}

#[test]
fn conflicts_are_retried_on_the_newer_directory() {
    let mut registration = Registration::new(node("b"));
    let found = |revision| RegistrationEvent::Found {
        snapshot: directory(vec![node("a")]),
        revision,
    };
    for attempt in 0..10u64 {
        assert_eq!(
            registration.step(found(attempt)),
            RegistrationAction::Update { revision: attempt }
        );
        assert_eq!(
            registration.step(RegistrationEvent::Conflict),
            RegistrationAction::Sleep { millis: 1 << attempt }
        );
        let next = registration.step(RegistrationEvent::Slept);
        if attempt < 9 {
            assert_eq!(next, RegistrationAction::Read);
        } else {
            assert_eq!(next, RegistrationAction::Fail);
        }
    }
    assert!(registration.snapshot().is_none());
    assert_eq!(
        registration.error().message(),
        "Membership: failed to register node b after CAS retries"
    );
}

#[test]
fn a_node_joins_the_others() {
    let mut registration = Registration::new(node("b"));
    registration.step(RegistrationEvent::Found {
        snapshot: directory(vec![node("a")]),
        revision: 5,
    });
    assert_eq!(registration.step(RegistrationEvent::Stored), RegistrationAction::Finish);
    let stored = registration.snapshot().unwrap();
    assert_eq!(stored.nodes().len(), 2);
    assert_eq!(stored.version(), MembershipVersion::new(4));
}

#[test]
fn an_older_generation_changes_nothing() {
    let mut newer = node("a");
    newer.generation = 9;
    let mut registration = Registration::new(node("a"));
    assert_eq!(
        registration.step(RegistrationEvent::Found {
            snapshot: directory(vec![newer]),
            revision: 5,
        }),
        RegistrationAction::Finish
    );
    let kept = registration.snapshot().unwrap();
    assert_eq!(kept.version(), MembershipVersion::new(3));
}

#[test]
fn the_bootstrap_directory_is_stored_once() {
    let bootstrap = || directory(vec![node("a")]);
    assert!(matches!(ensure_initialized(None, bootstrap()), Initialization::Create(_)));
    let other = directory(vec![]);
    assert!(matches!(
        ensure_initialized(Some(other.clone()), bootstrap()),
        Initialization::Ready(kept) if kept.same(&other)
    ));
    assert!(initialized(true, bootstrap(), None).unwrap().same(&bootstrap()));
    assert!(initialized(false, bootstrap(), Some(other.clone())).unwrap().same(&other));
    assert!(initialized(false, bootstrap(), None).is_err());
}
