use convex_cluster::ordered::{NameSet, SortedMap};
use convex_cluster::selective_delivery::{
    interested_nodes_for_tables_from_cache,
    InterestRegistration,
    SelectiveDeliveryRegistry,
};

fn names(of: &[&str]) -> NameSet {
    let mut set = NameSet::new();
    for name in of {
        set.insert(name.to_string(), ());
    }
    set
}

fn registration(tables: &[&str], updated_at_ms: u64) -> InterestRegistration {
    InterestRegistration {
        tables: tables.iter().map(|table| table.to_string()).collect(),
        updated_at_ms,
    }
}

#[test]
fn interested_nodes_match_tables_and_skip_stale_entries() {
    let now_ms = 1_000_000u64;
    let mut cache = SortedMap::new();
    cache.insert("node-a".to_string(), registration(&["messages"], now_ms));
    cache.insert("node-b".to_string(), registration(&["tasks"], now_ms.saturating_sub(200_000)));
    assert_eq!(
        interested_nodes_for_tables_from_cache(&cache, now_ms, &names(&["messages"])),
        vec!["node-a".to_string()]
    );
    assert!(interested_nodes_for_tables_from_cache(&cache, now_ms, &names(&["tasks"])).is_empty());
}

#[test]
fn node_subject_names_are_stable() {
    assert_eq!(
        SelectiveDeliveryRegistry::node_subject("node-a"),
        "convex.commits.node.node-a"
    );
}

#[test]
fn the_cache_follows_the_store() {
    let mut registry = SelectiveDeliveryRegistry::new("node-a".to_string());
    let tables = names(&["messages"]);
    registry.observe_put("node-b".to_string(), Some(registration(&["messages"], 1_000)));
    let own = SelectiveDeliveryRegistry::local_registration(&tables, 1_000);
    assert_eq!(own.tables, ["messages"]);
    assert_eq!(own.updated_at_ms, 1_000);
    registry.local_interest_published(own);
    assert_eq!(registry.interested_nodes_for_tables(1_000, &tables), ["node-a", "node-b"]);
    assert_eq!(registry.interested_nodes_for_tables(91_000, &tables), ["node-a", "node-b"]);
    assert!(registry.interested_nodes_for_tables(91_001, &tables).is_empty());
    registry.observe_removal(&"node-b".to_string());
    assert_eq!(registry.interested_nodes_for_tables(1_000, &tables), ["node-a"]);
    assert!(registry.interested_nodes_for_tables(1_000, &names(&[])).is_empty());
}
