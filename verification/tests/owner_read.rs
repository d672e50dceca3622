use convex_cluster::candidates::{endpoint_address, join, Attempts, Purpose};
use convex_cluster::checkpoint::Order;
use convex_cluster::commit_delta::{TabletId, Timestamp};
use convex_cluster::node_addresses::NodeAddresses;
use convex_cluster::ordered::NameSet;
use convex_cluster::owner_read::{
    closure_from_proto,
    index_names_from_wire,
    interval_from_proto,
    interval_to_proto,
    order_from_proto,
    order_to_proto,
    read_index_ranges_request,
    result_from_proto,
    result_to_proto,
    results_from_proto,
    tablet_id_from_bytes,
    tablet_id_to_bytes,
    CloseReadTimestampOutcome,
    CursorPosition,
    EnabledIndex,
    IndexDescriptor,
    IndexNamesError,
    IntervalProto,
    OwnerAwareIndexReader,
    OwnerIndexEntry,
    OwnerIndexRangeResult,
    OwnerReadError,
    OwnerReadIndexEntry,
    OwnerReadIndexRangeResult,
    PageRequest,
    PageSource,
    RangeRequest,
    ReadTimestampClosure,
};
use convex_cluster::partition::{PartitionId, PartitionMap, PlacementVersion, TableName};
use convex_cluster::read_set::Interval;
use convex_cluster::subscription_invalidation::{
    invalidate_tables_request,
    GrpcSubscriptionInvalidationClient,
    Outcome,
};

fn ts(nanos: u64) -> Timestamp {
    Timestamp::from_nanos(nanos).unwrap()
}

#[test]
fn owner_read_wire_round_trip_preserves_rows_and_cursor() -> Result<(), OwnerReadError> {
    let document = b"the encoded document".to_vec();
    let result = OwnerIndexRangeResult {
        entries: vec![OwnerIndexEntry {
            key: vec![1, 2, 3],
            ts: ts(42),
            document: document.clone(),
        }],
        cursor: CursorPosition::After(vec![4, 5, 6]),
    };

    let decoded = result_from_proto(result_to_proto(&result))?;
    assert_eq!(decoded.entries.len(), 1);
    assert_eq!(decoded.entries[0].key, vec![1, 2, 3]);
    assert_eq!(decoded.entries[0].ts, ts(42));
    assert_eq!(decoded.entries[0].document, document);
    assert_eq!(decoded.cursor, CursorPosition::After(vec![4, 5, 6]));
    Ok(())
}

#[test]
fn owner_read_interval_and_order_round_trip() -> Result<(), OwnerReadError> {
    let interval = Interval { start: vec![1, 2, 3], end: Some(vec![1, 2, 4]) };
    assert_eq!(
        interval_from_proto(interval_to_proto(interval.clone()))?,
        interval
    );
    assert_eq!(order_from_proto(order_to_proto(Order::Asc))?, Order::Asc);
    assert_eq!(order_from_proto(order_to_proto(Order::Desc))?, Order::Desc);
    let all = Interval { start: vec![], end: None };
    assert_eq!(interval_from_proto(interval_to_proto(all.clone()))?, all);
    Ok(())
}

#[test]
fn incomplete_messages_are_refused() {
    let entry = |document, commit_ts| OwnerReadIndexEntry { index_key: vec![], commit_ts, document };
    let range = |entries, cursor| OwnerReadIndexRangeResult { entries, cursor };
    assert_eq!(
        result_from_proto(range(vec![entry(None, 1)], Some(CursorPosition::End))).unwrap_err(),
        OwnerReadError::MissingDocument
    );
    assert_eq!(
        result_from_proto(range(vec![entry(Some(vec![]), u64::MAX)], None)).unwrap_err(),
        OwnerReadError::TimestampOutOfRange { value: u64::MAX }
    );
    let missing = result_from_proto(range(vec![], None)).unwrap_err();
    assert_eq!(missing.message(), "Owner read result missing cursor");
    assert_eq!(
        interval_from_proto(IntervalProto { start_inclusive: vec![], end: None })
            .unwrap_err()
            .message(),
        "Owner read interval missing end"
    );
    assert_eq!(order_from_proto(2), Err(OwnerReadError::InvalidOrder));
    assert_eq!(
        results_from_proto(vec![
            range(vec![], Some(CursorPosition::End)),
            range(vec![], None),
        ])
        .unwrap_err(),
        OwnerReadError::MissingCursor
    );
    assert_eq!(
        results_from_proto(vec![range(vec![], Some(CursorPosition::End))]).unwrap().len(),
        1
    );
}

#[test]
fn barriers_tell_where_the_timestamp_stands() {
    assert_eq!(
        closure_from_proto(None).unwrap_err().message(),
        "Owner read barrier response missing outcome"
    );
    assert_eq!(
        closure_from_proto(Some(CloseReadTimestampOutcome::ClosedTs(5))),
        Ok(ReadTimestampClosure::Closed(ts(5)))
    );
    assert_eq!(
        closure_from_proto(Some(CloseReadTimestampOutcome::RetryAtTs(6))),
        Ok(ReadTimestampClosure::RetryAt(ts(6)))
    );
    assert_eq!(
        closure_from_proto(Some(CloseReadTimestampOutcome::BlockedTs(7))),
        Ok(ReadTimestampClosure::Blocked(ts(7)))
    );
    assert!(closure_from_proto(Some(CloseReadTimestampOutcome::BlockedTs(u64::MAX))).is_err());
}

#[test]
fn names_on_the_wire_are_understood() -> Result<(), OwnerReadError> {
    let tablet = tablet_id_from_bytes(vec![7; 16])?;
    assert_eq!(tablet, TabletId([7; 16]));
    assert_eq!(tablet_id_to_bytes(tablet), vec![7; 16]);
    assert_eq!(
        tablet_id_from_bytes(vec![7; 15]),
        Err(OwnerReadError::TabletIdLength { len: 15 })
    );
    let judged = |descriptor: &str, refused: Option<&str>| {
        index_names_from_wire(
            tablet,
            "messages".to_string(),
            descriptor.to_string(),
            refused.map(str::to_string),
        )
    };
    let named = |descriptor: &str| judged(descriptor, None).unwrap();
    assert_eq!(named("by_id").descriptor, IndexDescriptor::ById);
    assert_eq!(named("by_creation_time").descriptor, IndexDescriptor::ByCreationTime);
    assert_eq!(named("by_body").descriptor, IndexDescriptor::Named("by_body".to_string()));
    assert_eq!(named("by_body").table_name.as_str(), "messages");
    let refused = judged("by body", Some("no index name")).unwrap_err();
    assert_eq!(
        refused,
        IndexNamesError::InvalidDescriptor { error: "no index name".to_string() }
    );
    assert_eq!(refused.message(), "no index name");
    assert!(judged("by_id", Some("built in")).is_ok());
    let unnamed =
        index_names_from_wire(tablet, String::new(), "by_id".to_string(), None).unwrap_err();
    assert_eq!(unnamed, IndexNamesError::InvalidTableName);
    assert_eq!(unnamed.message(), "Invalid table name");
    Ok(())
}

fn table(name: &str) -> TableName {
    TableName::parse(name).unwrap()
}

fn page(tablet: u8) -> PageRequest {
    PageRequest {
        index_text: "index-1".to_string(),
        tablet_id: TabletId([tablet; 16]),
        tablet_text: "tablet-1".to_string(),
        interval: Interval { start: vec![1], end: None },
        order: Order::Desc,
        max_results: 9,
    }
}

fn enabled(tablet: u8) -> Option<EnabledIndex> {
    Some(EnabledIndex {
        tablet_id: TabletId([tablet; 16]),
        descriptor: "by_body".to_string(),
        tablet_text: "tablet-2".to_string(),
    })
}

#[test]
fn remote_tables_are_read_from_their_owner() {
    let map = PartitionMap::from_config_with_version(
        "messages=0,projects=1",
        PartitionId(0),
        2,
        PlacementVersion::new(4),
    );
    let reader = OwnerAwareIndexReader::new(ts(12), map);
    assert_eq!(reader.timestamp(), ts(12));
    assert!(matches!(
        reader.page_source(&table("messages"), None, page(1)),
        Ok(PageSource::Local)
    ));
    assert!(matches!(
        reader.page_source(&table("_modules"), None, page(1)),
        Ok(PageSource::Local)
    ));
    assert_eq!(
        reader.page_source(&table("projects"), None, page(1)).unwrap_err(),
        "Missing enabled index index-1 for owner read"
    );
    assert_eq!(
        reader.page_source(&table("projects"), enabled(2), page(1)).unwrap_err(),
        "Index index-1 belongs to tablet tablet-2, not requested tablet tablet-1"
    );
    match reader.page_source(&table("projects"), enabled(1), page(1)).unwrap() {
        PageSource::Local => panic!("read locally"),
        PageSource::Owner { owner, placement_version, range } => {
            assert_eq!(owner, PartitionId(1));
            assert_eq!(placement_version, PlacementVersion::new(4));
            assert_eq!(range.table_name.as_str(), "projects");
            assert_eq!(range.descriptor, "by_body");
            assert_eq!(range.max_size, 9);
            let request =
                read_index_ranges_request(owner, placement_version, reader.timestamp(), vec![range]);
            assert_eq!(request.owner_partition, 1);
            assert_eq!(request.placement_version, 4);
            assert_eq!(request.snapshot_ts, 12);
            assert_eq!(request.ranges.len(), 1);
            assert_eq!(request.ranges[0].tablet_id, vec![1; 16]);
            assert_eq!(request.ranges[0].order, order_to_proto(Order::Desc));
            assert_eq!(request.ranges[0].max_size, 9);
        },
    }
    let nothing = || OwnerIndexRangeResult { entries: vec![], cursor: CursorPosition::End };
    assert!(reader.single_page(PartitionId(1), vec![nothing()]).is_ok());
    assert_eq!(
        reader.single_page(PartitionId(1), vec![]).unwrap_err(),
        "Owner partition-1 returned 0 index pages for one request"
    );
    assert_eq!(
        reader.single_page(PartitionId(1), vec![nothing(), nothing()]).unwrap_err(),
        "Owner partition-1 returned 2 index pages for one request"
    );
}

#[test]
fn ranges_keep_their_order_in_a_request() {
    let range = |tablet| RangeRequest {
        tablet_id: TabletId([tablet; 16]),
        table_name: table("messages"),
        descriptor: "by_id".to_string(),
        interval: Interval { start: vec![], end: None },
        order: Order::Asc,
        max_size: 1,
    };
    let request = read_index_ranges_request(
        PartitionId(1),
        PlacementVersion::new(0),
        ts(1),
        vec![range(1), range(2), range(3)],
    );
    let tablets: Vec<u8> = request.ranges.iter().map(|range| range.tablet_id[0]).collect();
    assert_eq!(tablets, [1, 2, 3]);
}

fn addresses() -> Option<NodeAddresses> {
    let mut addresses = NodeAddresses::new();
    addresses.set(PartitionId(1), vec!["a:1".to_string(), "b:1".to_string()]);
    Some(addresses)
}

#[test]
fn addresses_get_a_scheme() {
    assert_eq!(endpoint_address("node:50051"), "http://node:50051");
    assert_eq!(endpoint_address("https://node:50051"), "https://node:50051");
    assert_eq!(endpoint_address("node:/x"), "http://node:/x");
    assert_eq!(endpoint_address(""), "http://");
}

#[test]
fn every_candidate_is_tried_in_turn() {
    let partition = PartitionId(1);
    let mut attempts = Attempts::new(Purpose::OwnerRead, partition, &addresses()).unwrap();
    assert_eq!(attempts.next_address(), Some("a:1"));
    attempts.failed("a:1", "refused");
    assert_eq!(attempts.next_address(), Some("b:1"));
    attempts.failed("b:1", "timed out");
    assert_eq!(attempts.next_address(), None);
    assert_eq!(
        attempts.error(),
        "All owner-read candidates for partition partition-1 failed: a:1: refused; b:1: timed out"
    );
    assert_eq!(
        Attempts::new(Purpose::OwnerReadBarrier, PartitionId(2), &addresses()).unwrap_err(),
        "No live owner-read candidates for partition partition-2"
    );
    assert_eq!(
        Attempts::new(Purpose::OwnerReadBarrier, partition, &addresses()).unwrap().error(),
        "All owner-read barrier candidates for partition partition-1 failed: "
    );
    assert_eq!(join(&vec!["x".to_string()], "; "), "x");
}

#[test]
fn one_authority_is_enough() {
    let client = GrpcSubscriptionInvalidationClient::new();
    let outcome = |address: &str, failure: Option<&str>| Outcome {
        address: address.to_string(),
        failure: failure.map(|failure| failure.to_string()),
    };
    let candidates = || client.candidates(PartitionId(1), &addresses()).unwrap();
    assert_eq!(candidates().addresses().len(), 2);
    assert_eq!(
        client.settle(candidates(), &vec![outcome("b:1", Some("no")), outcome("a:1", None)]),
        Ok(())
    );
    assert_eq!(
        client.settle(
            candidates(),
            &vec![outcome("b:1", Some("no")), outcome("a:1", Some("down"))]
        ),
        Err("All subscription-authority candidates for partition partition-1 failed: b:1: no; \
             a:1: down"
            .to_string())
    );
    assert_eq!(
        client.candidates(PartitionId(1), &None).unwrap_err(),
        "No live subscription-authority candidates for partition partition-1"
    );
}

#[test]
fn requests_name_the_tables() {
    let mut tables = NameSet::new();
    tables.insert("tasks".to_string(), ());
    tables.insert("messages".to_string(), ());
    let request = invalidate_tables_request(
        PartitionId(3),
        PlacementVersion::new(5),
        ts(77),
        &tables,
    );
    assert_eq!(request.authority_partition, 3);
    assert_eq!(request.placement_version, 5);
    assert_eq!(request.commit_ts, 77);
    assert_eq!(request.table_names, ["messages", "tasks"]);
}
