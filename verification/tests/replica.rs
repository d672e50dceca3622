use convex_cluster::commit_delta::{
    ReplicationPoisonGap,
    ReplicationPoisonKind,
    ReplicationTransportId,
    Timestamp,
};
use convex_cluster::partition::PartitionId;
use convex_cluster::replica::{
    replication_poison_gap,
    ApplyFailureKind,
    ConsumerAction,
    ConsumerEvent,
    MessageHead,
    ReplicaDeltaConsumer,
    ReplicaError,
    ReplicaErrorCause,
    RestartPolicy,
    RETRYABLE_REPLICA_APPLY_NAK_DELAY_MS,
};

fn ts(nanos: u64) -> Timestamp {
    Timestamp::from_nanos(nanos).unwrap()
}

fn head_from(nanos: u64, source_partition: Option<PartitionId>) -> MessageHead {
    MessageHead {
        ts: ts(nanos),
        source_partition,
        num_updates: 0,
        transport_id: Some(ReplicationTransportId::new(9)),
    }
}

fn message(nanos: u64, source_partition: Option<PartitionId>) -> ConsumerEvent {
    ConsumerEvent::Message { head: head_from(nanos, source_partition) }
}

fn failed(kind: ApplyFailureKind, error: &str) -> ConsumerEvent {
    ConsumerEvent::ApplyFailed { kind, error: error.to_string() }
}

/// How messages were settled, how often the apply was tried, and what was
/// reported.
#[derive(Debug, Default, PartialEq)]
struct Counts {
    ack: usize,
    nak: usize,
    delayed_nak: usize,
    attempts: usize,
    successes: Vec<(Timestamp, usize)>,
}

/// Runs the consumer over the messages until it stops or they end.
fn consume(
    consumer: &mut ReplicaDeltaConsumer,
    messages: Vec<ConsumerEvent>,
    counts: &mut Counts,
    mut apply: impl FnMut(usize) -> ConsumerEvent,
) {
    for message in messages {
        let mut action = consumer.step(message);
        loop {
            let event = match action {
                ConsumerAction::Apply => {
                    counts.attempts += 1;
                    apply(counts.attempts)
                },
                ConsumerAction::Ack => {
                    counts.ack += 1;
                    ConsumerEvent::Settled
                },
                ConsumerAction::Nak => {
                    counts.nak += 1;
                    ConsumerEvent::Settled
                },
                ConsumerAction::NakAfter { delay_ms } => {
                    assert_eq!(delay_ms, RETRYABLE_REPLICA_APPLY_NAK_DELAY_MS);
                    counts.delayed_nak += 1;
                    ConsumerEvent::Settled
                },
                ConsumerAction::Report { ts, num_updates } => {
                    counts.successes.push((ts, num_updates));
                    break;
                },
                ConsumerAction::Stop => return,
                ConsumerAction::Ignore => panic!("the event does not belong here"),
            };
            action = consumer.step(event);
        }
    }
}

#[test]
fn apply_replication_message_acks_after_success() {
    let mut consumer = ReplicaDeltaConsumer::new(None);
    assert_eq!(consumer.step(message(42, None)), ConsumerAction::Apply);
    assert_eq!(consumer.step(ConsumerEvent::Applied { ts: ts(42) }), ConsumerAction::Ack);
    assert_eq!(
        consumer.step(ConsumerEvent::Settled),
        ConsumerAction::Report { ts: ts(42), num_updates: 0 }
    );
    assert!(consumer.error().is_none());
}

#[test]
fn same_partition_nats_delta_is_acked_without_apply() {
    let local_partition = PartitionId(1);
    let mut consumer = ReplicaDeltaConsumer::new(Some(local_partition));
    assert_eq!(consumer.step(message(42, Some(local_partition))), ConsumerAction::Ack);
    assert_eq!(
        consumer.step(ConsumerEvent::Settled),
        ConsumerAction::Report { ts: ts(42), num_updates: 0 }
    );
    assert_eq!(consumer.step(message(43, Some(PartitionId(2)))), ConsumerAction::Apply);
}

#[test]
fn apply_replication_message_naks_after_apply_failure() {
    let mut consumer = ReplicaDeltaConsumer::new(None);
    consumer.step(message(42, None));
    assert_eq!(
        consumer.step(failed(ApplyFailureKind::Deterministic, "forced apply failure")),
        ConsumerAction::Nak
    );
    assert_eq!(consumer.step(ConsumerEvent::Settled), ConsumerAction::Stop);
    let error = consumer.error().unwrap();
    let gap = replication_poison_gap(error).expect("apply failure must become a poison gap");
    assert_eq!(gap.kind, ReplicationPoisonKind::DeterministicApplyFailure);
    assert_eq!(gap.stream_sequence, Some(9));
    assert!(error.text.contains("replication poison gap"), "{}", error.text);
    assert!(error.text.contains("forced apply failure"), "{}", error.text);
}

#[test]
fn shutdown_interrupted_apply_naks_without_poisoning() {
    let mut consumer = ReplicaDeltaConsumer::new(None);
    consumer.step(message(42, None));
    assert_eq!(
        consumer.step(failed(ApplyFailureKind::Shutdown, "shutting down")),
        ConsumerAction::Nak
    );
    assert_eq!(consumer.step(ConsumerEvent::Settled), ConsumerAction::Stop);
    let error = consumer.error().unwrap();
    assert_eq!(error.cause, ReplicaErrorCause::Shutdown);
    assert!(
        replication_poison_gap(error).is_none(),
        "shutdown must not create durable replication poison: {}",
        error.text,
    );
    assert!(error.text.contains("Database shutdown interrupted replica delta"));
}

#[test]
fn retryable_apply_failure_delayed_naks_for_redelivery() {
    let mut consumer = ReplicaDeltaConsumer::new(None);
    consumer.step(message(42, None));
    assert_eq!(
        consumer.step(failed(
            ApplyFailureKind::Retryable,
            "prepared transaction still unresolved"
        )),
        ConsumerAction::NakAfter { delay_ms: RETRYABLE_REPLICA_APPLY_NAK_DELAY_MS }
    );
    assert_eq!(consumer.step(ConsumerEvent::Settled), ConsumerAction::Stop);
    let error = consumer.error().unwrap();
    assert!(error.text.contains("Retryable failure applying replica delta"));
    assert!(error.text.contains("prepared transaction still unresolved"));
    assert!(replication_poison_gap(error).is_none());
}

#[test]
fn retryable_redelivery_can_ack_after_block_clears() {
    let mut counts = Counts::default();
    let mut first = ReplicaDeltaConsumer::new(None);
    consume(&mut first, vec![message(42, None)], &mut counts, |_| {
        failed(ApplyFailureKind::Retryable, "prepared transaction still unresolved")
    });
    assert!(first.error().is_some());
    assert_eq!(counts.ack, 0);
    assert_eq!(counts.nak, 0);
    assert_eq!(counts.delayed_nak, 1);

    let mut second = ReplicaDeltaConsumer::new(None);
    consume(&mut second, vec![message(42, None)], &mut counts, |_| {
        ConsumerEvent::Applied { ts: ts(42) }
    });
    assert!(second.error().is_none());
    assert_eq!(counts.successes, vec![(ts(42), 0)]);
    assert_eq!(counts.ack, 1);
    assert_eq!(counts.nak, 0);
    assert_eq!(counts.delayed_nak, 1);
}

#[test]
fn consumer_stops_before_later_delta_after_retryable_apply_failure() {
    let mut counts = Counts::default();
    let mut consumer = ReplicaDeltaConsumer::new(None);
    consume(
        &mut consumer,
        vec![message(42, None), message(43, Some(PartitionId(1)))],
        &mut counts,
        |attempt| {
            if attempt == 1 {
                failed(ApplyFailureKind::Retryable, "prepared transaction still unresolved")
            } else {
                ConsumerEvent::Applied { ts: ts(43) }
            }
        },
    );
    let error = consumer.error().expect("the run ends with an error");
    assert!(error.text.contains("Retryable failure applying replica delta"));
    assert_eq!(counts.attempts, 1);
    assert_eq!(counts.ack, 0);
    assert_eq!(counts.nak, 0);
    assert_eq!(counts.delayed_nak, 1);
    assert_eq!(
        counts.successes.len(),
        0,
        "later frontier heartbeat must not cross the blocked delta",
    );
    assert_eq!(consumer.step(message(43, Some(PartitionId(1)))), ConsumerAction::Ignore);
}

#[test]
fn apply_failure_naks_then_redelivered_message_can_ack() {
    let mut counts = Counts::default();
    let mut first = ReplicaDeltaConsumer::new(None);
    consume(&mut first, vec![message(42, None)], &mut counts, |_| {
        failed(ApplyFailureKind::Deterministic, "transient apply failure")
    });
    assert!(first.error().is_some());
    assert_eq!(counts.ack, 0);
    assert_eq!(counts.nak, 1);

    let mut second = ReplicaDeltaConsumer::new(None);
    consume(&mut second, vec![message(42, None)], &mut counts, |_| {
        ConsumerEvent::Applied { ts: ts(42) }
    });
    assert_eq!(counts.successes, vec![(ts(42), 0)]);
    assert_eq!(counts.ack, 1);
    assert_eq!(counts.nak, 1);
    assert_eq!(counts.delayed_nak, 0);
}

#[test]
fn consumer_fails_closed_before_heartbeat_after_deterministic_apply_failure() {
    let mut counts = Counts::default();
    let mut consumer = ReplicaDeltaConsumer::new(None);
    consume(
        &mut consumer,
        vec![message(42, None), message(43, Some(PartitionId(1)))],
        &mut counts,
        |attempt| {
            if attempt == 1 {
                failed(ApplyFailureKind::Deterministic, "transient apply failure")
            } else {
                ConsumerEvent::Applied { ts: ts(43) }
            }
        },
    );
    let gap = replication_poison_gap(consumer.error().unwrap())
        .expect("apply failure must become a poison gap");
    assert_eq!(gap.kind, ReplicationPoisonKind::DeterministicApplyFailure);
    assert_eq!(counts.attempts, 1, "consumer must stop before applying the later heartbeat");
    assert_eq!(counts.ack, 0);
    assert_eq!(counts.nak, 1);
    assert_eq!(counts.delayed_nak, 0);
    assert_eq!(
        counts.successes.len(),
        0,
        "frontier callback must not advance beyond a poisoned delta",
    );
}

#[test]
fn transport_poison_stops_before_following_heartbeat() {
    for kind in [
        ReplicationPoisonKind::MalformedEnvelope,
        ReplicationPoisonKind::UnsupportedEnvelopeVersion,
        ReplicationPoisonKind::InvalidDeltaPayload,
    ] {
        let gap = ReplicationPoisonGap {
            kind,
            consumer_name: Some("node-1".to_string()),
            subject: Some("convex.commits.0".to_string()),
            stream_sequence: Some(42),
            source_node: Some("node-0".to_string()),
            source_partition: Some(PartitionId(0)),
            origin_ts: Some(ts(42)),
            reason: "forced transport poison".to_string(),
        };
        let mut consumer = ReplicaDeltaConsumer::new(None);
        let error = ReplicaError {
            cause: ReplicaErrorCause::PoisonGap(gap.clone()),
            text: gap.message(),
        };
        let mut counts = Counts::default();
        consume(
            &mut consumer,
            vec![ConsumerEvent::StreamFailed { error }, message(43, Some(PartitionId(0)))],
            &mut counts,
            |_| ConsumerEvent::Applied { ts: ts(43) },
        );
        assert_eq!(replication_poison_gap(consumer.error().unwrap()), Some(&gap));
        assert_eq!(counts, Counts::default());
        assert_eq!(
            consumer.step(message(43, Some(PartitionId(0)))),
            ConsumerAction::Ignore,
            "heartbeat after {kind:?} must remain unacknowledged",
        );
    }
}

#[test]
fn a_lost_acknowledgment_ends_the_run() {
    let mut consumer = ReplicaDeltaConsumer::new(None);
    consumer.step(message(42, None));
    consumer.step(ConsumerEvent::Applied { ts: ts(42) });
    assert_eq!(
        consumer.step(ConsumerEvent::SettleFailed { error: "gone".to_string() }),
        ConsumerAction::Stop
    );
    assert_eq!(
        consumer.error().unwrap().text,
        "Failed to ack applied replica delta at ts=42: gone"
    );
    let mut ended = ReplicaDeltaConsumer::new(None);
    assert_eq!(ended.step(ConsumerEvent::StreamEnded), ConsumerAction::Stop);
    assert_eq!(ended.error().unwrap().text, "ReplicaDeltaConsumer stream ended");
}

#[test]
fn restarts_wait_longer_and_stop_at_a_gap() {
    let mut policy = RestartPolicy::new();
    for wait in [250, 500, 1_000, 2_000, 4_000, 8_000, 16_000, 30_000, 30_000] {
        assert_eq!(policy.after_run(None), Some(wait));
    }
    let mut consumer = ReplicaDeltaConsumer::new(None);
    consumer.step(message(42, None));
    consumer.step(failed(ApplyFailureKind::Deterministic, "x"));
    consumer.step(ConsumerEvent::Settled);
    assert_eq!(policy.after_run(consumer.error()), None);
}
