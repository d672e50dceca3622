//! How a node applies the commits of the others.
//!
//! Commits are taken from the distributed log one at a time, each is applied
//! through the node's single apply loop, and a message is acknowledged only
//! after that.

use vstd::prelude::*;

use crate::commit_delta::{
    GapView,
    ReplicationPoisonGap,
    ReplicationPoisonKind,
    ReplicationTransportId,
    Timestamp,
};
use crate::partition::PartitionId;
use crate::text;

verus! {

/// How long a commit that is blocked for now waits for its redelivery, in
/// milliseconds.
pub const RETRYABLE_REPLICA_APPLY_NAK_DELAY_MS: u64 = 250;

/// How long the consumer first waits before it starts again, in milliseconds.
pub const RESTART_BACKOFF_MIN_MS: u64 = 250;

/// How long the consumer waits at most before it starts again, in
/// milliseconds.
pub const RESTART_BACKOFF_MAX_MS: u64 = 30_000;

/// What the consumer needs to know of a message.
#[derive(Clone, Copy, Debug)]
pub struct MessageHead {
    pub ts: Timestamp,
    pub source_partition: Option<PartitionId>,
    pub num_updates: usize,
    pub transport_id: Option<ReplicationTransportId>,
}

/// Why a commit was not applied.
#[derive(Clone, Copy, Debug, PartialEq, Eq, Structural)]
pub enum ApplyFailureKind {
    /// The database is shutting down.
    Shutdown,
    /// Something that will pass stands in the way.
    Retryable,
    /// Applying it again would fail again.
    Deterministic,
}

/// What lies behind an error of the consumer.
#[derive(Clone, Debug, PartialEq, Eq)]
pub enum ReplicaErrorCause {
    PoisonGap(ReplicationPoisonGap),
    Shutdown,
    Retryable,
    Other,
}

/// What a [`ReplicaErrorCause`] states.
#[verifier::ext_equal]
pub enum ReplicaErrorCauseView {
    PoisonGap(GapView),
    Shutdown,
    Retryable,
    Other,
}

impl View for ReplicaErrorCause {
    type V = ReplicaErrorCauseView;

    open spec fn view(&self) -> ReplicaErrorCauseView {
        match self {
            ReplicaErrorCause::PoisonGap(gap) => ReplicaErrorCauseView::PoisonGap(gap@),
            ReplicaErrorCause::Shutdown => ReplicaErrorCauseView::Shutdown,
            ReplicaErrorCause::Retryable => ReplicaErrorCauseView::Retryable,
            ReplicaErrorCause::Other => ReplicaErrorCauseView::Other,
        }
    }
}

/// An error that ends a run of the consumer.
#[derive(Clone, Debug, PartialEq, Eq)]
pub struct ReplicaError {
    pub cause: ReplicaErrorCause,
    pub text: String,
}

/// What a [`ReplicaError`] states.
#[verifier::ext_equal]
pub struct ReplicaErrorView {
    pub cause: ReplicaErrorCauseView,
    pub text: Seq<char>,
}

impl View for ReplicaError {
    type V = ReplicaErrorView;

    open spec fn view(&self) -> ReplicaErrorView {
        ReplicaErrorView { cause: self.cause@, text: self.text@ }
    }
}

/// The gap behind an error, where there is one.
pub fn replication_poison_gap(error: &ReplicaError) -> (r: Option<&ReplicationPoisonGap>)
    ensures
        match r {
            Some(gap) => error@.cause == ReplicaErrorCauseView::PoisonGap(gap@),
            None => !(error@.cause is PoisonGap),
        },
{
    match &error.cause {
        ReplicaErrorCause::PoisonGap(gap) => Some(gap),
        _ => None,
    }
}

/// The commit comes from the partition that Raft already replicates here.
pub open spec fn is_excluded(
    source_partition: Option<PartitionId>,
    excluded: Option<PartitionId>,
) -> bool {
    excluded is Some && source_partition == excluded
}

/// The error for a commit that was not applied.
pub open spec fn apply_error(
    head: MessageHead,
    kind: ApplyFailureKind,
    error: Seq<char>,
) -> ReplicaErrorView {
    match kind {
        ApplyFailureKind::Shutdown => ReplicaErrorView {
            cause: ReplicaErrorCauseView::Shutdown,
            text: "Database shutdown interrupted replica delta at ts="@ + text::decimal(
                head.ts@ as nat,
            ) + ": "@ + error,
        },
        ApplyFailureKind::Retryable => ReplicaErrorView {
            cause: ReplicaErrorCauseView::Retryable,
            text: "Retryable failure applying replica delta at ts="@ + text::decimal(
                head.ts@ as nat,
            ) + ": "@ + error,
        },
        ApplyFailureKind::Deterministic => {
            let reason = "failed to apply replica delta: "@ + error;
            ReplicaErrorView {
                cause: ReplicaErrorCauseView::PoisonGap(
                    GapView {
                        kind: ReplicationPoisonKind::DeterministicApplyFailure,
                        consumer_name: None,
                        subject: None,
                        stream_sequence: match head.transport_id {
                            Some(id) => Some(id.0),
                            None => None,
                        },
                        source_node: None,
                        source_partition: head.source_partition,
                        origin_ts: Some(head.ts@),
                        reason,
                    },
                ),
                text: "replication poison gap: "@ + reason,
            }
        },
    }
}

/// The error for a commit that was not applied.
fn error_of_apply(head: MessageHead, kind: ApplyFailureKind, error: &str) -> (r: ReplicaError)
    ensures
        r@ == apply_error(head, kind, error@),
{
    match kind {
        ApplyFailureKind::Shutdown => {
            let mut s = "Database shutdown interrupted replica delta at ts=".to_owned();
            text::push_decimal(&mut s, head.ts.nanos());
            s.append(": ");
            s.append(error);
            ReplicaError { cause: ReplicaErrorCause::Shutdown, text: s }
        },
        ApplyFailureKind::Retryable => {
            let mut s = "Retryable failure applying replica delta at ts=".to_owned();
            text::push_decimal(&mut s, head.ts.nanos());
            s.append(": ");
            s.append(error);
            ReplicaError { cause: ReplicaErrorCause::Retryable, text: s }
        },
        ApplyFailureKind::Deterministic => {
            let mut reason = "failed to apply replica delta: ".to_owned();
            reason.append(error);
            let gap = ReplicationPoisonGap {
                kind: ReplicationPoisonKind::DeterministicApplyFailure,
                consumer_name: None,
                subject: None,
                stream_sequence: match head.transport_id {
                    Some(id) => Some(id.stream_sequence()),
                    None => None,
                },
                source_node: None,
                source_partition: head.source_partition,
                origin_ts: Some(head.ts),
                reason,
            };
            let text = gap.message();
            ReplicaError { cause: ReplicaErrorCause::PoisonGap(gap), text }
        },
    }
}

/// Where the consumer stands with the message at hand.
#[derive(Clone, Debug)]
pub enum ConsumerPhase {
    /// Between messages.
    Reading,
    /// The commit is being applied.
    Applying { head: MessageHead },
    /// The message is being acknowledged.
    Acking { ts: Timestamp, num_updates: usize, applied: bool },
    /// The message is being handed back.
    Rejecting { error: ReplicaError },
    /// The run is over.
    Stopped { error: ReplicaError },
}

/// What a [`ConsumerPhase`] states.
#[verifier::ext_equal]
pub enum PhaseView {
    Reading,
    Applying { head: MessageHead },
    Acking { ts: Timestamp, num_updates: usize, applied: bool },
    Rejecting { error: ReplicaErrorView },
    Stopped { error: ReplicaErrorView },
}

impl View for ConsumerPhase {
    type V = PhaseView;

    open spec fn view(&self) -> PhaseView {
        match self {
            ConsumerPhase::Reading => PhaseView::Reading,
            ConsumerPhase::Applying { head } => PhaseView::Applying { head: *head },
            ConsumerPhase::Acking { ts, num_updates, applied } => PhaseView::Acking {
                ts: *ts,
                num_updates: *num_updates,
                applied: *applied,
            },
            ConsumerPhase::Rejecting { error } => PhaseView::Rejecting { error: error@ },
            ConsumerPhase::Stopped { error } => PhaseView::Stopped { error: error@ },
        }
    }
}

/// What happens to the consumer.
#[derive(Clone, Debug)]
pub enum ConsumerEvent {
    /// The log gave a message.
    Message { head: MessageHead },
    /// The log gave an error.
    StreamFailed { error: ReplicaError },
    /// The log gave its last message.
    StreamEnded,
    /// The commit was applied.
    Applied { ts: Timestamp },
    /// The commit was not applied.
    ApplyFailed { kind: ApplyFailureKind, error: String },
    /// The reply to the message went out.
    Settled,
    /// The reply to the message did not go out.
    SettleFailed { error: String },
}

/// What a [`ConsumerEvent`] states.
pub enum EventView {
    Message { head: MessageHead },
    StreamFailed { error: ReplicaErrorView },
    StreamEnded,
    Applied { ts: Timestamp },
    ApplyFailed { kind: ApplyFailureKind, error: Seq<char> },
    Settled,
    SettleFailed { error: Seq<char> },
}

impl View for ConsumerEvent {
    type V = EventView;

    open spec fn view(&self) -> EventView {
        match self {
            ConsumerEvent::Message { head } => EventView::Message { head: *head },
            ConsumerEvent::StreamFailed { error } => EventView::StreamFailed { error: error@ },
            ConsumerEvent::StreamEnded => EventView::StreamEnded,
            ConsumerEvent::Applied { ts } => EventView::Applied { ts: *ts },
            ConsumerEvent::ApplyFailed { kind, error } => EventView::ApplyFailed {
                kind: *kind,
                error: error@,
            },
            ConsumerEvent::Settled => EventView::Settled,
            ConsumerEvent::SettleFailed { error } => EventView::SettleFailed { error: error@ },
        }
    }
}

/// What the consumer has done next.
#[derive(Clone, Copy, Debug, PartialEq, Eq, Structural)]
pub enum ConsumerAction {
    /// Apply the commit.
    Apply,
    /// Acknowledge the message.
    Ack,
    /// Hand the message back.
    Nak,
    /// Hand the message back for a redelivery after so many milliseconds.
    NakAfter { delay_ms: u64 },
    /// Tell how far the consumer has come, and read the next message.
    Report { ts: Timestamp, num_updates: usize },
    /// End the run.
    Stop,
    /// The event does not belong here: nothing.
    Ignore,
}

/// The text before the time in the error of an acknowledgment that failed.
pub open spec fn ack_failure_text(applied: bool) -> Seq<char> {
    if applied {
        "Failed to ack applied replica delta at ts="@
    } else {
        "Failed to ack same-partition NATS delta at ts="@
    }
}

/// One step of the consumer.
pub open spec fn consumer_step(
    excluded: Option<PartitionId>,
    phase: PhaseView,
    event: EventView,
) -> (PhaseView, ConsumerAction) {
    match (phase, event) {
        (PhaseView::Reading, EventView::Message { head }) => {
            if is_excluded(head.source_partition, excluded) {
                (
                    PhaseView::Acking { ts: head.ts, num_updates: 0, applied: false },
                    ConsumerAction::Ack,
                )
            } else {
                (PhaseView::Applying { head }, ConsumerAction::Apply)
            }
        },
        (PhaseView::Reading, EventView::StreamFailed { error }) => (
            PhaseView::Stopped {
                error: ReplicaErrorView {
                    cause: error.cause,
                    text: "Error reading from distributed log: "@ + error.text,
                },
            },
            ConsumerAction::Stop,
        ),
        (PhaseView::Reading, EventView::StreamEnded) => (
            PhaseView::Stopped {
                error: ReplicaErrorView {
                    cause: ReplicaErrorCauseView::Other,
                    text: "ReplicaDeltaConsumer stream ended"@,
                },
            },
            ConsumerAction::Stop,
        ),
        (PhaseView::Applying { head }, EventView::Applied { ts }) => (
            PhaseView::Acking { ts, num_updates: head.num_updates, applied: true },
            ConsumerAction::Ack,
        ),
        (PhaseView::Applying { head }, EventView::ApplyFailed { kind, error }) => (
            PhaseView::Rejecting { error: apply_error(head, kind, error) },
            match kind {
                ApplyFailureKind::Retryable => ConsumerAction::NakAfter {
                    delay_ms: RETRYABLE_REPLICA_APPLY_NAK_DELAY_MS,
                },
                _ => ConsumerAction::Nak,
            },
        ),
        (PhaseView::Acking { ts, num_updates, applied }, EventView::Settled) => (
            PhaseView::Reading,
            ConsumerAction::Report { ts, num_updates },
        ),
        (PhaseView::Acking { ts, num_updates, applied }, EventView::SettleFailed { error }) => (
            PhaseView::Stopped {
                error: ReplicaErrorView {
                    cause: ReplicaErrorCauseView::Other,
                    text: ack_failure_text(applied) + text::decimal(ts@ as nat) + ": "@ + error,
                },
            },
            ConsumerAction::Stop,
        ),
        (PhaseView::Rejecting { error }, EventView::Settled) => (
            PhaseView::Stopped { error },
            ConsumerAction::Stop,
        ),
        (PhaseView::Rejecting { error }, EventView::SettleFailed { error: _ }) => (
            PhaseView::Stopped { error },
            ConsumerAction::Stop,
        ),
        _ => (phase, ConsumerAction::Ignore),
    }
}

/// Takes commits from the distributed log and feeds them to the node's apply
/// loop. Whoever runs it performs each action and tells what came of it.
#[derive(Clone, Debug)]
pub struct ReplicaDeltaConsumer {
    phase: ConsumerPhase,
    excluded_source_partition: Option<PartitionId>,
}

impl ReplicaDeltaConsumer {
    /// Where the consumer stands.
    pub closed spec fn at(&self) -> PhaseView {
        self.phase@
    }

    /// The partition whose commits are acknowledged without being applied.
    pub closed spec fn excluded(&self) -> Option<PartitionId> {
        self.excluded_source_partition
    }

    /// A consumer at the start of a run. Commits of the excluded partition
    /// come through Raft, which is authoritative for it.
    pub fn new(excluded_source_partition: Option<PartitionId>) -> (r: Self)
        ensures
            r.at() == PhaseView::Reading,
            r.excluded() == excluded_source_partition,
    {
        ReplicaDeltaConsumer { phase: ConsumerPhase::Reading, excluded_source_partition }
    }

    /// The error that ended the run.
    pub fn error(&self) -> (r: Option<&ReplicaError>)
        ensures
            match r {
                Some(error) => self.at() == (PhaseView::Stopped { error: error@ }),
                None => !(self.at() is Stopped),
            },
    {
        match &self.phase {
            ConsumerPhase::Stopped { error } => Some(error),
            _ => None,
        }
    }

    fn stop(&mut self, error: ReplicaError) -> (r: ConsumerAction)
        ensures
            final(self).at() == (PhaseView::Stopped { error: error@ }),
            final(self).excluded() == old(self).excluded(),
            r == ConsumerAction::Stop,
    {
        self.phase = ConsumerPhase::Stopped { error };
        ConsumerAction::Stop
    }

    /// One step of the consumer.
    pub fn step(&mut self, event: ConsumerEvent) -> (r: ConsumerAction)
        ensures
            (final(self).at(), r) == consumer_step(old(self).excluded(), old(self).at(), event@),
            final(self).excluded() == old(self).excluded(),
    {
        let mut phase = ConsumerPhase::Reading;
        std::mem::swap(&mut phase, &mut self.phase);
        match phase {
            ConsumerPhase::Reading => match event {
                ConsumerEvent::Message { head } => {
                    let excluded = match (self.excluded_source_partition, head.source_partition) {
                        (Some(excluded), Some(source)) => excluded.0 == source.0,
                        _ => false,
                    };
                    if excluded {
                        self.phase = ConsumerPhase::Acking {
                            ts: head.ts,
                            num_updates: 0,
                            applied: false,
                        };
                        ConsumerAction::Ack
                    } else {
                        self.phase = ConsumerPhase::Applying { head };
                        ConsumerAction::Apply
                    }
                },
                ConsumerEvent::StreamFailed { error } => {
                    let mut text = "Error reading from distributed log: ".to_owned();
                    text.append(error.text.as_str());
                    self.stop(ReplicaError { cause: error.cause, text })
                },
                ConsumerEvent::StreamEnded => {
                    self.stop(
                        ReplicaError {
                            cause: ReplicaErrorCause::Other,
                            text: "ReplicaDeltaConsumer stream ended".to_owned(),
                        },
                    )
                },
                _ => ConsumerAction::Ignore,
            },
            ConsumerPhase::Applying { head } => match event {
                ConsumerEvent::Applied { ts } => {
                    self.phase = ConsumerPhase::Acking {
                        ts,
                        num_updates: head.num_updates,
                        applied: true,
                    };
                    ConsumerAction::Ack
                },
                ConsumerEvent::ApplyFailed { kind, error } => {
                    self.phase = ConsumerPhase::Rejecting {
                        error: error_of_apply(head, kind, error.as_str()),
                    };
                    match kind {
                        ApplyFailureKind::Retryable => ConsumerAction::NakAfter {
                            delay_ms: RETRYABLE_REPLICA_APPLY_NAK_DELAY_MS,
                        },
                        _ => ConsumerAction::Nak,
                    }
                },
                _ => {
                    self.phase = ConsumerPhase::Applying { head };
                    ConsumerAction::Ignore
                },
            },
            ConsumerPhase::Acking { ts, num_updates, applied } => match event {
                ConsumerEvent::Settled => ConsumerAction::Report { ts, num_updates },
                ConsumerEvent::SettleFailed { error } => {
                    let mut text = if applied {
                        "Failed to ack applied replica delta at ts=".to_owned()
                    } else {
                        "Failed to ack same-partition NATS delta at ts=".to_owned()
                    };
                    text::push_decimal(&mut text, ts.nanos());
                    text.append(": ");
                    text.append(error.as_str());
                    self.stop(ReplicaError { cause: ReplicaErrorCause::Other, text })
                },
                _ => {
                    self.phase = ConsumerPhase::Acking { ts, num_updates, applied };
                    ConsumerAction::Ignore
                },
            },
            ConsumerPhase::Rejecting { error } => match event {
                ConsumerEvent::Settled => self.stop(error),
                ConsumerEvent::SettleFailed { error: _ } => self.stop(error),
                _ => {
                    self.phase = ConsumerPhase::Rejecting { error };
                    ConsumerAction::Ignore
                },
            },
            ConsumerPhase::Stopped { error } => {
                self.phase = ConsumerPhase::Stopped { error };
                ConsumerAction::Ignore
            },
        }
    }
}

/// A message is acknowledged only once its commit is applied, or where its
/// commit comes from the excluded partition.
pub proof fn ack_follows_apply(excluded: Option<PartitionId>, phase: PhaseView, event: EventView)
    requires
        consumer_step(excluded, phase, event).1 == ConsumerAction::Ack,
    ensures
        (phase is Applying && event is Applied) || (event matches EventView::Message { head }
            && is_excluded(head.source_partition, excluded)),
{
}

/// The consumer tells that it has come to a commit only once the message is
/// acknowledged.
pub proof fn report_follows_ack(excluded: Option<PartitionId>, phase: PhaseView, event: EventView)
    requires
        consumer_step(excluded, phase, event).1 is Report,
    ensures
        phase is Acking,
        event is Settled,
{
}

/// Once a run is over, no message is applied, answered or reported in it.
pub proof fn stopped_consumer_does_nothing(
    excluded: Option<PartitionId>,
    phase: PhaseView,
    event: EventView,
)
    requires
        phase is Stopped,
    ensures
        consumer_step(excluded, phase, event) == (phase, ConsumerAction::Ignore),
{
}

/// A commit that is not applied ends the run, whether or not the message could
/// be handed back, so that nothing behind it is applied.
pub proof fn failed_apply_ends_the_run(
    excluded: Option<PartitionId>,
    head: MessageHead,
    kind: ApplyFailureKind,
    error: Seq<char>,
    reply: EventView,
)
    requires
        reply is Settled || reply is SettleFailed,
    ensures
        ({
            let (phase, action) = consumer_step(
                excluded,
                PhaseView::Applying { head },
                EventView::ApplyFailed { kind, error },
            );
            &&& action is Nak || action is NakAfter
            &&& consumer_step(excluded, phase, reply) == (
                PhaseView::Stopped { error: apply_error(head, kind, error) },
                ConsumerAction::Stop,
            )
        }),
{
}

/// An interrupted or blocked commit does not poison the log: only one that
/// would fail again does.
pub proof fn only_deterministic_failures_poison(
    head: MessageHead,
    kind: ApplyFailureKind,
    error: Seq<char>,
)
    ensures
        apply_error(head, kind, error).cause is PoisonGap <==> kind
            == ApplyFailureKind::Deterministic,
{
}

/// When a consumer whose run has ended starts again.
#[derive(Clone, Copy, Debug, PartialEq, Eq, Structural)]
pub struct RestartPolicy {
    pub backoff_ms: u64,
}

/// The wait after one of `backoff_ms`.
pub open spec fn next_backoff(backoff_ms: u64) -> u64 {
    if 2 * backoff_ms < RESTART_BACKOFF_MAX_MS {
        (2 * backoff_ms) as u64
    } else {
        RESTART_BACKOFF_MAX_MS
    }
}

impl RestartPolicy {
    /// The wait is within its bounds.
    pub open spec fn wf(self) -> bool {
        RESTART_BACKOFF_MIN_MS <= self.backoff_ms <= RESTART_BACKOFF_MAX_MS
    }

    pub fn new() -> (r: Self)
        ensures
            r.wf(),
            r.backoff_ms == RESTART_BACKOFF_MIN_MS,
    {
        RestartPolicy { backoff_ms: RESTART_BACKOFF_MIN_MS }
    }

    /// How long to wait before the next run, in milliseconds. There is none
    /// after a gap in the log.
    pub fn after_run(&mut self, error: Option<&ReplicaError>) -> (r: Option<u64>)
        requires
            old(self).wf(),
        ensures
            final(self).wf(),
            match error {
                Some(error) if error@.cause is PoisonGap => r is None && *final(self) == *old(self),
                _ => r == Some(old(self).backoff_ms) && final(self).backoff_ms == next_backoff(
                    old(self).backoff_ms,
                ),
            },
    {
        match error {
            Some(error) => {
                if replication_poison_gap(error).is_some() {
                    return None;
                }
            },
            None => {},
        }
        let wait: u64 = self.backoff_ms;
        let doubled: u64 = wait * 2;
        self.backoff_ms = if doubled < RESTART_BACKOFF_MAX_MS {
            doubled
        } else {
            RESTART_BACKOFF_MAX_MS
        };
        Some(wait)
    }
}

/// A message that is read is acknowledged without being applied exactly where
/// there is an excluded partition and the commit comes from that one. A commit of
/// any other partition, or of none, is applied.
pub proof fn only_the_excluded_partition_is_skipped(
    excluded: Option<PartitionId>,
    head: MessageHead,
)
    ensures
        ({
            let (phase, action) = consumer_step(
                excluded,
                PhaseView::Reading,
                EventView::Message { head },
            );
            match (excluded, head.source_partition) {
                (Some(skipped), Some(source)) if skipped.0 == source.0 => {
                    &&& action == ConsumerAction::Ack
                    &&& phase == (PhaseView::Acking { ts: head.ts, num_updates: 0, applied: false })
                },
                _ => {
                    &&& action == ConsumerAction::Apply
                    &&& phase == (PhaseView::Applying { head })
                },
            }
        }),
{
}

/// The consumer after the first `n` events.
pub open spec fn consumer_after(
    excluded: Option<PartitionId>,
    phase: PhaseView,
    events: Seq<EventView>,
    n: nat,
) -> PhaseView
    decreases n,
{
    if n == 0 {
        phase
    } else {
        consumer_step(
            excluded,
            consumer_after(excluded, phase, events, (n - 1) as nat),
            events[n - 1],
        ).0
    }
}

/// A commit of another partition goes its whole way: it is applied, its message
/// is then acknowledged, and the consumer tells that it has come to the time at
/// which it was applied, with all of its updates, and reads on.
pub proof fn foreign_commits_are_applied_acknowledged_and_reported(
    excluded: Option<PartitionId>,
    head: MessageHead,
    ts: Timestamp,
)
    requires
        head.source_partition is None || head.source_partition != excluded,
    ensures
        ({
            let first = consumer_step(excluded, PhaseView::Reading, EventView::Message { head });
            let second = consumer_step(excluded, first.0, EventView::Applied { ts });
            let third = consumer_step(excluded, second.0, EventView::Settled);
            &&& first.1 == ConsumerAction::Apply
            &&& second.1 == ConsumerAction::Ack
            &&& third.1 == (ConsumerAction::Report { ts, num_updates: head.num_updates })
            &&& third.0 == PhaseView::Reading
        }),
{
}

/// A commit of the excluded partition is acknowledged and told of, with no
/// update of its own, and the consumer reads on.
pub proof fn own_commits_are_acknowledged_and_reported(own: PartitionId, head: MessageHead)
    requires
        head.source_partition == Some(own),
    ensures
        ({
            let first = consumer_step(Some(own), PhaseView::Reading, EventView::Message { head });
            let second = consumer_step(Some(own), first.0, EventView::Settled);
            &&& first.1 == ConsumerAction::Ack
            &&& second.1 == (ConsumerAction::Report { ts: head.ts, num_updates: 0 })
            &&& second.0 == PhaseView::Reading
        }),
{
}

/// What stops a run: the end of the log, an error of the log, which keeps its
/// cause, and a message that could not be acknowledged. No such end is a gap
/// unless the log's own error was one.
pub proof fn runs_stop_with_their_cause(
    excluded: Option<PartitionId>,
    error: ReplicaErrorView,
    ts: Timestamp,
    num_updates: usize,
    applied: bool,
    reason: Seq<char>,
)
    ensures
        ({
            let (phase, action) = consumer_step(
                excluded,
                PhaseView::Reading,
                EventView::StreamFailed { error },
            );
            &&& action == ConsumerAction::Stop
            &&& phase matches PhaseView::Stopped { error: kept } && kept.cause == error.cause
        }),
        ({
            let (phase, action) = consumer_step(
                excluded,
                PhaseView::Reading,
                EventView::StreamEnded,
            );
            &&& action == ConsumerAction::Stop
            &&& phase matches PhaseView::Stopped { error: kept } && kept.cause
                == ReplicaErrorCauseView::Other
        }),
        ({
            let (phase, action) = consumer_step(
                excluded,
                PhaseView::Acking { ts, num_updates, applied },
                EventView::SettleFailed { error: reason },
            );
            &&& action == ConsumerAction::Stop
            &&& phase matches PhaseView::Stopped { error: kept } && kept.cause
                == ReplicaErrorCauseView::Other
        }),
{
}

/// A commit that could not be applied is handed back: for a redelivery after a
/// quarter of a second where something stood in the way, and otherwise at once.
/// The run then ends with the cause, and a commit that would fail again leaves a
/// gap that names its place in the stream, its partition and its time.
pub proof fn failed_commits_are_handed_back(
    excluded: Option<PartitionId>,
    head: MessageHead,
    kind: ApplyFailureKind,
    error: Seq<char>,
)
    ensures
        ({
            let (phase, action) = consumer_step(
                excluded,
                PhaseView::Applying { head },
                EventView::ApplyFailed { kind, error },
            );
            &&& action == (if kind == ApplyFailureKind::Retryable {
                ConsumerAction::NakAfter { delay_ms: 250 }
            } else {
                ConsumerAction::Nak
            })
            &&& phase matches PhaseView::Rejecting { error: kept } && match kind {
                ApplyFailureKind::Shutdown => kept.cause == ReplicaErrorCauseView::Shutdown,
                ApplyFailureKind::Retryable => kept.cause == ReplicaErrorCauseView::Retryable,
                ApplyFailureKind::Deterministic => {
                    kept.cause matches ReplicaErrorCauseView::PoisonGap(gap) && gap.kind
                        == ReplicationPoisonKind::DeterministicApplyFailure && gap.source_partition
                        == head.source_partition && gap.origin_ts == Some(head.ts@) && (
                    gap.stream_sequence is Some <==> head.transport_id is Some) && (
                    head.transport_id matches Some(id) ==> gap.stream_sequence == Some(id.0))
                },
            }
        }),
{
}

/// The consumer does something about an event only where it waits for it, and
/// otherwise stays as it is.
pub proof fn unexpected_events_change_nothing(
    excluded: Option<PartitionId>,
    phase: PhaseView,
    event: EventView,
)
    ensures
        ({
            let expected = match phase {
                PhaseView::Reading => event is Message || event is StreamFailed
                    || event is StreamEnded,
                PhaseView::Applying { head } => event is Applied || event is ApplyFailed,
                PhaseView::Acking { ts, num_updates, applied } => event is Settled
                    || event is SettleFailed,
                PhaseView::Rejecting { error } => event is Settled || event is SettleFailed,
                PhaseView::Stopped { error } => false,
            };
            let (after, action) = consumer_step(excluded, phase, event);
            &&& !expected ==> after == phase && action == ConsumerAction::Ignore
            &&& expected ==> action != ConsumerAction::Ignore
        }),
{
}

/// How many messages the first `n` events brought, while the consumer waited for
/// one.
pub open spec fn messages_read(
    excluded: Option<PartitionId>,
    events: Seq<EventView>,
    n: nat,
) -> nat
    decreases n,
{
    if n == 0 {
        0
    } else {
        let before = messages_read(excluded, events, (n - 1) as nat);
        let phase = consumer_after(excluded, PhaseView::Reading, events, (n - 1) as nat);
        if phase is Reading && events[n - 1] is Message {
            before + 1
        } else {
            before
        }
    }
}

/// How many messages the consumer has told of in the first `n` events.
pub open spec fn messages_reported(
    excluded: Option<PartitionId>,
    events: Seq<EventView>,
    n: nat,
) -> nat
    decreases n,
{
    if n == 0 {
        0
    } else {
        let before = messages_reported(excluded, events, (n - 1) as nat);
        let phase = consumer_after(excluded, PhaseView::Reading, events, (n - 1) as nat);
        if consumer_step(excluded, phase, events[n - 1]).1 is Report {
            before + 1
        } else {
            before
        }
    }
}

/// Over a whole run, the messages are settled one after the other: between
/// messages every message that was read has been told of, and while one is at
/// hand all but that one.
pub proof fn messages_are_settled_one_by_one(
    excluded: Option<PartitionId>,
    events: Seq<EventView>,
    n: nat,
)
    requires
        n <= events.len(),
    ensures
        ({
            let phase = consumer_after(excluded, PhaseView::Reading, events, n);
            let read = messages_read(excluded, events, n);
            let reported = messages_reported(excluded, events, n);
            &&& phase is Reading ==> reported == read
            &&& phase is Applying || phase is Acking || phase is Rejecting ==> reported + 1 == read
            &&& phase is Stopped ==> reported == read || reported + 1 == read
        }),
    decreases n,
{
    if n > 0 {
        messages_are_settled_one_by_one(excluded, events, (n - 1) as nat);
    }
}

/// The wait before the next run doubles from a quarter of a second up to half a
/// minute, and never falls.
pub proof fn restart_waits_double(backoff_ms: u64)
    requires
        250 <= backoff_ms <= 30_000,
    ensures
        backoff_ms <= next_backoff(backoff_ms) <= 30_000,
        next_backoff(backoff_ms) == 2 * backoff_ms || next_backoff(backoff_ms) == 30_000,
        2 * backoff_ms <= 30_000 ==> next_backoff(backoff_ms) == 2 * backoff_ms,
        (RestartPolicy { backoff_ms }).wf(),
{
}

} // verus!
