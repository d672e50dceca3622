//! The distributed log that carries commits between nodes.
//!
//! What a node publishes, and where; what it makes of each message that it
//! receives; and when the log no longer holds what the node still needs.

use vstd::prelude::*;

use crate::commit_delta;
use crate::commit_delta::{
    CommitDelta,
    DeltaView,
    GapView,
    ReplicationPoisonGap,
    ReplicationPoisonKind,
    Timestamp,
};
use crate::delta_envelope;
use crate::delta_envelope::{
    DeltaEnvelope,
    EnvelopeError,
    EnvelopeErrorView,
    EnvelopeView,
    PayloadReadings,
    ReadingsView,
    DELTA_ENVELOPE_SCHEMA_VERSION,
};
use crate::ordered::NameSet;
use crate::partition;
use crate::partition::PartitionId;
use crate::selective_delivery;
use crate::selective_delivery::SelectiveDeliveryRegistry;
use crate::text;

verus! {

pub const STREAM_NAME: &'static str = "CONVEX_COMMITS";

/// The base subject for commits. With one partition it is what a node
/// publishes to; with several, each publishes to its own subject below it.
pub const SUBJECT_BASE: &'static str = "convex.commits";

pub const SYSTEM_TABLE_SUBJECT: &'static str = "convex.commits.system";

pub const FRONTIER_HEARTBEAT_SUBJECT: &'static str = "convex.commits.frontier_heartbeat";

/// The name of a consumer that was given none.
pub const DEFAULT_CONSUMER_NAME: &'static str = "convex-node";

/// How long a message that cannot be applied waits for its redelivery, in
/// milliseconds.
pub const POISON_REDELIVERY_DELAY_MS: u64 = 30_000;

/// How long the stream keeps a message, in seconds.
pub const STREAM_MAX_AGE_SECS: u64 = 86_400;

/// How to reach the log.
#[derive(Clone, Debug)]
pub struct NatsConfig {
    pub url: String,
    /// The consumer of this node. Each node needs a name of its own, so that
    /// every message is delivered to each.
    pub consumer_name: Option<String>,
    /// The partition that this node publishes for; with none, there is one
    /// partition.
    pub partition_id: Option<u32>,
}

/// Messages that a consumer still needs are gone from the stream.
#[derive(Clone, Copy, Debug, PartialEq, Eq, Structural)]
pub struct RetentionGap {
    pub expected_stream_sequence: u64,
    pub first_retained_sequence: u64,
    pub ack_floor_stream_sequence: u64,
    pub delivered_stream_sequence: u64,
}

/// The sequence number of the first message that a consumer still needs, where
/// that is known. A consumer that starts from a checkpoint and has no sequence
/// of its own cannot tell.
pub open spec fn next_needed(ack_floor: u64, delivered: u64, from_ts: u64) -> Option<u64> {
    if ack_floor == u64::MAX {
        Some(u64::MAX)
    } else if ack_floor > 0 {
        Some((ack_floor + 1) as u64)
    } else if delivered > 0 || from_ts == 0 {
        Some(1)
    } else {
        None
    }
}

/// The gap between what a consumer still needs and what the stream still holds.
pub open spec fn gap_in_retention(
    stream_messages: u64,
    first_retained: u64,
    ack_floor: u64,
    delivered: u64,
    from_ts: u64,
) -> Option<RetentionGap> {
    match next_needed(ack_floor, delivered, from_ts) {
        Some(expected) => if stream_messages > 0 && expected < first_retained {
            Some(
                RetentionGap {
                    expected_stream_sequence: expected,
                    first_retained_sequence: first_retained,
                    ack_floor_stream_sequence: ack_floor,
                    delivered_stream_sequence: delivered,
                },
            )
        } else {
            None
        },
        None => None,
    }
}

/// The subject of a partition.
pub open spec fn subject_of_partition(partition: PartitionId) -> Seq<char> {
    SUBJECT_BASE@ + "."@ + text::decimal(partition.0 as nat)
}

/// The commit changes nothing: it only tells how far its partition has come.
pub open spec fn is_heartbeat(delta: DeltaView) -> bool {
    &&& delta.source_partition is Some
    &&& delta.document_writes.len() == 0
    &&& delta.document_updates.len() == 0
    &&& delta.index_writes.len() == 0
}

/// One of the updates is to a system table.
pub open spec fn touches_system_table(delta: DeltaView) -> bool {
    exists|table: Seq<char>| #[trigger]
        delta.touches(table) && partition::is_system_name(table)
}

/// The subjects of the first `n` nodes, without the node itself.
pub open spec fn node_subjects(nodes: Seq<Seq<char>>, own_name: Seq<char>, n: nat) -> Seq<Seq<char>>
    decreases n,
{
    if n == 0 {
        Seq::empty()
    } else {
        let before = node_subjects(nodes, own_name, (n - 1) as nat);
        if nodes[n - 1] == own_name {
            before
        } else {
            before.push(selective_delivery::subject_of_node(nodes[n - 1]))
        }
    }
}

/// The subjects on which a commit is published, in order: the node's own
/// subject, and then those of the nodes that asked for it. Every node hears of
/// a change to a system table, and of a heartbeat.
pub open spec fn publish_targets(
    own_name: Seq<char>,
    publish_subject: Seq<char>,
    delta: DeltaView,
    interested: Option<Seq<Seq<char>>>,
) -> Seq<Seq<char>> {
    seq![publish_subject] + if touches_system_table(delta) {
        seq![SYSTEM_TABLE_SUBJECT@]
    } else if is_heartbeat(delta) {
        seq![FRONTIER_HEARTBEAT_SUBJECT@]
    } else {
        match interested {
            Some(nodes) => node_subjects(nodes, own_name, nodes.len()),
            None => Seq::empty(),
        }
    }
}

/// The views of names that may be missing.
pub open spec fn names_view(names: Option<Vec<String>>) -> Option<Seq<Seq<char>>> {
    match names {
        Some(names) => Some(text::texts(names@)),
        None => None,
    }
}

/// The text for an envelope of a version that is not known here.
pub open spec fn unknown_version_text(version: u32) -> Seq<char> {
    "unsupported delta envelope schema version "@ + text::decimal(version as nat) + "; expected "@
        + text::decimal(DELTA_ENVELOPE_SCHEMA_VERSION as nat)
}

/// The kind of a poisoned message, and why it is one.
#[derive(Clone, Debug, PartialEq, Eq)]
pub struct EnvelopePoison {
    pub kind: ReplicationPoisonKind,
    pub reason: String,
}

/// The payload does not read as an envelope.
pub fn malformed_envelope(error: &str) -> (r: EnvelopePoison)
    ensures
        r.kind == ReplicationPoisonKind::MalformedEnvelope,
        r.reason@ == "failed to deserialize delta envelope: "@ + error@,
{
    let mut reason = "failed to deserialize delta envelope: ".to_owned();
    reason.append(error);
    EnvelopePoison { kind: ReplicationPoisonKind::MalformedEnvelope, reason }
}

/// Whether the envelope has the version that this node reads.
pub fn validate_delta_envelope_version(envelope: &DeltaEnvelope) -> (r: Result<(), EnvelopePoison>)
    ensures
        r is Ok <==> envelope@.schema_version == DELTA_ENVELOPE_SCHEMA_VERSION,
        r matches Err(poison) ==> poison.kind == ReplicationPoisonKind::UnsupportedEnvelopeVersion
            && poison.reason@ == unknown_version_text(envelope@.schema_version),
{
    if envelope.schema_version == DELTA_ENVELOPE_SCHEMA_VERSION {
        return Ok(());
    }
    let mut reason = "unsupported delta envelope schema version ".to_owned();
    text::push_decimal(&mut reason, envelope.schema_version as u64);
    reason.append("; expected ");
    text::push_decimal(&mut reason, DELTA_ENVELOPE_SCHEMA_VERSION as u64);
    Err(EnvelopePoison { kind: ReplicationPoisonKind::UnsupportedEnvelopeVersion, reason })
}

/// Whether the envelope may travel over the log.
pub fn validate_nats_delta_envelope(envelope: &DeltaEnvelope) -> (r: Result<(), EnvelopePoison>)
    ensures
        r is Ok <==> envelope@.nats_error() is None,
        r matches Err(poison) ==> poison.kind == ReplicationPoisonKind::InvalidDeltaPayload
            && poison.reason@ == "invalid NATS delta origin: "@
            + envelope@.nats_error()->Some_0.text(),
{
    match envelope.validate_nats_transport() {
        Ok(_) => Ok(()),
        Err(error) => {
            let mut reason = "invalid NATS delta origin: ".to_owned();
            reason.append(error.message().as_str());
            Err(EnvelopePoison { kind: ReplicationPoisonKind::InvalidDeltaPayload, reason })
        },
    }
}

/// Takes the commit out of an envelope from the log.
pub fn decode_delta_envelope(
    envelope: DeltaEnvelope,
    readings: PayloadReadings,
) -> (r: Result<CommitDelta, EnvelopePoison>)
    requires
        readings@.cover(envelope@),
    ensures
        r is Ok <==> envelope@.nats_error() is None && delta_envelope::decoded(
            envelope@,
            readings@,
        ) is Ok,
        r matches Ok(delta) ==> delta.wf() && delta_envelope::decoded(envelope@, readings@) == Ok::<
            DeltaView,
            EnvelopeErrorView,
        >(delta@),
        r matches Err(poison) ==> poison.kind == ReplicationPoisonKind::InvalidDeltaPayload
            && poison.reason@ == (match envelope@.nats_error() {
            Some(error) => "invalid NATS delta origin: "@ + error.text(),
            None => "failed to decode delta payload: "@ + delta_envelope::decoded(
                envelope@,
                readings@,
            )->Err_0.text(),
        }),
{
    match validate_nats_delta_envelope(&envelope) {
        Ok(_) => {},
        Err(poison) => {
            return Err(poison);
        },
    }
    match envelope.to_delta(readings) {
        Ok(delta) => Ok(delta),
        Err(error) => {
            let mut reason = "failed to decode delta payload: ".to_owned();
            reason.append(error.message().as_str());
            Err(EnvelopePoison { kind: ReplicationPoisonKind::InvalidDeltaPayload, reason })
        },
    }
}

/// Why a message is acknowledged without being applied.
#[derive(Clone, Copy, Debug, PartialEq, Eq, Structural)]
pub enum SkipReason {
    /// The commit is at or before where the consumer starts.
    AlreadyApplied,
    /// This node published it.
    SelfPublished,
}

/// What a node does with a message of the log.
pub enum Reception {
    /// Keep it pending for redelivery, and stop: nothing behind it may be
    /// applied.
    Poison(ReplicationPoisonGap),
    /// Acknowledge it and go on.
    Skip { reason: SkipReason, ts: u64 },
    /// Apply it.
    Deliver(CommitDelta),
}

/// What a [`Reception`] states.
pub enum ReceptionView {
    Poison(GapView),
    Skip { reason: SkipReason, ts: u64 },
    Deliver(DeltaView),
}

impl View for Reception {
    type V = ReceptionView;

    open spec fn view(&self) -> ReceptionView {
        match self {
            Reception::Poison(gap) => ReceptionView::Poison(gap@),
            Reception::Skip { reason, ts } => ReceptionView::Skip { reason: *reason, ts: *ts },
            Reception::Deliver(delta) => ReceptionView::Deliver(delta@),
        }
    }
}

/// Where a message was heard.
pub struct MessageOrigin {
    pub subject: String,
    /// The message's place in the stream, where it is known.
    pub stream_sequence: Option<u64>,
}

/// The gap that a poisoned envelope leaves.
pub open spec fn envelope_gap(
    own_name: Seq<char>,
    subject: Seq<char>,
    stream_sequence: Option<u64>,
    envelope: EnvelopeView,
    kind: ReplicationPoisonKind,
    reason: Seq<char>,
) -> GapView {
    GapView {
        kind,
        consumer_name: Some(own_name),
        subject: Some(subject),
        stream_sequence,
        source_node: if envelope.source_node.len() > 0 {
            Some(envelope.source_node)
        } else {
            None
        },
        source_partition: match envelope.source_partition {
            Some(partition) => Some(PartitionId(partition)),
            None => None,
        },
        origin_ts: if commit_delta::is_timestamp(envelope.ts) {
            Some(envelope.ts)
        } else {
            None
        },
        reason,
    }
}

/// What a node does with a message: it is refused where it cannot be read,
/// passed over where it is old or the node's own, and applied otherwise.
pub open spec fn received(
    own_name: Seq<char>,
    subject: Seq<char>,
    stream_sequence: Option<u64>,
    from_ts: u64,
    parsed: Result<EnvelopeView, Seq<char>>,
    readings: ReadingsView,
) -> ReceptionView {
    match parsed {
        Err(error) => ReceptionView::Poison(
            GapView {
                kind: ReplicationPoisonKind::MalformedEnvelope,
                consumer_name: Some(own_name),
                subject: Some(subject),
                stream_sequence,
                source_node: None,
                source_partition: None,
                origin_ts: None,
                reason: "failed to deserialize delta envelope: "@ + error,
            },
        ),
        Ok(envelope) => if envelope.schema_version != DELTA_ENVELOPE_SCHEMA_VERSION {
            ReceptionView::Poison(
                envelope_gap(
                    own_name,
                    subject,
                    stream_sequence,
                    envelope,
                    ReplicationPoisonKind::UnsupportedEnvelopeVersion,
                    unknown_version_text(envelope.schema_version),
                ),
            )
        } else if envelope.nats_error() is Some {
            ReceptionView::Poison(
                envelope_gap(
                    own_name,
                    subject,
                    stream_sequence,
                    envelope,
                    ReplicationPoisonKind::InvalidDeltaPayload,
                    "invalid NATS delta origin: "@ + envelope.nats_error()->Some_0.text(),
                ),
            )
        } else if envelope.ts <= from_ts {
            ReceptionView::Skip { reason: SkipReason::AlreadyApplied, ts: envelope.ts }
        } else if envelope.source_node.len() > 0 && envelope.source_node == own_name {
            ReceptionView::Skip { reason: SkipReason::SelfPublished, ts: envelope.ts }
        } else {
            match delta_envelope::decoded(envelope, readings) {
                Ok(delta) => ReceptionView::Deliver(delta),
                Err(error) => ReceptionView::Poison(
                    envelope_gap(
                        own_name,
                        subject,
                        stream_sequence,
                        envelope,
                        ReplicationPoisonKind::InvalidDeltaPayload,
                        "failed to decode delta payload: "@ + error.text(),
                    ),
                ),
            }
        },
    }
}

/// The view of a reading of a payload.
pub open spec fn parsed_view(
    parsed: Result<DeltaEnvelope, String>,
) -> Result<EnvelopeView, Seq<char>> {
    match parsed {
        Ok(envelope) => Ok(envelope@),
        Err(error) => Err(error@),
    }
}

/// The parts of a gap that come from the envelope.
struct EnvelopeSource {
    source_node: Option<String>,
    source_partition: Option<PartitionId>,
    origin_ts: Option<Timestamp>,
}

impl EnvelopeSource {
    fn of(envelope: &DeltaEnvelope) -> (r: Self)
        ensures
            text::optional(r.source_node) == (if envelope@.source_node.len() > 0 {
                Some(envelope@.source_node)
            } else {
                None
            }),
            r.source_partition == (match envelope@.source_partition {
                Some(partition) => Some(PartitionId(partition)),
                None => None,
            }),
            commit_delta::time_view(r.origin_ts) == (if commit_delta::is_timestamp(envelope@.ts) {
                Some(envelope@.ts)
            } else {
                None
            }),
    {
        EnvelopeSource {
            source_node: if envelope.source_node.as_str().unicode_len() > 0 {
                Some(envelope.source_node.clone())
            } else {
                None
            },
            source_partition: match envelope.source_partition {
                Some(partition) => Some(PartitionId(partition)),
                None => None,
            },
            origin_ts: Timestamp::from_nanos(envelope.ts),
        }
    }

    fn gap(self, own_name: &str, origin: MessageOrigin, poison: EnvelopePoison) -> (r: Reception)
        ensures
            r@ == ReceptionView::Poison(
                GapView {
                    kind: poison.kind,
                    consumer_name: Some(own_name@),
                    subject: Some(origin.subject@),
                    stream_sequence: origin.stream_sequence,
                    source_node: text::optional(self.source_node),
                    source_partition: self.source_partition,
                    origin_ts: commit_delta::time_view(self.origin_ts),
                    reason: poison.reason@,
                },
            ),
    {
        Reception::Poison(
            ReplicationPoisonGap {
                kind: poison.kind,
                consumer_name: Some(own_name.to_owned()),
                subject: Some(origin.subject),
                stream_sequence: origin.stream_sequence,
                source_node: self.source_node,
                source_partition: self.source_partition,
                origin_ts: self.origin_ts,
                reason: poison.reason,
            },
        )
    }
}

/// A node's place on the log: the name it consumes under, and the subject that
/// it publishes to.
#[derive(Clone, Debug)]
pub struct NatsDistributedLog {
    pub consumer_name: String,
    pub publish_subject: String,
}

impl NatsDistributedLog {
    /// The place of the node that the configuration describes.
    pub fn new(config: &NatsConfig) -> (r: Self)
        ensures
            r.consumer_name@ == (match config.consumer_name {
                Some(name) => name@,
                None => DEFAULT_CONSUMER_NAME@,
            }),
            r.publish_subject@ == (match config.partition_id {
                Some(id) => subject_of_partition(PartitionId(id)),
                None => SUBJECT_BASE@,
            }),
    {
        NatsDistributedLog {
            consumer_name: match &config.consumer_name {
                Some(name) => name.clone(),
                None => DEFAULT_CONSUMER_NAME.to_owned(),
            },
            publish_subject: match config.partition_id {
                Some(id) => Self::partition_subject(PartitionId(id)),
                None => SUBJECT_BASE.to_owned(),
            },
        }
    }

    /// The subjects that the stream takes in: the base subject, and all below
    /// it.
    pub fn stream_subjects() -> (r: Vec<String>)
        ensures
            text::texts(r@) == seq![SUBJECT_BASE@, SUBJECT_BASE@ + ".>"@],
    {
        let mut all = SUBJECT_BASE.to_owned();
        all.append(".>");
        let mut r: Vec<String> = Vec::new();
        r.push(SUBJECT_BASE.to_owned());
        r.push(all);
        assert(text::texts(r@) =~= seq![SUBJECT_BASE@, SUBJECT_BASE@ + ".>"@]);
        r
    }

    /// Whether messages that the consumer still needs are gone from the stream.
    pub fn retention_gap(
        stream_messages: u64,
        first_retained_sequence: u64,
        ack_floor_stream_sequence: u64,
        delivered_stream_sequence: u64,
        from_ts: Timestamp,
    ) -> (r: Option<RetentionGap>)
        ensures
            r == gap_in_retention(
                stream_messages,
                first_retained_sequence,
                ack_floor_stream_sequence,
                delivered_stream_sequence,
                from_ts@,
            ),
    {
        if stream_messages == 0 || first_retained_sequence == 0 {
            return None;
        }
        let expected_stream_sequence: u64 = if ack_floor_stream_sequence > 0 {
            ack_floor_stream_sequence.saturating_add(1)
        } else if delivered_stream_sequence > 0 || from_ts.nanos() == 0 {
            1
        } else {
            // A checkpointed consumer without a durable sequence cannot prove
            // continuity from sequence numbers alone.
            return None;
        };
        if expected_stream_sequence < first_retained_sequence {
            Some(
                RetentionGap {
                    expected_stream_sequence,
                    first_retained_sequence,
                    ack_floor_stream_sequence,
                    delivered_stream_sequence,
                },
            )
        } else {
            None
        }
    }

    /// The gap in the replicated log that messages gone from the stream leave.
    pub fn retention_poison(&self, gap: RetentionGap, from_ts: Timestamp) -> (r:
        ReplicationPoisonGap)
        ensures
            r@ == (GapView {
                kind: ReplicationPoisonKind::RetentionGap,
                consumer_name: Some(self.consumer_name@),
                subject: Some(STREAM_NAME@),
                stream_sequence: Some(gap.expected_stream_sequence),
                source_node: None,
                source_partition: None,
                origin_ts: None,
                reason: "next required stream sequence "@ + text::decimal(
                    gap.expected_stream_sequence as nat,
                ) + " is older than first retained sequence "@ + text::decimal(
                    gap.first_retained_sequence as nat,
                ) + " (ack_floor="@ + text::decimal(gap.ack_floor_stream_sequence as nat)
                    + ", delivered="@ + text::decimal(gap.delivered_stream_sequence as nat)
                    + ", from_ts="@ + text::decimal(from_ts@ as nat)
                    + "). Rebootstrap from checkpoint before serving"@,
            }),
    {
        let mut reason = "next required stream sequence ".to_owned();
        text::push_decimal(&mut reason, gap.expected_stream_sequence);
        reason.append(" is older than first retained sequence ");
        text::push_decimal(&mut reason, gap.first_retained_sequence);
        reason.append(" (ack_floor=");
        text::push_decimal(&mut reason, gap.ack_floor_stream_sequence);
        reason.append(", delivered=");
        text::push_decimal(&mut reason, gap.delivered_stream_sequence);
        reason.append(", from_ts=");
        text::push_decimal(&mut reason, from_ts.nanos());
        reason.append("). Rebootstrap from checkpoint before serving");
        ReplicationPoisonGap {
            kind: ReplicationPoisonKind::RetentionGap,
            consumer_name: Some(self.consumer_name.clone()),
            subject: Some(STREAM_NAME.to_owned()),
            stream_sequence: Some(gap.expected_stream_sequence),
            source_node: None,
            source_partition: None,
            origin_ts: None,
            reason,
        }
    }

    /// The subject of a partition.
    pub fn partition_subject(partition: PartitionId) -> (r: String)
        ensures
            r@ == subject_of_partition(partition),
    {
        let mut s = SUBJECT_BASE.to_owned();
        s.append(".");
        text::push_decimal(&mut s, partition.0 as u64);
        s
    }

    /// The subjects of the partitions.
    pub fn partition_filter_subjects(partitions: Vec<PartitionId>) -> (r: Vec<String>)
        ensures
            text::texts(r@) == partitions@.map_values(
                |partition: PartitionId| subject_of_partition(partition),
            ),
    {
        let mut out: Vec<String> = Vec::new();
        let mut i: usize = 0;
        while i < partitions.len()
            invariant
                i <= partitions@.len(),
                out@.len() == i,
                forall|k: int|
                    0 <= k < i ==> (#[trigger] out@[k])@ == subject_of_partition(partitions@[k]),
            decreases partitions@.len() - i,
        {
            out.push(Self::partition_subject(partitions[i]));
            i = i + 1;
        }
        assert(text::texts(out@) =~= partitions@.map_values(
            |partition: PartitionId| subject_of_partition(partition),
        ));
        out
    }

    /// Whether the commit only tells how far its partition has come.
    pub fn is_frontier_heartbeat_delta(delta: &CommitDelta) -> (r: bool)
        ensures
            r == is_heartbeat(delta@),
    {
        delta.source_partition.is_some() && delta.document_writes.len() == 0
            && delta.document_updates.len() == 0 && delta.index_writes.len() == 0
    }

    /// The name under which this node publishes.
    pub fn source_node(&self) -> (r: Option<String>)
        ensures
            r matches Some(name) && name@ == self.consumer_name@,
    {
        Some(self.consumer_name.clone())
    }

    /// The envelope of a commit that this node publishes.
    pub fn publish(&self, delta: &CommitDelta) -> (r: Result<DeltaEnvelope, EnvelopeError>)
        requires
            delta.wf(),
        ensures
            match r {
                Ok(envelope) => {
                    &&& delta_envelope::delta_error(delta@, self.consumer_name@, None) is None
                    &&& envelope@ == delta_envelope::envelope_of(
                        delta@,
                        delta.tablet_id_to_table_identity.keys(),
                        self.consumer_name@,
                        None,
                    )
                    &&& delta@.travels_with(delta.tablet_id_to_table_identity.keys())
                },
                Err(error) => delta_envelope::delta_error(delta@, self.consumer_name@, None)
                    == Some(error@),
            },
    {
        DeltaEnvelope::from_delta(delta, self.consumer_name.as_str(), None)
    }

    /// The subjects on which a commit is published, in order.
    ///
    /// `interested` are the nodes that asked for one of the touched tables;
    /// there is none where the node keeps no registry.
    pub fn publish_subjects(
        &self,
        delta: &CommitDelta,
        interested: &Option<Vec<String>>,
    ) -> (r: Vec<String>)
        requires
            delta.wf(),
        ensures
            text::texts(r@) == publish_targets(
                self.consumer_name@,
                self.publish_subject@,
                delta@,
                names_view(*interested),
            ),
    {
        let mut out: Vec<String> = Vec::new();
        out.push(self.publish_subject.clone());
        assert(text::texts(out@) =~= seq![self.publish_subject@]);
        let touched = delta.touched_table_names();
        assert(touches_system_table(delta@) == (exists|table: Seq<char>| #[trigger]
            touched@.dom().contains(table) && partition::is_system_name(table))) by {
            if touches_system_table(delta@) {
                let table = choose|table: Seq<char>| #[trigger]
                    delta@.touches(table) && partition::is_system_name(table);
                assert(touched@.dom().contains(table));
            }
            if exists|table: Seq<char>| #[trigger]
                touched@.dom().contains(table) && partition::is_system_name(table) {
                let table = choose|table: Seq<char>| #[trigger]
                    touched@.dom().contains(table) && partition::is_system_name(table);
                assert(delta@.touches(table));
            }
        }
        if any_system_table(&touched) {
            out.push(SYSTEM_TABLE_SUBJECT.to_owned());
            assert(text::texts(out@) =~= seq![self.publish_subject@]
                + seq![SYSTEM_TABLE_SUBJECT@]);
        } else if Self::is_frontier_heartbeat_delta(delta) {
            out.push(FRONTIER_HEARTBEAT_SUBJECT.to_owned());
            assert(text::texts(out@) =~= seq![self.publish_subject@]
                + seq![FRONTIER_HEARTBEAT_SUBJECT@]);
        } else {
            match interested {
                Some(nodes) => {
                    let ghost names = text::texts(nodes@);
                    let mut i: usize = 0;
                    assert(text::texts(out@) =~= seq![self.publish_subject@]
                        + node_subjects(names, self.consumer_name@, 0));
                    while i < nodes.len()
                        invariant
                            i <= nodes@.len(),
                            names == text::texts(nodes@),
                            text::texts(out@) == seq![self.publish_subject@]
                                + node_subjects(names, self.consumer_name@, i as nat),
                        decreases nodes@.len() - i,
                    {
                        assert(names[i as int] == nodes@[i as int]@);
                        if !text::same_text(nodes[i].as_str(), self.consumer_name.as_str()) {
                            let ghost earlier = out@;
                            let subject = SelectiveDeliveryRegistry::node_subject(
                                nodes[i].as_str(),
                            );
                            out.push(subject);
                            assert(text::texts(out@) =~= text::texts(
                                earlier,
                            ).push(subject@));
                        }
                        assert(text::texts(out@) =~= seq![self.publish_subject@]
                            + node_subjects(names, self.consumer_name@, (i + 1) as nat));
                        i = i + 1;
                    }
                },
                None => {
                    assert(text::texts(out@) =~= seq![self.publish_subject@]
                        + Seq::empty());
                },
            }
        }
        out
    }

    /// What this node does with a message of the log.
    ///
    /// `parsed` is the envelope that the payload reads as, or the parser's
    /// error; `readings` are those of the envelope's opaque parts.
    pub fn receive(
        &self,
        origin: MessageOrigin,
        from_ts: Timestamp,
        parsed: Result<DeltaEnvelope, String>,
        readings: PayloadReadings,
    ) -> (r: Reception)
        requires
            parsed matches Ok(envelope) ==> readings@.cover(envelope@),
        ensures
            r@ == received(
                self.consumer_name@,
                origin.subject@,
                origin.stream_sequence,
                from_ts@,
                parsed_view(parsed),
                readings@,
            ),
            r matches Reception::Deliver(delta) ==> delta.wf(),
    {
        let own_name = self.consumer_name.as_str();
        let envelope = match parsed {
            Ok(envelope) => envelope,
            Err(error) => {
                let source = EnvelopeSource {
                    source_node: None,
                    source_partition: None,
                    origin_ts: None,
                };
                return source.gap(own_name, origin, malformed_envelope(error.as_str()));
            },
        };
        let source = EnvelopeSource::of(&envelope);
        match validate_delta_envelope_version(&envelope) {
            Ok(_) => {},
            Err(poison) => {
                return source.gap(own_name, origin, poison);
            },
        }
        match validate_nats_delta_envelope(&envelope) {
            Ok(_) => {},
            Err(poison) => {
                return source.gap(own_name, origin, poison);
            },
        }
        let ts: u64 = envelope.ts;
        if ts <= from_ts.nanos() {
            return Reception::Skip { reason: SkipReason::AlreadyApplied, ts };
        }
        if envelope.source_node.as_str().unicode_len() > 0 && text::same_text(
            envelope.source_node.as_str(),
            own_name,
        ) {
            return Reception::Skip { reason: SkipReason::SelfPublished, ts };
        }
        match decode_delta_envelope(envelope, readings) {
            Ok(delta) => Reception::Deliver(delta),
            Err(poison) => source.gap(own_name, origin, poison),
        }
    }
}

/// Whether one of the names is that of a system table.
fn any_system_table(tables: &NameSet) -> (r: bool)
    requires
        tables.wf(),
    ensures
        r == (exists|table: Seq<char>| #[trigger]
            tables@.dom().contains(table) && partition::is_system_name(table)),
{
    let mut i: usize = 0;
    proof {
        tables.entries_agree();
    }
    while i < tables.len()
        invariant
            tables.wf(),
            i <= tables.keys().len(),
            forall|k: int|
                0 <= k < i ==> !partition::is_system_name(#[trigger] tables.keys()[k]),
        decreases tables.keys().len() - i,
    {
        if partition::name_is_system(tables.key_at(i).as_str()) {
            proof {
                tables.entries_agree();
                assert(tables@.dom().contains(tables.keys()[i as int]));
            }
            return true;
        }
        i = i + 1;
    }
    proof {
        tables.entries_agree();
        assert forall|table: Seq<char>| #[trigger]
            tables@.dom().contains(table) implies !partition::is_system_name(table) by {
            assert(tables.keys().contains(table));
            let k = tables.keys().index_of(table);
            assert(tables.keys()[k] == table);
        }
    }
    false
}

/// A delivered commit lies behind where the consumer starts and was published
/// by another node, and one with updates names its partition.
pub proof fn delivery_is_new_and_foreign(
    own_name: Seq<char>,
    subject: Seq<char>,
    stream_sequence: Option<u64>,
    from_ts: u64,
    envelope: EnvelopeView,
    readings: ReadingsView,
)
    requires
        readings.cover(envelope),
    ensures
        received(
            own_name,
            subject,
            stream_sequence,
            from_ts,
            Ok(envelope),
            readings,
        ) matches ReceptionView::Deliver(delta) ==> {
            &&& delta.ts > from_ts
            &&& envelope.source_node.len() == 0 || envelope.source_node != own_name
            &&& delta.document_updates.len() > 0 ==> delta.source_partition is Some
                && envelope.source_node.len() > 0
        },
{
}

/// What one node publishes, another applies: the commit comes through as it
/// was, but for the log and index entries, which do not travel.
pub proof fn published_commit_is_delivered(
    delta: DeltaView,
    tablets: Seq<Seq<u8>>,
    publisher: Seq<char>,
    consumer: Seq<char>,
    subject: Seq<char>,
    stream_sequence: Option<u64>,
    from_ts: u64,
    readings: ReadingsView,
)
    requires
        delta_envelope::delta_error(delta, publisher, None) is None,
        delta.travels_with(tablets),
        readings.tell(delta, tablets),
        publisher != consumer,
        from_ts < delta.ts,
    ensures
        received(
            consumer,
            subject,
            stream_sequence,
            from_ts,
            Ok(delta_envelope::envelope_of(delta, tablets, publisher, None)),
            readings,
        ) == ReceptionView::Deliver(
            DeltaView { document_writes: Seq::empty(), index_writes: Seq::empty(), ..delta },
        ),
{
    delta_envelope::commit_survives_its_envelope(delta, tablets, publisher, None, readings);
    delta_envelope::written_envelopes_may_travel(delta, tablets, publisher, None);
}

/// A node passes over what it published itself.
pub proof fn own_commit_is_skipped(
    delta: DeltaView,
    tablets: Seq<Seq<u8>>,
    publisher: Seq<char>,
    subject: Seq<char>,
    stream_sequence: Option<u64>,
    from_ts: u64,
    readings: ReadingsView,
)
    requires
        delta_envelope::delta_error(delta, publisher, None) is None,
        publisher.len() > 0,
    ensures
        received(
            publisher,
            subject,
            stream_sequence,
            from_ts,
            Ok(delta_envelope::envelope_of(delta, tablets, publisher, None)),
            readings,
        ) is Skip,
{
    delta_envelope::written_envelopes_may_travel(delta, tablets, publisher, None);
}

/// Every commit goes out on the subject that all nodes hear, and there first.
pub proof fn broad_subject_comes_first(
    own_name: Seq<char>,
    publish_subject: Seq<char>,
    delta: DeltaView,
    interested: Option<Seq<Seq<char>>>,
)
    ensures
        publish_targets(own_name, publish_subject, delta, interested).len() > 0,
        publish_targets(own_name, publish_subject, delta, interested)[0] == publish_subject,
{
}

/// A node that asked for a table is not sent its own commits.
pub proof fn node_is_not_its_own_target(nodes: Seq<Seq<char>>, own_name: Seq<char>, n: nat)
    requires
        n <= nodes.len(),
    ensures
        !node_subjects(nodes, own_name, n).contains(selective_delivery::subject_of_node(own_name)),
    decreases n,
{
    if n > 0 {
        node_is_not_its_own_target(nodes, own_name, (n - 1) as nat);
        let before = node_subjects(nodes, own_name, (n - 1) as nat);
        let own = selective_delivery::subject_of_node(own_name);
        if nodes[n - 1] != own_name {
            let added = selective_delivery::subject_of_node(nodes[n - 1]);
            if added == own {
                let k = (selective_delivery::NODE_SUBJECT_PREFIX@ + "."@).len() as int;
                assert(added.skip(k) =~= nodes[n - 1]);
                assert(own.skip(k) =~= own_name);
            }
            if before.push(added).contains(own) {
                let i = before.push(added).index_of(own);
                if i < before.len() {
                    assert(before[i] == own);
                    assert(before.contains(own));
                }
            }
        }
    }
}

/// A consumer that knows its next message misses something exactly where the
/// stream holds messages and begins after that one. It knows it from what it has
/// acknowledged, or, where it has acknowledged nothing, from having been delivered
/// something or starting from nothing.
pub proof fn gaps_are_found_where_messages_are_gone(
    stream_messages: u64,
    first_retained: u64,
    ack_floor: u64,
    delivered: u64,
    from_ts: u64,
)
    ensures
        ({
            let gap = gap_in_retention(
                stream_messages,
                first_retained,
                ack_floor,
                delivered,
                from_ts,
            );
            &&& ack_floor > 0 ==> (gap is Some <==> stream_messages > 0 && ack_floor + 1
                < first_retained)
            &&& ack_floor == 0 && (delivered > 0 || from_ts == 0) ==> (gap is Some
                <==> stream_messages > 0 && 1 < first_retained)
            &&& ack_floor == 0 && delivered == 0 && from_ts > 0 ==> gap is None
            &&& gap matches Some(found) ==> found.expected_stream_sequence == ack_floor + 1
                && found.first_retained_sequence == first_retained
                && found.ack_floor_stream_sequence == ack_floor && found.delivered_stream_sequence
                == delivered
        }),
{
}

/// Each partition has a subject of its own below that of all commits.
pub proof fn partition_subjects_differ(a: PartitionId, b: PartitionId)
    ensures
        subject_of_partition(a) == "convex.commits"@ + "."@ + text::decimal(a.0 as nat),
        subject_of_partition(a) == subject_of_partition(b) ==> a == b,
{
    let prefix = SUBJECT_BASE@ + "."@;
    if subject_of_partition(a) == subject_of_partition(b) {
        assert((prefix + text::decimal(a.0 as nat)).skip(prefix.len() as int) =~= text::decimal(
            a.0 as nat,
        ));
        assert((prefix + text::decimal(b.0 as nat)).skip(prefix.len() as int) =~= text::decimal(
            b.0 as nat,
        ));
        text::decimal_is_injective(a.0 as nat, b.0 as nat);
    }
}

/// A commit is a heartbeat exactly where it comes from a partition and changes
/// nothing at all.
pub proof fn heartbeats_change_nothing(delta: DeltaView)
    ensures
        is_heartbeat(delta) <==> delta.source_partition is Some && delta.document_updates.len() == 0
            && delta.document_writes.len() == 0 && delta.index_writes.len() == 0,
{
}

/// A commit touches a system table exactly where one of its updates, at any place,
/// is to a table whose name starts with an underscore.
pub proof fn system_updates_are_noticed(delta: DeltaView)
    ensures
        touches_system_table(delta) <==> exists|i: int|
            0 <= i < delta.document_updates.len() && delta.identities.dom().contains(
                (#[trigger] delta.document_updates[i]).tablet_id,
            ) && delta.identities[delta.document_updates[i].tablet_id].table_name.len() > 0
                && delta.identities[delta.document_updates[i].tablet_id].table_name[0] == '_',
{
    if touches_system_table(delta) {
        let table = choose|table: Seq<char>| #[trigger]
            delta.touches(table) && partition::is_system_name(table);
        commit_delta::any_update_touches_its_table(delta, 0, table);
        let i = choose|i: int|
            0 <= i < delta.document_updates.len() && delta.identities.dom().contains(
                (#[trigger] delta.document_updates[i]).tablet_id,
            ) && delta.identities[delta.document_updates[i].tablet_id].table_name == table;
        assert(delta.identities.dom().contains(delta.document_updates[i].tablet_id));
    }
    if exists|i: int|
        0 <= i < delta.document_updates.len() && delta.identities.dom().contains(
            (#[trigger] delta.document_updates[i]).tablet_id,
        ) && delta.identities[delta.document_updates[i].tablet_id].table_name.len() > 0
            && delta.identities[delta.document_updates[i].tablet_id].table_name[0] == '_' {
        let i = choose|i: int|
            0 <= i < delta.document_updates.len() && delta.identities.dom().contains(
                (#[trigger] delta.document_updates[i]).tablet_id,
            ) && delta.identities[delta.document_updates[i].tablet_id].table_name.len() > 0
                && delta.identities[delta.document_updates[i].tablet_id].table_name[0] == '_';
        let table = delta.identities[delta.document_updates[i].tablet_id].table_name;
        commit_delta::any_update_touches_its_table(delta, i, table);
        assert(delta.touches(table));
    }
}

/// The nodes that asked are sent a commit on their own subjects: each of them but
/// the publisher, wherever it stands, and nobody else.
pub proof fn every_other_node_is_sent_the_commit(
    nodes: Seq<Seq<char>>,
    own_name: Seq<char>,
    n: nat,
    node: Seq<char>,
)
    requires
        n <= nodes.len(),
    ensures
        node_subjects(nodes, own_name, n).contains(selective_delivery::subject_of_node(node))
            <==> node != own_name && exists|i: int| 0 <= i < n && #[trigger] nodes[i] == node,
        forall|k: int|
            0 <= k < node_subjects(nodes, own_name, n).len() ==> exists|i: int|
                0 <= i < n && #[trigger] node_subjects(nodes, own_name, n)[k]
                    == selective_delivery::subject_of_node(#[trigger] nodes[i]),
    decreases n,
{
    let subjects = node_subjects(nodes, own_name, n);
    let subject = selective_delivery::subject_of_node(node);
    if n > 0 {
        every_other_node_is_sent_the_commit(nodes, own_name, (n - 1) as nat, node);
        let before = node_subjects(nodes, own_name, (n - 1) as nat);
        if nodes[n - 1] != own_name {
            let added = selective_delivery::subject_of_node(nodes[n - 1]);
            assert(subjects == before.push(added));
            assert(subjects[before.len() as int] == added);
            if before.contains(subject) {
                assert(subjects[before.index_of(subject)] == subject);
            }
            if subjects.contains(subject) && !before.contains(subject) {
                let k = subjects.index_of(subject);
                assert(k == before.len()) by {
                    if k < before.len() {
                        assert(before[k] == subject);
                    }
                }
                selective_delivery::node_subjects_differ(node, nodes[n - 1]);
                assert(nodes[n - 1] == node);
            }
            assert forall|k: int| 0 <= k < subjects.len() implies exists|i: int|
                0 <= i < n && #[trigger] subjects[k] == selective_delivery::subject_of_node(
                    #[trigger] nodes[i],
                ) by {
                if k < before.len() {
                    assert(subjects[k] == before[k]);
                    let i = choose|i: int|
                        0 <= i < n - 1 && before[k] == selective_delivery::subject_of_node(
                            #[trigger] nodes[i],
                        );
                    assert(subjects[k] == selective_delivery::subject_of_node(nodes[i]));
                } else {
                    assert(subjects[k] == selective_delivery::subject_of_node(nodes[n - 1]));
                }
            }
        }
    } else {
        assert(!subjects.contains(subject));
    }
}

/// Besides the publisher's own subject, a commit that touches a system table goes
/// to the one for those, another that changes nothing to the one for heartbeats,
/// and any other to the nodes that asked for it.
pub proof fn commits_go_to_those_concerned(
    own_name: Seq<char>,
    publish_subject: Seq<char>,
    delta: DeltaView,
    interested: Option<Seq<Seq<char>>>,
)
    ensures
        ({
            let targets = publish_targets(own_name, publish_subject, delta, interested);
            &&& touches_system_table(delta) ==> targets == seq![
                publish_subject,
                "convex.commits.system"@,
            ]
            &&& !touches_system_table(delta) && is_heartbeat(delta) ==> targets == seq![
                publish_subject,
                "convex.commits.frontier_heartbeat"@,
            ]
            &&& !touches_system_table(delta) && !is_heartbeat(delta) && interested is None
                ==> targets == seq![publish_subject]
            &&& !touches_system_table(delta) && !is_heartbeat(delta) ==> (interested matches Some(
                nodes,
            ) ==> targets == seq![publish_subject] + node_subjects(nodes, own_name, nodes.len()))
        }),
{
}

/// A message is refused exactly where it does not read as an envelope, the
/// envelope is of another version, its data does not name its source, or it is new
/// and foreign and no commit can be taken out of it.
pub proof fn unreadable_messages_are_refused(
    own_name: Seq<char>,
    subject: Seq<char>,
    stream_sequence: Option<u64>,
    from_ts: u64,
    parsed: Result<EnvelopeView, Seq<char>>,
    readings: ReadingsView,
)
    ensures
        ({
            let reception = received(
                own_name,
                subject,
                stream_sequence,
                from_ts,
                parsed,
                readings,
            );
            let named = |e: EnvelopeView|
                e.document_updates_proto.len() == 0 || (e.source_partition is Some
                    && e.source_node.len() > 0);
            let old = |e: EnvelopeView| e.ts <= from_ts;
            let own = |e: EnvelopeView| e.source_node.len() > 0 && e.source_node == own_name;
            match parsed {
                Err(_) => reception matches ReceptionView::Poison(gap) && gap.kind
                    == ReplicationPoisonKind::MalformedEnvelope,
                Ok(e) => {
                    &&& e.schema_version != 2 ==> (reception matches ReceptionView::Poison(gap)
                        && gap.kind == ReplicationPoisonKind::UnsupportedEnvelopeVersion)
                    &&& e.schema_version == 2 && !named(e) ==> (
                    reception matches ReceptionView::Poison(gap) && gap.kind
                        == ReplicationPoisonKind::InvalidDeltaPayload)
                    &&& e.schema_version == 2 && named(e) && old(e) ==> reception == (
                    ReceptionView::Skip { reason: SkipReason::AlreadyApplied, ts: e.ts })
                    &&& e.schema_version == 2 && named(e) && !old(e) && own(e) ==> reception == (
                    ReceptionView::Skip { reason: SkipReason::SelfPublished, ts: e.ts })
                    &&& e.schema_version == 2 && named(e) && !old(e) && !own(e) ==> match
                        delta_envelope::decoded(e, readings) {
                        Ok(delta) => reception == ReceptionView::Deliver(delta),
                        Err(_) => reception matches ReceptionView::Poison(gap) && gap.kind
                            == ReplicationPoisonKind::InvalidDeltaPayload,
                    }
                },
            }
        }),
{
}

/// A refused message leaves a gap that tells who could not read it, where it was
/// heard and, as far as the envelope says, where it came from.
pub proof fn gaps_tell_where_they_are(
    own_name: Seq<char>,
    subject: Seq<char>,
    stream_sequence: Option<u64>,
    from_ts: u64,
    parsed: Result<EnvelopeView, Seq<char>>,
    readings: ReadingsView,
)
    ensures
        received(own_name, subject, stream_sequence, from_ts, parsed, readings)
            matches ReceptionView::Poison(gap) ==> {
            &&& gap.consumer_name == Some(own_name)
            &&& gap.subject == Some(subject)
            &&& gap.stream_sequence == stream_sequence
            &&& parsed matches Ok(e) ==> {
                &&& gap.source_node is Some <==> e.source_node.len() > 0
                &&& gap.source_node matches Some(node) ==> node == e.source_node
                &&& gap.source_partition is Some <==> e.source_partition is Some
                &&& gap.source_partition matches Some(p) ==> Some(p.0) == e.source_partition
                &&& gap.origin_ts is Some <==> e.ts <= i64::MAX
                &&& gap.origin_ts matches Some(ts) ==> ts == e.ts
            }
            &&& parsed is Err ==> gap.source_node is None && gap.source_partition is None
                && gap.origin_ts is None
        },
{
}

} // verus!
