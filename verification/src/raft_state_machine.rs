//! The operations that a Raft log carries to the state machine.
//!
//! Ordinary commits travel in a [`DeltaEnvelope`]; a participant of a
//! two-phase commit logs its redo record before it reports itself prepared.

use vstd::prelude::*;

use crate::cluster_genesis::{CanonicalGenesisPayload, ClusterGenesisManifest};
use crate::commit_delta::{CommitDelta, DeltaView, OriginView, RaftNatsOutboxOrigin};
use crate::delta_envelope;
use crate::delta_envelope::{DeltaEnvelope, EnvelopeError, EnvelopeErrorView};
use crate::digest;
use crate::json::JsonValue;

verus! {

/// What a participant of a two-phase commit needs to finish it, as JSON.
#[derive(Clone, Debug, PartialEq, Eq)]
pub struct TwoPhaseRedoEntry {
    pub json: JsonValue,
}

/// Identifies a two-phase commit.
#[derive(Clone, Debug, PartialEq, Eq)]
pub struct TwoPhaseTransactionId {
    pub text: String,
}

/// An operation of the state machine.
#[derive(Clone, Debug)]
pub enum RaftStateMachineEntry {
    CommitDelta { envelope: DeltaEnvelope },
    TwoPhasePrepare { redo: TwoPhaseRedoEntry },
    TwoPhaseRollback { transaction_id: TwoPhaseTransactionId },
    ClusterGenesis { manifest: ClusterGenesisManifest, checkpoint_base64: String },
}

/// Why a commit cannot become an entry.
#[derive(Clone, Debug, PartialEq, Eq)]
pub enum EntryError {
    /// The proposer is not the member that the origin names.
    ProposerMismatch,
    Envelope(EnvelopeError),
}

/// What an [`EntryError`] states.
#[verifier::ext_equal]
pub enum EntryErrorView {
    ProposerMismatch,
    Envelope(EnvelopeErrorView),
}

impl View for EntryError {
    type V = EntryErrorView;

    open spec fn view(&self) -> EntryErrorView {
        match self {
            EntryError::ProposerMismatch => EntryErrorView::ProposerMismatch,
            EntryError::Envelope(error) => EntryErrorView::Envelope(error@),
        }
    }
}

impl EntryErrorView {
    /// The text of the error.
    pub open spec fn text(self) -> Seq<char> {
        match self {
            EntryErrorView::ProposerMismatch => {
                "Raft proposer ID does not match durable NATS outbox origin"@
            },
            EntryErrorView::Envelope(error) => error.text(),
        }
    }
}

impl EntryError {
    /// The text of the error.
    pub fn message(&self) -> (r: String)
        ensures
            r@ == self@.text(),
    {
        match self {
            EntryError::ProposerMismatch => {
                "Raft proposer ID does not match durable NATS outbox origin".to_owned()
            },
            EntryError::Envelope(error) => error.message(),
        }
    }
}

/// The view of an origin that may be missing.
pub open spec fn origin_view(origin: Option<&RaftNatsOutboxOrigin>) -> Option<OriginView> {
    match origin {
        Some(origin) => Some(origin@),
        None => None,
    }
}

/// Why a commit cannot become an entry of this proposer.
pub open spec fn entry_error(
    delta: DeltaView,
    source_raft_node_id: u64,
    origin: Option<OriginView>,
) -> Option<EntryErrorView> {
    match origin {
        Some(origin) => if origin.source_raft_node_id != source_raft_node_id {
            Some(EntryErrorView::ProposerMismatch)
        } else {
            match delta_envelope::outbox_error(delta, origin) {
                Some(error) => Some(EntryErrorView::Envelope(error)),
                None => None,
            }
        },
        None => match delta_envelope::delta_error(delta, ""@, Some(source_raft_node_id)) {
            Some(error) => Some(EntryErrorView::Envelope(error)),
            None => None,
        },
    }
}

/// The name of the node in an entry: only an origin gives one.
pub open spec fn entry_node(origin: Option<OriginView>) -> Seq<char> {
    match origin {
        Some(origin) => origin.source_node,
        None => ""@,
    }
}

impl RaftStateMachineEntry {
    /// Why the entry may not stand in a Raft log.
    pub open spec fn transport_error(&self) -> Option<EnvelopeErrorView> {
        match self {
            RaftStateMachineEntry::CommitDelta { envelope } => envelope@.raft_error(),
            _ => None,
        }
    }

    /// An ordinary commit of this proposer.
    pub fn commit_delta(
        delta: &CommitDelta,
        source_raft_node_id: u64,
        outbox_origin: Option<&RaftNatsOutboxOrigin>,
    ) -> (r: Result<Self, EntryError>)
        requires
            delta.wf(),
        ensures
            match r {
                Ok(entry) => {
                    &&& entry_error(
                        delta@,
                        source_raft_node_id,
                        origin_view(outbox_origin),
                    ) is None
                    &&& entry matches RaftStateMachineEntry::CommitDelta { envelope }
                    &&& envelope@ == delta_envelope::envelope_of(
                        delta@,
                        delta.tablet_id_to_table_identity.keys(),
                        entry_node(origin_view(outbox_origin)),
                        Some(source_raft_node_id),
                    )
                    &&& delta@.travels_with(delta.tablet_id_to_table_identity.keys())
                },
                Err(error) => entry_error(delta@, source_raft_node_id, origin_view(outbox_origin))
                    == Some(error@),
            },
    {
        let envelope = match outbox_origin {
            Some(origin) => {
                if origin.source_raft_node_id != source_raft_node_id {
                    return Err(EntryError::ProposerMismatch);
                }
                DeltaEnvelope::from_raft_nats_outbox(delta, origin)
            },
            None => DeltaEnvelope::from_delta(delta, "", Some(source_raft_node_id)),
        };
        match envelope {
            Ok(envelope) => Ok(RaftStateMachineEntry::CommitDelta { envelope }),
            Err(error) => Err(EntryError::Envelope(error)),
        }
    }

    /// A participant is ready to commit.
    pub fn two_phase_prepare(redo: TwoPhaseRedoEntry) -> (r: Self)
        ensures
            r == (RaftStateMachineEntry::TwoPhasePrepare { redo }),
    {
        RaftStateMachineEntry::TwoPhasePrepare { redo }
    }

    /// A two-phase commit was given up.
    pub fn two_phase_rollback(transaction_id: TwoPhaseTransactionId) -> (r: Self)
        ensures
            r == (RaftStateMachineEntry::TwoPhaseRollback { transaction_id }),
    {
        RaftStateMachineEntry::TwoPhaseRollback { transaction_id }
    }

    /// The genesis of the cluster.
    pub fn cluster_genesis(payload: &CanonicalGenesisPayload) -> (r: Self)
        requires
            4 * payload.checkpoint_bytes@.len() + 4 <= 3 * usize::MAX,
        ensures
            r matches RaftStateMachineEntry::ClusterGenesis { manifest, checkpoint_base64 }
                && manifest@ == payload@.manifest && checkpoint_base64@ == digest::base64_text(
                payload@.checkpoint_bytes,
            ),
    {
        RaftStateMachineEntry::ClusterGenesis {
            manifest: ClusterGenesisManifest {
                format_version: payload.manifest.format_version,
                genesis_id: payload.manifest.genesis_id.clone(),
                payload_sha256: payload.manifest.payload_sha256.clone(),
            },
            checkpoint_base64: digest::base64_encode(payload.checkpoint_bytes.as_slice()),
        }
    }

    /// Whether the entry may stand in a Raft log. An entry is checked before
    /// it is written and after it was read.
    pub fn validate_transport(&self) -> (r: Result<(), EnvelopeError>)
        ensures
            match r {
                Ok(_) => self.transport_error() is None,
                Err(error) => self.transport_error() == Some(error@),
            },
    {
        match self {
            RaftStateMachineEntry::CommitDelta { envelope } => envelope.validate_raft_transport(),
            _ => Ok(()),
        }
    }
}

/// Whatever a proposer makes an entry of may stand in the log, and it names
/// the proposer.
pub proof fn proposed_commits_may_be_logged(
    delta: DeltaView,
    tablets: Seq<Seq<u8>>,
    source_raft_node_id: u64,
    origin: Option<OriginView>,
)
    requires
        entry_error(delta, source_raft_node_id, origin) is None,
    ensures
        delta_envelope::envelope_of(
            delta,
            tablets,
            entry_node(origin),
            Some(source_raft_node_id),
        ).raft_error() is None,
        delta_envelope::envelope_of(
            delta,
            tablets,
            entry_node(origin),
            Some(source_raft_node_id),
        ).source_raft_node_id == Some(source_raft_node_id),
        origin matches Some(origin) ==> delta_envelope::envelope_of(
            delta,
            tablets,
            origin.source_node,
            Some(source_raft_node_id),
        ).outbox_origin() == Ok::<OriginView, EnvelopeErrorView>(origin),
{
    match origin {
        Some(origin) => {
            delta_envelope::origin_survives_its_envelope(delta, tablets, origin);
            delta_envelope::written_envelopes_may_travel(
                delta,
                tablets,
                origin.source_node,
                Some(source_raft_node_id),
            );
        },
        None => {
            delta_envelope::written_envelopes_may_travel(
                delta,
                tablets,
                ""@,
                Some(source_raft_node_id),
            );
        },
    }
}

/// A commit with an origin is proposed by the member that the origin names, and
/// by no other.
pub proof fn origins_are_proposed_by_their_member(
    delta: DeltaView,
    source_raft_node_id: u64,
    origin: OriginView,
)
    ensures
        entry_error(delta, source_raft_node_id, Some(origin)) is None <==> origin.source_raft_node_id
            == source_raft_node_id && delta_envelope::outbox_error(delta, origin) is None,
        entry_error(delta, source_raft_node_id, Some(origin)) == Some(
            EntryErrorView::ProposerMismatch,
        ) <==> origin.source_raft_node_id != source_raft_node_id,
        entry_error(delta, source_raft_node_id, None) != Some(EntryErrorView::ProposerMismatch),
        entry_error(delta, source_raft_node_id, None) is None <==> delta_envelope::delta_error(
            delta,
            ""@,
            Some(source_raft_node_id),
        ) is None,
        entry_node(Some(origin)) == origin.source_node,
        entry_node(None).len() == 0,
{
    reveal_strlit("");
}

/// What the log carries besides ordinary commits may always stand in it. A
/// commit may where its envelope may.
pub proof fn only_commits_are_held_back(entry: RaftStateMachineEntry)
    ensures
        !(entry is CommitDelta) ==> entry.transport_error() is None,
        entry matches RaftStateMachineEntry::CommitDelta { envelope } ==> entry.transport_error()
            == envelope@.raft_error(),
{
}

} // verus!
