//! The payload of a Raft snapshot: a checkpoint, bound to the place in the log
//! that it stands for.

use vstd::prelude::*;

use crate::checkpoint::{CheckpointData, CheckpointView};
use crate::digest;
use crate::json;
use crate::json::JsonValue;
use crate::snapshot_checkpointer;
use crate::snapshot_checkpointer::CheckpointError;
use crate::text;
use crate::wire;
use crate::wire::{FieldView, WireValue, WireValueView};

verus! {

/// The name under which the store keeps how far the log has been applied.
pub const RAFT_STATE_MACHINE_INDEX_KEY: &'static str = "raft_state_machine_index";

/// The version of the payload that this node writes and reads.
pub const RAFT_SNAPSHOT_FORMAT_VERSION: u32 = 1;

/// A snapshot cannot be made just now: commits are in flight.
#[derive(Clone, Copy, Debug, PartialEq, Eq, Structural)]
pub struct RaftSnapshotTemporarilyUnavailable;

impl RaftSnapshotTemporarilyUnavailable {
    /// The text of the error.
    pub fn message(&self) -> (r: String)
        ensures
            r@
                == "Raft snapshot generation is temporarily unavailable while commits are in flight"@,
    {
        "Raft snapshot generation is temporarily unavailable while commits are in flight".to_owned()
    }
}

/// A snapshot that has been read.
#[derive(Clone, Debug)]
pub struct DecodedRaftSnapshot {
    pub raft_index: u64,
    pub raft_term: u64,
    pub state_machine_index: u64,
    pub checkpoint: CheckpointData,
}

/// What a [`DecodedRaftSnapshot`] states.
pub struct DecodedSnapshotView {
    pub raft_index: u64,
    pub raft_term: u64,
    pub state_machine_index: u64,
    pub checkpoint: CheckpointView,
}

impl View for DecodedRaftSnapshot {
    type V = DecodedSnapshotView;

    open spec fn view(&self) -> DecodedSnapshotView {
        DecodedSnapshotView {
            raft_index: self.raft_index,
            raft_term: self.raft_term,
            state_machine_index: self.state_machine_index,
            checkpoint: self.checkpoint@,
        }
    }
}

/// The message of a snapshot.
#[derive(Clone, Debug)]
pub struct RaftSnapshotEnvelope {
    pub format_version: u32,
    pub raft_index: u64,
    pub raft_term: u64,
    pub state_machine_index: u64,
    pub checkpoint_timestamp: u64,
    pub checkpoint_bytes: Vec<u8>,
    pub checkpoint_sha256: String,
}

/// What a [`RaftSnapshotEnvelope`] states.
#[verifier::ext_equal]
pub struct SnapshotEnvelopeView {
    pub format_version: u32,
    pub raft_index: u64,
    pub raft_term: u64,
    pub state_machine_index: u64,
    pub checkpoint_timestamp: u64,
    pub checkpoint_bytes: Seq<u8>,
    pub checkpoint_sha256: Seq<char>,
}

impl View for RaftSnapshotEnvelope {
    type V = SnapshotEnvelopeView;

    open spec fn view(&self) -> SnapshotEnvelopeView {
        SnapshotEnvelopeView {
            format_version: self.format_version,
            raft_index: self.raft_index,
            raft_term: self.raft_term,
            state_machine_index: self.state_machine_index,
            checkpoint_timestamp: self.checkpoint_timestamp,
            checkpoint_bytes: self.checkpoint_bytes@,
            checkpoint_sha256: self.checkpoint_sha256@,
        }
    }
}

/// The bytes of the message.
pub open spec fn envelope_bytes(e: SnapshotEnvelopeView) -> Seq<u8> {
    wire::uint_field(1, e.format_version as u64) + (wire::uint_field(2, e.raft_index) + (
    wire::uint_field(3, e.raft_term) + (wire::uint_field(4, e.state_machine_index) + (
    wire::uint_field(5, e.checkpoint_timestamp) + (wire::bytes_field(6, e.checkpoint_bytes)
        + wire::bytes_field(7, vstd::utf8::encode_utf8(e.checkpoint_sha256)))))))
}

/// A message with nothing in it.
pub open spec fn empty_envelope() -> SnapshotEnvelopeView {
    SnapshotEnvelopeView {
        format_version: 0,
        raft_index: 0,
        raft_term: 0,
        state_machine_index: 0,
        checkpoint_timestamp: 0,
        checkpoint_bytes: Seq::empty(),
        checkpoint_sha256: Seq::empty(),
    }
}

/// The low 32 bits of a number.
pub open spec fn low_u32(value: u64) -> u32 {
    (value % 0x1_0000_0000) as u32
}

/// The message once a field of it has been read. There is none where the field
/// has the wrong type, or is no text.
pub open spec fn envelope_with(e: SnapshotEnvelopeView, field: FieldView) -> Option<
    SnapshotEnvelopeView,
> {
    match (field.tag, field.value) {
        (1, WireValueView::Varint(value)) => Some(
            SnapshotEnvelopeView { format_version: low_u32(value), ..e },
        ),
        (2, WireValueView::Varint(value)) => Some(SnapshotEnvelopeView { raft_index: value, ..e }),
        (3, WireValueView::Varint(value)) => Some(SnapshotEnvelopeView { raft_term: value, ..e }),
        (4, WireValueView::Varint(value)) => Some(
            SnapshotEnvelopeView { state_machine_index: value, ..e },
        ),
        (5, WireValueView::Varint(value)) => Some(
            SnapshotEnvelopeView { checkpoint_timestamp: value, ..e },
        ),
        (6, WireValueView::Bytes(value)) => Some(
            SnapshotEnvelopeView { checkpoint_bytes: value, ..e },
        ),
        (7, WireValueView::Bytes(value)) => if vstd::utf8::valid_utf8(value) {
            Some(SnapshotEnvelopeView { checkpoint_sha256: vstd::utf8::decode_utf8(value), ..e })
        } else {
            None
        },
        (tag, _) => if 1 <= tag <= 7 {
            None
        } else {
            Some(e)
        },
    }
}

/// The message once the fields have been read.
pub open spec fn envelope_merged(e: SnapshotEnvelopeView, fields: Seq<FieldView>) -> Option<
    SnapshotEnvelopeView,
>
    decreases fields.len(),
{
    if fields.len() == 0 {
        Some(e)
    } else {
        match envelope_with(e, fields[0]) {
            Some(next) => envelope_merged(next, fields.skip(1)),
            None => None,
        }
    }
}

/// The message that the bytes are.
pub open spec fn read_envelope(bytes: Seq<u8>) -> Option<SnapshotEnvelopeView> {
    match wire::fields(bytes) {
        Some(fields) => envelope_merged(empty_envelope(), fields),
        None => None,
    }
}

impl RaftSnapshotEnvelope {
    /// The bytes of the message.
    pub fn encode_to_vec(&self) -> (r: Vec<u8>)
        ensures
            r@ == envelope_bytes(self@),
    {
        let mut out: Vec<u8> = Vec::new();
        wire::push_uint(&mut out, 1, self.format_version as u64);
        wire::push_uint(&mut out, 2, self.raft_index);
        wire::push_uint(&mut out, 3, self.raft_term);
        wire::push_uint(&mut out, 4, self.state_machine_index);
        wire::push_uint(&mut out, 5, self.checkpoint_timestamp);
        wire::push_bytes(&mut out, 6, self.checkpoint_bytes.as_slice());
        wire::push_bytes(&mut out, 7, self.checkpoint_sha256.as_str().as_bytes());
        assert(out@ =~= envelope_bytes(self@));
        out
    }

    /// The message that the bytes are.
    pub fn decode(bytes: &[u8]) -> (r: Option<Self>)
        ensures
            match r {
                Some(envelope) => read_envelope(bytes@) == Some(envelope@),
                None => read_envelope(bytes@) is None,
            },
    {
        let fields = match wire::read_fields(bytes) {
            Some(fields) => fields,
            None => {
                return None;
            },
        };
        let ghost all = wire::fields_view(fields@);
        let mut envelope = RaftSnapshotEnvelope {
            format_version: 0,
            raft_index: 0,
            raft_term: 0,
            state_machine_index: 0,
            checkpoint_timestamp: 0,
            checkpoint_bytes: Vec::new(),
            checkpoint_sha256: String::new(),
        };
        assert(envelope@ =~= empty_envelope());
        assert(all.skip(0) =~= all);
        let mut i: usize = 0;
        while i < fields.len()
            invariant
                i <= fields@.len(),
                all == wire::fields_view(fields@),
                wire::fields(bytes@) == Some(all),
                envelope_merged(empty_envelope(), all) == envelope_merged(
                    envelope@,
                    all.skip(i as int),
                ),
            decreases fields@.len() - i,
        {
            let ghost rest = all.skip(i as int);
            let ghost before = envelope@;
            proof {
                assert(rest[0] == fields@[i as int]@);
                assert(rest.skip(1) =~= all.skip(i + 1));
            }
            let field = &fields[i];
            match &field.value {
                WireValue::Varint(value) => {
                    if field.tag == 1 {
                        let number: u64 = *value;
                        envelope.format_version = (number % 0x1_0000_0000) as u32;
                    } else if field.tag == 2 {
                        envelope.raft_index = *value;
                    } else if field.tag == 3 {
                        envelope.raft_term = *value;
                    } else if field.tag == 4 {
                        envelope.state_machine_index = *value;
                    } else if field.tag == 5 {
                        envelope.checkpoint_timestamp = *value;
                    } else if field.tag == 6 || field.tag == 7 {
                        assert(envelope_with(before, rest[0]) is None);
                        assert(envelope_merged(before, rest) is None);
                        return None;
                    }
                },
                WireValue::Bytes(value) => {
                    if field.tag == 6 {
                        envelope.checkpoint_bytes = value.clone();
                    } else if field.tag == 7 {
                        match wire::text_of_utf8(value.clone()) {
                            Some(text) => {
                                envelope.checkpoint_sha256 = text;
                            },
                            None => {
                                assert(envelope_with(before, rest[0]) is None);
                                assert(envelope_merged(before, rest) is None);
                                return None;
                            },
                        }
                    } else if 1 <= field.tag && field.tag <= 5 {
                        assert(envelope_with(before, rest[0]) is None);
                        assert(envelope_merged(before, rest) is None);
                        return None;
                    }
                },
                WireValue::Other => {
                    if 1 <= field.tag && field.tag <= 7 {
                        assert(envelope_with(before, rest[0]) is None);
                        assert(envelope_merged(before, rest) is None);
                        return None;
                    }
                },
            }
            assert(envelope_with(before, rest[0]) == Some(envelope@));
            i = i + 1;
        }
        assert(all.skip(i as int).len() == 0);
        Some(envelope)
    }
}

/// Why a snapshot cannot be written or read.
#[derive(Clone, Copy, Debug, PartialEq, Eq, Structural)]
pub enum RaftSnapshotError {
    /// The state machine is ahead of the place in the log.
    IndexPrecedesStateMachine { raft_index: u64, state_machine_index: u64 },
    /// The bytes are no message of a snapshot.
    Undecodable,
    UnsupportedVersion { version: u32 },
    IndexMismatch { payload: u64, metadata: u64 },
    TermMismatch { payload: u64, metadata: u64 },
    StateMachineBeyondSnapshot { state_machine_index: u64, raft_index: u64 },
    DigestMismatch,
    Checkpoint(CheckpointError),
    TimestampMismatch { checkpoint: u64, envelope: u64 },
    StateMachineMismatch { checkpoint: u64, envelope: u64 },
}

impl RaftSnapshotError {
    /// The text of the error.
    pub open spec fn text(self) -> Seq<char> {
        match self {
            RaftSnapshotError::IndexPrecedesStateMachine { raft_index, state_machine_index } => {
                "Raft snapshot index "@ + text::decimal(raft_index as nat)
                    + " cannot precede state-machine index "@ + text::decimal(
                    state_machine_index as nat,
                )
            },
            RaftSnapshotError::Undecodable => {
                "Failed to decode versioned Raft snapshot envelope"@
            },
            RaftSnapshotError::UnsupportedVersion { version } => {
                "Unsupported Raft snapshot format version "@ + text::decimal(version as nat)
            },
            RaftSnapshotError::IndexMismatch { payload, metadata } => {
                "Raft snapshot payload index "@ + text::decimal(payload as nat)
                    + " does not match metadata index "@ + text::decimal(metadata as nat)
            },
            RaftSnapshotError::TermMismatch { payload, metadata } => {
                "Raft snapshot payload term "@ + text::decimal(payload as nat)
                    + " does not match metadata term "@ + text::decimal(metadata as nat)
            },
            RaftSnapshotError::StateMachineBeyondSnapshot { state_machine_index, raft_index } => {
                "Raft snapshot state-machine index "@ + text::decimal(state_machine_index as nat)
                    + " exceeds snapshot index "@ + text::decimal(raft_index as nat)
            },
            RaftSnapshotError::DigestMismatch => "Raft snapshot checkpoint digest mismatch"@,
            RaftSnapshotError::Checkpoint(error) => error.text(),
            RaftSnapshotError::TimestampMismatch { checkpoint, envelope } => {
                "Raft snapshot checkpoint timestamp "@ + text::decimal(checkpoint as nat)
                    + " does not match envelope timestamp "@ + text::decimal(envelope as nat)
            },
            RaftSnapshotError::StateMachineMismatch { checkpoint, envelope } => {
                "Raft snapshot checkpoint state-machine index "@ + text::decimal(
                    checkpoint as nat,
                ) + " does not match envelope index "@ + text::decimal(envelope as nat)
            },
        }
    }

    /// The text of the error.
    pub fn message(&self) -> (r: String)
        ensures
            r@ == self.text(),
    {
        match self {
            RaftSnapshotError::IndexPrecedesStateMachine { raft_index, state_machine_index } => {
                let mut s = "Raft snapshot index ".to_owned();
                text::push_decimal(&mut s, *raft_index);
                s.append(" cannot precede state-machine index ");
                text::push_decimal(&mut s, *state_machine_index);
                s
            },
            RaftSnapshotError::Undecodable => {
                "Failed to decode versioned Raft snapshot envelope".to_owned()
            },
            RaftSnapshotError::UnsupportedVersion { version } => {
                let mut s = "Unsupported Raft snapshot format version ".to_owned();
                text::push_decimal(&mut s, *version as u64);
                s
            },
            RaftSnapshotError::IndexMismatch { payload, metadata } => {
                let mut s = "Raft snapshot payload index ".to_owned();
                text::push_decimal(&mut s, *payload);
                s.append(" does not match metadata index ");
                text::push_decimal(&mut s, *metadata);
                s
            },
            RaftSnapshotError::TermMismatch { payload, metadata } => {
                let mut s = "Raft snapshot payload term ".to_owned();
                text::push_decimal(&mut s, *payload);
                s.append(" does not match metadata term ");
                text::push_decimal(&mut s, *metadata);
                s
            },
            RaftSnapshotError::StateMachineBeyondSnapshot { state_machine_index, raft_index } => {
                let mut s = "Raft snapshot state-machine index ".to_owned();
                text::push_decimal(&mut s, *state_machine_index);
                s.append(" exceeds snapshot index ");
                text::push_decimal(&mut s, *raft_index);
                s
            },
            RaftSnapshotError::DigestMismatch => {
                "Raft snapshot checkpoint digest mismatch".to_owned()
            },
            RaftSnapshotError::Checkpoint(error) => error.message(),
            RaftSnapshotError::TimestampMismatch { checkpoint, envelope } => {
                let mut s = "Raft snapshot checkpoint timestamp ".to_owned();
                text::push_decimal(&mut s, *checkpoint);
                s.append(" does not match envelope timestamp ");
                text::push_decimal(&mut s, *envelope);
                s
            },
            RaftSnapshotError::StateMachineMismatch { checkpoint, envelope } => {
                let mut s = "Raft snapshot checkpoint state-machine index ".to_owned();
                text::push_decimal(&mut s, *checkpoint);
                s.append(" does not match envelope index ");
                text::push_decimal(&mut s, *envelope);
                s
            },
        }
    }
}

/// A value to be kept beside the documents.
#[derive(Clone, Debug)]
pub struct PersistenceGlobalWrite {
    pub key: String,
    pub value: JsonValue,
}

/// What the store is to keep of how far the log has been applied.
pub fn state_machine_index_persistence_write(index: u64) -> (r: PersistenceGlobalWrite)
    ensures
        r.key@ == RAFT_STATE_MACHINE_INDEX_KEY@,
        r.value@ == text::decimal(index as nat),
{
    PersistenceGlobalWrite {
        key: RAFT_STATE_MACHINE_INDEX_KEY.to_owned(),
        value: JsonValue::from_u64(index),
    }
}

/// How far the log has been applied, by what the store keeps of it. Where the
/// store keeps nothing, nothing has been applied. What is no number is an
/// error.
pub fn load_state_machine_index(value: &Option<JsonValue>) -> (r: Result<u64, String>)
    ensures
        match value {
            None => r == Ok::<u64, String>(0),
            Some(value) => match json::json_u64(value@) {
                Some(index) => r == Ok::<u64, String>(index),
                None => r matches Err(error) && error@
                    == "Invalid durable Raft state-machine index value for raft_state_machine_index: "@
                    + value@,
            },
        },
        forall|index: u64|
            (value matches Some(value) && value@ == #[trigger] text::decimal(index as nat)) ==> r
                == Ok::<u64, String>(index),
{
    match value {
        None => Ok(0),
        Some(value) => match value.as_u64() {
            Some(index) => Ok(index),
            None => {
                let mut s =
                    "Invalid durable Raft state-machine index value for raft_state_machine_index: ".to_owned();
                s.append(value.as_str());
                Err(s)
            },
        },
    }
}

/// How far the checkpoint says that the log has been applied.
pub open spec fn checkpoint_index(globals: Map<Seq<char>, Seq<char>>) -> u64 {
    if globals.dom().contains(RAFT_STATE_MACHINE_INDEX_KEY@) {
        match json::json_u64(globals[RAFT_STATE_MACHINE_INDEX_KEY@]) {
            Some(index) => index,
            None => 0,
        }
    } else {
        0
    }
}

/// The digest of the bytes, as text.
pub open spec fn digest_text(bytes: Seq<u8>) -> Seq<char> {
    digest::hex_text(digest::sha256(bytes))
}

/// The message of a snapshot.
pub open spec fn snapshot_envelope(
    raft_index: u64,
    raft_term: u64,
    state_machine_index: u64,
    timestamp: u64,
    checkpoint_bytes: Seq<u8>,
) -> SnapshotEnvelopeView {
    SnapshotEnvelopeView {
        format_version: RAFT_SNAPSHOT_FORMAT_VERSION,
        raft_index,
        raft_term,
        state_machine_index,
        checkpoint_timestamp: timestamp,
        checkpoint_bytes,
        checkpoint_sha256: digest_text(checkpoint_bytes),
    }
}

/// The snapshot that a message holds, checked against the place in the log
/// that it should stand for.
pub open spec fn snapshot_in_envelope(
    e: SnapshotEnvelopeView,
    expected_raft_index: u64,
    expected_raft_term: u64,
) -> Result<DecodedSnapshotView, RaftSnapshotError> {
    if e.format_version != RAFT_SNAPSHOT_FORMAT_VERSION {
        Err(RaftSnapshotError::UnsupportedVersion { version: e.format_version })
    } else if e.raft_index != expected_raft_index {
        Err(
            RaftSnapshotError::IndexMismatch {
                payload: e.raft_index,
                metadata: expected_raft_index,
            },
        )
    } else if e.raft_term != expected_raft_term {
        Err(
            RaftSnapshotError::TermMismatch { payload: e.raft_term, metadata: expected_raft_term },
        )
    } else if e.state_machine_index > e.raft_index {
        Err(
            RaftSnapshotError::StateMachineBeyondSnapshot {
                state_machine_index: e.state_machine_index,
                raft_index: e.raft_index,
            },
        )
    } else if digest_text(e.checkpoint_bytes) != e.checkpoint_sha256 {
        Err(RaftSnapshotError::DigestMismatch)
    } else {
        match snapshot_checkpointer::checkpoint_in(e.checkpoint_bytes) {
            Err(error) => Err(RaftSnapshotError::Checkpoint(error)),
            Ok(checkpoint) => if checkpoint.timestamp != e.checkpoint_timestamp {
                Err(
                    RaftSnapshotError::TimestampMismatch {
                        checkpoint: checkpoint.timestamp,
                        envelope: e.checkpoint_timestamp,
                    },
                )
            } else if checkpoint_index(checkpoint.globals) != e.state_machine_index {
                Err(
                    RaftSnapshotError::StateMachineMismatch {
                        checkpoint: checkpoint_index(checkpoint.globals),
                        envelope: e.state_machine_index,
                    },
                )
            } else {
                Ok(
                    DecodedSnapshotView {
                        raft_index: e.raft_index,
                        raft_term: e.raft_term,
                        state_machine_index: e.state_machine_index,
                        checkpoint,
                    },
                )
            },
        }
    }
}

/// The snapshot that the bytes hold, checked against the place in the log that
/// it should stand for.
pub open spec fn snapshot_in(
    bytes: Seq<u8>,
    expected_raft_index: u64,
    expected_raft_term: u64,
) -> Result<DecodedSnapshotView, RaftSnapshotError> {
    match read_envelope(bytes) {
        None => Err(RaftSnapshotError::Undecodable),
        Some(e) => snapshot_in_envelope(e, expected_raft_index, expected_raft_term),
    }
}

/// The digest of the bytes, as text.
pub(crate) fn text_of_digest(bytes: &[u8]) -> (r: String)
    ensures
        r@ == digest_text(bytes@),
        r@.len() == 64,
        digest::sha256(bytes@).len() == 32,
{
    let sum = digest::sha256_of(bytes);
    digest::hex_encode(sum.as_slice())
}

/// The bytes of a snapshot.
pub open spec fn snapshot_bytes(
    raft_index: u64,
    raft_term: u64,
    state_machine_index: u64,
    checkpoint: CheckpointView,
) -> Seq<u8> {
    envelope_bytes(
        snapshot_envelope(
            raft_index,
            raft_term,
            state_machine_index,
            checkpoint.timestamp,
            snapshot_checkpointer::stored_bytes(checkpoint),
        ),
    )
}

/// The checkpoint is well kept and fits on the wire, and it has a digest of 32
/// bytes. Every checkpoint that a snapshot was made of is like this.
pub open spec fn is_written(checkpoint: CheckpointView) -> bool {
    let inner = snapshot_checkpointer::stored_bytes(checkpoint);
    &&& snapshot_checkpointer::well_kept(checkpoint)
    &&& snapshot_checkpointer::fits_wire(checkpoint)
    &&& inner.len() <= u64::MAX
    &&& digest::sha256(inner).len() == 32
}

/// The bytes of a snapshot.
pub fn encode_snapshot(
    raft_index: u64,
    raft_term: u64,
    state_machine_index: u64,
    checkpoint: &CheckpointData,
) -> (r: Result<Vec<u8>, RaftSnapshotError>)
    requires
        checkpoint.wf(),
    ensures
        match r {
            Ok(bytes) => {
                &&& state_machine_index <= raft_index
                &&& bytes@ == snapshot_bytes(
                    raft_index,
                    raft_term,
                    state_machine_index,
                    checkpoint@,
                )
                &&& is_written(checkpoint@)
            },
            Err(error) => state_machine_index > raft_index && error == (
            RaftSnapshotError::IndexPrecedesStateMachine { raft_index, state_machine_index }),
        },
{
    if state_machine_index > raft_index {
        return Err(
            RaftSnapshotError::IndexPrecedesStateMachine { raft_index, state_machine_index },
        );
    }
    let checkpoint_bytes = snapshot_checkpointer::checkpoint_to_bytes(checkpoint);
    let checkpoint_sha256 = text_of_digest(checkpoint_bytes.as_slice());
    let envelope = RaftSnapshotEnvelope {
        format_version: RAFT_SNAPSHOT_FORMAT_VERSION,
        raft_index,
        raft_term,
        state_machine_index,
        checkpoint_timestamp: checkpoint.timestamp.nanos(),
        checkpoint_bytes,
        checkpoint_sha256,
    };
    proof {
        assert(envelope.checkpoint_bytes@.len() == envelope.checkpoint_bytes.len());
    }
    Ok(envelope.encode_to_vec())
}

/// The snapshot that the bytes hold, checked against the place in the log that
/// it should stand for.
pub fn decode_snapshot(
    bytes: &[u8],
    expected_raft_index: u64,
    expected_raft_term: u64,
) -> (r: Result<DecodedRaftSnapshot, RaftSnapshotError>)
    ensures
        match r {
            Ok(snapshot) => snapshot.checkpoint.wf() && snapshot_in(
                bytes@,
                expected_raft_index,
                expected_raft_term,
            ) == Ok::<DecodedSnapshotView, RaftSnapshotError>(snapshot@),
            Err(error) => snapshot_in(bytes@, expected_raft_index, expected_raft_term) == Err::<
                DecodedSnapshotView,
                RaftSnapshotError,
            >(error),
        },
{
    let envelope = match RaftSnapshotEnvelope::decode(bytes) {
        Some(envelope) => envelope,
        None => {
            return Err(RaftSnapshotError::Undecodable);
        },
    };
    if envelope.format_version != RAFT_SNAPSHOT_FORMAT_VERSION {
        return Err(RaftSnapshotError::UnsupportedVersion { version: envelope.format_version });
    }
    if envelope.raft_index != expected_raft_index {
        return Err(
            RaftSnapshotError::IndexMismatch {
                payload: envelope.raft_index,
                metadata: expected_raft_index,
            },
        );
    }
    if envelope.raft_term != expected_raft_term {
        return Err(
            RaftSnapshotError::TermMismatch {
                payload: envelope.raft_term,
                metadata: expected_raft_term,
            },
        );
    }
    if envelope.state_machine_index > envelope.raft_index {
        return Err(
            RaftSnapshotError::StateMachineBeyondSnapshot {
                state_machine_index: envelope.state_machine_index,
                raft_index: envelope.raft_index,
            },
        );
    }
    let actual_digest = text_of_digest(envelope.checkpoint_bytes.as_slice());
    if !text::same_text(actual_digest.as_str(), envelope.checkpoint_sha256.as_str()) {
        return Err(RaftSnapshotError::DigestMismatch);
    }
    let checkpoint = match snapshot_checkpointer::checkpoint_from_bytes(
        envelope.checkpoint_bytes.as_slice(),
    ) {
        Ok(checkpoint) => checkpoint,
        Err(error) => {
            return Err(RaftSnapshotError::Checkpoint(error));
        },
    };
    if checkpoint.timestamp.nanos() != envelope.checkpoint_timestamp {
        return Err(
            RaftSnapshotError::TimestampMismatch {
                checkpoint: checkpoint.timestamp.nanos(),
                envelope: envelope.checkpoint_timestamp,
            },
        );
    }
    let key = RAFT_STATE_MACHINE_INDEX_KEY.to_owned();
    let persisted: u64 = match checkpoint.globals.get(&key) {
        Some(value) => match value.as_u64() {
            Some(index) => index,
            None => 0,
        },
        None => 0,
    };
    assert(persisted == checkpoint_index(checkpoint@.globals));
    if persisted != envelope.state_machine_index {
        return Err(
            RaftSnapshotError::StateMachineMismatch {
                checkpoint: persisted,
                envelope: envelope.state_machine_index,
            },
        );
    }
    Ok(
        DecodedRaftSnapshot {
            raft_index: envelope.raft_index,
            raft_term: envelope.raft_term,
            state_machine_index: envelope.state_machine_index,
            checkpoint,
        },
    )
}

proof fn lemma_envelope_uint(
    e: SnapshotEnvelopeView,
    next: SnapshotEnvelopeView,
    tag: u32,
    value: u64,
    rest: Seq<FieldView>,
)
    requires
        value == 0 ==> next == e,
        value != 0 ==> envelope_with(e, FieldView { tag, value: WireValueView::Varint(value) })
            == Some(next),
    ensures
        envelope_merged(e, wire::uint_list(tag, value) + rest) == envelope_merged(next, rest),
{
    let list = wire::uint_list(tag, value) + rest;
    if value == 0 {
        assert(list =~= rest);
    } else {
        assert(list.skip(1) =~= rest);
    }
}

proof fn lemma_envelope_bytes(
    e: SnapshotEnvelopeView,
    next: SnapshotEnvelopeView,
    tag: u32,
    value: Seq<u8>,
    rest: Seq<FieldView>,
)
    requires
        value.len() == 0 ==> next == e,
        value.len() != 0 ==> envelope_with(
            e,
            FieldView { tag, value: WireValueView::Bytes(value) },
        ) == Some(next),
    ensures
        envelope_merged(e, wire::bytes_list(tag, value) + rest) == envelope_merged(next, rest),
{
    let list = wire::bytes_list(tag, value) + rest;
    if value.len() == 0 {
        assert(list =~= rest);
    } else {
        assert(list.skip(1) =~= rest);
    }
}

/// The message of a snapshot is read as it was written.
#[verifier::rlimit(60)]
#[verifier::spinoff_prover]
pub proof fn envelope_reads_back(e: SnapshotEnvelopeView)
    requires
        e.checkpoint_bytes.len() <= u64::MAX,
        vstd::utf8::encode_utf8(e.checkpoint_sha256).len() <= u64::MAX,
    ensures
        read_envelope(envelope_bytes(e)) == Some(e),
{
    let sum = vstd::utf8::encode_utf8(e.checkpoint_sha256);
    vstd::utf8::encode_utf8_valid_utf8(e.checkpoint_sha256);
    vstd::utf8::encode_utf8_decode_utf8(e.checkpoint_sha256);
    let version = e.format_version as u64;
    let none = Seq::<FieldView>::empty();
    let l7 = wire::bytes_list(7, sum) + none;
    let b7 = wire::bytes_field(7, sum);
    assert(b7 + Seq::<u8>::empty() =~= b7);
    wire::bytes_field_reads_back(7, sum, Seq::empty(), none);
    let l6 = wire::bytes_list(6, e.checkpoint_bytes) + l7;
    let b6 = wire::bytes_field(6, e.checkpoint_bytes) + b7;
    wire::bytes_field_reads_back(6, e.checkpoint_bytes, b7, l7);
    let l5 = wire::uint_list(5, e.checkpoint_timestamp) + l6;
    let b5 = wire::uint_field(5, e.checkpoint_timestamp) + b6;
    wire::uint_field_reads_back(5, e.checkpoint_timestamp, b6, l6);
    let l4 = wire::uint_list(4, e.state_machine_index) + l5;
    let b4 = wire::uint_field(4, e.state_machine_index) + b5;
    wire::uint_field_reads_back(4, e.state_machine_index, b5, l5);
    let l3 = wire::uint_list(3, e.raft_term) + l4;
    let b3 = wire::uint_field(3, e.raft_term) + b4;
    wire::uint_field_reads_back(3, e.raft_term, b4, l4);
    let l2 = wire::uint_list(2, e.raft_index) + l3;
    let b2 = wire::uint_field(2, e.raft_index) + b3;
    wire::uint_field_reads_back(2, e.raft_index, b3, l3);
    wire::uint_field_reads_back(1, version, b2, l2);
    let e0 = empty_envelope();
    let e1 = SnapshotEnvelopeView { format_version: e.format_version, ..e0 };
    let e2 = SnapshotEnvelopeView { raft_index: e.raft_index, ..e1 };
    let e3 = SnapshotEnvelopeView { raft_term: e.raft_term, ..e2 };
    let e4 = SnapshotEnvelopeView { state_machine_index: e.state_machine_index, ..e3 };
    let e5 = SnapshotEnvelopeView { checkpoint_timestamp: e.checkpoint_timestamp, ..e4 };
    let e6 = SnapshotEnvelopeView { checkpoint_bytes: e.checkpoint_bytes, ..e5 };
    lemma_envelope_uint(e0, e1, 1, version, l2);
    lemma_envelope_uint(e1, e2, 2, e.raft_index, l3);
    lemma_envelope_uint(e2, e3, 3, e.raft_term, l4);
    lemma_envelope_uint(e3, e4, 4, e.state_machine_index, l5);
    lemma_envelope_uint(e4, e5, 5, e.checkpoint_timestamp, l6);
    assert(e.checkpoint_bytes.len() == 0 ==> e6 =~= e5);
    lemma_envelope_bytes(e5, e6, 6, e.checkpoint_bytes, l7);
    if sum.len() == 0 {
        wire::only_the_empty_text_is_empty(e.checkpoint_sha256);
    }
    lemma_envelope_bytes(e6, e, 7, sum, none);
}

proof fn lemma_hex_is_ascii(bytes: Seq<u8>)
    ensures
        vstd::utf8::encode_utf8(digest::hex_text(bytes)).len() == 2 * bytes.len(),
{
    let text = digest::hex_text(bytes);
    assert forall|i: int| 0 <= i < text.len() implies '\0' <= #[trigger] text[i] <= '\u{7f}' by {
        assert(0 <= i / 2 < bytes.len());
    }
    vstd::utf8::is_ascii_chars_encode_utf8(text);
}

/// A snapshot is read from its bytes as it was, at its own place in the log
/// and at no other, where the checkpoint says itself how far the log has been
/// applied, and otherwise nowhere.
pub proof fn snapshot_survives_its_bytes(
    raft_index: u64,
    raft_term: u64,
    state_machine_index: u64,
    checkpoint: CheckpointView,
    expected_raft_index: u64,
    expected_raft_term: u64,
)
    requires
        state_machine_index <= raft_index,
        is_written(checkpoint),
        snapshot_checkpointer::reads_back(checkpoint),
    ensures
        ({
            let bytes = snapshot_bytes(raft_index, raft_term, state_machine_index, checkpoint);
            let held = snapshot_in(bytes, expected_raft_index, expected_raft_term);
            &&& held is Ok <==> expected_raft_index == raft_index && expected_raft_term == raft_term
                && checkpoint_index(checkpoint.globals) == state_machine_index
            &&& held matches Ok(snapshot) ==> snapshot == (DecodedSnapshotView {
                raft_index,
                raft_term,
                state_machine_index,
                checkpoint,
            })
        }),
{
    let inner = snapshot_checkpointer::stored_bytes(checkpoint);
    lemma_hex_is_ascii(digest::sha256(inner));
    envelope_reads_back(
        snapshot_envelope(
            raft_index,
            raft_term,
            state_machine_index,
            checkpoint.timestamp,
            inner,
        ),
    );
    snapshot_checkpointer::checkpoint_survives_its_bytes(checkpoint);
}

/// Whatever its checkpoint holds, a snapshot is read at its own place in the
/// log only.
pub proof fn snapshot_keeps_its_place(
    raft_index: u64,
    raft_term: u64,
    state_machine_index: u64,
    checkpoint: CheckpointView,
    expected_raft_index: u64,
    expected_raft_term: u64,
)
    requires
        is_written(checkpoint),
        expected_raft_index != raft_index || expected_raft_term != raft_term,
    ensures
        snapshot_in(
            snapshot_bytes(raft_index, raft_term, state_machine_index, checkpoint),
            expected_raft_index,
            expected_raft_term,
        ) is Err,
{
    let inner = snapshot_checkpointer::stored_bytes(checkpoint);
    lemma_hex_is_ascii(digest::sha256(inner));
    envelope_reads_back(
        snapshot_envelope(
            raft_index,
            raft_term,
            state_machine_index,
            checkpoint.timestamp,
            inner,
        ),
    );
}

/// A snapshot whose checkpoint does not have the digest that it came with is
/// refused, wherever it is asked for.
pub proof fn altered_snapshot_is_refused(
    e: SnapshotEnvelopeView,
    altered: Seq<u8>,
    raft_index: u64,
    raft_term: u64,
)
    ensures
        digest_text(altered) != e.checkpoint_sha256 ==> snapshot_in_envelope(
            SnapshotEnvelopeView { checkpoint_bytes: altered, ..e },
            raft_index,
            raft_term,
        ) is Err,
{
}

/// A snapshot is taken from its message on these terms: the version is the
/// known one, the place is the one that was asked for and not behind what has
/// been applied, the digest is that of the checkpoint, and the checkpoint can be
/// read and says the same of its time and of what has been applied.
pub proof fn snapshots_are_taken_on_these_terms(
    e: SnapshotEnvelopeView,
    raft_index: u64,
    raft_term: u64,
)
    ensures
        snapshot_in_envelope(e, raft_index, raft_term) is Ok <==> {
            &&& e.format_version == 1
            &&& e.raft_index == raft_index
            &&& e.raft_term == raft_term
            &&& e.state_machine_index <= raft_index
            &&& e.checkpoint_sha256 == digest::hex_text(digest::sha256(e.checkpoint_bytes))
            &&& snapshot_checkpointer::checkpoint_in(e.checkpoint_bytes) matches Ok(checkpoint)
            &&& checkpoint.timestamp == e.checkpoint_timestamp
            &&& checkpoint_index(checkpoint.globals) == e.state_machine_index
        },
        snapshot_in_envelope(e, raft_index, raft_term) matches Ok(snapshot) ==> {
            &&& snapshot.raft_index == raft_index
            &&& snapshot.raft_term == raft_term
            &&& snapshot.state_machine_index == e.state_machine_index
            &&& snapshot_checkpointer::checkpoint_in(e.checkpoint_bytes) == Ok::<
                CheckpointView,
                CheckpointError,
            >(snapshot.checkpoint)
        },
{
}

/// A message that is refused is refused for the first of the terms that it
/// breaks, and what stands against what is told.
pub proof fn snapshots_are_refused_for_cause(
    e: SnapshotEnvelopeView,
    raft_index: u64,
    raft_term: u64,
)
    ensures
        snapshot_in_envelope(e, raft_index, raft_term) matches Err(error) ==> match error {
            RaftSnapshotError::UnsupportedVersion { version } => version == e.format_version
                && version != 1,
            RaftSnapshotError::IndexMismatch { payload, metadata } => e.format_version == 1
                && payload == e.raft_index && metadata == raft_index && payload != metadata,
            RaftSnapshotError::TermMismatch { payload, metadata } => e.format_version == 1
                && e.raft_index == raft_index && payload == e.raft_term && metadata == raft_term
                && payload != metadata,
            RaftSnapshotError::StateMachineBeyondSnapshot {
                state_machine_index,
                raft_index: place,
            } => e.format_version == 1 && e.raft_index == raft_index && e.raft_term == raft_term
                && state_machine_index == e.state_machine_index && place == raft_index
                && state_machine_index > place,
            RaftSnapshotError::DigestMismatch => e.format_version == 1 && e.raft_index == raft_index
                && e.raft_term == raft_term && e.state_machine_index <= raft_index
                && e.checkpoint_sha256 != digest::hex_text(digest::sha256(e.checkpoint_bytes)),
            RaftSnapshotError::Checkpoint(cause) => e.checkpoint_sha256 == digest::hex_text(
                digest::sha256(e.checkpoint_bytes),
            ) && snapshot_checkpointer::checkpoint_in(e.checkpoint_bytes) == Err::<
                CheckpointView,
                CheckpointError,
            >(cause),
            RaftSnapshotError::TimestampMismatch { checkpoint, envelope } => {
                &&& snapshot_checkpointer::checkpoint_in(e.checkpoint_bytes) matches Ok(held)
                &&& checkpoint == held.timestamp
                &&& envelope == e.checkpoint_timestamp
                &&& checkpoint != envelope
            },
            RaftSnapshotError::StateMachineMismatch { checkpoint, envelope } => {
                &&& snapshot_checkpointer::checkpoint_in(e.checkpoint_bytes) matches Ok(held)
                &&& held.timestamp == e.checkpoint_timestamp
                &&& checkpoint == checkpoint_index(held.globals)
                &&& envelope == e.state_machine_index
                &&& checkpoint != envelope
            },
            RaftSnapshotError::IndexPrecedesStateMachine { .. } => false,
            RaftSnapshotError::Undecodable => false,
        },
{
}

/// Bytes that are no message of a snapshot hold none.
pub proof fn only_messages_hold_snapshots(bytes: Seq<u8>, raft_index: u64, raft_term: u64)
    ensures
        snapshot_in(bytes, raft_index, raft_term) == Err::<DecodedSnapshotView, RaftSnapshotError>(
            RaftSnapshotError::Undecodable,
        ) <==> read_envelope(bytes) is None,
        read_envelope(bytes) matches Some(e) ==> snapshot_in(bytes, raft_index, raft_term)
            == snapshot_in_envelope(e, raft_index, raft_term),
{
}

/// A field of a message changes the part that its number names, and nothing
/// else. Numbers beyond the seventh name nothing.
pub proof fn numbers_of_fields_name_parts(e: SnapshotEnvelopeView, tag: u32, n: u64, b: Seq<u8>)
    ensures
        ({
            let number = FieldView { tag, value: WireValueView::Varint(n) };
            let bytes = FieldView { tag, value: WireValueView::Bytes(b) };
            &&& envelope_with(e, number) is Some <==> tag != 6 && tag != 7
            &&& envelope_with(e, number) matches Some(next) ==> {
                &&& next.format_version as int == (if tag == 1 {
                    n as int % 0x1_0000_0000
                } else {
                    e.format_version as int
                })
                &&& next.raft_index == (if tag == 2 {
                    n
                } else {
                    e.raft_index
                })
                &&& next.raft_term == (if tag == 3 {
                    n
                } else {
                    e.raft_term
                })
                &&& next.state_machine_index == (if tag == 4 {
                    n
                } else {
                    e.state_machine_index
                })
                &&& next.checkpoint_timestamp == (if tag == 5 {
                    n
                } else {
                    e.checkpoint_timestamp
                })
                &&& next.checkpoint_bytes == e.checkpoint_bytes
                &&& next.checkpoint_sha256 == e.checkpoint_sha256
            }
            &&& tag == 6 ==> envelope_with(e, bytes) == Some(
                SnapshotEnvelopeView { checkpoint_bytes: b, ..e },
            )
            &&& tag == 7 ==> envelope_with(e, bytes) == (if vstd::utf8::valid_utf8(b) {
                Some(SnapshotEnvelopeView { checkpoint_sha256: vstd::utf8::decode_utf8(b), ..e })
            } else {
                None
            })
            &&& 1 <= tag <= 5 ==> envelope_with(e, bytes) is None
            &&& tag == 0 || tag > 7 ==> envelope_with(e, bytes) == Some(e)
        }),
{
}

/// A message without fields has zeros and nothing in it, and fields are read
/// one behind the other.
pub proof fn fields_are_read_in_order(e: SnapshotEnvelopeView, a: FieldView, rest: Seq<FieldView>)
    ensures
        envelope_merged(e, Seq::empty()) == Some(e),
        envelope_merged(e, seq![a] + rest) == (match envelope_with(e, a) {
            Some(next) => envelope_merged(next, rest),
            None => None,
        }),
        empty_envelope().format_version == 0,
        empty_envelope().raft_index == 0,
        empty_envelope().raft_term == 0,
        empty_envelope().state_machine_index == 0,
        empty_envelope().checkpoint_timestamp == 0,
        empty_envelope().checkpoint_bytes.len() == 0,
        empty_envelope().checkpoint_sha256.len() == 0,
{
    assert((seq![a] + rest).skip(1) =~= rest);
}

/// A checkpoint that says how far the log has been applied says so under one
/// name, and one that does not say it stands for an empty log.
pub proof fn checkpoints_say_what_has_been_applied(
    globals: Map<Seq<char>, Seq<char>>,
    value: Seq<char>,
)
    ensures
        json::json_u64(value) matches Some(index) ==> checkpoint_index(
            globals.insert("raft_state_machine_index"@, value),
        ) == index,
        json::json_u64(value) is None ==> checkpoint_index(
            globals.insert("raft_state_machine_index"@, value),
        ) == 0,
        checkpoint_index(globals.remove("raft_state_machine_index"@)) == 0,
{
}

/// A snapshot is written with the place, the time and the digest that it is
/// checked by.
pub proof fn snapshots_are_written_to_be_taken(
    raft_index: u64,
    raft_term: u64,
    state_machine_index: u64,
    timestamp: u64,
    checkpoint_bytes: Seq<u8>,
)
    ensures
        ({
            let e = snapshot_envelope(
                raft_index,
                raft_term,
                state_machine_index,
                timestamp,
                checkpoint_bytes,
            );
            &&& e.format_version == 1
            &&& e.raft_index == raft_index
            &&& e.raft_term == raft_term
            &&& e.state_machine_index == state_machine_index
            &&& e.checkpoint_timestamp == timestamp
            &&& e.checkpoint_bytes == checkpoint_bytes
            &&& e.checkpoint_sha256 == digest::hex_text(digest::sha256(checkpoint_bytes))
        }),
{
}

/// A refusal tells what the payload says before what stands against it.
pub proof fn refusals_tell_both_sides_in_order(a: u64, b: u64)
    ensures
        (RaftSnapshotError::IndexMismatch { payload: a, metadata: b }).text()
            == "Raft snapshot payload index "@ + text::decimal(a as nat)
            + " does not match metadata index "@ + text::decimal(b as nat),
        (RaftSnapshotError::TermMismatch { payload: a, metadata: b }).text()
            == "Raft snapshot payload term "@ + text::decimal(a as nat)
            + " does not match metadata term "@ + text::decimal(b as nat),
        (RaftSnapshotError::IndexPrecedesStateMachine {
            raft_index: a,
            state_machine_index: b,
        }).text() == "Raft snapshot index "@ + text::decimal(a as nat)
            + " cannot precede state-machine index "@ + text::decimal(b as nat),
        (RaftSnapshotError::StateMachineBeyondSnapshot {
            state_machine_index: a,
            raft_index: b,
        }).text() == "Raft snapshot state-machine index "@ + text::decimal(a as nat)
            + " exceeds snapshot index "@ + text::decimal(b as nat),
        (RaftSnapshotError::TimestampMismatch { checkpoint: a, envelope: b }).text()
            == "Raft snapshot checkpoint timestamp "@ + text::decimal(a as nat)
            + " does not match envelope timestamp "@ + text::decimal(b as nat),
        (RaftSnapshotError::StateMachineMismatch { checkpoint: a, envelope: b }).text()
            == "Raft snapshot checkpoint state-machine index "@ + text::decimal(a as nat)
            + " does not match envelope index "@ + text::decimal(b as nat),
{
}

} // verus!
