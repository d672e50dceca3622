//! The one state that all partitions of a new cluster start from.
//!
//! A fresh store holds random identifiers, so that independent nodes cannot
//! take their own first state for that of the others. Partition 0 makes one
//! checkpoint, commits it through Raft, and publishes it for the leaders of the
//! other partitions, who commit it through their own groups. What is published
//! is checked against its digest and its marker before it is installed, and it
//! is never replaced.

use vstd::prelude::*;

use crate::checkpoint::{CheckpointData, CheckpointView, PersistenceGlobalKey};
use crate::checkpoint;
use crate::digest;
use crate::json;
use crate::json::JsonValue;
use crate::partition::PartitionId;
use crate::raft_snapshot;
use crate::snapshot_checkpointer;
use crate::snapshot_checkpointer::CheckpointError;
use crate::text;
use crate::text::Relation;

verus! {

pub const GENESIS_FORMAT_VERSION: u32 = 1;

pub const GENESIS_KV_BUCKET: &'static str = "convex_cluster_genesis";

pub const GENESIS_OBJECT_BUCKET: &'static str = "convex_cluster_genesis_payloads";

/// Why a genesis was refused.
#[derive(Clone, Debug, PartialEq, Eq)]
pub enum GenesisError {
    MalformedMarker,
    UnsupportedMarker { version: u32 },
    EmptyMarkerId,
    UnsupportedManifest { version: u32 },
    EmptyManifestId,
    EmptyDigest,
    DigestMismatch,
    UndecodableCheckpoint(CheckpointError),
    MissingMarker,
    IdMismatch { checkpoint: String, manifest: String },
    DifferentPayload { key: String },
    ConflictingGenesis { existing: String, offered: String },
    ManifestDisappeared,
    ConcurrentGenesis { existing: String, offered: String },
    ConflictingPartition { partition: u32, existing: String },
    ReadinessDisappeared,
    ReadinessRace,
    ReadyOnConflictingGenesis { partition: u32, existing: String },
}

/// What a [`GenesisError`] states.
#[verifier::ext_equal]
pub enum GenesisErrorView {
    MalformedMarker,
    UnsupportedMarker { version: u32 },
    EmptyMarkerId,
    UnsupportedManifest { version: u32 },
    EmptyManifestId,
    EmptyDigest,
    DigestMismatch,
    UndecodableCheckpoint(CheckpointError),
    MissingMarker,
    IdMismatch { checkpoint: Seq<char>, manifest: Seq<char> },
    DifferentPayload { key: Seq<char> },
    ConflictingGenesis { existing: Seq<char>, offered: Seq<char> },
    ManifestDisappeared,
    ConcurrentGenesis { existing: Seq<char>, offered: Seq<char> },
    ConflictingPartition { partition: u32, existing: Seq<char> },
    ReadinessDisappeared,
    ReadinessRace,
    ReadyOnConflictingGenesis { partition: u32, existing: Seq<char> },
}

impl View for GenesisError {
    type V = GenesisErrorView;

    open spec fn view(&self) -> GenesisErrorView {
        match self {
            GenesisError::MalformedMarker => GenesisErrorView::MalformedMarker,
            GenesisError::UnsupportedMarker { version } => GenesisErrorView::UnsupportedMarker {
                version: *version,
            },
            GenesisError::EmptyMarkerId => GenesisErrorView::EmptyMarkerId,
            GenesisError::UnsupportedManifest { version } => GenesisErrorView::UnsupportedManifest {
                version: *version,
            },
            GenesisError::EmptyManifestId => GenesisErrorView::EmptyManifestId,
            GenesisError::EmptyDigest => GenesisErrorView::EmptyDigest,
            GenesisError::DigestMismatch => GenesisErrorView::DigestMismatch,
            GenesisError::UndecodableCheckpoint(error) => GenesisErrorView::UndecodableCheckpoint(
                *error,
            ),
            GenesisError::MissingMarker => GenesisErrorView::MissingMarker,
            GenesisError::IdMismatch { checkpoint, manifest } => GenesisErrorView::IdMismatch {
                checkpoint: checkpoint@,
                manifest: manifest@,
            },
            GenesisError::DifferentPayload { key } => GenesisErrorView::DifferentPayload {
                key: key@,
            },
            GenesisError::ConflictingGenesis { existing, offered } => {
                GenesisErrorView::ConflictingGenesis { existing: existing@, offered: offered@ }
            },
            GenesisError::ManifestDisappeared => GenesisErrorView::ManifestDisappeared,
            GenesisError::ConcurrentGenesis { existing, offered } => {
                GenesisErrorView::ConcurrentGenesis { existing: existing@, offered: offered@ }
            },
            GenesisError::ConflictingPartition { partition, existing } => {
                GenesisErrorView::ConflictingPartition {
                    partition: *partition,
                    existing: existing@,
                }
            },
            GenesisError::ReadinessDisappeared => GenesisErrorView::ReadinessDisappeared,
            GenesisError::ReadinessRace => GenesisErrorView::ReadinessRace,
            GenesisError::ReadyOnConflictingGenesis { partition, existing } => {
                GenesisErrorView::ReadyOnConflictingGenesis {
                    partition: *partition,
                    existing: existing@,
                }
            },
        }
    }
}

impl GenesisErrorView {
    /// The text of the error.
    pub open spec fn text(self) -> Seq<char> {
        match self {
            GenesisErrorView::MalformedMarker => "Cluster genesis marker is malformed"@,
            GenesisErrorView::UnsupportedMarker { version } => {
                "Unsupported cluster genesis format version "@ + text::decimal(version as nat)
            },
            GenesisErrorView::EmptyMarkerId => "Cluster genesis ID must not be empty"@,
            GenesisErrorView::UnsupportedManifest { version } => {
                "Unsupported cluster genesis manifest version "@ + text::decimal(version as nat)
            },
            GenesisErrorView::EmptyManifestId => "Cluster genesis manifest ID must not be empty"@,
            GenesisErrorView::EmptyDigest => "Cluster genesis payload digest must not be empty"@,
            GenesisErrorView::DigestMismatch => {
                "Cluster genesis payload digest does not match manifest"@
            },
            GenesisErrorView::UndecodableCheckpoint(error) => {
                "Failed to decode cluster genesis checkpoint: "@ + error.text()
            },
            GenesisErrorView::MissingMarker => {
                "Cluster genesis checkpoint is missing its durable marker"@
            },
            GenesisErrorView::IdMismatch { checkpoint, manifest } => {
                "Cluster genesis checkpoint ID "@ + checkpoint + " does not match manifest "@
                    + manifest
            },
            GenesisErrorView::DifferentPayload { key } => {
                "Cluster genesis object "@ + key + " already contains different bytes"@
            },
            GenesisErrorView::ConflictingGenesis { existing, offered } => {
                "Cluster already has genesis "@ + existing + ", refusing conflicting genesis "@
                    + offered
            },
            GenesisErrorView::ManifestDisappeared => {
                "Cluster genesis manifest disappeared after create race"@
            },
            GenesisErrorView::ConcurrentGenesis { existing, offered } => {
                "Concurrent cluster genesis "@ + existing + " conflicts with "@ + offered
            },
            GenesisErrorView::ConflictingPartition { partition, existing } => {
                "Partition partition-"@ + text::decimal(partition as nat)
                    + " reports conflicting cluster genesis "@ + existing
            },
            GenesisErrorView::ReadinessDisappeared => {
                "Partition genesis readiness disappeared after create race"@
            },
            GenesisErrorView::ReadinessRace => "Partition genesis race conflicted"@,
            GenesisErrorView::ReadyOnConflictingGenesis { partition, existing } => {
                "Partition "@ + text::decimal(partition as nat)
                    + " is ready on conflicting genesis "@ + existing
            },
        }
    }
}

/// Two texts around two others.
fn phrase(a: &str, b: &str, c: &str, d: &str) -> (r: String)
    ensures
        r@ == a@ + b@ + c@ + d@,
{
    let mut s = a.to_owned();
    s.append(b);
    s.append(c);
    s.append(d);
    s
}

impl GenesisError {
    /// The text of the error.
    pub fn message(&self) -> (r: String)
        ensures
            r@ == self@.text(),
    {
        match self {
            GenesisError::MalformedMarker => "Cluster genesis marker is malformed".to_owned(),
            GenesisError::UnsupportedMarker { version } => {
                let mut s = "Unsupported cluster genesis format version ".to_owned();
                text::push_decimal(&mut s, *version as u64);
                s
            },
            GenesisError::EmptyMarkerId => "Cluster genesis ID must not be empty".to_owned(),
            GenesisError::UnsupportedManifest { version } => {
                let mut s = "Unsupported cluster genesis manifest version ".to_owned();
                text::push_decimal(&mut s, *version as u64);
                s
            },
            GenesisError::EmptyManifestId => {
                "Cluster genesis manifest ID must not be empty".to_owned()
            },
            GenesisError::EmptyDigest => {
                "Cluster genesis payload digest must not be empty".to_owned()
            },
            GenesisError::DigestMismatch => {
                "Cluster genesis payload digest does not match manifest".to_owned()
            },
            GenesisError::UndecodableCheckpoint(error) => {
                let mut s = "Failed to decode cluster genesis checkpoint: ".to_owned();
                s.append(error.message().as_str());
                s
            },
            GenesisError::MissingMarker => {
                "Cluster genesis checkpoint is missing its durable marker".to_owned()
            },
            GenesisError::IdMismatch { checkpoint, manifest } => phrase(
                "Cluster genesis checkpoint ID ",
                checkpoint.as_str(),
                " does not match manifest ",
                manifest.as_str(),
            ),
            GenesisError::DifferentPayload { key } => {
                let mut s = "Cluster genesis object ".to_owned();
                s.append(key.as_str());
                s.append(" already contains different bytes");
                s
            },
            GenesisError::ConflictingGenesis { existing, offered } => phrase(
                "Cluster already has genesis ",
                existing.as_str(),
                ", refusing conflicting genesis ",
                offered.as_str(),
            ),
            GenesisError::ManifestDisappeared => {
                "Cluster genesis manifest disappeared after create race".to_owned()
            },
            GenesisError::ConcurrentGenesis { existing, offered } => phrase(
                "Concurrent cluster genesis ",
                existing.as_str(),
                " conflicts with ",
                offered.as_str(),
            ),
            GenesisError::ConflictingPartition { partition, existing } => phrase(
                "Partition partition-",
                text::decimal_text(*partition as u64).as_str(),
                " reports conflicting cluster genesis ",
                existing.as_str(),
            ),
            GenesisError::ReadinessDisappeared => {
                "Partition genesis readiness disappeared after create race".to_owned()
            },
            GenesisError::ReadinessRace => "Partition genesis race conflicted".to_owned(),
            GenesisError::ReadyOnConflictingGenesis { partition, existing } => phrase(
                "Partition ",
                text::decimal_text(*partition as u64).as_str(),
                " is ready on conflicting genesis ",
                existing.as_str(),
            ),
        }
    }
}

/// Marks a store as started from a genesis.
#[derive(Clone, Debug, PartialEq, Eq)]
pub struct ClusterGenesisMarker {
    pub format_version: u32,
    pub genesis_id: String,
}

/// What a [`ClusterGenesisMarker`] states.
#[verifier::ext_equal]
pub struct MarkerView {
    pub format_version: u32,
    pub genesis_id: Seq<char>,
}

impl View for ClusterGenesisMarker {
    type V = MarkerView;

    open spec fn view(&self) -> MarkerView {
        MarkerView { format_version: self.format_version, genesis_id: self.genesis_id@ }
    }
}

/// The marker of a version and an identifier, where they could be read.
pub open spec fn marker_from(version: Option<u64>, id: Option<Seq<char>>) -> Result<
    MarkerView,
    GenesisErrorView,
> {
    match (version, id) {
        (Some(version), Some(id)) => if version > u32::MAX {
            Err(GenesisErrorView::MalformedMarker)
        } else if version != GENESIS_FORMAT_VERSION {
            Err(GenesisErrorView::UnsupportedMarker { version: version as u32 })
        } else if id.len() == 0 {
            Err(GenesisErrorView::EmptyMarkerId)
        } else {
            Ok(MarkerView { format_version: version as u32, genesis_id: id })
        },
        _ => Err(GenesisErrorView::MalformedMarker),
    }
}

/// The two parts of a marker in a JSON text: the members of an object, or the
/// elements of an array of two.
pub open spec fn marker_parts(json: Seq<char>) -> (Option<Seq<char>>, Option<Seq<char>>) {
    if json::json_element(json, 0) is None {
        (
            json::json_member(json, "format_version"@),
            json::json_member(json, "genesis_id"@),
        )
    } else if json::json_element(json, 2) is None {
        (json::json_element(json, 0), json::json_element(json, 1))
    } else {
        (None, None)
    }
}

/// The marker that a JSON text holds.
pub open spec fn marker_in(json: Seq<char>) -> Result<MarkerView, GenesisErrorView> {
    let (version, id) = marker_parts(json);
    marker_from(
        match version {
            Some(version) => json::json_u64(version),
            None => None,
        },
        match id {
            Some(id) => json::json_string(id),
            None => None,
        },
    )
}

/// A marker, or why there is none.
pub open spec fn marker_result(r: Result<ClusterGenesisMarker, GenesisError>) -> Result<
    MarkerView,
    GenesisErrorView,
> {
    match r {
        Ok(marker) => Ok(marker@),
        Err(error) => Err(error@),
    }
}

impl ClusterGenesisMarker {
    /// The marker of a version and an identifier, where they could be read.
    pub fn from_parts(version: Option<u64>, id: Option<String>) -> (r: Result<Self, GenesisError>)
        ensures
            marker_result(r) == marker_from(version, text::optional(id)),
    {
        match (version, id) {
            (Some(version), Some(id)) => if version > u32::MAX as u64 {
                Err(GenesisError::MalformedMarker)
            } else if version as u32 != GENESIS_FORMAT_VERSION {
                Err(GenesisError::UnsupportedMarker { version: version as u32 })
            } else if id.as_str().unicode_len() == 0 {
                Err(GenesisError::EmptyMarkerId)
            } else {
                Ok(ClusterGenesisMarker { format_version: version as u32, genesis_id: id })
            },
            _ => Err(GenesisError::MalformedMarker),
        }
    }

    /// Reads a marker. One that was made for a plain identifier is read as it
    /// was made.
    pub fn parse(value: &JsonValue) -> (r: Result<Self, GenesisError>)
        ensures
            marker_result(r) == marker_in(value@),
            forall|of: (u32, Seq<char>)|
                json::all_plain(of.1) && value@ == #[trigger] json::versioned_id(of.0, of.1)
                    ==> marker_result(r) == marker_from(Some(of.0 as u64), Some(of.1)),
    {
        let json = value.as_str();
        let first = json::element_of_json(json, 0);
        let third = json::element_of_json(json, 2);
        let (version, id) = if first.is_none() {
            (
                json::member_of_json(json, "format_version"),
                json::member_of_json(json, "genesis_id"),
            )
        } else if third.is_none() {
            (first, json::element_of_json(json, 1))
        } else {
            (None, None)
        };
        let version_read = match &version {
            Some(version) => json::u64_of_json(version.as_str()),
            None => None,
        };
        let id_read = match &id {
            Some(id) => json::string_of_json(id.as_str()),
            None => None,
        };
        proof {
            assert forall|of: (u32, Seq<char>)|
                json::all_plain(of.1) && value@ == #[trigger] json::versioned_id(
                    of.0,
                    of.1,
                ) implies version_read == Some(of.0 as u64) && text::optional(id_read) == Some(
                of.1,
            ) by {
                assert("format_version"@ != "genesis_id"@) by {
                    reveal_strlit("format_version");
                    reveal_strlit("genesis_id");
                    assert("format_version"@.len() != "genesis_id"@.len());
                }
                assert(text::optional(version) == Some(text::decimal((of.0 as u64) as nat)));
                assert(text::optional(id) == Some(json::quoted(of.1)));
            }
        }
        Self::from_parts(version_read, id_read)
    }
}

/// Names a published genesis and the digest of its payload.
#[derive(Clone, Debug, PartialEq, Eq)]
pub struct ClusterGenesisManifest {
    pub format_version: u32,
    pub genesis_id: String,
    pub payload_sha256: String,
}

/// What a [`ClusterGenesisManifest`] states.
#[verifier::ext_equal]
pub struct ManifestView {
    pub format_version: u32,
    pub genesis_id: Seq<char>,
    pub payload_sha256: Seq<char>,
}

impl View for ClusterGenesisManifest {
    type V = ManifestView;

    open spec fn view(&self) -> ManifestView {
        ManifestView {
            format_version: self.format_version,
            genesis_id: self.genesis_id@,
            payload_sha256: self.payload_sha256@,
        }
    }
}

impl ClusterGenesisManifest {
    /// Whether two manifests state the same.
    pub fn same(&self, other: &Self) -> (r: bool)
        ensures
            r == (self@ == other@),
    {
        let r = self.format_version == other.format_version && text::same_text(
            self.genesis_id.as_str(),
            other.genesis_id.as_str(),
        ) && text::same_text(self.payload_sha256.as_str(), other.payload_sha256.as_str());
        assert(r ==> self@ =~= other@);
        r
    }
}

/// What is wrong with a manifest.
pub open spec fn manifest_error(m: ManifestView) -> Option<GenesisErrorView> {
    if m.format_version != GENESIS_FORMAT_VERSION {
        Some(GenesisErrorView::UnsupportedManifest { version: m.format_version })
    } else if m.genesis_id.len() == 0 {
        Some(GenesisErrorView::EmptyManifestId)
    } else if m.payload_sha256.len() == 0 {
        Some(GenesisErrorView::EmptyDigest)
    } else {
        None
    }
}

/// Whether a manifest can be used.
pub fn validate_manifest(manifest: &ClusterGenesisManifest) -> (r: Result<(), GenesisError>)
    ensures
        match r {
            Ok(_) => manifest_error(manifest@) is None,
            Err(error) => manifest_error(manifest@) == Some(error@),
        },
{
    if manifest.format_version != GENESIS_FORMAT_VERSION {
        Err(GenesisError::UnsupportedManifest { version: manifest.format_version })
    } else if manifest.genesis_id.as_str().unicode_len() == 0 {
        Err(GenesisError::EmptyManifestId)
    } else if manifest.payload_sha256.as_str().unicode_len() == 0 {
        Err(GenesisError::EmptyDigest)
    } else {
        Ok(())
    }
}

/// A genesis and its manifest.
#[derive(Clone, Debug, PartialEq, Eq)]
pub struct CanonicalGenesisPayload {
    pub manifest: ClusterGenesisManifest,
    pub checkpoint_bytes: Vec<u8>,
}

/// What a [`CanonicalGenesisPayload`] states.
#[verifier::ext_equal]
pub struct PayloadView {
    pub manifest: ManifestView,
    pub checkpoint_bytes: Seq<u8>,
}

impl View for CanonicalGenesisPayload {
    type V = PayloadView;

    open spec fn view(&self) -> PayloadView {
        PayloadView { manifest: self.manifest@, checkpoint_bytes: self.checkpoint_bytes@ }
    }
}

/// The values that say how far one node has come. They mean nothing to another.
pub open spec fn node_local_checkpoint_keys() -> Seq<PersistenceGlobalKey> {
    seq![
        PersistenceGlobalKey::ReplicationFrontiers,
        PersistenceGlobalKey::AppliedDeltaWatermarks,
        PersistenceGlobalKey::AppliedDataDeltaWatermarks,
        PersistenceGlobalKey::AppliedDataDeltaIds,
        PersistenceGlobalKey::ClusterGenesisRaftApplied,
    ]
}

/// The values without those of the first `n` keys.
pub open spec fn without_keys(
    globals: Map<Seq<char>, Seq<char>>,
    keys: Seq<PersistenceGlobalKey>,
    n: nat,
) -> Map<Seq<char>, Seq<char>>
    decreases n,
{
    if n == 0 {
        globals
    } else {
        without_keys(globals, keys, (n - 1) as nat).remove(keys[n - 1].name())
    }
}

/// The checkpoint without what is of one node alone, and without a marker.
pub open spec fn stripped(c: CheckpointView) -> CheckpointView {
    CheckpointView {
        globals: without_keys(
            c.globals,
            node_local_checkpoint_keys(),
            node_local_checkpoint_keys().len(),
        ).remove(PersistenceGlobalKey::ClusterGenesis.name()),
        ..c
    }
}

/// The identifier of the genesis that a checkpoint makes.
pub open spec fn genesis_id_of(c: CheckpointView) -> Seq<char> {
    raft_snapshot::digest_text(snapshot_checkpointer::stored_bytes(stripped(c)))
}

/// The checkpoint with the marker of an identifier.
pub open spec fn marked(c: CheckpointView, id: Seq<char>) -> CheckpointView {
    CheckpointView {
        globals: c.globals.insert(
            PersistenceGlobalKey::ClusterGenesis.name(),
            json::versioned_id(GENESIS_FORMAT_VERSION, id),
        ),
        ..c
    }
}

/// The checkpoint that a genesis holds.
pub open spec fn genesis_checkpoint(c: CheckpointView) -> CheckpointView {
    marked(stripped(c), genesis_id_of(c))
}

/// The genesis that a checkpoint makes.
pub open spec fn canonical_payload(c: CheckpointView) -> PayloadView {
    let checkpoint_bytes = snapshot_checkpointer::stored_bytes(genesis_checkpoint(c));
    PayloadView {
        manifest: ManifestView {
            format_version: GENESIS_FORMAT_VERSION,
            genesis_id: genesis_id_of(c),
            payload_sha256: raft_snapshot::digest_text(checkpoint_bytes),
        },
        checkpoint_bytes,
    }
}

/// The genesis of the checkpoint has a valid manifest, is well kept and fits on
/// the wire. Every checkpoint that a genesis was made of is like this.
pub open spec fn makes_genesis(c: CheckpointView) -> bool {
    &&& manifest_error(canonical_payload(c).manifest) is None
    &&& snapshot_checkpointer::well_kept(genesis_checkpoint(c))
    &&& snapshot_checkpointer::fits_wire(genesis_checkpoint(c))
}

/// Takes out of a checkpoint what is of one node alone, and its marker.
pub fn strip_checkpoint(checkpoint: CheckpointData) -> (r: CheckpointData)
    requires
        checkpoint.wf(),
    ensures
        r.wf(),
        r@ == stripped(checkpoint@),
{
    let mut checkpoint = checkpoint;
    let ghost given = checkpoint@;
    let ghost all = node_local_checkpoint_keys();
    let mut keys: Vec<PersistenceGlobalKey> = Vec::new();
    keys.push(PersistenceGlobalKey::ReplicationFrontiers);
    keys.push(PersistenceGlobalKey::AppliedDeltaWatermarks);
    keys.push(PersistenceGlobalKey::AppliedDataDeltaWatermarks);
    keys.push(PersistenceGlobalKey::AppliedDataDeltaIds);
    keys.push(PersistenceGlobalKey::ClusterGenesisRaftApplied);
    assert(keys@ =~= all);
    let mut i: usize = 0;
    while i < keys.len()
        invariant
            keys@ == all,
            i <= all.len(),
            checkpoint.wf(),
            checkpoint@.timestamp == given.timestamp,
            checkpoint@.documents == given.documents,
            checkpoint@.globals == without_keys(given.globals, all, i as nat),
        decreases all.len() - i,
    {
        let ghost before = checkpoint.globals@;
        let name = keys[i].to_name();
        checkpoint.globals.remove(&name);
        assert(checkpoint@.globals =~= checkpoint::globals_view(before).remove(name@));
        i = i + 1;
    }
    let ghost before = checkpoint.globals@;
    let name = PersistenceGlobalKey::ClusterGenesis.to_name();
    checkpoint.globals.remove(&name);
    assert(checkpoint@.globals =~= checkpoint::globals_view(before).remove(name@));
    checkpoint
}

/// Puts the marker of an identifier into a checkpoint. The characters of the
/// identifier stand for themselves in JSON.
pub fn mark_checkpoint(checkpoint: CheckpointData, genesis_id: &str) -> (r: CheckpointData)
    requires
        checkpoint.wf(),
        json::all_plain(genesis_id@),
    ensures
        r.wf(),
        r@ == marked(checkpoint@, genesis_id@),
{
    let mut checkpoint = checkpoint;
    let ghost before = checkpoint.globals@;
    let name = PersistenceGlobalKey::ClusterGenesis.to_name();
    let ghost called = name@;
    let marker = JsonValue::versioned_id(GENESIS_FORMAT_VERSION, genesis_id);
    let ghost stated = marker@;
    checkpoint.globals.insert(name, marker);
    assert(checkpoint@.globals =~= checkpoint::globals_view(before).insert(called, stated));
    checkpoint
}

proof fn lemma_hex_is_plain(bytes: Seq<u8>)
    ensures
        json::all_plain(digest::hex_text(bytes)),
        digest::hex_text(bytes).len() == 2 * bytes.len(),
{
    let text = digest::hex_text(bytes);
    assert forall|i: int| 0 <= i < text.len() implies json::is_plain(#[trigger] text[i]) by {
        assert(0 <= i / 2 < bytes.len());
    }
}

/// Makes a genesis of a checkpoint.
pub fn canonicalize_checkpoint(checkpoint: CheckpointData) -> (r: CanonicalGenesisPayload)
    requires
        checkpoint.wf(),
    ensures
        r@ == canonical_payload(checkpoint@),
        makes_genesis(checkpoint@),
{
    let ghost given = checkpoint@;
    let checkpoint = strip_checkpoint(checkpoint);
    let stripped_bytes = snapshot_checkpointer::checkpoint_to_bytes(&checkpoint);
    let genesis_id = raft_snapshot::text_of_digest(stripped_bytes.as_slice());
    proof {
        lemma_hex_is_plain(digest::sha256(stripped_bytes@));
    }
    let checkpoint = mark_checkpoint(checkpoint, genesis_id.as_str());
    let checkpoint_bytes = snapshot_checkpointer::checkpoint_to_bytes(&checkpoint);
    let payload_sha256 = raft_snapshot::text_of_digest(checkpoint_bytes.as_slice());
    proof {
        lemma_hex_is_plain(digest::sha256(checkpoint_bytes@));
    }
    let manifest = ClusterGenesisManifest {
        format_version: GENESIS_FORMAT_VERSION,
        genesis_id,
        payload_sha256,
    };
    let payload = CanonicalGenesisPayload { manifest, checkpoint_bytes };
    assert(payload@ =~= canonical_payload(given));
    payload
}

/// What comes of a payload, given its digest, what its bytes hold and what its
/// marker is.
pub open spec fn accepted_payload(
    m: ManifestView,
    digest: Seq<char>,
    held: Result<CheckpointView, CheckpointError>,
    marker: Option<Result<MarkerView, GenesisErrorView>>,
) -> Result<CheckpointView, GenesisErrorView> {
    if manifest_error(m) is Some {
        Err(manifest_error(m)->Some_0)
    } else if digest != m.payload_sha256 {
        Err(GenesisErrorView::DigestMismatch)
    } else {
        match held {
            Err(error) => Err(GenesisErrorView::UndecodableCheckpoint(error)),
            Ok(checkpoint) => match marker {
                None => Err(GenesisErrorView::MissingMarker),
                Some(Err(error)) => Err(error),
                Some(Ok(marker)) => if marker.genesis_id != m.genesis_id {
                    Err(
                        GenesisErrorView::IdMismatch {
                            checkpoint: marker.genesis_id,
                            manifest: m.genesis_id,
                        },
                    )
                } else {
                    Ok(checkpoint)
                },
            },
        }
    }
}

/// The marker among the values of a checkpoint.
pub open spec fn marker_of(held: Result<CheckpointView, CheckpointError>) -> Option<
    Result<MarkerView, GenesisErrorView>,
> {
    match held {
        Ok(checkpoint) => if checkpoint.globals.dom().contains(
            PersistenceGlobalKey::ClusterGenesis.name(),
        ) {
            Some(marker_in(checkpoint.globals[PersistenceGlobalKey::ClusterGenesis.name()]))
        } else {
            None
        },
        Err(_) => None,
    }
}

/// What comes of a payload.
pub open spec fn payload_result(m: ManifestView, bytes: Seq<u8>) -> Result<
    CheckpointView,
    GenesisErrorView,
> {
    accepted_payload(
        m,
        raft_snapshot::digest_text(bytes),
        snapshot_checkpointer::checkpoint_in(bytes),
        marker_of(snapshot_checkpointer::checkpoint_in(bytes)),
    )
}

/// The view of what bytes hold.
pub open spec fn held_view(held: Result<CheckpointData, CheckpointError>) -> Result<
    CheckpointView,
    CheckpointError,
> {
    match held {
        Ok(checkpoint) => Ok(checkpoint@),
        Err(error) => Err(error),
    }
}

/// The view of a marker that may be missing.
pub open spec fn marker_view(
    marker: Option<Result<ClusterGenesisMarker, GenesisError>>,
) -> Option<Result<MarkerView, GenesisErrorView>> {
    match marker {
        Some(marker) => Some(marker_result(marker)),
        None => None,
    }
}

/// What comes of a payload, given its digest, what its bytes hold and what its
/// marker is.
pub fn accept_payload(
    manifest: &ClusterGenesisManifest,
    digest: &str,
    held: Result<CheckpointData, CheckpointError>,
    marker: Option<Result<ClusterGenesisMarker, GenesisError>>,
) -> (r: Result<CheckpointData, GenesisError>)
    ensures
        match r {
            Ok(checkpoint) => held == Ok::<CheckpointData, CheckpointError>(checkpoint)
                && accepted_payload(
                manifest@,
                digest@,
                held_view(held),
                marker_view(marker),
            ) == Ok::<CheckpointView, GenesisErrorView>(checkpoint@),
            Err(error) => accepted_payload(
                manifest@,
                digest@,
                held_view(held),
                marker_view(marker),
            ) == Err::<CheckpointView, GenesisErrorView>(error@),
        },
{
    match validate_manifest(manifest) {
        Ok(_) => {},
        Err(error) => {
            return Err(error);
        },
    }
    if !text::same_text(digest, manifest.payload_sha256.as_str()) {
        return Err(GenesisError::DigestMismatch);
    }
    match held {
        Err(error) => Err(GenesisError::UndecodableCheckpoint(error)),
        Ok(checkpoint) => match marker {
            None => Err(GenesisError::MissingMarker),
            Some(Err(error)) => Err(error),
            Some(Ok(marker)) => if !text::same_text(
                marker.genesis_id.as_str(),
                manifest.genesis_id.as_str(),
            ) {
                Err(
                    GenesisError::IdMismatch {
                        checkpoint: marker.genesis_id,
                        manifest: manifest.genesis_id.clone(),
                    },
                )
            } else {
                Ok(checkpoint)
            },
        },
    }
}

/// Where the values of a checkpoint are read back as they are, so are those of
/// its genesis.
pub proof fn genesis_reads_back(c: CheckpointView)
    requires
        makes_genesis(c),
        snapshot_checkpointer::reads_back(stripped(c)),
    ensures
        snapshot_checkpointer::reads_back(genesis_checkpoint(c)),
{
    let genesis = genesis_checkpoint(c);
    lemma_hex_is_plain(digest::sha256(snapshot_checkpointer::stored_bytes(stripped(c))));
    assert forall|name: Seq<char>| genesis.globals.dom().contains(name) implies json::json_canonical(
        #[trigger] genesis.globals[name],
    ) == Some(genesis.globals[name]) by {
        if name == PersistenceGlobalKey::ClusterGenesis.name() {
            assert(genesis.globals[name] == json::versioned_id(
                GENESIS_FORMAT_VERSION,
                genesis_id_of(c),
            ));
            assert(json::prints_as_is(genesis.globals[name]));
            assert(json::is_printed(genesis.globals[name]));
        } else {
            assert(stripped(c).globals[name] == genesis.globals[name]);
        }
    }
}

/// Checks a payload against its manifest. The genesis that
/// [`canonicalize_checkpoint`] makes of a checkpoint is accepted, and gives the
/// checkpoint with its marker and without what is of one node alone, which
/// makes the same genesis again. Left out are checkpoints with a value that is
/// not read back as it is: a number with a fraction or an exponent may come back
/// as another number.
pub fn validate_payload(manifest: &ClusterGenesisManifest, checkpoint_bytes: &[u8]) -> (r: Result<
    CheckpointData,
    GenesisError,
>)
    ensures
        match r {
            Ok(checkpoint) => checkpoint.wf() && payload_result(manifest@, checkpoint_bytes@)
                == Ok::<CheckpointView, GenesisErrorView>(checkpoint@),
            Err(error) => payload_result(manifest@, checkpoint_bytes@) == Err::<
                CheckpointView,
                GenesisErrorView,
            >(error@),
        },
        forall|c: CheckpointView|
            (PayloadView { manifest: manifest@, checkpoint_bytes: checkpoint_bytes@ })
                == #[trigger] canonical_payload(c) && makes_genesis(c)
                && snapshot_checkpointer::reads_back(stripped(c)) ==> (r matches Ok(checkpoint)
                && checkpoint@ == genesis_checkpoint(c) && canonical_payload(checkpoint@)
                == canonical_payload(c)),
{
    let sum = raft_snapshot::text_of_digest(checkpoint_bytes);
    let held = snapshot_checkpointer::checkpoint_from_bytes(checkpoint_bytes);
    let marker = match &held {
        Ok(checkpoint) => match checkpoint.globals.get(
            &PersistenceGlobalKey::ClusterGenesis.to_name(),
        ) {
            Some(value) => Some(ClusterGenesisMarker::parse(value)),
            None => None,
        },
        Err(_) => None,
    };
    proof {
        assert forall|c: CheckpointView|
            (PayloadView { manifest: manifest@, checkpoint_bytes: checkpoint_bytes@ })
                == #[trigger] canonical_payload(c) && makes_genesis(c)
                && snapshot_checkpointer::reads_back(stripped(c)) implies payload_result(
            manifest@,
            checkpoint_bytes@,
        ) == Ok::<CheckpointView, GenesisErrorView>(genesis_checkpoint(c)) && canonical_payload(
            genesis_checkpoint(c),
        ) == canonical_payload(c) by {
            genesis_reads_back(c);
            genesis_of_a_genesis_is_itself(c);
            snapshot_checkpointer::checkpoint_survives_its_bytes(genesis_checkpoint(c));
            let inner = digest::sha256(snapshot_checkpointer::stored_bytes(stripped(c)));
            lemma_hex_is_plain(inner);
            assert(json::all_plain(genesis_id_of(c)));
            let value = genesis_checkpoint(c).globals[PersistenceGlobalKey::ClusterGenesis.name()];
            assert(value == json::versioned_id(GENESIS_FORMAT_VERSION, genesis_id_of(c)));
            let of = (GENESIS_FORMAT_VERSION, genesis_id_of(c));
            assert(value == json::versioned_id(of.0, of.1));
        }
    }
    accept_payload(manifest, sum.as_str(), held, marker)
}

/// Keeps the genesis of the cluster that a secret names.
#[derive(Clone, Debug)]
pub struct NatsClusterGenesisStore {
    namespace: String,
}

/// A manifest that may be missing.
pub open spec fn optional_manifest(m: Option<ClusterGenesisManifest>) -> Option<ManifestView> {
    match m {
        Some(m) => Some(m@),
        None => None,
    }
}

/// Whether a manifest is to be published where the store holds `existing`.
pub open spec fn publication(existing: Option<ManifestView>, m: ManifestView) -> Result<
    bool,
    GenesisErrorView,
> {
    match existing {
        None => Ok(true),
        Some(existing) => if existing == m {
            Ok(false)
        } else {
            Err(
                GenesisErrorView::ConflictingGenesis {
                    existing: existing.genesis_id,
                    offered: m.genesis_id,
                },
            )
        },
    }
}

/// What comes of a publication that another node was ahead of.
pub open spec fn lost_publication(existing: Option<ManifestView>, m: ManifestView) -> Option<
    GenesisErrorView,
> {
    match existing {
        None => Some(GenesisErrorView::ManifestDisappeared),
        Some(existing) => if existing == m {
            None
        } else {
            Some(
                GenesisErrorView::ConcurrentGenesis {
                    existing: existing.genesis_id,
                    offered: m.genesis_id,
                },
            )
        },
    }
}

/// Whether a partition is to be marked ready where the store holds `existing`
/// for it.
pub open spec fn readiness(
    partition: PartitionId,
    existing: Option<ManifestView>,
    m: ManifestView,
) -> Result<bool, GenesisErrorView> {
    match existing {
        None => Ok(true),
        Some(existing) => if existing == m {
            Ok(false)
        } else {
            Err(
                GenesisErrorView::ConflictingPartition {
                    partition: partition.0,
                    existing: existing.genesis_id,
                },
            )
        },
    }
}

/// What comes of a mark that another node was ahead of.
pub open spec fn lost_readiness(existing: Option<ManifestView>, m: ManifestView) -> Option<
    GenesisErrorView,
> {
    match existing {
        None => Some(GenesisErrorView::ReadinessDisappeared),
        Some(existing) => if existing == m {
            None
        } else {
            Some(GenesisErrorView::ReadinessRace)
        },
    }
}

/// How far the partitions of a cluster are.
#[derive(Clone, Copy, Debug, PartialEq, Eq, Structural)]
pub enum ClusterReadiness {
    Ready,
    NotReady,
    /// The mark of this partition has to be read next.
    Read { partition: u32 },
}

/// How far the partitions are, by the marks of the first `n`.
pub open spec fn cluster_readiness(
    num_partitions: u32,
    marks: Seq<Option<ManifestView>>,
    m: ManifestView,
    n: nat,
) -> Result<ClusterReadiness, GenesisErrorView>
    decreases n,
{
    if n == 0 {
        if num_partitions == 0 {
            Ok(ClusterReadiness::Ready)
        } else {
            Ok(ClusterReadiness::Read { partition: 0 })
        }
    } else {
        match cluster_readiness(num_partitions, marks, m, (n - 1) as nat) {
            Ok(ClusterReadiness::Read { partition }) => match marks[n - 1] {
                None => Ok(ClusterReadiness::NotReady),
                Some(ready) => if ready != m {
                    Err(
                        GenesisErrorView::ReadyOnConflictingGenesis {
                            partition,
                            existing: ready.genesis_id,
                        },
                    )
                } else if partition + 1 < num_partitions {
                    Ok(ClusterReadiness::Read { partition: (partition + 1) as u32 })
                } else {
                    Ok(ClusterReadiness::Ready)
                },
            },
            other => other,
        }
    }
}

/// The views of marks.
pub open spec fn marks_view(marks: Seq<Option<ClusterGenesisManifest>>) -> Seq<
    Option<ManifestView>,
> {
    Seq::new(marks.len(), |i: int| optional_manifest(marks[i]))
}

impl NatsClusterGenesisStore {
    /// The name under which everything of the cluster is kept.
    pub closed spec fn name(&self) -> Seq<char> {
        self.namespace@
    }

    /// The store of the cluster with the secret.
    pub fn new(cluster_secret: &[u8]) -> (r: Self)
        ensures
            r.name() == raft_snapshot::digest_text(cluster_secret@),
    {
        NatsClusterGenesisStore { namespace: raft_snapshot::text_of_digest(cluster_secret) }
    }

    /// The key of the manifest.
    pub fn manifest_key(&self) -> (r: &str)
        ensures
            r@ == self.name(),
    {
        self.namespace.as_str()
    }

    /// The key of the payload of a genesis.
    pub fn payload_key(&self, genesis_id: &str) -> (r: String)
        ensures
            r@ == self.name() + "-"@ + genesis_id@,
    {
        let mut s = self.namespace.clone();
        s.append("-");
        s.append(genesis_id);
        s
    }

    /// The key of a partition's mark.
    pub fn partition_ready_key(&self, partition: PartitionId) -> (r: String)
        ensures
            r@ == self.name() + ".partition."@ + text::decimal(partition.0 as nat),
    {
        let mut s = self.namespace.clone();
        s.append(".partition.");
        text::push_decimal(&mut s, partition.0 as u64);
        s
    }

    /// What the store holds of a payload, once it is checked.
    pub fn load_payload(
        &self,
        manifest: &ClusterGenesisManifest,
        found: Option<Vec<u8>>,
    ) -> (r: Result<Option<Vec<u8>>, GenesisError>)
        ensures
            match found {
                None => r == Ok::<Option<Vec<u8>>, GenesisError>(None),
                Some(bytes) => match payload_result(manifest@, bytes@) {
                    Ok(_) => r == Ok::<Option<Vec<u8>>, GenesisError>(Some(bytes)),
                    Err(error) => r matches Err(e) && e@ == error,
                },
            },
    {
        match found {
            None => Ok(None),
            Some(bytes) => match validate_payload(manifest, bytes.as_slice()) {
                Ok(_) => Ok(Some(bytes)),
                Err(error) => Err(error),
            },
        }
    }

    /// Whether a payload is to be uploaded where the store holds `found`. What
    /// is there has to be the same and sound.
    pub fn put_payload(&self, payload: &CanonicalGenesisPayload, found: Option<Vec<u8>>) -> (r:
        Result<bool, GenesisError>)
        ensures
            match found {
                None => r == Ok::<bool, GenesisError>(true),
                Some(bytes) => match payload_result(payload@.manifest, bytes@) {
                    Err(error) => r matches Err(e) && e@ == error,
                    Ok(_) => if bytes@ == payload@.checkpoint_bytes {
                        r == Ok::<bool, GenesisError>(false)
                    } else {
                        r matches Err(e) && e@ == (GenesisErrorView::DifferentPayload {
                            key: self.name() + "-"@ + payload@.manifest.genesis_id,
                        })
                    },
                },
            },
    {
        match self.load_payload(&payload.manifest, found) {
            Err(error) => Err(error),
            Ok(None) => Ok(true),
            Ok(Some(existing)) => match text::relate_bytes(
                existing.as_slice(),
                payload.checkpoint_bytes.as_slice(),
            ) {
                Relation::Same => Ok(false),
                _ => Err(
                    GenesisError::DifferentPayload {
                        key: self.payload_key(payload.manifest.genesis_id.as_str()),
                    },
                ),
            },
        }
    }

    /// Whether a manifest is to be published where the store holds `existing`.
    pub fn publish_manifest(
        &self,
        manifest: &ClusterGenesisManifest,
        existing: &Option<ClusterGenesisManifest>,
    ) -> (r: Result<bool, GenesisError>)
        ensures
            match r {
                Ok(create) => publication(optional_manifest(*existing), manifest@) == Ok::<
                    bool,
                    GenesisErrorView,
                >(create),
                Err(error) => publication(optional_manifest(*existing), manifest@) == Err::<
                    bool,
                    GenesisErrorView,
                >(error@),
            },
    {
        match existing {
            None => Ok(true),
            Some(existing) => if existing.same(manifest) {
                Ok(false)
            } else {
                Err(
                    GenesisError::ConflictingGenesis {
                        existing: existing.genesis_id.clone(),
                        offered: manifest.genesis_id.clone(),
                    },
                )
            },
        }
    }

    /// What comes of a publication that another node was ahead of, now that
    /// the store holds `existing`.
    pub fn publication_lost(
        &self,
        manifest: &ClusterGenesisManifest,
        existing: &Option<ClusterGenesisManifest>,
    ) -> (r: Result<(), GenesisError>)
        ensures
            match r {
                Ok(_) => lost_publication(optional_manifest(*existing), manifest@) is None,
                Err(error) => lost_publication(optional_manifest(*existing), manifest@) == Some(
                    error@,
                ),
            },
    {
        match existing {
            None => Err(GenesisError::ManifestDisappeared),
            Some(existing) => if existing.same(manifest) {
                Ok(())
            } else {
                Err(
                    GenesisError::ConcurrentGenesis {
                        existing: existing.genesis_id.clone(),
                        offered: manifest.genesis_id.clone(),
                    },
                )
            },
        }
    }

    /// Whether a partition is to be marked ready where the store holds
    /// `existing` for it.
    pub fn mark_partition_ready(
        &self,
        partition: PartitionId,
        manifest: &ClusterGenesisManifest,
        existing: &Option<ClusterGenesisManifest>,
    ) -> (r: Result<bool, GenesisError>)
        ensures
            match r {
                Ok(create) => readiness(partition, optional_manifest(*existing), manifest@) == Ok::<
                    bool,
                    GenesisErrorView,
                >(create),
                Err(error) => readiness(partition, optional_manifest(*existing), manifest@)
                    == Err::<bool, GenesisErrorView>(error@),
            },
    {
        match existing {
            None => Ok(true),
            Some(existing) => if existing.same(manifest) {
                Ok(false)
            } else {
                Err(
                    GenesisError::ConflictingPartition {
                        partition: partition.0,
                        existing: existing.genesis_id.clone(),
                    },
                )
            },
        }
    }

    /// What comes of a mark that another node was ahead of, now that the store
    /// holds `existing`.
    pub fn readiness_lost(
        &self,
        manifest: &ClusterGenesisManifest,
        existing: &Option<ClusterGenesisManifest>,
    ) -> (r: Result<(), GenesisError>)
        ensures
            match r {
                Ok(_) => lost_readiness(optional_manifest(*existing), manifest@) is None,
                Err(error) => lost_readiness(optional_manifest(*existing), manifest@) == Some(
                    error@,
                ),
            },
    {
        match existing {
            None => Err(GenesisError::ReadinessDisappeared),
            Some(existing) => if existing.same(manifest) {
                Ok(())
            } else {
                Err(GenesisError::ReadinessRace)
            },
        }
    }

    /// Whether all partitions are ready, by the marks that were read so far,
    /// from the first partition on. Nothing is read once the answer is known.
    pub fn all_partitions_ready(
        &self,
        num_partitions: u32,
        marks: &Vec<Option<ClusterGenesisManifest>>,
        manifest: &ClusterGenesisManifest,
    ) -> (r: Result<ClusterReadiness, GenesisError>)
        ensures
            match r {
                Ok(readiness) => cluster_readiness(
                    num_partitions,
                    marks_view(marks@),
                    manifest@,
                    marks@.len(),
                ) == Ok::<ClusterReadiness, GenesisErrorView>(readiness),
                Err(error) => cluster_readiness(
                    num_partitions,
                    marks_view(marks@),
                    manifest@,
                    marks@.len(),
                ) == Err::<ClusterReadiness, GenesisErrorView>(error@),
            },
    {
        let ghost views = marks_view(marks@);
        let mut readiness = if num_partitions == 0 {
            ClusterReadiness::Ready
        } else {
            ClusterReadiness::Read { partition: 0 }
        };
        let mut i: usize = 0;
        while i < marks.len()
            invariant
                i <= marks@.len(),
                views == marks_view(marks@),
                cluster_readiness(num_partitions, views, manifest@, i as nat) == Ok::<
                    ClusterReadiness,
                    GenesisErrorView,
                >(readiness),
            decreases marks@.len() - i,
        {
            assert(views[i as int] == optional_manifest(marks@[i as int]));
            match readiness {
                ClusterReadiness::Read { partition } => match &marks[i] {
                    None => {
                        readiness = ClusterReadiness::NotReady;
                    },
                    Some(ready) => {
                        if !ready.same(manifest) {
                            let error = GenesisError::ReadyOnConflictingGenesis {
                                partition,
                                existing: ready.genesis_id.clone(),
                            };
                            proof {
                                assert(cluster_readiness(
                                    num_partitions,
                                    views,
                                    manifest@,
                                    (i + 1) as nat,
                                ) == Err::<ClusterReadiness, GenesisErrorView>(error@));
                                lemma_conflict_stays(
                                    num_partitions,
                                    views,
                                    manifest@,
                                    (i + 1) as nat,
                                    views.len(),
                                );
                            }
                            return Err(error);
                        }
                        readiness =
                        if partition < num_partitions - 1 {
                            ClusterReadiness::Read { partition: partition + 1 }
                        } else {
                            ClusterReadiness::Ready
                        };
                    },
                },
                _ => {},
            }
            i = i + 1;
        }
        Ok(readiness)
    }
}

proof fn lemma_conflict_stays(
    num_partitions: u32,
    marks: Seq<Option<ManifestView>>,
    m: ManifestView,
    n: nat,
    to: nat,
)
    requires
        n <= to,
        cluster_readiness(num_partitions, marks, m, n) is Err,
    ensures
        cluster_readiness(num_partitions, marks, m, to) == cluster_readiness(
            num_partitions,
            marks,
            m,
            n,
        ),
    decreases to - n,
{
    if n < to {
        lemma_conflict_stays(num_partitions, marks, m, n, (to - 1) as nat);
    }
}

/// What is read of the marks matches how far they were read.
proof fn lemma_reading(
    num_partitions: u32,
    marks: Seq<Option<ManifestView>>,
    m: ManifestView,
    n: nat,
)
    requires
        n <= marks.len(),
    ensures
        cluster_readiness(num_partitions, marks, m, n) matches Ok(ClusterReadiness::Read {
            partition,
        }) ==> partition == n && n < num_partitions && forall|i: int|
            0 <= i < n ==> #[trigger] marks[i] == Some(m),
        cluster_readiness(num_partitions, marks, m, n) == Ok::<ClusterReadiness, GenesisErrorView>(
            ClusterReadiness::Ready,
        ) ==> num_partitions <= n && forall|i: int|
            0 <= i < num_partitions ==> #[trigger] marks[i] == Some(m),
    decreases n,
{
    if n > 0 {
        lemma_reading(num_partitions, marks, m, (n - 1) as nat);
    }
}

/// A cluster is ready only when each of its partitions has reported this very
/// genesis.
pub proof fn ready_cluster_shares_one_genesis(
    num_partitions: u32,
    marks: Seq<Option<ManifestView>>,
    m: ManifestView,
)
    ensures
        cluster_readiness(num_partitions, marks, m, marks.len()) == Ok::<
            ClusterReadiness,
            GenesisErrorView,
        >(ClusterReadiness::Ready) ==> num_partitions <= marks.len() && forall|i: int|
            0 <= i < num_partitions ==> #[trigger] marks[i] == Some(m),
{
    lemma_reading(num_partitions, marks, m, marks.len());
}

/// A genesis that was published stays: where the store holds a manifest,
/// nothing is created, and another one is refused. So is another one for a
/// partition that is ready.
pub proof fn published_genesis_stays(
    existing: ManifestView,
    offered: ManifestView,
    partition: PartitionId,
)
    ensures
        publication(Some(existing), offered) != Ok::<bool, GenesisErrorView>(true),
        publication(Some(existing), offered) is Ok <==> existing == offered,
        lost_publication(Some(existing), offered) is None <==> existing == offered,
        readiness(partition, Some(existing), offered) != Ok::<bool, GenesisErrorView>(true),
        readiness(partition, Some(existing), offered) is Ok <==> existing == offered,
        lost_readiness(Some(existing), offered) is None <==> existing == offered,
{
}

proof fn lemma_names_differ()
    ensures
        forall|i: int|
            0 <= i < node_local_checkpoint_keys().len() ==> (
            #[trigger] node_local_checkpoint_keys()[i]).name()
                != PersistenceGlobalKey::ClusterGenesis.name(),
{
    reveal_strlit("replication_frontiers");
    reveal_strlit("applied_delta_watermarks");
    reveal_strlit("applied_data_delta_watermarks");
    reveal_strlit("applied_data_delta_ids");
    reveal_strlit("cluster_genesis_raft_applied");
    reveal_strlit("cluster_genesis");
    assert forall|i: int| 0 <= i < node_local_checkpoint_keys().len() implies (
    #[trigger] node_local_checkpoint_keys()[i]).name()
        != PersistenceGlobalKey::ClusterGenesis.name() by {
        assert(node_local_checkpoint_keys()[i].name().len()
            != PersistenceGlobalKey::ClusterGenesis.name().len());
    }
}

proof fn lemma_without_keys(
    globals: Map<Seq<char>, Seq<char>>,
    keys: Seq<PersistenceGlobalKey>,
    n: nat,
)
    requires
        n <= keys.len(),
    ensures
        forall|name: Seq<char>| #[trigger]
            without_keys(globals, keys, n).dom().contains(name) <==> globals.dom().contains(name)
                && forall|i: int| 0 <= i < n ==> (#[trigger] keys[i]).name() != name,
        forall|name: Seq<char>| #[trigger]
            without_keys(globals, keys, n).dom().contains(name) ==> without_keys(
                globals,
                keys,
                n,
            )[name] == globals[name],
    decreases n,
{
    if n > 0 {
        lemma_without_keys(globals, keys, (n - 1) as nat);
        let before = without_keys(globals, keys, (n - 1) as nat);
        let after = without_keys(globals, keys, n);
        assert forall|name: Seq<char>| #[trigger] after.dom().contains(name) <==> (
        globals.dom().contains(name) && forall|i: int|
            0 <= i < n ==> (#[trigger] keys[i]).name() != name) by {
            assert(after.dom().contains(name) <==> before.dom().contains(name) && keys[n - 1].name()
                != name);
        }
        assert forall|name: Seq<char>| #[trigger]
            after.dom().contains(name) implies after[name] == globals[name] by {
            assert(before.dom().contains(name));
        }
    }
}

/// A genesis holds a marker that names it, as its manifest does, and nothing
/// of how far one node has come; all other values, the time and the documents
/// are those of the checkpoint.
pub proof fn genesis_strips_node_local_progress(c: CheckpointView, name: Seq<char>)
    ensures
        forall|i: int|
            0 <= i < node_local_checkpoint_keys().len()
                ==> !genesis_checkpoint(c).globals.dom().contains(
                (#[trigger] node_local_checkpoint_keys()[i]).name(),
            ),
        genesis_checkpoint(c).globals.dom().contains(PersistenceGlobalKey::ClusterGenesis.name()),
        genesis_checkpoint(c).globals[PersistenceGlobalKey::ClusterGenesis.name()]
            == json::versioned_id(GENESIS_FORMAT_VERSION, canonical_payload(c).manifest.genesis_id),
        genesis_checkpoint(c).timestamp == c.timestamp,
        genesis_checkpoint(c).documents == c.documents,
        name != PersistenceGlobalKey::ClusterGenesis.name() && (forall|i: int|
            0 <= i < node_local_checkpoint_keys().len() ==> (
            #[trigger] node_local_checkpoint_keys()[i]).name() != name) ==> (
        genesis_checkpoint(c).globals.dom().contains(name) <==> c.globals.dom().contains(name)) && (
        c.globals.dom().contains(name) ==> genesis_checkpoint(c).globals[name]
            == c.globals[name]),
{
    lemma_names_differ();
    lemma_without_keys(
        c.globals,
        node_local_checkpoint_keys(),
        node_local_checkpoint_keys().len(),
    );
    let left = without_keys(
        c.globals,
        node_local_checkpoint_keys(),
        node_local_checkpoint_keys().len(),
    );
    assert(left.dom().contains(name) || !left.dom().contains(name));
    assert forall|i: int| 0 <= i < node_local_checkpoint_keys().len() implies
        !genesis_checkpoint(c).globals.dom().contains(
        (#[trigger] node_local_checkpoint_keys()[i]).name(),
    ) by {
        assert(!left.dom().contains(node_local_checkpoint_keys()[i].name()));
    }
}

/// The value says how far one node has come, or which genesis it has.
pub open spec fn is_progress(name: Seq<char>) -> bool {
    ||| name == PersistenceGlobalKey::ClusterGenesis.name()
    ||| exists|i: int|
        0 <= i < node_local_checkpoint_keys().len() && (
        #[trigger] node_local_checkpoint_keys()[i]).name() == name
}

/// The checkpoints agree in all but how far a node has come.
pub open spec fn differ_in_progress(a: CheckpointView, b: CheckpointView) -> bool {
    &&& a.timestamp == b.timestamp
    &&& a.documents == b.documents
    &&& forall|name: Seq<char>|
        !is_progress(name) ==> (#[trigger] a.globals.dom().contains(name)
            <==> b.globals.dom().contains(name))
    &&& forall|name: Seq<char>|
        !is_progress(name) && #[trigger] a.globals.dom().contains(name) ==> a.globals[name]
            == b.globals[name]
}

/// How far a node has come makes no difference: checkpoints that agree in all
/// else make the same genesis.
pub proof fn progress_does_not_change_the_genesis(a: CheckpointView, b: CheckpointView)
    requires
        differ_in_progress(a, b),
    ensures
        canonical_payload(a) == canonical_payload(b),
{
    let keys = node_local_checkpoint_keys();
    let marker = PersistenceGlobalKey::ClusterGenesis.name();
    lemma_without_keys(a.globals, keys, keys.len());
    lemma_without_keys(b.globals, keys, keys.len());
    let first = without_keys(a.globals, keys, keys.len()).remove(marker);
    let second = without_keys(b.globals, keys, keys.len()).remove(marker);
    assert forall|name: Seq<char>| first.dom().contains(name) <==> second.dom().contains(name) by {
        assert(without_keys(a.globals, keys, keys.len()).dom().contains(name)
            || !without_keys(a.globals, keys, keys.len()).dom().contains(name));
        assert(without_keys(b.globals, keys, keys.len()).dom().contains(name)
            || !without_keys(b.globals, keys, keys.len()).dom().contains(name));
        assert(a.globals.dom().contains(name) || !a.globals.dom().contains(name));
    }
    assert forall|name: Seq<char>| first.dom().contains(name) implies first[name]
        == second[name] by {
        assert(without_keys(a.globals, keys, keys.len()).dom().contains(name));
        assert(second.dom().contains(name));
        assert(without_keys(b.globals, keys, keys.len()).dom().contains(name));
        assert(a.globals.dom().contains(name));
    }
    assert(first =~= second);
    assert(stripped(a) =~= stripped(b));
}

/// A genesis made of a genesis is the same genesis.
pub proof fn genesis_of_a_genesis_is_itself(c: CheckpointView)
    ensures
        canonical_payload(genesis_checkpoint(c)) == canonical_payload(c),
{
    let again = genesis_checkpoint(c);
    let keys = node_local_checkpoint_keys();
    lemma_names_differ();
    lemma_without_keys(c.globals, keys, keys.len());
    lemma_without_keys(again.globals, keys, keys.len());
    let marker = PersistenceGlobalKey::ClusterGenesis.name();
    let first = without_keys(c.globals, keys, keys.len()).remove(marker);
    let second = without_keys(again.globals, keys, keys.len()).remove(marker);
    assert forall|name: Seq<char>| first.dom().contains(name) <==> second.dom().contains(name) by {
        assert(without_keys(c.globals, keys, keys.len()).dom().contains(name) ==> (forall|i: int|
            0 <= i < keys.len() ==> (#[trigger] keys[i]).name() != name));
        assert(without_keys(again.globals, keys, keys.len()).dom().contains(name) ==> again.globals.dom().contains(name));
    }
    assert forall|name: Seq<char>| first.dom().contains(name) implies first[name]
        == second[name] by {
        assert(without_keys(c.globals, keys, keys.len()).dom().contains(name));
        assert(without_keys(again.globals, keys, keys.len()).dom().contains(name));
    }
    assert(first =~= second);
    assert(stripped(again) =~= stripped(c));
}

/// A payload whose digest is not that of its manifest is refused, whatever it
/// holds.
pub proof fn corrupt_payload_fails_closed(m: ManifestView, altered: Seq<u8>)
    ensures
        raft_snapshot::digest_text(altered) != m.payload_sha256 ==> payload_result(
            m,
            altered,
        ) is Err,
        raft_snapshot::digest_text(altered) != m.payload_sha256 && manifest_error(m) is None
            ==> payload_result(m, altered) == Err::<CheckpointView, GenesisErrorView>(
            GenesisErrorView::DigestMismatch,
        ),
{
}

/// A marker is read where its version is the known one and it has an
/// identifier. It is malformed where a part is missing or the version is no
/// number of 32 bits.
pub proof fn markers_are_read_on_these_terms(version: Option<u64>, id: Option<Seq<char>>)
    ensures
        marker_from(version, id) is Ok <==> version == Some(1u64) && (id matches Some(id) && id.len()
            > 0),
        marker_from(version, id) matches Ok(marker) ==> marker.format_version == 1 && Some(
            marker.genesis_id,
        ) == id,
        marker_from(version, id) == Err::<MarkerView, GenesisErrorView>(
            GenesisErrorView::MalformedMarker,
        ) <==> version is None || id is None || version->Some_0 > u32::MAX,
        marker_from(version, id) == Err::<MarkerView, GenesisErrorView>(
            GenesisErrorView::EmptyMarkerId,
        ) <==> version == Some(1u64) && (id matches Some(id) && id.len() == 0),
        marker_from(version, id) matches Err(GenesisErrorView::UnsupportedMarker { version: told })
            ==> version == Some(told as u64) && told != 1,
{
}

/// The parts of a marker are the members of an object by their names, or the
/// elements of an array that has two and no more.
pub proof fn marker_parts_stand_in_objects_and_pairs(json: Seq<char>)
    ensures
        json::json_element(json, 0) is None ==> marker_parts(json).0 == json::json_member(
            json,
            "format_version"@,
        ) && marker_parts(json).1 == json::json_member(json, "genesis_id"@),
        json::json_element(json, 0) is Some && json::json_element(json, 2) is None ==> marker_parts(
            json,
        ).0 == json::json_element(json, 0) && marker_parts(json).1 == json::json_element(json, 1),
        json::json_element(json, 0) is Some && json::json_element(json, 2) is Some ==> marker_in(
            json,
        ) == Err::<MarkerView, GenesisErrorView>(GenesisErrorView::MalformedMarker),
{
}

/// A manifest can be used where its version is the known one and it names a
/// genesis and a digest. The first fault is named.
pub proof fn manifests_are_used_on_these_terms(m: ManifestView)
    ensures
        manifest_error(m) is None <==> m.format_version == 1 && m.genesis_id.len() > 0
            && m.payload_sha256.len() > 0,
        manifest_error(m) == Some(
            GenesisErrorView::UnsupportedManifest { version: m.format_version },
        ) <==> m.format_version != 1,
        manifest_error(m) == Some(GenesisErrorView::EmptyManifestId) <==> m.format_version == 1
            && m.genesis_id.len() == 0,
        manifest_error(m) == Some(GenesisErrorView::EmptyDigest) <==> m.format_version == 1
            && m.genesis_id.len() > 0 && m.payload_sha256.len() == 0,
{
}

/// A payload is accepted where its manifest can be used, its digest is the one
/// that the manifest names, its bytes hold a checkpoint, and the checkpoint has
/// a marker of the genesis that the manifest names. It gives that checkpoint.
pub proof fn payloads_are_accepted_on_these_terms(
    m: ManifestView,
    digest: Seq<char>,
    held: Result<CheckpointView, CheckpointError>,
    marker: Option<Result<MarkerView, GenesisErrorView>>,
)
    ensures
        accepted_payload(m, digest, held, marker) is Ok <==> {
            &&& m.format_version == 1
            &&& m.genesis_id.len() > 0
            &&& m.payload_sha256.len() > 0
            &&& digest == m.payload_sha256
            &&& held is Ok
            &&& marker matches Some(Ok(found))
            &&& found.genesis_id == m.genesis_id
        },
        accepted_payload(m, digest, held, marker) matches Ok(checkpoint) ==> held == Ok::<
            CheckpointView,
            CheckpointError,
        >(checkpoint),
{
}

/// A payload that is refused is refused for the first of the terms that it
/// breaks.
pub proof fn payloads_are_refused_for_cause(
    m: ManifestView,
    digest: Seq<char>,
    held: Result<CheckpointView, CheckpointError>,
    marker: Option<Result<MarkerView, GenesisErrorView>>,
)
    requires
        m.format_version == 1,
        m.genesis_id.len() > 0,
        m.payload_sha256.len() > 0,
    ensures
        ({
            let r = accepted_payload(m, digest, held, marker);
            let whole = digest == m.payload_sha256;
            &&& !whole ==> r == Err::<CheckpointView, GenesisErrorView>(
                GenesisErrorView::DigestMismatch,
            )
            &&& whole && held is Err ==> r == Err::<CheckpointView, GenesisErrorView>(
                GenesisErrorView::UndecodableCheckpoint(held->Err_0),
            )
            &&& whole && held is Ok && marker is None ==> r == Err::<
                CheckpointView,
                GenesisErrorView,
            >(GenesisErrorView::MissingMarker)
            &&& whole && held is Ok ==> (marker matches Some(Err(error)) ==> r == Err::<
                CheckpointView,
                GenesisErrorView,
            >(error))
            &&& whole && held is Ok ==> (marker matches Some(Ok(found)) ==> found.genesis_id
                != m.genesis_id ==> r == Err::<CheckpointView, GenesisErrorView>(
                GenesisErrorView::IdMismatch {
                    checkpoint: found.genesis_id,
                    manifest: m.genesis_id,
                },
            ))
        }),
{
}

/// The marker of a checkpoint is the value under the name of the genesis.
pub proof fn checkpoints_are_marked_under_one_name(c: CheckpointView, value: Seq<char>)
    ensures
        marker_of(Ok(CheckpointView { globals: c.globals.insert("cluster_genesis"@, value), ..c }))
            == Some(marker_in(value)),
        marker_of(Ok(CheckpointView { globals: c.globals.remove("cluster_genesis"@), ..c })) is None,
{
}

/// What is of one node alone are its five marks of progress.
pub proof fn five_values_are_of_one_node_alone(key: PersistenceGlobalKey)
    ensures
        node_local_checkpoint_keys().contains(key) <==> key is ReplicationFrontiers || key
            is AppliedDeltaWatermarks || key is AppliedDataDeltaWatermarks || key
            is AppliedDataDeltaIds || key is ClusterGenesisRaftApplied,
{
    let list = node_local_checkpoint_keys();
    assert(list[0] is ReplicationFrontiers && list[1] is AppliedDeltaWatermarks && list[2]
        is AppliedDataDeltaWatermarks && list[3] is AppliedDataDeltaIds && list[4]
        is ClusterGenesisRaftApplied);
}

/// A genesis is named by the digest of the checkpoint without its progress and
/// its marker, and its payload is known by the digest of its bytes.
pub proof fn geneses_are_named_by_their_digest(c: CheckpointView)
    ensures
        ({
            let payload = canonical_payload(c);
            let stored = snapshot_checkpointer::stored_bytes(stripped(c));
            &&& payload.manifest.format_version == 1
            &&& payload.manifest.genesis_id == digest::hex_text(digest::sha256(stored))
            &&& payload.manifest.payload_sha256 == digest::hex_text(
                digest::sha256(payload.checkpoint_bytes),
            )
            &&& payload.checkpoint_bytes == snapshot_checkpointer::stored_bytes(
                CheckpointView {
                    globals: stripped(c).globals.insert(
                        "cluster_genesis"@,
                        json::versioned_id(1, payload.manifest.genesis_id),
                    ),
                    ..stripped(c)
                },
            )
        }),
{
}

/// Where the store holds nothing, a manifest is published and a partition is
/// marked. A manifest that was there before a race is missed after it. A
/// refusal names both sides.
pub proof fn conflicts_name_both_sides(
    existing: ManifestView,
    offered: ManifestView,
    partition: PartitionId,
)
    ensures
        publication(None, offered) == Ok::<bool, GenesisErrorView>(true),
        readiness(partition, None, offered) == Ok::<bool, GenesisErrorView>(true),
        lost_publication(None, offered) == Some(GenesisErrorView::ManifestDisappeared),
        lost_readiness(None, offered) == Some(GenesisErrorView::ReadinessDisappeared),
        existing != offered ==> {
            &&& publication(Some(existing), offered) == Err::<bool, GenesisErrorView>(
                GenesisErrorView::ConflictingGenesis {
                    existing: existing.genesis_id,
                    offered: offered.genesis_id,
                },
            )
            &&& lost_publication(Some(existing), offered) == Some(
                GenesisErrorView::ConcurrentGenesis {
                    existing: existing.genesis_id,
                    offered: offered.genesis_id,
                },
            )
            &&& readiness(partition, Some(existing), offered) == Err::<bool, GenesisErrorView>(
                GenesisErrorView::ConflictingPartition {
                    partition: partition.0,
                    existing: existing.genesis_id,
                },
            )
            &&& lost_readiness(Some(existing), offered) == Some(GenesisErrorView::ReadinessRace)
        },
{
}

/// The marks of the partitions are read from the first on, as long as they are
/// of this genesis. With all of them the cluster is ready; a mark that is
/// missing says that it is not, and one of another genesis is an error.
pub proof fn marks_are_read_until_the_answer_is_known(
    num_partitions: u32,
    marks: Seq<Option<ManifestView>>,
    m: ManifestView,
    agreeing: nat,
)
    requires
        agreeing <= marks.len(),
        forall|i: int| 0 <= i < agreeing ==> #[trigger] marks[i] == Some(m),
        agreeing < marks.len() ==> marks[agreeing as int] != Some(m),
    ensures
        ({
            let r = cluster_readiness(num_partitions, marks, m, marks.len());
            &&& r == Ok::<ClusterReadiness, GenesisErrorView>(ClusterReadiness::Ready)
                <==> num_partitions <= agreeing
            &&& agreeing < num_partitions && agreeing == marks.len() ==> r == Ok::<
                ClusterReadiness,
                GenesisErrorView,
            >(ClusterReadiness::Read { partition: agreeing as u32 })
            &&& agreeing < num_partitions && agreeing < marks.len() ==> r == (match marks[agreeing as int] {
                None => Ok(ClusterReadiness::NotReady),
                Some(other) => Err(
                    GenesisErrorView::ReadyOnConflictingGenesis {
                        partition: agreeing as u32,
                        existing: other.genesis_id,
                    },
                ),
            })
        }),
{
    lemma_agreeing_marks(num_partitions, marks, m, agreeing);
    if num_partitions <= agreeing {
        lemma_answers_stay(num_partitions, marks, m, agreeing, marks.len());
    } else if agreeing < marks.len() {
        lemma_answers_stay(num_partitions, marks, m, agreeing + 1, marks.len());
    }
}

proof fn lemma_agreeing_marks(
    num_partitions: u32,
    marks: Seq<Option<ManifestView>>,
    m: ManifestView,
    n: nat,
)
    requires
        n <= marks.len(),
        forall|i: int| 0 <= i < n ==> #[trigger] marks[i] == Some(m),
    ensures
        cluster_readiness(num_partitions, marks, m, n) == Ok::<ClusterReadiness, GenesisErrorView>(
            if num_partitions <= n {
                ClusterReadiness::Ready
            } else {
                ClusterReadiness::Read { partition: n as u32 }
            },
        ),
    decreases n,
{
    if n > 0 {
        lemma_agreeing_marks(num_partitions, marks, m, (n - 1) as nat);
        assert(marks[n - 1] == Some(m));
    }
}

proof fn lemma_answers_stay(
    num_partitions: u32,
    marks: Seq<Option<ManifestView>>,
    m: ManifestView,
    k: nat,
    n: nat,
)
    requires
        k <= n,
        !(cluster_readiness(num_partitions, marks, m, k) matches Ok(ClusterReadiness::Read { .. })),
    ensures
        cluster_readiness(num_partitions, marks, m, n) == cluster_readiness(
            num_partitions,
            marks,
            m,
            k,
        ),
    decreases n,
{
    if k < n {
        lemma_answers_stay(num_partitions, marks, m, k, (n - 1) as nat);
    }
}

/// A conflict tells the genesis that is there before the one that was offered.
pub proof fn conflicts_tell_the_existing_genesis_first(
    existing: Seq<char>,
    offered: Seq<char>,
    partition: u32,
)
    ensures
        (GenesisErrorView::ConflictingGenesis { existing, offered }).text()
            == "Cluster already has genesis "@ + existing + ", refusing conflicting genesis "@
            + offered,
        (GenesisErrorView::ConcurrentGenesis { existing, offered }).text()
            == "Concurrent cluster genesis "@ + existing + " conflicts with "@ + offered,
        (GenesisErrorView::IdMismatch { checkpoint: existing, manifest: offered }).text()
            == "Cluster genesis checkpoint ID "@ + existing + " does not match manifest "@
            + offered,
        (GenesisErrorView::ConflictingPartition { partition, existing }).text()
            == "Partition partition-"@ + text::decimal(partition as nat)
            + " reports conflicting cluster genesis "@ + existing,
        (GenesisErrorView::ReadyOnConflictingGenesis { partition, existing }).text()
            == "Partition "@ + text::decimal(partition as nat) + " is ready on conflicting genesis "@
            + existing,
{
}

} // verus!
