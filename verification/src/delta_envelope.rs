//! The versioned envelope in which a commit travels over the distributed log
//! and through Raft.

use vstd::prelude::*;

use crate::commit_delta;
use crate::commit_delta::{
    CommitDelta,
    DeltaTableIdentity,
    DeltaView,
    DocumentUpdate,
    NamespaceView,
    OriginView,
    PublicDocumentId,
    RaftNatsOutboxOrigin,
    TableIdentityView,
    TableNamespace,
    TabletId,
    Timestamp,
    UpdateView,
};
use crate::digest;
use crate::ordered;
use crate::ordered::SortedMap;
use crate::partition;
use crate::partition::{PartitionId, TableName, WriteSource};
use crate::text;

verus! {

/// The version of the envelope that this node writes and reads.
pub const DELTA_ENVELOPE_SCHEMA_VERSION: u32 = 2;

/// A namespace as it is written in an envelope.
#[derive(Clone, Debug, PartialEq, Eq)]
pub enum SerializedDeltaTableNamespace {
    Global,
    ByComponent { component_id: String },
}

impl View for SerializedDeltaTableNamespace {
    type V = NamespaceView;

    open spec fn view(&self) -> NamespaceView {
        match self {
            SerializedDeltaTableNamespace::Global => NamespaceView::Global,
            SerializedDeltaTableNamespace::ByComponent { component_id } => {
                NamespaceView::ByComponent { component_id: component_id@ }
            },
        }
    }
}

impl SerializedDeltaTableNamespace {
    /// The written form of a namespace.
    pub fn of(namespace: &TableNamespace) -> (r: Self)
        ensures
            r@ == namespace@,
    {
        match namespace {
            TableNamespace::Global => SerializedDeltaTableNamespace::Global,
            TableNamespace::ByComponent(id) => SerializedDeltaTableNamespace::ByComponent {
                component_id: id.text.clone(),
            },
        }
    }
}

/// The identity of a tablet as it is written in an envelope.
#[derive(Clone, Debug, PartialEq, Eq)]
pub struct SerializedDeltaTabletIdentity {
    /// The bytes of the tablet's identifier, in hexadecimal.
    pub tablet_id: String,
    pub namespace: SerializedDeltaTableNamespace,
    pub table_name: String,
}

/// What a [`SerializedDeltaTabletIdentity`] states.
pub struct MappingView {
    pub tablet_id: Seq<char>,
    pub namespace: NamespaceView,
    pub table_name: Seq<char>,
}

impl View for SerializedDeltaTabletIdentity {
    type V = MappingView;

    open spec fn view(&self) -> MappingView {
        MappingView {
            tablet_id: self.tablet_id@,
            namespace: self.namespace@,
            table_name: self.table_name@,
        }
    }
}

/// A commit in the form in which it travels.
#[derive(Clone, Debug)]
pub struct DeltaEnvelope {
    pub schema_version: u32,
    pub ts: u64,
    pub write_source: Option<String>,
    pub write_bytes: u64,
    /// The encoded document updates.
    pub document_updates_proto: Vec<Vec<u8>>,
    /// The stable identity of every tablet that is referred to. The namespace
    /// is mandatory, so that component system tables of one name stay apart.
    pub tablet_mapping: Vec<SerializedDeltaTabletIdentity>,
    /// The name of the node that published the commit. Consumers skip what
    /// their own node published.
    pub source_node: String,
    /// The Raft member that proposed the commit, where Raft replicates it.
    pub source_raft_node_id: Option<u64>,
    /// The partition that committed.
    pub source_partition: Option<u32>,
}

/// What a [`DeltaEnvelope`] states.
#[verifier::ext_equal]
pub struct EnvelopeView {
    pub schema_version: u32,
    pub ts: u64,
    pub write_source: Option<Seq<char>>,
    pub write_bytes: u64,
    pub document_updates_proto: Seq<Seq<u8>>,
    pub tablet_mapping: Seq<MappingView>,
    pub source_node: Seq<char>,
    pub source_raft_node_id: Option<u64>,
    pub source_partition: Option<u32>,
}

/// The views of tablet identities.
pub open spec fn mappings_view(
    mappings: Seq<SerializedDeltaTabletIdentity>,
) -> Seq<MappingView> {
    Seq::new(mappings.len(), |i: int| mappings[i]@)
}

impl View for DeltaEnvelope {
    type V = EnvelopeView;

    open spec fn view(&self) -> EnvelopeView {
        EnvelopeView {
            schema_version: self.schema_version,
            ts: self.ts,
            write_source: text::optional(self.write_source),
            write_bytes: self.write_bytes,
            document_updates_proto: commit_delta::byte_strings(self.document_updates_proto@),
            tablet_mapping: mappings_view(self.tablet_mapping@),
            source_node: self.source_node@,
            source_raft_node_id: self.source_raft_node_id,
            source_partition: self.source_partition,
        }
    }
}

/// What went wrong with an envelope.
#[derive(Clone, Copy, Debug, PartialEq, Eq, Structural)]
pub enum EnvelopeErrorKind {
    MissingTabletIdentity,
    NoDeltaPartition,
    NoDeltaSource,
    EmptyOriginNode,
    OriginPartitionMismatch,
    MissingOriginRaftNode,
    MissingOriginPartition,
    UnsupportedVersion,
    NullDataPartition,
    EmptyDataNode,
    NullDataRaftNode,
    UndecodableUpdate,
    InvalidTabletHex,
    TabletIdLength,
    UnreadableComponent,
    InvalidTableName,
    DuplicateTablet,
    TimestampOutOfRange,
}

/// An error of an envelope: what went wrong, and with what.
#[derive(Clone, Debug, PartialEq, Eq)]
pub struct EnvelopeError {
    pub kind: EnvelopeErrorKind,
    pub detail: String,
}

/// What an [`EnvelopeError`] states.
#[verifier::ext_equal]
pub struct EnvelopeErrorView {
    pub kind: EnvelopeErrorKind,
    pub detail: Seq<char>,
}

impl View for EnvelopeError {
    type V = EnvelopeErrorView;

    open spec fn view(&self) -> EnvelopeErrorView {
        EnvelopeErrorView { kind: self.kind, detail: self.detail@ }
    }
}

impl EnvelopeErrorKind {
    /// What the text of the error begins with.
    pub open spec fn text(self) -> Seq<char> {
        match self {
            EnvelopeErrorKind::MissingTabletIdentity => {
                "Delta is missing stable tablet identity for "@
            },
            EnvelopeErrorKind::NoDeltaPartition => "data delta must include a source partition"@,
            EnvelopeErrorKind::NoDeltaSource => {
                "data delta must include a NATS source node or Raft source node ID"@
            },
            EnvelopeErrorKind::EmptyOriginNode => {
                "Raft->NATS outbox origin requires a non-empty logical source node"@
            },
            EnvelopeErrorKind::OriginPartitionMismatch => "Raft->NATS outbox origin partition "@,
            EnvelopeErrorKind::MissingOriginRaftNode => {
                "Raft->NATS outbox envelope is missing source_raft_node_id"@
            },
            EnvelopeErrorKind::MissingOriginPartition => {
                "Raft->NATS outbox envelope is missing source_partition"@
            },
            EnvelopeErrorKind::UnsupportedVersion => "Unsupported delta envelope schema version "@,
            EnvelopeErrorKind::NullDataPartition => {
                "data delta must include a non-null source_partition"@
            },
            EnvelopeErrorKind::EmptyDataNode => {
                "data delta must include a non-empty source_node for NATS self-filtering"@
            },
            EnvelopeErrorKind::NullDataRaftNode => {
                "data delta must include a non-null source_raft_node_id in a Raft entry"@
            },
            EnvelopeErrorKind::UndecodableUpdate => ""@,
            EnvelopeErrorKind::InvalidTabletHex => "Invalid delta TabletId hex "@,
            EnvelopeErrorKind::TabletIdLength => "Delta TabletId must contain exactly 16 bytes"@,
            EnvelopeErrorKind::UnreadableComponent => ""@,
            EnvelopeErrorKind::InvalidTableName => "Invalid table name "@,
            EnvelopeErrorKind::DuplicateTablet => {
                "Delta contains duplicate tablet identity for "@
            },
            EnvelopeErrorKind::TimestampOutOfRange => "Timestamp out of range "@,
        }
    }

    /// What the text of the error begins with.
    pub fn message(&self) -> (r: String)
        ensures
            r@ == self.text(),
    {
        match self {
            EnvelopeErrorKind::MissingTabletIdentity => {
                "Delta is missing stable tablet identity for "
            },
            EnvelopeErrorKind::NoDeltaPartition => "data delta must include a source partition",
            EnvelopeErrorKind::NoDeltaSource => {
                "data delta must include a NATS source node or Raft source node ID"
            },
            EnvelopeErrorKind::EmptyOriginNode => {
                "Raft->NATS outbox origin requires a non-empty logical source node"
            },
            EnvelopeErrorKind::OriginPartitionMismatch => "Raft->NATS outbox origin partition ",
            EnvelopeErrorKind::MissingOriginRaftNode => {
                "Raft->NATS outbox envelope is missing source_raft_node_id"
            },
            EnvelopeErrorKind::MissingOriginPartition => {
                "Raft->NATS outbox envelope is missing source_partition"
            },
            EnvelopeErrorKind::UnsupportedVersion => "Unsupported delta envelope schema version ",
            EnvelopeErrorKind::NullDataPartition => {
                "data delta must include a non-null source_partition"
            },
            EnvelopeErrorKind::EmptyDataNode => {
                "data delta must include a non-empty source_node for NATS self-filtering"
            },
            EnvelopeErrorKind::NullDataRaftNode => {
                "data delta must include a non-null source_raft_node_id in a Raft entry"
            },
            EnvelopeErrorKind::UndecodableUpdate => "",
            EnvelopeErrorKind::InvalidTabletHex => "Invalid delta TabletId hex ",
            EnvelopeErrorKind::TabletIdLength => "Delta TabletId must contain exactly 16 bytes",
            EnvelopeErrorKind::UnreadableComponent => "",
            EnvelopeErrorKind::InvalidTableName => "Invalid table name ",
            EnvelopeErrorKind::DuplicateTablet => "Delta contains duplicate tablet identity for ",
            EnvelopeErrorKind::TimestampOutOfRange => "Timestamp out of range ",
        }.to_owned()
    }
}

impl EnvelopeErrorView {
    /// The text of the error.
    pub open spec fn text(self) -> Seq<char> {
        self.kind.text() + self.detail
    }
}

impl EnvelopeError {
    /// The text of the error.
    pub fn message(&self) -> (r: String)
        ensures
            r@ == self@.text(),
    {
        let mut s = self.kind.message();
        s.append(self.detail.as_str());
        s
    }

    fn plain(kind: EnvelopeErrorKind) -> (r: Self)
        ensures
            r@ == plain(kind),
    {
        let r = EnvelopeError { kind, detail: String::new() };
        assert(r@ =~= plain(kind));
        r
    }

    fn with(kind: EnvelopeErrorKind, detail: String) -> (r: Self)
        ensures
            r@ == (EnvelopeErrorView { kind, detail: detail@ }),
    {
        EnvelopeError { kind, detail }
    }
}

/// The error without any detail.
pub open spec fn plain(kind: EnvelopeErrorKind) -> EnvelopeErrorView {
    EnvelopeErrorView { kind, detail: Seq::empty() }
}

/// The first tablet among the first `n` updates that has no identity.
pub open spec fn unidentified(
    updates: Seq<UpdateView>,
    identities: Map<Seq<u8>, TableIdentityView>,
    n: nat,
) -> Option<Seq<u8>>
    decreases n,
{
    if n == 0 {
        None
    } else {
        match unidentified(updates, identities, (n - 1) as nat) {
            Some(tablet) => Some(tablet),
            None => if identities.dom().contains(updates[n - 1].tablet_id) {
                None
            } else {
                Some(updates[n - 1].tablet_id)
            },
        }
    }
}

/// The error for a tablet without an identity.
pub open spec fn missing_identity(tablet: Seq<u8>) -> EnvelopeErrorView {
    EnvelopeErrorView {
        kind: EnvelopeErrorKind::MissingTabletIdentity,
        detail: digest::hex_text(tablet),
    }
}

/// Why the commit cannot travel from this source.
pub open spec fn delta_error(
    delta: DeltaView,
    source_node: Seq<char>,
    source_raft_node_id: Option<u64>,
) -> Option<EnvelopeErrorView> {
    match unidentified(delta.document_updates, delta.identities, delta.document_updates.len()) {
        Some(tablet) => Some(missing_identity(tablet)),
        None => if delta.document_updates.len() == 0 {
            None
        } else if delta.source_partition is None {
            Some(plain(EnvelopeErrorKind::NoDeltaPartition))
        } else if source_node.len() == 0 && source_raft_node_id is None {
            Some(plain(EnvelopeErrorKind::NoDeltaSource))
        } else {
            None
        },
    }
}

/// The written form of an identity.
pub open spec fn mapping_of(tablet: Seq<u8>, identity: TableIdentityView) -> MappingView {
    MappingView {
        tablet_id: digest::hex_text(tablet),
        namespace: identity.namespace,
        table_name: identity.table_name,
    }
}

/// The envelope of a commit whose identified tablets are listed in `tablets`.
pub open spec fn envelope_of(
    delta: DeltaView,
    tablets: Seq<Seq<u8>>,
    source_node: Seq<char>,
    source_raft_node_id: Option<u64>,
) -> EnvelopeView {
    EnvelopeView {
        schema_version: DELTA_ENVELOPE_SCHEMA_VERSION,
        ts: delta.ts,
        write_source: delta.write_source,
        write_bytes: delta.write_bytes,
        document_updates_proto: Seq::new(
            delta.document_updates.len(),
            |i: int| delta.document_updates[i].encoded,
        ),
        tablet_mapping: Seq::new(
            tablets.len(),
            |i: int| mapping_of(tablets[i], delta.identities[tablets[i]]),
        ),
        source_node,
        source_raft_node_id,
        source_partition: match delta.source_partition {
            Some(partition) => Some(partition.0),
            None => None,
        },
    }
}

/// The printed form of a partition that may be missing.
pub open spec fn printed_option(partition: Option<PartitionId>) -> Seq<char> {
    match partition {
        Some(partition) => "Some("@ + text::decimal(partition.0 as nat) + ")"@,
        None => "None"@,
    }
}

/// Why the commit cannot be handed from Raft to the log under this origin.
pub open spec fn outbox_error(delta: DeltaView, origin: OriginView) -> Option<EnvelopeErrorView> {
    if origin.source_node.len() == 0 {
        Some(plain(EnvelopeErrorKind::EmptyOriginNode))
    } else if delta.source_partition != Some(origin.source_partition) {
        Some(
            EnvelopeErrorView {
                kind: EnvelopeErrorKind::OriginPartitionMismatch,
                detail: text::decimal(origin.source_partition.0 as nat)
                    + " does not match delta partition "@ + printed_option(delta.source_partition),
            },
        )
    } else {
        delta_error(delta, origin.source_node, Some(origin.source_raft_node_id))
    }
}

/// What the document codec and the identifier codec make of an envelope's
/// opaque parts: the tablet of each encoded update, and the component of each
/// listed tablet. For a tablet in the global namespace the component does not
/// matter.
#[derive(Clone, Debug)]
pub struct PayloadReadings {
    pub update_tablets: Vec<Result<TabletId, String>>,
    pub component_ids: Vec<Result<PublicDocumentId, String>>,
}

/// What [`PayloadReadings`] state.
pub struct ReadingsView {
    pub update_tablets: Seq<Result<Seq<u8>, Seq<char>>>,
    pub component_ids: Seq<Result<Seq<char>, Seq<char>>>,
}

/// The view of one reading of an update.
pub open spec fn tablet_reading(reading: Result<TabletId, String>) -> Result<Seq<u8>, Seq<char>> {
    match reading {
        Ok(tablet) => Ok(tablet@),
        Err(error) => Err(error@),
    }
}

/// The view of one reading of a component.
pub open spec fn component_reading(
    reading: Result<PublicDocumentId, String>,
) -> Result<Seq<char>, Seq<char>> {
    match reading {
        Ok(id) => Ok(id.text@),
        Err(error) => Err(error@),
    }
}

impl View for PayloadReadings {
    type V = ReadingsView;

    open spec fn view(&self) -> ReadingsView {
        ReadingsView {
            update_tablets: Seq::new(
                self.update_tablets@.len(),
                |i: int| tablet_reading(self.update_tablets@[i]),
            ),
            component_ids: Seq::new(
                self.component_ids@.len(),
                |i: int| component_reading(self.component_ids@[i]),
            ),
        }
    }
}

impl ReadingsView {
    /// There is a reading of each part of the envelope.
    pub open spec fn cover(self, envelope: EnvelopeView) -> bool {
        &&& self.update_tablets.len() == envelope.document_updates_proto.len()
        &&& self.component_ids.len() == envelope.tablet_mapping.len()
    }
}

/// The error of the first of the `n` readings that is one.
pub open spec fn first_unreadable(
    readings: Seq<Result<Seq<u8>, Seq<char>>>,
    n: nat,
) -> Option<Seq<char>>
    decreases n,
{
    if n == 0 {
        None
    } else {
        match first_unreadable(readings, (n - 1) as nat) {
            Some(error) => Some(error),
            None => match readings[n - 1] {
                Ok(_) => None,
                Err(error) => Some(error),
            },
        }
    }
}

/// What a listed tablet says: its identifier and its identity.
pub open spec fn read_mapping(
    mapping: MappingView,
    component: Result<Seq<char>, Seq<char>>,
) -> Result<(Seq<u8>, TableIdentityView), EnvelopeErrorView> {
    if !digest::is_hex(mapping.tablet_id) {
        Err(
            EnvelopeErrorView {
                kind: EnvelopeErrorKind::InvalidTabletHex,
                detail: mapping.tablet_id,
            },
        )
    } else if digest::hex_bytes(mapping.tablet_id).len() != 16 {
        Err(plain(EnvelopeErrorKind::TabletIdLength))
    } else if mapping.namespace is ByComponent && component is Err {
        Err(
            EnvelopeErrorView {
                kind: EnvelopeErrorKind::UnreadableComponent,
                detail: component->Err_0,
            },
        )
    } else if !partition::is_table_name(mapping.table_name) {
        Err(
            EnvelopeErrorView {
                kind: EnvelopeErrorKind::InvalidTableName,
                detail: mapping.table_name,
            },
        )
    } else {
        Ok(
            (
                digest::hex_bytes(mapping.tablet_id),
                TableIdentityView {
                    namespace: match mapping.namespace {
                        NamespaceView::Global => NamespaceView::Global,
                        NamespaceView::ByComponent { component_id } => NamespaceView::ByComponent {
                            component_id: component->Ok_0,
                        },
                    },
                    table_name: mapping.table_name,
                },
            ),
        )
    }
}

/// The identities that the first `n` listed tablets say.
pub open spec fn read_mappings(
    mappings: Seq<MappingView>,
    components: Seq<Result<Seq<char>, Seq<char>>>,
    n: nat,
) -> Result<Map<Seq<u8>, TableIdentityView>, EnvelopeErrorView>
    decreases n,
{
    if n == 0 {
        Ok(Map::empty())
    } else {
        match read_mappings(mappings, components, (n - 1) as nat) {
            Err(error) => Err(error),
            Ok(identities) => match read_mapping(mappings[n - 1], components[n - 1]) {
                Err(error) => Err(error),
                Ok((tablet, identity)) => if identities.dom().contains(tablet) {
                    Err(
                        EnvelopeErrorView {
                            kind: EnvelopeErrorKind::DuplicateTablet,
                            detail: digest::hex_text(tablet),
                        },
                    )
                } else {
                    Ok(identities.insert(tablet, identity))
                },
            },
        }
    }
}

/// The updates of an envelope whose readings are the given ones.
pub open spec fn read_updates(
    encoded: Seq<Seq<u8>>,
    readings: Seq<Result<Seq<u8>, Seq<char>>>,
) -> Seq<UpdateView> {
    Seq::new(
        encoded.len(),
        |i: int| UpdateView { tablet_id: readings[i]->Ok_0, encoded: encoded[i] },
    )
}

/// The commit that an envelope carries.
pub open spec fn decoded(
    envelope: EnvelopeView,
    readings: ReadingsView,
) -> Result<DeltaView, EnvelopeErrorView> {
    if envelope.schema_version != DELTA_ENVELOPE_SCHEMA_VERSION {
        Err(
            EnvelopeErrorView {
                kind: EnvelopeErrorKind::UnsupportedVersion,
                detail: text::decimal(envelope.schema_version as nat) + "; expected 2"@,
            },
        )
    } else if envelope.partition_error() is Some {
        Err(envelope.partition_error()->Some_0)
    } else if first_unreadable(
        readings.update_tablets,
        envelope.document_updates_proto.len(),
    ) is Some {
        Err(
            EnvelopeErrorView {
                kind: EnvelopeErrorKind::UndecodableUpdate,
                detail: first_unreadable(
                    readings.update_tablets,
                    envelope.document_updates_proto.len(),
                )->Some_0,
            },
        )
    } else {
        let updates = read_updates(envelope.document_updates_proto, readings.update_tablets);
        match read_mappings(
            envelope.tablet_mapping,
            readings.component_ids,
            envelope.tablet_mapping.len(),
        ) {
            Err(error) => Err(error),
            Ok(identities) => match unidentified(updates, identities, updates.len()) {
                Some(tablet) => Err(missing_identity(tablet)),
                None => if !commit_delta::is_timestamp(envelope.ts) {
                    Err(
                        EnvelopeErrorView {
                            kind: EnvelopeErrorKind::TimestampOutOfRange,
                            detail: text::decimal(envelope.ts as nat),
                        },
                    )
                } else {
                    Ok(
                        DeltaView {
                            ts: envelope.ts,
                            document_writes: Seq::empty(),
                            document_updates: updates,
                            index_writes: Seq::empty(),
                            write_source: envelope.write_source,
                            write_bytes: envelope.write_bytes,
                            identities,
                            source_partition: match envelope.source_partition {
                                Some(partition) => Some(PartitionId(partition)),
                                None => None,
                            },
                        },
                    )
                },
            },
        }
    }
}

impl EnvelopeView {
    /// The envelope carries document updates.
    pub open spec fn contains_data(self) -> bool {
        self.document_updates_proto.len() > 0
    }

    /// Data comes from a known partition.
    pub open spec fn partition_error(self) -> Option<EnvelopeErrorView> {
        if self.contains_data() && self.source_partition is None {
            Some(plain(EnvelopeErrorKind::NullDataPartition))
        } else {
            None
        }
    }

    /// Data on the log comes from a known partition and a named node.
    pub open spec fn nats_error(self) -> Option<EnvelopeErrorView> {
        if self.partition_error() is Some {
            self.partition_error()
        } else if self.contains_data() && self.source_node.len() == 0 {
            Some(plain(EnvelopeErrorKind::EmptyDataNode))
        } else {
            None
        }
    }

    /// Data in a Raft entry comes from a known partition and member.
    pub open spec fn raft_error(self) -> Option<EnvelopeErrorView> {
        if self.partition_error() is Some {
            self.partition_error()
        } else if self.contains_data() && self.source_raft_node_id is None {
            Some(plain(EnvelopeErrorKind::NullDataRaftNode))
        } else {
            None
        }
    }

    /// The origin that a commit handed from Raft to the log carries.
    pub open spec fn outbox_origin(self) -> Result<OriginView, EnvelopeErrorView> {
        if self.source_raft_node_id is None {
            Err(plain(EnvelopeErrorKind::MissingOriginRaftNode))
        } else if self.source_partition is None {
            Err(plain(EnvelopeErrorKind::MissingOriginPartition))
        } else if self.source_node.len() == 0 {
            Err(plain(EnvelopeErrorKind::EmptyOriginNode))
        } else {
            Ok(
                OriginView {
                    source_node: self.source_node,
                    source_raft_node_id: self.source_raft_node_id->Some_0,
                    source_partition: PartitionId(self.source_partition->Some_0),
                },
            )
        }
    }
}

/// The first tablet among the updates that has no identity.
fn find_unidentified(
    updates: &Vec<DocumentUpdate>,
    identities: &SortedMap<TabletId, DeltaTableIdentity>,
) -> (r: Option<TabletId>)
    requires
        identities.wf(),
    ensures
        match r {
            Some(tablet) => unidentified(
                commit_delta::updates_view(updates@),
                commit_delta::identities_view(identities@),
                updates@.len(),
            ) == Some(tablet@),
            None => unidentified(
                commit_delta::updates_view(updates@),
                commit_delta::identities_view(identities@),
                updates@.len(),
            ) is None,
        },
{
    let ghost seen = commit_delta::updates_view(updates@);
    let ghost known = commit_delta::identities_view(identities@);
    let mut i: usize = 0;
    while i < updates.len()
        invariant
            identities.wf(),
            seen == commit_delta::updates_view(updates@),
            known == commit_delta::identities_view(identities@),
            i <= updates@.len(),
            unidentified(seen, known, i as nat) is None,
        decreases updates@.len() - i,
    {
        assert(seen[i as int].tablet_id == updates@[i as int].tablet_id@);
        if !identities.contains_key(&updates[i].tablet_id) {
            let tablet = updates[i].tablet_id;
            proof {
                assert(unidentified(seen, known, (i + 1) as nat) == Some(tablet@));
                lemma_unidentified_stays(seen, known, (i + 1) as nat, updates@.len());
            }
            return Some(tablet);
        }
        assert(unidentified(seen, known, (i + 1) as nat) is None);
        i = i + 1;
    }
    None
}

proof fn lemma_unidentified_stays(
    updates: Seq<UpdateView>,
    identities: Map<Seq<u8>, TableIdentityView>,
    n: nat,
    m: nat,
)
    requires
        n <= m,
        unidentified(updates, identities, n) is Some,
    ensures
        unidentified(updates, identities, m) == unidentified(updates, identities, n),
    decreases m - n,
{
    if n < m {
        lemma_unidentified_stays(updates, identities, n, (m - 1) as nat);
    }
}

proof fn lemma_unreadable_stays(readings: Seq<Result<Seq<u8>, Seq<char>>>, n: nat, m: nat)
    requires
        n <= m,
        first_unreadable(readings, n) is Some,
    ensures
        first_unreadable(readings, m) == first_unreadable(readings, n),
    decreases m - n,
{
    if n < m {
        lemma_unreadable_stays(readings, n, (m - 1) as nat);
    }
}

proof fn lemma_mapping_error_stays(
    mappings: Seq<MappingView>,
    components: Seq<Result<Seq<char>, Seq<char>>>,
    n: nat,
    m: nat,
)
    requires
        n <= m,
        read_mappings(mappings, components, n) is Err,
    ensures
        read_mappings(mappings, components, m) == read_mappings(mappings, components, n),
    decreases m - n,
{
    if n < m {
        lemma_mapping_error_stays(mappings, components, n, (m - 1) as nat);
    }
}

/// Reads one listed tablet.
fn read_listed_tablet(
    mapping: &SerializedDeltaTabletIdentity,
    component: &Result<PublicDocumentId, String>,
) -> (r: Result<(TabletId, DeltaTableIdentity), EnvelopeError>)
    ensures
        match r {
            Ok((tablet, identity)) => read_mapping(mapping@, component_reading(*component)) == Ok::<
                (Seq<u8>, TableIdentityView),
                EnvelopeErrorView,
            >((tablet@, identity@)),
            Err(error) => read_mapping(mapping@, component_reading(*component)) == Err::<
                (Seq<u8>, TableIdentityView),
                EnvelopeErrorView,
            >(error@),
        },
{
    let bytes = match digest::hex_decode(mapping.tablet_id.as_str()) {
        Some(bytes) => bytes,
        None => {
            return Err(
                EnvelopeError::with(
                    EnvelopeErrorKind::InvalidTabletHex,
                    mapping.tablet_id.clone(),
                ),
            );
        },
    };
    let tablet = match TabletId::from_bytes(bytes.as_slice()) {
        Some(tablet) => tablet,
        None => {
            return Err(EnvelopeError::plain(EnvelopeErrorKind::TabletIdLength));
        },
    };
    let namespace = match &mapping.namespace {
        SerializedDeltaTableNamespace::Global => TableNamespace::Global,
        SerializedDeltaTableNamespace::ByComponent { component_id } => match component {
            Ok(id) => TableNamespace::ByComponent(PublicDocumentId { text: id.text.clone() }),
            Err(error) => {
                return Err(
                    EnvelopeError::with(EnvelopeErrorKind::UnreadableComponent, error.clone()),
                );
            },
        },
    };
    match TableName::parse(mapping.table_name.as_str()) {
        Some(name) => Ok((tablet, DeltaTableIdentity::new(namespace, name))),
        None => Err(
            EnvelopeError::with(EnvelopeErrorKind::InvalidTableName, mapping.table_name.clone()),
        ),
    }
}

/// Reads the listed tablets.
fn read_listed_tablets(
    mappings: &Vec<SerializedDeltaTabletIdentity>,
    components: &Vec<Result<PublicDocumentId, String>>,
    Ghost(readings): Ghost<Seq<Result<Seq<char>, Seq<char>>>>,
) -> (r: Result<SortedMap<TabletId, DeltaTableIdentity>, EnvelopeError>)
    requires
        mappings@.len() == components@.len(),
        readings == Seq::new(components@.len(), |i: int| component_reading(components@[i])),
    ensures
        match r {
            Ok(identities) => identities.wf() && read_mappings(
                mappings_view(mappings@),
                readings,
                mappings@.len(),
            ) == Ok::<Map<Seq<u8>, TableIdentityView>, EnvelopeErrorView>(
                commit_delta::identities_view(identities@),
            ),
            Err(error) => read_mappings(mappings_view(mappings@), readings, mappings@.len())
                == Err::<Map<Seq<u8>, TableIdentityView>, EnvelopeErrorView>(error@),
        },
{
    let mut identities: SortedMap<TabletId, DeltaTableIdentity> = SortedMap::new();
    let ghost listed = mappings_view(mappings@);
    assert(commit_delta::identities_view(identities@) =~= Map::empty());
    let mut i: usize = 0;
    while i < mappings.len()
        invariant
            mappings@.len() == components@.len(),
            readings == Seq::new(components@.len(), |i: int| component_reading(components@[i])),
            listed == mappings_view(mappings@),
            identities.wf(),
            i <= mappings@.len(),
            read_mappings(listed, readings, i as nat) == Ok::<
                Map<Seq<u8>, TableIdentityView>,
                EnvelopeErrorView,
            >(commit_delta::identities_view(identities@)),
        decreases mappings@.len() - i,
    {
        assert(listed[i as int] == mappings@[i as int]@);
        assert(readings[i as int] == component_reading(components@[i as int]));
        let (tablet, identity) = match read_listed_tablet(&mappings[i], &components[i]) {
            Ok(pair) => pair,
            Err(error) => {
                proof {
                    assert(read_mappings(listed, readings, (i + 1) as nat) == Err::<
                        Map<Seq<u8>, TableIdentityView>,
                        EnvelopeErrorView,
                    >(error@));
                    lemma_mapping_error_stays(listed, readings, (i + 1) as nat, mappings@.len());
                }
                return Err(error);
            },
        };
        if identities.contains_key(&tablet) {
            let error = EnvelopeError::with(
                EnvelopeErrorKind::DuplicateTablet,
                digest::hex_encode(tablet.0.as_slice()),
            );
            proof {
                assert(read_mappings(listed, readings, (i + 1) as nat) == Err::<
                    Map<Seq<u8>, TableIdentityView>,
                    EnvelopeErrorView,
                >(error@));
                lemma_mapping_error_stays(listed, readings, (i + 1) as nat, mappings@.len());
            }
            return Err(error);
        }
        let ghost before = identities@;
        let ghost stated = identity@;
        identities.insert(tablet, identity);
        proof {
            assert(commit_delta::identities_view(identities@) =~= commit_delta::identities_view(
                before,
            ).insert(tablet@, stated));
        }
        i = i + 1;
    }
    Ok(identities)
}

impl DeltaEnvelope {
    /// Puts a commit into an envelope.
    ///
    /// Every tablet that an update refers to needs an identity. A commit with
    /// updates needs a source partition, and a source: a node of the log or a
    /// member of Raft.
    pub fn from_delta(
        delta: &CommitDelta,
        source_node: &str,
        source_raft_node_id: Option<u64>,
    ) -> (r: Result<Self, EnvelopeError>)
        requires
            delta.wf(),
        ensures
            match r {
                Ok(envelope) => {
                    &&& delta_error(delta@, source_node@, source_raft_node_id) is None
                    &&& envelope@ == envelope_of(
                        delta@,
                        delta.tablet_id_to_table_identity.keys(),
                        source_node@,
                        source_raft_node_id,
                    )
                    &&& delta@.travels_with(delta.tablet_id_to_table_identity.keys())
                },
                Err(error) => delta_error(delta@, source_node@, source_raft_node_id) == Some(
                    error@,
                ),
            },
    {
        match find_unidentified(&delta.document_updates, &delta.tablet_id_to_table_identity) {
            Some(tablet) => {
                return Err(
                    EnvelopeError::with(
                        EnvelopeErrorKind::MissingTabletIdentity,
                        digest::hex_encode(tablet.0.as_slice()),
                    ),
                );
            },
            None => {},
        }
        if delta.document_updates.len() > 0 {
            if delta.source_partition.is_none() {
                return Err(EnvelopeError::plain(EnvelopeErrorKind::NoDeltaPartition));
            }
            if source_node.unicode_len() == 0 && source_raft_node_id.is_none() {
                return Err(EnvelopeError::plain(EnvelopeErrorKind::NoDeltaSource));
            }
        }
        let mut document_updates_proto: Vec<Vec<u8>> = Vec::new();
        let mut i: usize = 0;
        while i < delta.document_updates.len()
            invariant
                i <= delta.document_updates@.len(),
                document_updates_proto@.len() == i,
                forall|k: int|
                    0 <= k < i ==> (#[trigger] document_updates_proto@[k])@
                        == delta.document_updates@[k].encoded@,
            decreases delta.document_updates@.len() - i,
        {
            document_updates_proto.push(delta.document_updates[i].encoded.clone());
            i = i + 1;
        }
        let mut tablet_mapping: Vec<SerializedDeltaTabletIdentity> = Vec::new();
        let ghost tablets = delta.tablet_id_to_table_identity.keys();
        let mut j: usize = 0;
        proof {
            delta.tablet_id_to_table_identity.entries_agree();
        }
        while j < delta.tablet_id_to_table_identity.len()
            invariant
                delta.wf(),
                tablets == delta.tablet_id_to_table_identity.keys(),
                j <= tablets.len(),
                tablet_mapping@.len() == j,
                forall|k: int|
                    0 <= k < j ==> (#[trigger] tablet_mapping@[k])@ == mapping_of(
                        tablets[k],
                        delta@.identities[tablets[k]],
                    ),
                forall|k: int|
                    0 <= k < j ==> (#[trigger] tablets[k]).len() == 16 && partition::is_table_name(
                        delta@.identities[tablets[k]].table_name,
                    ),
            decreases tablets.len() - j,
        {
            let tablet = delta.tablet_id_to_table_identity.key_at(j);
            let identity = delta.tablet_id_to_table_identity.value_at(j);
            proof {
                delta.tablet_id_to_table_identity.entries_agree();
                assert(tablet@ == tablets[j as int]);
                assert(delta@.identities[tablets[j as int]] == identity@);
            }
            tablet_mapping.push(
                SerializedDeltaTabletIdentity {
                    tablet_id: digest::hex_encode(tablet.0.as_slice()),
                    namespace: SerializedDeltaTableNamespace::of(&identity.namespace),
                    table_name: identity.table_name.as_str().to_owned(),
                },
            );
            j = j + 1;
        }
        let envelope = DeltaEnvelope {
            schema_version: DELTA_ENVELOPE_SCHEMA_VERSION,
            ts: delta.ts.nanos(),
            write_source: match delta.write_source.as_str() {
                Some(name) => Some(name.to_owned()),
                None => None,
            },
            write_bytes: delta.write_bytes,
            document_updates_proto,
            tablet_mapping,
            source_node: source_node.to_owned(),
            source_raft_node_id,
            source_partition: match delta.source_partition {
                Some(partition) => Some(partition.0),
                None => None,
            },
        };
        proof {
            let wanted = envelope_of(delta@, tablets, source_node@, source_raft_node_id);
            assert(envelope@.document_updates_proto =~= wanted.document_updates_proto);
            assert(envelope@.tablet_mapping =~= wanted.tablet_mapping);
            assert(envelope@ =~= wanted);
            delta.tablet_id_to_table_identity.entries_agree();
        }
        Ok(envelope)
    }

    /// Puts a commit that Raft hands to the log into an envelope.
    pub fn from_raft_nats_outbox(
        delta: &CommitDelta,
        origin: &RaftNatsOutboxOrigin,
    ) -> (r: Result<Self, EnvelopeError>)
        requires
            delta.wf(),
        ensures
            match r {
                Ok(envelope) => {
                    &&& outbox_error(delta@, origin@) is None
                    &&& envelope@ == envelope_of(
                        delta@,
                        delta.tablet_id_to_table_identity.keys(),
                        origin@.source_node,
                        Some(origin@.source_raft_node_id),
                    )
                    &&& delta@.travels_with(delta.tablet_id_to_table_identity.keys())
                },
                Err(error) => outbox_error(delta@, origin@) == Some(error@),
            },
    {
        if origin.source_node.as_str().unicode_len() == 0 {
            return Err(EnvelopeError::plain(EnvelopeErrorKind::EmptyOriginNode));
        }
        let same = match delta.source_partition {
            Some(partition) => partition.0 == origin.source_partition.0,
            None => false,
        };
        if !same {
            let mut detail = text::decimal_text(origin.source_partition.0 as u64);
            detail.append(" does not match delta partition ");
            match delta.source_partition {
                Some(partition) => {
                    detail.append("Some(");
                    text::push_decimal(&mut detail, partition.0 as u64);
                    detail.append(")");
                },
                None => {
                    detail.append("None");
                },
            }
            let ghost wanted = text::decimal(origin.source_partition.0 as nat)
                + " does not match delta partition "@ + printed_option(delta.source_partition);
            assert(detail@ =~= wanted);
            return Err(EnvelopeError::with(EnvelopeErrorKind::OriginPartitionMismatch, detail));
        }
        Self::from_delta(delta, origin.source_node.as_str(), Some(origin.source_raft_node_id))
    }

    /// The origin of a commit that Raft handed to the log.
    pub fn raft_nats_outbox_origin(&self) -> (r: Result<RaftNatsOutboxOrigin, EnvelopeError>)
        ensures
            match r {
                Ok(origin) => self@.outbox_origin() == Ok::<OriginView, EnvelopeErrorView>(origin@),
                Err(error) => self@.outbox_origin() == Err::<OriginView, EnvelopeErrorView>(error@),
            },
    {
        let source_raft_node_id: u64 = match self.source_raft_node_id {
            Some(id) => id,
            None => {
                return Err(EnvelopeError::plain(EnvelopeErrorKind::MissingOriginRaftNode));
            },
        };
        let source_partition: u32 = match self.source_partition {
            Some(partition) => partition,
            None => {
                return Err(EnvelopeError::plain(EnvelopeErrorKind::MissingOriginPartition));
            },
        };
        match RaftNatsOutboxOrigin::new(
            self.source_node.clone(),
            source_raft_node_id,
            PartitionId(source_partition),
        ) {
            Some(origin) => Ok(origin),
            None => Err(EnvelopeError::plain(EnvelopeErrorKind::EmptyOriginNode)),
        }
    }

    /// The origin of a commit, where one is named.
    pub fn raft_nats_outbox_origin_if_present(&self) -> (r: Result<
        Option<RaftNatsOutboxOrigin>,
        EnvelopeError,
    >)
        ensures
            match r {
                Ok(None) => self@.source_node.len() == 0,
                Ok(Some(origin)) => self@.source_node.len() > 0 && self@.outbox_origin() == Ok::<
                    OriginView,
                    EnvelopeErrorView,
                >(origin@),
                Err(error) => self@.source_node.len() > 0 && self@.outbox_origin() == Err::<
                    OriginView,
                    EnvelopeErrorView,
                >(error@),
            },
    {
        if self.source_node.as_str().unicode_len() == 0 {
            return Ok(None);
        }
        match self.raft_nats_outbox_origin() {
            Ok(origin) => Ok(Some(origin)),
            Err(error) => Err(error),
        }
    }

    /// Takes the commit out of the envelope.
    ///
    /// The document log entries and index entries do not travel: they come out
    /// empty.
    pub fn to_delta(self, readings: PayloadReadings) -> (r: Result<CommitDelta, EnvelopeError>)
        requires
            readings@.cover(self@),
        ensures
            match r {
                Ok(delta) => delta.wf() && decoded(self@, readings@) == Ok::<
                    DeltaView,
                    EnvelopeErrorView,
                >(delta@),
                Err(error) => decoded(self@, readings@) == Err::<DeltaView, EnvelopeErrorView>(
                    error@,
                ),
            },
    {
        if self.schema_version != DELTA_ENVELOPE_SCHEMA_VERSION {
            let mut detail = text::decimal_text(self.schema_version as u64);
            detail.append("; expected 2");
            return Err(EnvelopeError::with(EnvelopeErrorKind::UnsupportedVersion, detail));
        }
        match self.validate_data_source_partition() {
            Err(error) => {
                return Err(error);
            },
            Ok(_) => {},
        }
        let ghost heard = readings@.update_tablets;
        let mut document_updates: Vec<DocumentUpdate> = Vec::new();
        let mut i: usize = 0;
        while i < self.document_updates_proto.len()
            invariant
                readings@.cover(self@),
                heard == readings@.update_tablets,
                self.schema_version == DELTA_ENVELOPE_SCHEMA_VERSION,
                self@.partition_error() is None,
                i <= self.document_updates_proto@.len(),
                document_updates@.len() == i,
                first_unreadable(heard, i as nat) is None,
                forall|k: int|
                    0 <= k < i ==> (#[trigger] document_updates@[k])@ == (UpdateView {
                        tablet_id: heard[k]->Ok_0,
                        encoded: self@.document_updates_proto[k],
                    }),
            decreases self.document_updates_proto@.len() - i,
        {
            assert(heard[i as int] == tablet_reading(readings.update_tablets@[i as int]));
            match &readings.update_tablets[i] {
                Ok(tablet) => {
                    let ghost earlier = document_updates@;
                    document_updates.push(
                        DocumentUpdate {
                            tablet_id: *tablet,
                            encoded: self.document_updates_proto[i].clone(),
                        },
                    );
                    proof {
                        assert forall|k: int| 0 <= k < i + 1 implies (
                        #[trigger] document_updates@[k])@ == (UpdateView {
                            tablet_id: heard[k]->Ok_0,
                            encoded: self@.document_updates_proto[k],
                        }) by {
                            if k < i {
                                assert(document_updates@[k] == earlier[k]);
                            }
                        }
                        assert(first_unreadable(heard, (i + 1) as nat) is None);
                    }
                },
                Err(error) => {
                    let error = EnvelopeError::with(
                        EnvelopeErrorKind::UndecodableUpdate,
                        error.clone(),
                    );
                    proof {
                        assert(first_unreadable(heard, (i + 1) as nat) == Some(error@.detail));
                        lemma_unreadable_stays(
                            heard,
                            (i + 1) as nat,
                            self.document_updates_proto@.len(),
                        );
                    }
                    return Err(error);
                },
            }
            i = i + 1;
        }
        proof {
            assert(commit_delta::updates_view(document_updates@) =~= read_updates(
                self@.document_updates_proto,
                heard,
            ));
        }
        let identities = match read_listed_tablets(
            &self.tablet_mapping,
            &readings.component_ids,
            Ghost(readings@.component_ids),
        ) {
            Ok(identities) => identities,
            Err(error) => {
                return Err(error);
            },
        };
        match find_unidentified(&document_updates, &identities) {
            Some(tablet) => {
                return Err(
                    EnvelopeError::with(
                        EnvelopeErrorKind::MissingTabletIdentity,
                        digest::hex_encode(tablet.0.as_slice()),
                    ),
                );
            },
            None => {},
        }
        let ts = match Timestamp::from_nanos(self.ts) {
            Some(ts) => ts,
            None => {
                return Err(
                    EnvelopeError::with(
                        EnvelopeErrorKind::TimestampOutOfRange,
                        text::decimal_text(self.ts),
                    ),
                );
            },
        };
        let delta = CommitDelta {
            ts,
            document_writes: Vec::new(),
            document_updates,
            index_writes: Vec::new(),
            write_source: match &self.write_source {
                Some(name) => WriteSource::new(name.as_str()),
                None => WriteSource::unknown(),
            },
            write_bytes: self.write_bytes,
            tablet_id_to_table_identity: identities,
            source_partition: match self.source_partition {
                Some(partition) => Some(PartitionId(partition)),
                None => None,
            },
        };
        proof {
            assert(delta@.document_writes =~= Seq::empty());
            assert(delta@.index_writes =~= Seq::empty());
        }
        Ok(delta)
    }

    /// The Raft member that proposed the commit.
    pub fn source_raft_node_id(&self) -> (r: Option<u64>)
        ensures
            r == self@.source_raft_node_id,
    {
        self.source_raft_node_id
    }

    /// Whether the envelope carries document updates.
    pub fn contains_data(&self) -> (r: bool)
        ensures
            r == self@.contains_data(),
    {
        self.document_updates_proto.len() > 0
    }

    /// Whether data comes from a known partition.
    pub fn validate_data_source_partition(&self) -> (r: Result<(), EnvelopeError>)
        ensures
            match r {
                Ok(_) => self@.partition_error() is None,
                Err(error) => self@.partition_error() == Some(error@),
            },
    {
        if self.contains_data() && self.source_partition.is_none() {
            return Err(EnvelopeError::plain(EnvelopeErrorKind::NullDataPartition));
        }
        Ok(())
    }

    /// Whether the envelope may travel over the log.
    pub fn validate_nats_transport(&self) -> (r: Result<(), EnvelopeError>)
        ensures
            match r {
                Ok(_) => self@.nats_error() is None,
                Err(error) => self@.nats_error() == Some(error@),
            },
    {
        match self.validate_data_source_partition() {
            Err(error) => {
                return Err(error);
            },
            Ok(_) => {},
        }
        if self.contains_data() && self.source_node.as_str().unicode_len() == 0 {
            return Err(EnvelopeError::plain(EnvelopeErrorKind::EmptyDataNode));
        }
        Ok(())
    }

    /// Whether the envelope may travel in a Raft entry.
    pub fn validate_raft_transport(&self) -> (r: Result<(), EnvelopeError>)
        ensures
            match r {
                Ok(_) => self@.raft_error() is None,
                Err(error) => self@.raft_error() == Some(error@),
            },
    {
        match self.validate_data_source_partition() {
            Err(error) => {
                return Err(error);
            },
            Ok(_) => {},
        }
        if self.contains_data() && self.source_raft_node_id.is_none() {
            return Err(EnvelopeError::plain(EnvelopeErrorKind::NullDataRaftNode));
        }
        Ok(())
    }
}

impl DeltaView {
    /// The listing names the identified tablets, each once, in order, and what
    /// it names is valid.
    pub open spec fn listed_by(self, tablets: Seq<Seq<u8>>) -> bool {
        &&& ordered::increasing::<TabletId>(tablets)
        &&& forall|tablet: Seq<u8>|
            self.identities.dom().contains(tablet) <==> tablets.contains(tablet)
        &&& forall|i: int|
            0 <= i < tablets.len() ==> (#[trigger] tablets[i]).len() == 16
                && partition::is_table_name(self.identities[tablets[i]].table_name)
    }
}

impl DeltaView {
    /// The commit's time is a time, and the listing names its tablets.
    /// Every commit is like this, with its own listing.
    pub open spec fn travels_with(self, tablets: Seq<Seq<u8>>) -> bool {
        commit_delta::is_timestamp(self.ts) && self.listed_by(tablets)
    }
}

impl ReadingsView {
    /// The readings are those of the commit's own updates and identities.
    pub open spec fn tell(self, delta: DeltaView, tablets: Seq<Seq<u8>>) -> bool {
        &&& self.update_tablets.len() == delta.document_updates.len()
        &&& self.component_ids.len() == tablets.len()
        &&& forall|i: int|
            0 <= i < delta.document_updates.len() ==> #[trigger] self.update_tablets[i] == Ok::<
                Seq<u8>,
                Seq<char>,
            >(delta.document_updates[i].tablet_id)
        &&& forall|i: int|
            0 <= i < tablets.len() ==> match delta.identities[#[trigger] tablets[i]].namespace {
                NamespaceView::Global => true,
                NamespaceView::ByComponent { component_id } => self.component_ids[i] == Ok::<
                    Seq<char>,
                    Seq<char>,
                >(component_id),
            }
    }
}

proof fn lemma_mappings_read_back(
    delta: DeltaView,
    tablets: Seq<Seq<u8>>,
    envelope: EnvelopeView,
    readings: ReadingsView,
    n: nat,
)
    requires
        n <= tablets.len(),
        delta.listed_by(tablets),
        readings.tell(delta, tablets),
        envelope.tablet_mapping == Seq::new(
            tablets.len(),
            |i: int| mapping_of(tablets[i], delta.identities[tablets[i]]),
        ),
    ensures
        read_mappings(envelope.tablet_mapping, readings.component_ids, n) == Ok::<
            Map<Seq<u8>, TableIdentityView>,
            EnvelopeErrorView,
        >(delta.identities.restrict(tablets.take(n as int).to_set())),
    decreases n,
{
    if n == 0 {
        assert(delta.identities.restrict(tablets.take(0).to_set()) =~= Map::empty());
    } else {
        lemma_mappings_read_back(delta, tablets, envelope, readings, (n - 1) as nat);
        let tablet = tablets[n - 1];
        let identity = delta.identities[tablet];
        digest::hex_reads_back(tablet);
        assert(envelope.tablet_mapping[n - 1] == mapping_of(tablet, identity));
        assert(read_mapping(envelope.tablet_mapping[n - 1], readings.component_ids[n - 1]) == Ok::<
            (Seq<u8>, TableIdentityView),
            EnvelopeErrorView,
        >((tablet, identity)));
        let before = tablets.take(n - 1).to_set();
        assert(!before.contains(tablet)) by {
            if before.contains(tablet) {
                let i = tablets.take(n - 1).index_of(tablet);
                assert(tablets.take(n - 1).contains(tablet));
                assert(tablets[i] == tablet);
                text::bytes_order_is_total(tablet, tablet, tablet);
                assert(text::bytes_before(tablets[i], tablets[n - 1]));
            }
        }
        assert(delta.identities.dom().contains(tablet)) by {
            assert(tablets.contains(tablet));
        }
        assert(tablets.take(n as int) =~= tablets.take(n - 1).push(tablet));
        assert(tablets.take(n as int).to_set() =~= before.insert(tablet)) by {
            assert forall|x: Seq<u8>| tablets.take(n as int).to_set().contains(x)
                <==> before.insert(tablet).contains(x) by {
                if before.contains(x) {
                    assert(tablets.take(n - 1).contains(x));
                    let i = tablets.take(n - 1).index_of(x);
                    assert(tablets.take(n as int)[i] == x);
                }
                if x == tablet {
                    assert(tablets.take(n as int)[n - 1] == x);
                }
                if tablets.take(n as int).to_set().contains(x) {
                    assert(tablets.take(n as int).contains(x));
                    let i = tablets.take(n as int).index_of(x);
                    if i < n - 1 {
                        assert(tablets.take(n - 1)[i] == x);
                    }
                }
            }
        }
        assert(delta.identities.restrict(before).insert(tablet, identity)
            =~= delta.identities.restrict(tablets.take(n as int).to_set()));
    }
}

/// A commit comes out of its envelope as it went in, but for the document log
/// entries and index entries, which do not travel.
pub proof fn commit_survives_its_envelope(
    delta: DeltaView,
    tablets: Seq<Seq<u8>>,
    source_node: Seq<char>,
    source_raft_node_id: Option<u64>,
    readings: ReadingsView,
)
    requires
        delta_error(delta, source_node, source_raft_node_id) is None,
        delta.travels_with(tablets),
        readings.tell(delta, tablets),
    ensures
        decoded(envelope_of(delta, tablets, source_node, source_raft_node_id), readings) == Ok::<
            DeltaView,
            EnvelopeErrorView,
        >(DeltaView { document_writes: Seq::empty(), index_writes: Seq::empty(), ..delta }),
{
    let envelope = envelope_of(delta, tablets, source_node, source_raft_node_id);
    lemma_mappings_read_back(delta, tablets, envelope, readings, tablets.len());
    assert(tablets.take(tablets.len() as int) =~= tablets);
    assert(delta.identities.restrict(tablets.to_set()) =~= delta.identities);
    lemma_all_readable(readings.update_tablets, envelope.document_updates_proto.len());
    let updates = read_updates(envelope.document_updates_proto, readings.update_tablets);
    assert forall|i: int| 0 <= i < delta.document_updates.len() implies updates[i]
        == delta.document_updates[i] by {
        assert(readings.update_tablets[i] == Ok::<Seq<u8>, Seq<char>>(
            delta.document_updates[i].tablet_id,
        ));
    }
    assert(updates =~= delta.document_updates);
}

proof fn lemma_all_readable(readings: Seq<Result<Seq<u8>, Seq<char>>>, n: nat)
    requires
        n <= readings.len(),
        forall|i: int| 0 <= i < readings.len() ==> (#[trigger] readings[i]) is Ok,
    ensures
        first_unreadable(readings, n) is None,
    decreases n,
{
    if n > 0 {
        lemma_all_readable(readings, (n - 1) as nat);
    }
}

/// The origin under which Raft hands a commit to the log is read from the
/// envelope again.
pub proof fn origin_survives_its_envelope(
    delta: DeltaView,
    tablets: Seq<Seq<u8>>,
    origin: OriginView,
)
    requires
        outbox_error(delta, origin) is None,
    ensures
        envelope_of(
            delta,
            tablets,
            origin.source_node,
            Some(origin.source_raft_node_id),
        ).outbox_origin() == Ok::<OriginView, EnvelopeErrorView>(origin),
{
}

/// An envelope that a named node writes may travel over the log, and one that
/// a Raft member writes may travel in a Raft entry.
pub proof fn written_envelopes_may_travel(
    delta: DeltaView,
    tablets: Seq<Seq<u8>>,
    source_node: Seq<char>,
    source_raft_node_id: Option<u64>,
)
    requires
        delta_error(delta, source_node, source_raft_node_id) is None,
    ensures
        source_node.len() > 0 ==> envelope_of(
            delta,
            tablets,
            source_node,
            source_raft_node_id,
        ).nats_error() is None,
        source_raft_node_id is Some ==> envelope_of(
            delta,
            tablets,
            source_node,
            source_raft_node_id,
        ).raft_error() is None,
{
}

proof fn lemma_unidentified(
    updates: Seq<UpdateView>,
    identities: Map<Seq<u8>, TableIdentityView>,
    n: nat,
)
    requires
        n <= updates.len(),
    ensures
        unidentified(updates, identities, n) is None <==> forall|i: int|
            0 <= i < n ==> identities.dom().contains((#[trigger] updates[i]).tablet_id),
        unidentified(updates, identities, n) matches Some(tablet) ==> exists|i: int|
            0 <= i < n && (#[trigger] updates[i]).tablet_id == tablet
                && !identities.dom().contains(tablet) && forall|k: int|
                0 <= k < i ==> identities.dom().contains((#[trigger] updates[k]).tablet_id),
    decreases n,
{
    if n > 0 {
        lemma_unidentified(updates, identities, (n - 1) as nat);
        if unidentified(updates, identities, (n - 1) as nat) is None {
            assert(updates[n - 1].tablet_id == updates[n - 1].tablet_id);
        }
    }
}

/// A commit may be put into an envelope exactly where each update, at any place,
/// is to an identified tablet, and a commit with updates names its partition and
/// comes from a named node or from a Raft member.
pub proof fn commits_travel_with_their_identities(
    delta: DeltaView,
    source_node: Seq<char>,
    source_raft_node_id: Option<u64>,
)
    ensures
        delta_error(delta, source_node, source_raft_node_id) is None <==> {
            &&& forall|i: int|
                0 <= i < delta.document_updates.len() ==> delta.identities.dom().contains(
                    (#[trigger] delta.document_updates[i]).tablet_id,
                )
            &&& delta.document_updates.len() > 0 ==> delta.source_partition is Some && (
            source_node.len() > 0 || source_raft_node_id is Some)
        },
{
    lemma_unidentified(delta.document_updates, delta.identities, delta.document_updates.len());
}

/// An envelope holds what its commit says: the time, the cause, the size, the
/// source, the encoded updates in their order, and each listed tablet with its
/// namespace and its table.
pub proof fn envelopes_hold_their_commit(
    delta: DeltaView,
    tablets: Seq<Seq<u8>>,
    source_node: Seq<char>,
    source_raft_node_id: Option<u64>,
    i: int,
)
    ensures
        ({
            let envelope = envelope_of(delta, tablets, source_node, source_raft_node_id);
            &&& envelope.schema_version == 2
            &&& envelope.ts == delta.ts
            &&& envelope.write_source == delta.write_source
            &&& envelope.write_bytes == delta.write_bytes
            &&& envelope.source_node == source_node
            &&& envelope.source_raft_node_id == source_raft_node_id
            &&& envelope.source_partition is Some <==> delta.source_partition is Some
            &&& delta.source_partition matches Some(p) ==> envelope.source_partition == Some(p.0)
            &&& envelope.document_updates_proto.len() == delta.document_updates.len()
            &&& envelope.tablet_mapping.len() == tablets.len()
            &&& 0 <= i < delta.document_updates.len() ==> envelope.document_updates_proto[i]
                == delta.document_updates[i].encoded
            &&& 0 <= i < tablets.len() ==> envelope.tablet_mapping[i].tablet_id
                == digest::hex_text(tablets[i]) && envelope.tablet_mapping[i].namespace
                == delta.identities[tablets[i]].namespace && envelope.tablet_mapping[i].table_name
                == delta.identities[tablets[i]].table_name
        }),
{
}

proof fn lemma_first_unreadable(readings: Seq<Result<Seq<u8>, Seq<char>>>, n: nat)
    requires
        n <= readings.len(),
    ensures
        first_unreadable(readings, n) is None <==> forall|i: int|
            0 <= i < n ==> (#[trigger] readings[i]) is Ok,
    decreases n,
{
    if n > 0 {
        lemma_first_unreadable(readings, (n - 1) as nat);
    }
}

/// A listed tablet is understood exactly where its identifier is sixteen bytes in
/// hexadecimal, its component can be read where it is of one, and the table's name
/// is one.
pub proof fn listed_tablets_are_understood(
    mapping: MappingView,
    component: Result<Seq<char>, Seq<char>>,
)
    ensures
        read_mapping(mapping, component) is Ok <==> {
            &&& digest::is_hex(mapping.tablet_id)
            &&& digest::hex_bytes(mapping.tablet_id).len() == 16
            &&& mapping.namespace is ByComponent ==> component is Ok
            &&& partition::is_table_name(mapping.table_name)
        },
        read_mapping(mapping, component) matches Ok((tablet, identity)) ==> {
            &&& tablet == digest::hex_bytes(mapping.tablet_id)
            &&& identity.table_name == mapping.table_name
            &&& mapping.namespace is Global <==> identity.namespace is Global
            &&& mapping.namespace is ByComponent ==> identity.namespace == (
            NamespaceView::ByComponent { component_id: component->Ok_0 })
        },
{
}

/// The list of tablets is understood exactly where each of them is and none
/// stands twice. It then identifies each listed tablet, and no other.
pub proof fn tablet_lists_are_understood(
    mappings: Seq<MappingView>,
    components: Seq<Result<Seq<char>, Seq<char>>>,
    n: nat,
)
    requires
        n <= mappings.len(),
        n <= components.len(),
    ensures
        read_mappings(mappings, components, n) is Ok <==> {
            &&& forall|i: int|
                0 <= i < n ==> read_mapping(#[trigger] mappings[i], components[i]) is Ok
            &&& forall|i: int, j: int|
                0 <= i < j < n ==> read_mapping(#[trigger] mappings[i], components[i])->Ok_0.0
                    != read_mapping(#[trigger] mappings[j], components[j])->Ok_0.0
        },
        read_mappings(mappings, components, n) matches Ok(identities) ==> {
            &&& forall|i: int|
                0 <= i < n ==> identities.dom().contains(
                    read_mapping(#[trigger] mappings[i], components[i])->Ok_0.0,
                ) && identities[read_mapping(mappings[i], components[i])->Ok_0.0] == read_mapping(
                    mappings[i],
                    components[i],
                )->Ok_0.1
            &&& forall|tablet: Seq<u8>| #[trigger]
                identities.dom().contains(tablet) ==> exists|i: int|
                    0 <= i < n && read_mapping(#[trigger] mappings[i], components[i])->Ok_0.0
                        == tablet
        },
    decreases n,
{
    if n > 0 {
        tablet_lists_are_understood(mappings, components, (n - 1) as nat);
        let before = read_mappings(mappings, components, (n - 1) as nat);
        let last = read_mapping(mappings[n - 1], components[n - 1]);
        if before is Ok && last is Ok {
            let tablet = last->Ok_0.0;
            if before->Ok_0.dom().contains(tablet) {
                let i = choose|i: int|
                    0 <= i < n - 1 && read_mapping(#[trigger] mappings[i], components[i])->Ok_0.0
                        == tablet;
                assert(read_mapping(mappings[i], components[i])->Ok_0.0 == read_mapping(
                    mappings[n - 1],
                    components[n - 1],
                )->Ok_0.0);
            } else {
                let identities = read_mappings(mappings, components, n)->Ok_0;
                assert(identities == before->Ok_0.insert(tablet, last->Ok_0.1));
                assert forall|t: Seq<u8>| #[trigger]
                    identities.dom().contains(t) implies exists|i: int|
                    0 <= i < n && read_mapping(#[trigger] mappings[i], components[i])->Ok_0.0
                        == t by {
                    if t == tablet {
                        assert(read_mapping(mappings[n - 1], components[n - 1])->Ok_0.0 == t);
                    } else {
                        assert(before->Ok_0.dom().contains(t));
                    }
                }
            }
        }
    }
}

/// A commit is taken out of an envelope exactly where the version is the one that
/// is read here, data comes from a partition, every update and every listed tablet
/// can be read, every update is to a listed tablet, and the time is one. It says
/// what the envelope says.
pub proof fn envelopes_are_opened_on_these_terms(envelope: EnvelopeView, readings: ReadingsView)
    requires
        readings.cover(envelope),
    ensures
        decoded(envelope, readings) is Ok <==> {
            &&& envelope.schema_version == 2
            &&& envelope.document_updates_proto.len() > 0 ==> envelope.source_partition is Some
            &&& forall|i: int|
                0 <= i < readings.update_tablets.len() ==> (
                #[trigger] readings.update_tablets[i]) is Ok
            &&& read_mappings(
                envelope.tablet_mapping,
                readings.component_ids,
                envelope.tablet_mapping.len(),
            ) is Ok
            &&& forall|i: int|
                0 <= i < readings.update_tablets.len() ==> read_mappings(
                    envelope.tablet_mapping,
                    readings.component_ids,
                    envelope.tablet_mapping.len(),
                )->Ok_0.dom().contains((#[trigger] readings.update_tablets[i])->Ok_0)
            &&& envelope.ts <= i64::MAX
        },
        decoded(envelope, readings) matches Ok(delta) ==> {
            &&& delta.ts == envelope.ts
            &&& delta.write_source == envelope.write_source
            &&& delta.write_bytes == envelope.write_bytes
            &&& delta.source_partition is Some <==> envelope.source_partition is Some
            &&& envelope.source_partition matches Some(p) ==> delta.source_partition == Some(
                PartitionId(p),
            )
            &&& delta.document_writes.len() == 0
            &&& delta.index_writes.len() == 0
            &&& delta.document_updates.len() == envelope.document_updates_proto.len()
            &&& forall|i: int|
                0 <= i < delta.document_updates.len() ==> (
                #[trigger] delta.document_updates[i]).encoded == envelope.document_updates_proto[i]
                    && Ok::<Seq<u8>, Seq<char>>(delta.document_updates[i].tablet_id)
                    == readings.update_tablets[i]
        },
{
    lemma_first_unreadable(readings.update_tablets, envelope.document_updates_proto.len());
    let updates = read_updates(envelope.document_updates_proto, readings.update_tablets);
    let listed = read_mappings(
        envelope.tablet_mapping,
        readings.component_ids,
        envelope.tablet_mapping.len(),
    );
    if listed is Ok {
        lemma_unidentified(updates, listed->Ok_0, updates.len());
        assert forall|i: int| 0 <= i < updates.len() implies (#[trigger] updates[i]).tablet_id
            == readings.update_tablets[i]->Ok_0 by {}
        if forall|i: int|
            0 <= i < readings.update_tablets.len() ==> listed->Ok_0.dom().contains(
                (#[trigger] readings.update_tablets[i])->Ok_0,
            ) {
            assert forall|i: int| 0 <= i < updates.len() implies listed->Ok_0.dom().contains(
                (#[trigger] updates[i]).tablet_id,
            ) by {
                assert(listed->Ok_0.dom().contains(readings.update_tablets[i]->Ok_0));
            }
        }
        if unidentified(updates, listed->Ok_0, updates.len()) is None {
            assert forall|i: int|
                0 <= i < readings.update_tablets.len() implies listed->Ok_0.dom().contains(
                (#[trigger] readings.update_tablets[i])->Ok_0,
            ) by {
                assert(listed->Ok_0.dom().contains(updates[i].tablet_id));
            }
        }
    }
}

/// An envelope may travel over the log, or in a Raft entry, where it has no data,
/// or where its data names a partition and, for the log, a node, and in Raft, a
/// member.
pub proof fn data_names_its_source(envelope: EnvelopeView)
    ensures
        envelope.contains_data() <==> envelope.document_updates_proto.len() > 0,
        envelope.partition_error() is None <==> envelope.document_updates_proto.len() == 0
            || envelope.source_partition is Some,
        envelope.nats_error() is None <==> envelope.document_updates_proto.len() == 0 || (
        envelope.source_partition is Some && envelope.source_node.len() > 0),
        envelope.raft_error() is None <==> envelope.document_updates_proto.len() == 0 || (
        envelope.source_partition is Some && envelope.source_raft_node_id is Some),
        envelope.outbox_origin() is Ok <==> envelope.source_raft_node_id is Some
            && envelope.source_partition is Some && envelope.source_node.len() > 0,
        envelope.outbox_origin() matches Ok(origin) ==> origin.source_node == envelope.source_node
            && Some(origin.source_raft_node_id) == envelope.source_raft_node_id && Some(
            origin.source_partition.0,
        ) == envelope.source_partition,
{
}

/// Raft hands a commit to the log exactly where the origin names a node and the
/// partition of the commit, and the commit may travel.
pub proof fn origins_match_their_commit(delta: DeltaView, origin: OriginView)
    ensures
        outbox_error(delta, origin) is None <==> origin.source_node.len() > 0
            && delta.source_partition == Some(origin.source_partition) && delta_error(
            delta,
            origin.source_node,
            Some(origin.source_raft_node_id),
        ) is None,
{
}

/// A commit that may not travel is refused for its first fault: a tablet
/// without an identity, the first one in its order; then data without a
/// partition; then data without a source.
pub proof fn commits_are_refused_for_cause(
    delta: DeltaView,
    source_node: Seq<char>,
    source_raft_node_id: Option<u64>,
)
    ensures
        delta_error(delta, source_node, source_raft_node_id) matches Some(error) ==> {
            let identified = forall|i: int|
                0 <= i < delta.document_updates.len() ==> delta.identities.dom().contains(
                    (#[trigger] delta.document_updates[i]).tablet_id,
                );
            &&& error.kind is MissingTabletIdentity <==> !identified
            &&& error.kind is MissingTabletIdentity ==> exists|i: int|
                0 <= i < delta.document_updates.len() && error.detail == digest::hex_text(
                    (#[trigger] delta.document_updates[i]).tablet_id,
                ) && !delta.identities.dom().contains(delta.document_updates[i].tablet_id)
                    && forall|k: int|
                    0 <= k < i ==> delta.identities.dom().contains(
                        (#[trigger] delta.document_updates[k]).tablet_id,
                    )
            &&& error.kind is NoDeltaPartition <==> identified && delta.source_partition is None
            &&& error.kind is NoDeltaSource <==> identified && delta.source_partition is Some
            &&& error.kind is MissingTabletIdentity || error.detail.len() == 0
        },
{
    lemma_unidentified(delta.document_updates, delta.identities, delta.document_updates.len());
}

/// An origin is refused for its first fault: that it names no node, and then
/// that its partition is not that of the commit, which both are told.
pub proof fn origins_are_refused_for_cause(delta: DeltaView, origin: OriginView)
    ensures
        origin.source_node.len() == 0 ==> (outbox_error(delta, origin) matches Some(error)
            && error.kind is EmptyOriginNode && error.detail.len() == 0),
        origin.source_node.len() > 0 && delta.source_partition is None ==> (outbox_error(
            delta,
            origin,
        ) matches Some(error) && error.kind is OriginPartitionMismatch && error.detail
            == text::decimal(origin.source_partition.0 as nat) + " does not match delta partition "@
            + "None"@),
        origin.source_node.len() > 0 && delta.source_partition is Some
            && delta.source_partition->Some_0 != origin.source_partition ==> (outbox_error(
            delta,
            origin,
        ) matches Some(error) && error.kind is OriginPartitionMismatch && error.detail
            == text::decimal(origin.source_partition.0 as nat) + " does not match delta partition "@
            + ("Some("@ + text::decimal(delta.source_partition->Some_0.0 as nat) + ")"@)),
{
}

/// Data that does not name its source is refused for what it lacks: the
/// partition, and then the node in the log, or the member in a Raft entry. An
/// origin that is read from it is refused for the first part that is missing.
pub proof fn data_is_refused_for_what_it_lacks(envelope: EnvelopeView)
    ensures
        envelope.partition_error() matches Some(error) ==> error.kind is NullDataPartition
            && error.detail.len() == 0,
        envelope.nats_error() matches Some(error) ==> error.detail.len() == 0 && (error.kind
            is NullDataPartition <==> envelope.source_partition is None) && (error.kind
            is EmptyDataNode <==> envelope.source_partition is Some),
        envelope.raft_error() matches Some(error) ==> error.detail.len() == 0 && (error.kind
            is NullDataPartition <==> envelope.source_partition is None) && (error.kind
            is NullDataRaftNode <==> envelope.source_partition is Some),
        envelope.outbox_origin() matches Err(error) ==> {
            &&& error.detail.len() == 0
            &&& error.kind is MissingOriginRaftNode <==> envelope.source_raft_node_id is None
            &&& error.kind is MissingOriginPartition <==> envelope.source_raft_node_id is Some
                && envelope.source_partition is None
            &&& error.kind is EmptyOriginNode <==> envelope.source_raft_node_id is Some
                && envelope.source_partition is Some
        },
{
}

/// A listed tablet that is not understood is refused for its first fault, which
/// is told.
pub proof fn listed_tablets_are_refused_for_cause(
    mapping: MappingView,
    component: Result<Seq<char>, Seq<char>>,
)
    ensures
        read_mapping(mapping, component) matches Err(error) ==> {
            let hex = digest::is_hex(mapping.tablet_id);
            let sized = digest::hex_bytes(mapping.tablet_id).len() == 16;
            let unread = mapping.namespace is ByComponent && component is Err;
            &&& error.kind is InvalidTabletHex <==> !hex
            &&& error.kind is InvalidTabletHex ==> error.detail == mapping.tablet_id
            &&& error.kind is TabletIdLength <==> hex && !sized
            &&& error.kind is TabletIdLength ==> error.detail.len() == 0
            &&& error.kind is UnreadableComponent <==> hex && sized && unread
            &&& error.kind is UnreadableComponent ==> Err::<Seq<char>, Seq<char>>(error.detail)
                == component
            &&& error.kind is InvalidTableName <==> hex && sized && !unread
            &&& error.kind is InvalidTableName ==> error.detail == mapping.table_name
        },
{
}

/// A list of tablets is refused for the first that is not understood, or that
/// was listed before.
pub proof fn lists_are_refused_for_their_first_fault(
    mappings: Seq<MappingView>,
    components: Seq<Result<Seq<char>, Seq<char>>>,
    i: nat,
)
    requires
        i < mappings.len(),
        read_mappings(mappings, components, i) is Ok,
    ensures
        ({
            let before = read_mappings(mappings, components, i)->Ok_0;
            let r = read_mappings(mappings, components, mappings.len());
            match read_mapping(mappings[i as int], components[i as int]) {
                Err(error) => r == Err::<Map<Seq<u8>, TableIdentityView>, EnvelopeErrorView>(error),
                Ok((tablet, _)) => before.dom().contains(tablet) ==> (r matches Err(error)
                    && error.kind is DuplicateTablet && error.detail == digest::hex_text(tablet)),
            }
        }),
{
    let next = read_mappings(mappings, components, (i + 1) as nat);
    if next is Err {
        lemma_refused_lists_stay(mappings, components, (i + 1) as nat, mappings.len());
    }
}

proof fn lemma_refused_lists_stay(
    mappings: Seq<MappingView>,
    components: Seq<Result<Seq<char>, Seq<char>>>,
    m: nat,
    n: nat,
)
    requires
        m <= n,
        read_mappings(mappings, components, m) is Err,
    ensures
        read_mappings(mappings, components, n) == read_mappings(mappings, components, m),
    decreases n,
{
    if m < n {
        lemma_refused_lists_stay(mappings, components, m, (n - 1) as nat);
    }
}

/// An envelope that is not opened is refused for the first of the terms that it
/// breaks: its version, its partition, its updates, its list of tablets, their
/// identities, and its time.
pub proof fn envelopes_are_refused_for_cause(envelope: EnvelopeView, readings: ReadingsView)
    requires
        readings.cover(envelope),
    ensures
        decoded(envelope, readings) matches Err(error) ==> {
            let versioned = envelope.schema_version == 2;
            let placed = envelope.document_updates_proto.len() == 0 || envelope.source_partition
                is Some;
            let readable = forall|i: int|
                0 <= i < readings.update_tablets.len() ==> (
                #[trigger] readings.update_tablets[i]) is Ok;
            let listed = read_mappings(
                envelope.tablet_mapping,
                readings.component_ids,
                envelope.tablet_mapping.len(),
            );
            &&& !versioned ==> error.kind is UnsupportedVersion && error.detail == text::decimal(
                envelope.schema_version as nat,
            ) + "; expected 2"@
            &&& versioned && !placed ==> error.kind is NullDataPartition
            &&& versioned && placed && !readable ==> error.kind is UndecodableUpdate
            &&& versioned && placed && readable && listed is Err ==> error == listed->Err_0
            &&& versioned && placed && readable && listed is Ok && envelope.ts <= i64::MAX
                ==> error.kind is MissingTabletIdentity
            &&& versioned && placed && readable && listed is Ok ==> error.kind
                is MissingTabletIdentity || (error.kind is TimestampOutOfRange && envelope.ts
                > i64::MAX && error.detail == text::decimal(envelope.ts as nat))
        },
{
    lemma_first_unreadable(readings.update_tablets, envelope.document_updates_proto.len());
}

} // verus!
