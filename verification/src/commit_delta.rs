//! What one commit changes, as nodes pass it to one another.

use vstd::prelude::*;

use crate::ordered::{NameSet, OrderedKey, SortedMap};
use crate::partition::{PartitionId, TableName, WriteSource};
use crate::text;
use crate::text::Relation;

verus! {

/// The time of a commit, in nanoseconds. It fits in a signed 64-bit integer.
#[derive(Clone, Copy, Debug, PartialEq, Eq, PartialOrd, Ord, Structural)]
pub struct Timestamp {
    nanos: u64,
}

/// The number can stand for a time.
pub open spec fn is_timestamp(value: u64) -> bool {
    value <= i64::MAX
}

impl View for Timestamp {
    type V = u64;

    closed spec fn view(&self) -> u64 {
        self.nanos
    }
}

impl Timestamp {
    #[verifier::type_invariant]
    spec fn fits(self) -> bool {
        is_timestamp(self.nanos)
    }

    /// Reads a time from a number.
    pub fn from_nanos(value: u64) -> (r: Option<Timestamp>)
        ensures
            r is Some <==> is_timestamp(value),
            r matches Some(ts) ==> ts@ == value,
    {
        if value <= i64::MAX as u64 {
            Some(Timestamp { nanos: value })
        } else {
            None
        }
    }

    pub fn nanos(&self) -> (r: u64)
        ensures
            r == self@,
            is_timestamp(self@),
    {
        proof {
            use_type_invariant(&*self);
        }
        self.nanos
    }
}

/// Identifies one incarnation of a table.
#[derive(Clone, Copy, Debug, PartialEq, Eq, PartialOrd, Ord, Hash)]
pub struct TabletId(pub [u8; 16]);

impl View for TabletId {
    type V = Seq<u8>;

    open spec fn view(&self) -> Seq<u8> {
        self.0@
    }
}

impl TabletId {
    /// Reads an identifier from its bytes.
    pub fn from_bytes(bytes: &[u8]) -> (r: Option<TabletId>)
        ensures
            r is Some <==> bytes@.len() == 16,
            r matches Some(id) ==> id@ == bytes@,
    {
        if bytes.len() != 16 {
            return None;
        }
        let id = TabletId(
            [
                bytes[0],
                bytes[1],
                bytes[2],
                bytes[3],
                bytes[4],
                bytes[5],
                bytes[6],
                bytes[7],
                bytes[8],
                bytes[9],
                bytes[10],
                bytes[11],
                bytes[12],
                bytes[13],
                bytes[14],
                bytes[15],
            ],
        );
        assert(id@ =~= bytes@);
        Some(id)
    }
}

impl OrderedKey for TabletId {
    type Model = Seq<u8>;

    open spec fn model(&self) -> Seq<u8> {
        self@
    }

    open spec fn before(a: Seq<u8>, b: Seq<u8>) -> bool {
        text::bytes_before(a, b)
    }

    proof fn before_is_total(a: Seq<u8>, b: Seq<u8>, c: Seq<u8>) {
        text::bytes_order_is_total(a, b, c);
    }

    fn relation(&self, other: &Self) -> (r: Relation) {
        text::relate_bytes(self.0.as_slice(), other.0.as_slice())
    }
}

/// The identifier of a document as clients see it, in its text form.
#[derive(Clone, Debug, PartialEq, Eq)]
pub struct PublicDocumentId {
    pub text: String,
}

/// The namespace that a table's name lives in.
#[derive(Clone, Debug, PartialEq, Eq)]
pub enum TableNamespace {
    Global,
    ByComponent(PublicDocumentId),
}

/// What a [`TableNamespace`] states.
pub enum NamespaceView {
    Global,
    ByComponent { component_id: Seq<char> },
}

impl View for TableNamespace {
    type V = NamespaceView;

    open spec fn view(&self) -> NamespaceView {
        match self {
            TableNamespace::Global => NamespaceView::Global,
            TableNamespace::ByComponent(id) => NamespaceView::ByComponent {
                component_id: id.text@,
            },
        }
    }
}

impl TableNamespace {
    pub fn duplicate(&self) -> (r: Self)
        ensures
            r@ == self@,
    {
        match self {
            TableNamespace::Global => TableNamespace::Global,
            TableNamespace::ByComponent(id) => TableNamespace::ByComponent(
                PublicDocumentId { text: id.text.clone() },
            ),
        }
    }
}

/// The namespace and name of a table, which stay the same on every node.
#[derive(Clone, Debug, PartialEq, Eq)]
pub struct DeltaTableIdentity {
    pub namespace: TableNamespace,
    pub table_name: TableName,
}

/// What a [`DeltaTableIdentity`] states.
pub struct TableIdentityView {
    pub namespace: NamespaceView,
    pub table_name: Seq<char>,
}

impl View for DeltaTableIdentity {
    type V = TableIdentityView;

    open spec fn view(&self) -> TableIdentityView {
        TableIdentityView { namespace: self.namespace@, table_name: self.table_name@ }
    }
}

impl DeltaTableIdentity {
    pub fn new(namespace: TableNamespace, table_name: TableName) -> (r: Self)
        ensures
            r@ == (TableIdentityView { namespace: namespace@, table_name: table_name@ }),
    {
        DeltaTableIdentity { namespace, table_name }
    }
}

/// A change to one document: the tablet that holds it, and the encoded change.
#[derive(Clone, Debug, PartialEq, Eq)]
pub struct DocumentUpdate {
    pub tablet_id: TabletId,
    pub encoded: Vec<u8>,
}

/// What a [`DocumentUpdate`] states.
pub struct UpdateView {
    pub tablet_id: Seq<u8>,
    pub encoded: Seq<u8>,
}

impl View for DocumentUpdate {
    type V = UpdateView;

    open spec fn view(&self) -> UpdateView {
        UpdateView { tablet_id: self.tablet_id@, encoded: self.encoded@ }
    }
}

/// Everything that one commit changes.
#[derive(Clone, Debug)]
pub struct CommitDelta {
    pub ts: Timestamp,
    /// The encoded document log entries.
    pub document_writes: Vec<Vec<u8>>,
    pub document_updates: Vec<DocumentUpdate>,
    /// The encoded index entries.
    pub index_writes: Vec<Vec<u8>>,
    pub write_source: WriteSource,
    pub write_bytes: u64,
    /// The stable identity of every tablet that the updates refer to.
    pub tablet_id_to_table_identity: SortedMap<TabletId, DeltaTableIdentity>,
    /// The partition that committed.
    pub source_partition: Option<PartitionId>,
}

/// What a [`CommitDelta`] states.
#[verifier::ext_equal]
pub struct DeltaView {
    pub ts: u64,
    pub document_writes: Seq<Seq<u8>>,
    pub document_updates: Seq<UpdateView>,
    pub index_writes: Seq<Seq<u8>>,
    pub write_source: Option<Seq<char>>,
    pub write_bytes: u64,
    pub identities: Map<Seq<u8>, TableIdentityView>,
    pub source_partition: Option<PartitionId>,
}

/// The views of byte strings.
pub open spec fn byte_strings(items: Seq<Vec<u8>>) -> Seq<Seq<u8>> {
    Seq::new(items.len(), |i: int| items[i]@)
}

/// The views of updates.
pub open spec fn updates_view(updates: Seq<DocumentUpdate>) -> Seq<UpdateView> {
    Seq::new(updates.len(), |i: int| updates[i]@)
}

/// The views of the identities, by tablet.
pub open spec fn identities_view(
    identities: Map<Seq<u8>, DeltaTableIdentity>,
) -> Map<Seq<u8>, TableIdentityView> {
    Map::new(|id: Seq<u8>| identities.dom().contains(id), |id: Seq<u8>| identities[id]@)
}

impl View for CommitDelta {
    type V = DeltaView;

    open spec fn view(&self) -> DeltaView {
        DeltaView {
            ts: self.ts@,
            document_writes: byte_strings(self.document_writes@),
            document_updates: updates_view(self.document_updates@),
            index_writes: byte_strings(self.index_writes@),
            write_source: self.write_source.name(),
            write_bytes: self.write_bytes,
            identities: identities_view(self.tablet_id_to_table_identity@),
            source_partition: self.source_partition,
        }
    }
}

impl DeltaView {
    /// One of the updates is to the tablet.
    pub open spec fn updates_tablet(self, tablet: Seq<u8>) -> bool {
        exists|i: int|
            0 <= i < self.document_updates.len() && (#[trigger] self.document_updates[i]).tablet_id
                == tablet
    }

    /// One of the updates is to a tablet of the table.
    pub open spec fn touches(self, table: Seq<char>) -> bool {
        exists|tablet: Seq<u8>|
            self.updates_tablet(tablet) && self.identities.dom().contains(tablet)
                && (#[trigger] self.identities[tablet]).table_name == table
    }
}

impl CommitDelta {
    pub open spec fn wf(&self) -> bool {
        self.tablet_id_to_table_identity.wf()
    }

    /// The names of the tables that the updates are to.
    pub fn touched_table_names(&self) -> (r: NameSet)
        requires
            self.wf(),
        ensures
            r.wf(),
            forall|table: Seq<char>| r@.dom().contains(table) <==> self@.touches(table),
    {
        let mut names: NameSet = SortedMap::new();
        let mut i: usize = 0;
        while i < self.document_updates.len()
            invariant
                self.wf(),
                names.wf(),
                i <= self.document_updates@.len(),
                forall|table: Seq<char>|
                    names@.dom().contains(table) ==> self@.touches(table),
                forall|k: int|
                    0 <= k < i && self@.identities.dom().contains(
                        (#[trigger] self@.document_updates[k]).tablet_id,
                    ) ==> names@.dom().contains(
                        self@.identities[self@.document_updates[k].tablet_id].table_name,
                    ),
            decreases self.document_updates@.len() - i,
        {
            let ghost tablet = self@.document_updates[i as int].tablet_id;
            assert(tablet == self.document_updates@[i as int].tablet_id@);
            match self.tablet_id_to_table_identity.get(&self.document_updates[i].tablet_id) {
                Some(identity) => {
                    let name = identity.table_name.as_str().to_owned();
                    proof {
                        assert(self@.updates_tablet(tablet));
                        assert(self@.identities[tablet].table_name == name@);
                        assert(self@.touches(name@));
                    }
                    names.insert(name, ());
                },
                None => {},
            }
            i = i + 1;
        }
        proof {
            assert forall|table: Seq<char>| self@.touches(table) implies names@.dom().contains(
                table,
            ) by {
                let tablet = choose|tablet: Seq<u8>|
                    self@.updates_tablet(tablet) && self@.identities.dom().contains(tablet) && (
                    #[trigger] self@.identities[tablet]).table_name == table;
                let k = choose|k: int|
                    0 <= k < self@.document_updates.len() && (
                    #[trigger] self@.document_updates[k]).tablet_id == tablet;
                assert(self@.identities.dom().contains(self@.document_updates[k].tablet_id));
            }
        }
        names
    }
}

/// Which node and partition a commit comes from, where Raft hands it on to
/// the distributed log.
#[derive(Clone, Debug, PartialEq, Eq)]
pub struct RaftNatsOutboxOrigin {
    pub source_node: String,
    pub source_raft_node_id: u64,
    pub source_partition: PartitionId,
}

/// What a [`RaftNatsOutboxOrigin`] states.
pub struct OriginView {
    pub source_node: Seq<char>,
    pub source_raft_node_id: u64,
    pub source_partition: PartitionId,
}

impl View for RaftNatsOutboxOrigin {
    type V = OriginView;

    open spec fn view(&self) -> OriginView {
        OriginView {
            source_node: self.source_node@,
            source_raft_node_id: self.source_raft_node_id,
            source_partition: self.source_partition,
        }
    }
}

impl RaftNatsOutboxOrigin {
    /// An origin names its node: an empty name is refused.
    pub fn new(
        source_node: String,
        source_raft_node_id: u64,
        source_partition: PartitionId,
    ) -> (r: Option<Self>)
        ensures
            r is Some <==> source_node@.len() > 0,
            r matches Some(origin) ==> origin@ == (OriginView {
                source_node: source_node@,
                source_raft_node_id,
                source_partition,
            }),
    {
        if source_node.as_str().unicode_len() == 0 {
            return None;
        }
        Some(RaftNatsOutboxOrigin { source_node, source_raft_node_id, source_partition })
    }
}

/// Where a message stands in the stream of the distributed log.
#[derive(Clone, Copy, Debug, PartialEq, Eq, Structural)]
pub struct ReplicationTransportId(pub u64);

impl ReplicationTransportId {
    pub fn new(stream_sequence: u64) -> (r: Self)
        ensures
            r == ReplicationTransportId(stream_sequence),
    {
        ReplicationTransportId(stream_sequence)
    }

    pub fn stream_sequence(self) -> (r: u64)
        ensures
            r == self.0,
    {
        self.0
    }
}

/// Why a message can never be applied.
#[derive(Clone, Copy, Debug, PartialEq, Eq, Structural)]
pub enum ReplicationPoisonKind {
    MalformedEnvelope,
    UnsupportedEnvelopeVersion,
    InvalidDeltaPayload,
    RetentionGap,
    DeterministicApplyFailure,
}

/// A hole in the replicated log that no redelivery can fill.
#[derive(Clone, Debug, PartialEq, Eq)]
pub struct ReplicationPoisonGap {
    pub kind: ReplicationPoisonKind,
    pub consumer_name: Option<String>,
    pub subject: Option<String>,
    pub stream_sequence: Option<u64>,
    pub source_node: Option<String>,
    pub source_partition: Option<PartitionId>,
    pub origin_ts: Option<Timestamp>,
    pub reason: String,
}

/// What a [`ReplicationPoisonGap`] states.
#[verifier::ext_equal]
pub struct GapView {
    pub kind: ReplicationPoisonKind,
    pub consumer_name: Option<Seq<char>>,
    pub subject: Option<Seq<char>>,
    pub stream_sequence: Option<u64>,
    pub source_node: Option<Seq<char>>,
    pub source_partition: Option<PartitionId>,
    pub origin_ts: Option<u64>,
    pub reason: Seq<char>,
}

/// The view of a time that may be missing.
pub open spec fn time_view(ts: Option<Timestamp>) -> Option<u64> {
    match ts {
        Some(ts) => Some(ts@),
        None => None,
    }
}

impl View for ReplicationPoisonGap {
    type V = GapView;

    open spec fn view(&self) -> GapView {
        GapView {
            kind: self.kind,
            consumer_name: text::optional(self.consumer_name),
            subject: text::optional(self.subject),
            stream_sequence: self.stream_sequence,
            source_node: text::optional(self.source_node),
            source_partition: self.source_partition,
            origin_ts: time_view(self.origin_ts),
            reason: self.reason@,
        }
    }
}

impl ReplicationPoisonGap {
    /// The text of the error.
    pub fn message(&self) -> (r: String)
        ensures
            r@ == "replication poison gap: "@ + self@.reason,
    {
        let mut s = "replication poison gap: ".to_owned();
        s.append(self.reason.as_str());
        s
    }
}

/// A number is a time exactly where it fits in a signed 64-bit integer.
pub proof fn times_fit_in_signed_integers(value: u64)
    ensures
        is_timestamp(value) <==> value <= 9_223_372_036_854_775_807,
{
}

/// A commit touches a table exactly where one of its updates, at any place, is
/// to a tablet that it identifies as one of that table.
pub proof fn any_update_touches_its_table(delta: DeltaView, i: int, table: Seq<char>)
    ensures
        0 <= i < delta.document_updates.len() && delta.identities.dom().contains(
            delta.document_updates[i].tablet_id,
        ) && delta.identities[delta.document_updates[i].tablet_id].table_name == table
            ==> delta.touches(table),
        delta.touches(table) ==> exists|k: int|
            0 <= k < delta.document_updates.len() && delta.identities.dom().contains(
                (#[trigger] delta.document_updates[k]).tablet_id,
            ) && delta.identities[delta.document_updates[k].tablet_id].table_name == table,
{
    if 0 <= i < delta.document_updates.len() {
        let tablet = delta.document_updates[i].tablet_id;
        assert(delta.updates_tablet(tablet));
        assert(delta.identities[tablet].table_name == delta.identities[tablet].table_name);
    }
    if delta.touches(table) {
        let tablet = choose|tablet: Seq<u8>|
            delta.updates_tablet(tablet) && delta.identities.dom().contains(tablet) && (
            #[trigger] delta.identities[tablet]).table_name == table;
        let k = choose|k: int|
            0 <= k < delta.document_updates.len() && (
            #[trigger] delta.document_updates[k]).tablet_id == tablet;
        assert(delta.identities.dom().contains(delta.document_updates[k].tablet_id));
    }
}

/// What a commit states is all of its parts, item for item.
pub proof fn commits_state_all_their_parts(delta: CommitDelta, i: int)
    ensures
        delta@.ts == delta.ts@,
        delta@.write_bytes == delta.write_bytes,
        delta@.source_partition == delta.source_partition,
        delta@.write_source == (match delta.write_source.0 {
            Some(name) => Some(name@),
            None => None,
        }),
        delta@.document_updates.len() == delta.document_updates@.len(),
        delta@.document_writes.len() == delta.document_writes@.len(),
        delta@.index_writes.len() == delta.index_writes@.len(),
        0 <= i < delta.document_updates@.len() ==> delta@.document_updates[i].tablet_id
            == delta.document_updates@[i].tablet_id@ && delta@.document_updates[i].encoded
            == delta.document_updates@[i].encoded@,
        0 <= i < delta.document_writes@.len() ==> delta@.document_writes[i]
            == delta.document_writes@[i]@,
        0 <= i < delta.index_writes@.len() ==> delta@.index_writes[i] == delta.index_writes@[i]@,
{
}

} // verus!
