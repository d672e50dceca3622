//! The messages of distributed reactive invalidation, and when a committed
//! write invalidates a registered dependency.

use vstd::prelude::*;

use crate::text;
use crate::text::Relation;

verus! {

/// Wire contract version for distributed reactive invalidation ownership.
pub const INVALIDATION_OWNERSHIP_PROTOCOL_VERSION: u16 = 1;

/// Stable identity of one invalidation-matching owner.
///
/// This is a string rather than a partition id because future catalog versions
/// may split one partition's matching responsibility without changing this
/// protocol.
#[derive(Clone, Debug, PartialEq, Eq, PartialOrd, Ord)]
pub struct InvalidationOwnerId(pub String);

/// Stable identity of one logical subscription registration.
#[derive(Clone, Debug, PartialEq, Eq, PartialOrd, Ord)]
pub struct InvalidationRegistrationId(pub String);

/// Cursor in the globally ordered committed-write domain.
#[derive(Clone, Copy, Debug, PartialEq, Eq, PartialOrd, Ord, Structural)]
pub struct InvalidationCursor(pub u64);

/// An index name in the ownership protocol.
#[derive(Clone, Debug, PartialEq, Eq, PartialOrd, Ord)]
pub struct InvalidationIndex {
    /// Stable tablet identity from the catalog version named by the
    /// registration.
    pub tablet_id: String,
    pub descriptor: String,
}

/// A query dependency registered with an invalidation owner.
#[derive(Clone, Debug, PartialEq, Eq, PartialOrd, Ord)]
pub enum InvalidationDependency {
    Point { index: InvalidationIndex, key: Vec<u8> },
    IndexRange {
        index: InvalidationIndex,
        start_inclusive: Vec<u8>,
        end_exclusive: Option<Vec<u8>>,
    },
    TableScan { tablet_id: String },
}

/// Registration sent to exactly one invalidation owner.
///
/// `catalog_version` is copied from the existing catalog/placement authority.
/// This subsystem never allocates or advances it. The dependencies are a set:
/// neither their order nor a repetition carries meaning.
#[derive(Clone, Debug, PartialEq, Eq)]
pub struct InvalidationRegistration {
    pub protocol_version: u16,
    pub registration_id: InvalidationRegistrationId,
    /// Monotonic incarnation of this logical registration id.
    pub generation: u64,
    pub owner_id: InvalidationOwnerId,
    pub catalog_version: u64,
    pub evaluation_cursor: InvalidationCursor,
    pub dependencies: Vec<InvalidationDependency>,
}

/// Generation-aware removal of one logical subscription registration.
///
/// Owners retain this message as a tombstone. A delayed registration or
/// unregistration at an older generation therefore cannot resurrect or remove
/// a newer incarnation.
#[derive(Clone, Debug, PartialEq, Eq)]
pub struct InvalidationUnregistration {
    pub protocol_version: u16,
    pub registration_id: InvalidationRegistrationId,
    pub generation: u64,
    pub owner_id: InvalidationOwnerId,
    pub catalog_version: u64,
}

/// The keys that one write touched in one index.
#[derive(Clone, Debug, PartialEq, Eq)]
pub struct IndexKeys {
    pub descriptor: String,
    pub keys: Vec<Vec<u8>>,
}

/// One table write and its old/new index keys.
///
/// `index_keys_complete` certifies that `index_keys` includes both old and new
/// keys for every known index under this event's catalog version. If it is
/// false, all point/range dependencies on this table match conservatively.
/// Entries of `index_keys` for one descriptor count together as one key set.
#[derive(Clone, Debug, PartialEq, Eq)]
pub struct InvalidationWrite {
    pub tablet_id: String,
    pub index_keys_complete: bool,
    pub index_keys: Vec<IndexKeys>,
}

/// Stable identity of one canonical committed event in an owner's sequence.
#[derive(Clone, Debug, PartialEq, Eq, PartialOrd, Ord)]
pub struct InvalidationEventId {
    pub owner_id: InvalidationOwnerId,
    pub owner_sequence: u64,
}

/// A committed write event evaluated by one invalidation owner.
#[derive(Clone, Debug, PartialEq, Eq)]
pub struct InvalidationEvent {
    pub protocol_version: u16,
    pub event_id: InvalidationEventId,
    /// Must equal the owner's last applied sequence.
    pub predecessor_owner_sequence: u64,
    /// Global visibility cursor; deliberately separate from owner-local order.
    pub commit_cursor: InvalidationCursor,
    pub catalog_version: u64,
    pub writes: Vec<InvalidationWrite>,
}

/// Deduplicatable identity delivered to a subscription host.
#[derive(Clone, Debug, PartialEq, Eq, PartialOrd, Ord)]
pub struct InvalidationIdentity {
    pub registration_id: InvalidationRegistrationId,
    pub registration_generation: u64,
    pub event_id: InvalidationEventId,
    pub commit_cursor: InvalidationCursor,
}

/// Exact interval validated while atomically installing a registration.
#[derive(Clone, Debug, PartialEq, Eq)]
pub struct RegistrationReplay {
    /// Query evaluation included all writes at or before this cursor.
    pub from_exclusive: InvalidationCursor,
    /// Owner registration was linearized after replaying through this cursor.
    pub through_inclusive: InvalidationCursor,
    pub through_owner_sequence_inclusive: u64,
    pub invalidations: Vec<InvalidationIdentity>,
}

#[derive(Clone, Copy, Debug, PartialEq, Eq, Structural)]
pub enum InvalidationRegistryError {
    UnsupportedProtocol { received: u16 },
    WrongOwner,
    CatalogVersionMismatch { expected: u64, received: u64 },
    OwnerBehind { owner_cursor: InvalidationCursor, evaluation_cursor: InvalidationCursor },
    ReplayGap {
        retained_from_exclusive: InvalidationCursor,
        evaluation_cursor: InvalidationCursor,
    },
    StaleRegistrationGeneration { current: u64, received: u64 },
    RegistrationGenerationCollision { generation: u64 },
    EventIdentityCollision { owner_sequence: u64 },
    EventOutsideReplayWindow {
        owner_sequence: u64,
        retained_from_owner_sequence_exclusive: u64,
    },
    OwnerSequenceGap {
        expected_sequence: u64,
        received_sequence: u64,
        expected_predecessor: u64,
        received_predecessor: u64,
    },
    ReorderedCommitCursor { owner_cursor: InvalidationCursor, event_cursor: InvalidationCursor },
}

/// What an [`InvalidationIndex`] names.
pub struct IndexView {
    pub tablet_id: Seq<char>,
    pub descriptor: Seq<char>,
}

/// What an [`InvalidationDependency`] stands for.
pub enum DependencyView {
    Point { index: IndexView, key: Seq<u8> },
    IndexRange { index: IndexView, start_inclusive: Seq<u8>, end_exclusive: Option<Seq<u8>> },
    TableScan { tablet_id: Seq<char> },
}

/// What an [`InvalidationRegistration`] stands for.
pub struct RegistrationView {
    pub protocol_version: u16,
    pub registration_id: Seq<char>,
    pub generation: u64,
    pub owner_id: Seq<char>,
    pub catalog_version: u64,
    pub evaluation_cursor: u64,
    pub dependencies: Set<DependencyView>,
}

/// What an [`InvalidationUnregistration`] stands for.
pub struct UnregistrationView {
    pub protocol_version: u16,
    pub registration_id: Seq<char>,
    pub generation: u64,
    pub owner_id: Seq<char>,
    pub catalog_version: u64,
}

/// What an [`InvalidationWrite`] stands for: the indexes with key material,
/// and the (descriptor, key) pairs in it.
pub struct WriteView {
    pub tablet_id: Seq<char>,
    pub index_keys_complete: bool,
    pub descriptors: Set<Seq<char>>,
    pub keys: Set<(Seq<char>, Seq<u8>)>,
}

/// What an [`InvalidationEvent`] stands for.
pub struct EventView {
    pub protocol_version: u16,
    pub owner_id: Seq<char>,
    pub owner_sequence: u64,
    pub predecessor_owner_sequence: u64,
    pub commit_cursor: u64,
    pub catalog_version: u64,
    pub writes: Seq<WriteView>,
}

/// What an [`InvalidationIdentity`] stands for.
pub struct IdentityView {
    pub registration_id: Seq<char>,
    pub registration_generation: u64,
    pub owner_id: Seq<char>,
    pub owner_sequence: u64,
    pub commit_cursor: u64,
}

/// What a [`RegistrationReplay`] stands for.
pub struct ReplayView {
    pub from_exclusive: u64,
    pub through_inclusive: u64,
    pub through_owner_sequence_inclusive: u64,
    pub invalidations: Seq<IdentityView>,
}

impl View for InvalidationIndex {
    type V = IndexView;

    open spec fn view(&self) -> IndexView {
        IndexView { tablet_id: self.tablet_id@, descriptor: self.descriptor@ }
    }
}

/// The bytes of an optional end key.
pub open spec fn end_view(end: Option<Vec<u8>>) -> Option<Seq<u8>> {
    match end {
        Some(end) => Some(end@),
        None => None,
    }
}

impl View for InvalidationDependency {
    type V = DependencyView;

    open spec fn view(&self) -> DependencyView {
        match *self {
            InvalidationDependency::Point { index, key } => DependencyView::Point {
                index: index@,
                key: key@,
            },
            InvalidationDependency::IndexRange { index, start_inclusive, end_exclusive } =>
                DependencyView::IndexRange {
                index: index@,
                start_inclusive: start_inclusive@,
                end_exclusive: end_view(end_exclusive),
            },
            InvalidationDependency::TableScan { tablet_id } => DependencyView::TableScan {
                tablet_id: tablet_id@,
            },
        }
    }
}

/// The set of dependencies in a sequence of them.
pub open spec fn dependency_set(s: Seq<InvalidationDependency>) -> Set<DependencyView> {
    Set::new(|d: DependencyView| exists|i: int| 0 <= i < s.len() && (#[trigger] s[i])@ == d)
}

impl View for InvalidationRegistration {
    type V = RegistrationView;

    open spec fn view(&self) -> RegistrationView {
        RegistrationView {
            protocol_version: self.protocol_version,
            registration_id: self.registration_id.0@,
            generation: self.generation,
            owner_id: self.owner_id.0@,
            catalog_version: self.catalog_version,
            evaluation_cursor: self.evaluation_cursor.0,
            dependencies: dependency_set(self.dependencies@),
        }
    }
}

impl View for InvalidationUnregistration {
    type V = UnregistrationView;

    open spec fn view(&self) -> UnregistrationView {
        UnregistrationView {
            protocol_version: self.protocol_version,
            registration_id: self.registration_id.0@,
            generation: self.generation,
            owner_id: self.owner_id.0@,
            catalog_version: self.catalog_version,
        }
    }
}

/// The descriptors with key material.
pub open spec fn descriptor_set(s: Seq<IndexKeys>) -> Set<Seq<char>> {
    Set::new(|d: Seq<char>| exists|i: int| 0 <= i < s.len() && (#[trigger] s[i]).descriptor@ == d)
}

/// `key` is among the keys listed for `descriptor`.
pub open spec fn lists_key(s: Seq<IndexKeys>, descriptor: Seq<char>, key: Seq<u8>) -> bool {
    exists|i: int, j: int|
        0 <= i < s.len() && s[i].descriptor@ == descriptor && 0 <= j < s[i].keys@.len() && (
        #[trigger] s[i].keys@[j])@ == key
}

/// The (descriptor, key) pairs in the key material.
pub open spec fn key_set(s: Seq<IndexKeys>) -> Set<(Seq<char>, Seq<u8>)> {
    Set::new(|p: (Seq<char>, Seq<u8>)| lists_key(s, p.0, p.1))
}

impl View for InvalidationWrite {
    type V = WriteView;

    open spec fn view(&self) -> WriteView {
        WriteView {
            tablet_id: self.tablet_id@,
            index_keys_complete: self.index_keys_complete,
            descriptors: descriptor_set(self.index_keys@),
            keys: key_set(self.index_keys@),
        }
    }
}

impl View for InvalidationEvent {
    type V = EventView;

    open spec fn view(&self) -> EventView {
        EventView {
            protocol_version: self.protocol_version,
            owner_id: self.event_id.owner_id.0@,
            owner_sequence: self.event_id.owner_sequence,
            predecessor_owner_sequence: self.predecessor_owner_sequence,
            commit_cursor: self.commit_cursor.0,
            catalog_version: self.catalog_version,
            writes: Seq::new(self.writes@.len(), |i: int| self.writes@[i]@),
        }
    }
}

impl View for InvalidationIdentity {
    type V = IdentityView;

    open spec fn view(&self) -> IdentityView {
        IdentityView {
            registration_id: self.registration_id.0@,
            registration_generation: self.registration_generation,
            owner_id: self.event_id.owner_id.0@,
            owner_sequence: self.event_id.owner_sequence,
            commit_cursor: self.commit_cursor.0,
        }
    }
}

/// The identities in a sequence of them.
pub open spec fn identity_views(s: Seq<InvalidationIdentity>) -> Seq<IdentityView> {
    Seq::new(s.len(), |i: int| s[i]@)
}

impl View for RegistrationReplay {
    type V = ReplayView;

    open spec fn view(&self) -> ReplayView {
        ReplayView {
            from_exclusive: self.from_exclusive.0,
            through_inclusive: self.through_inclusive.0,
            through_owner_sequence_inclusive: self.through_owner_sequence_inclusive,
            invalidations: identity_views(self.invalidations@),
        }
    }
}

impl DependencyView {
    /// The tablet that the dependency reads.
    pub open spec fn tablet_id(self) -> Seq<char> {
        match self {
            DependencyView::Point { index, key } => index.tablet_id,
            DependencyView::IndexRange { index, start_inclusive, end_exclusive } => index.tablet_id,
            DependencyView::TableScan { tablet_id } => tablet_id,
        }
    }

    /// The index that the dependency reads, if it reads through one.
    pub open spec fn descriptor(self) -> Option<Seq<char>> {
        match self {
            DependencyView::Point { index, key } => Some(index.descriptor),
            DependencyView::IndexRange { index, start_inclusive, end_exclusive } => Some(
                index.descriptor,
            ),
            DependencyView::TableScan { tablet_id } => None,
        }
    }
}

/// `key` lies in the range that starts at `start` and ends before `end`.
pub open spec fn in_range(key: Seq<u8>, start: Seq<u8>, end: Option<Seq<u8>>) -> bool {
    &&& !text::bytes_before(key, start)
    &&& end matches Some(end) ==> text::bytes_before(key, end)
}

/// A key of the index lies in the range.
pub open spec fn some_key_in_range(
    keys: Set<(Seq<char>, Seq<u8>)>,
    descriptor: Seq<char>,
    start: Seq<u8>,
    end: Option<Seq<u8>>,
) -> bool {
    exists|key: Seq<u8>| #[trigger] keys.contains((descriptor, key)) && in_range(key, start, end)
}

/// The key material cannot show that the write left the index alone: it is
/// incomplete, or holds nothing for the index.
pub open spec fn keys_unknown(write: WriteView, descriptor: Seq<char>) -> bool {
    !write.index_keys_complete || !write.descriptors.contains(descriptor)
}

/// The write invalidates the dependency.
pub open spec fn dependency_matches(dependency: DependencyView, write: WriteView) -> bool {
    dependency.tablet_id() == write.tablet_id && match dependency {
        DependencyView::TableScan { tablet_id } => true,
        DependencyView::Point { index, key } => {
            keys_unknown(write, index.descriptor) || write.keys.contains((index.descriptor, key))
        },
        DependencyView::IndexRange { index, start_inclusive, end_exclusive } => {
            keys_unknown(write, index.descriptor) || some_key_in_range(
                write.keys,
                index.descriptor,
                start_inclusive,
                end_exclusive,
            )
        },
    }
}

/// Some write of the event invalidates some dependency of the set.
pub open spec fn event_matches(event: EventView, dependencies: Set<DependencyView>) -> bool {
    exists|d: DependencyView, i: int|
        #![trigger dependencies.contains(d), event.writes[i]]
        dependencies.contains(d) && 0 <= i < event.writes.len() && dependency_matches(
            d,
            event.writes[i],
        )
}

/// The identity that tells `registration` of `event`.
pub open spec fn identity_of(registration: RegistrationView, event: EventView) -> IdentityView {
    IdentityView {
        registration_id: registration.registration_id,
        registration_generation: registration.generation,
        owner_id: event.owner_id,
        owner_sequence: event.owner_sequence,
        commit_cursor: event.commit_cursor,
    }
}

/// A write touches what a dependency reads: the table, or a key in the range.
pub open spec fn touches(dependency: DependencyView, write: WriteView) -> bool {
    dependency.tablet_id() == write.tablet_id && match dependency {
        DependencyView::TableScan { tablet_id } => true,
        DependencyView::Point { index, key } => write.keys.contains((index.descriptor, key)),
        DependencyView::IndexRange { index, start_inclusive, end_exclusive } => {
            some_key_in_range(write.keys, index.descriptor, start_inclusive, end_exclusive)
        },
    }
}

/// Matching is conservative: a write that touches what a dependency reads
/// always matches it. Where the key material can tell, a match is exact.
pub proof fn matching_has_no_false_negatives(dependency: DependencyView, write: WriteView)
    ensures
        touches(dependency, write) ==> dependency_matches(dependency, write),
        (dependency.descriptor() matches Some(d) ==> !keys_unknown(write, d)) ==> (
        dependency_matches(dependency, write) ==> touches(dependency, write)),
{
}

/// The write's old and new keys are only partly known, so every point and
/// range dependency on its table matches.
pub proof fn incomplete_keys_match_every_dependency(dependency: DependencyView, write: WriteView)
    requires
        !write.index_keys_complete,
    ensures
        dependency_matches(dependency, write) <==> dependency.tablet_id() == write.tablet_id,
{
}

impl InvalidationIndex {
    pub fn duplicate(&self) -> (r: Self)
        ensures
            r@ == self@,
    {
        InvalidationIndex {
            tablet_id: self.tablet_id.clone(),
            descriptor: self.descriptor.clone(),
        }
    }

    /// Whether the two indexes are the same.
    pub fn same(&self, other: &Self) -> (r: bool)
        ensures
            r == (self@ == other@),
    {
        self.tablet_id == other.tablet_id && self.descriptor == other.descriptor
    }
}

/// Whether two byte strings are the same.
pub fn same_bytes(a: &Vec<u8>, b: &Vec<u8>) -> (r: bool)
    ensures
        r == (a@ == b@),
{
    match text::relate_bytes(a.as_slice(), b.as_slice()) {
        Relation::Same => true,
        _ => false,
    }
}

/// Whether the key lies in the range that starts at `start` and ends before
/// `end`.
pub fn key_in_range(key: &Vec<u8>, start: &Vec<u8>, end: &Option<Vec<u8>>) -> (r: bool)
    ensures
        r == in_range(key@, start@, end_view(*end)),
{
    match text::relate_bytes(key.as_slice(), start.as_slice()) {
        Relation::Before => {
            return false;
        },
        _ => {},
    }
    match end {
        None => true,
        Some(end) => match text::relate_bytes(key.as_slice(), end.as_slice()) {
            Relation::Before => true,
            _ => false,
        },
    }
}

impl InvalidationDependency {
    pub fn tablet_id(&self) -> (r: &str)
        ensures
            r@ == self@.tablet_id(),
    {
        match self {
            InvalidationDependency::Point { index, .. } => index.tablet_id.as_str(),
            InvalidationDependency::IndexRange { index, .. } => index.tablet_id.as_str(),
            InvalidationDependency::TableScan { tablet_id } => tablet_id.as_str(),
        }
    }

    pub fn duplicate(&self) -> (r: Self)
        ensures
            r@ == self@,
    {
        match self {
            InvalidationDependency::Point { index, key } => InvalidationDependency::Point {
                index: index.duplicate(),
                key: key.clone(),
            },
            InvalidationDependency::IndexRange { index, start_inclusive, end_exclusive } => {
                let end_exclusive: Option<Vec<u8>> = match end_exclusive {
                    Some(end) => Some(end.clone()),
                    None => None,
                };
                InvalidationDependency::IndexRange {
                    index: index.duplicate(),
                    start_inclusive: start_inclusive.clone(),
                    end_exclusive,
                }
            },
            InvalidationDependency::TableScan { tablet_id } => InvalidationDependency::TableScan {
                tablet_id: tablet_id.clone(),
            },
        }
    }

    /// Whether the two dependencies are the same.
    pub fn same(&self, other: &Self) -> (r: bool)
        ensures
            r == (self@ == other@),
    {
        match (self, other) {
            (
                InvalidationDependency::Point { index, key },
                InvalidationDependency::Point { index: other_index, key: other_key },
            ) => index.same(other_index) && same_bytes(key, other_key),
            (
                InvalidationDependency::IndexRange { index, start_inclusive, end_exclusive },
                InvalidationDependency::IndexRange {
                    index: other_index,
                    start_inclusive: other_start,
                    end_exclusive: other_end,
                },
            ) => {
                let same_end = match (end_exclusive, other_end) {
                    (Some(end), Some(other)) => same_bytes(end, other),
                    (None, None) => true,
                    _ => false,
                };
                index.same(other_index) && same_bytes(start_inclusive, other_start) && same_end
            },
            (
                InvalidationDependency::TableScan { tablet_id },
                InvalidationDependency::TableScan { tablet_id: other_tablet },
            ) => *tablet_id == *other_tablet,
            _ => false,
        }
    }

    /// Whether the write invalidates this dependency.
    pub fn matches(&self, write: &InvalidationWrite) -> (r: bool)
        ensures
            r == dependency_matches(self@, write@),
    {
        match self {
            InvalidationDependency::TableScan { tablet_id } => *tablet_id == write.tablet_id,
            InvalidationDependency::Point { index, key } => {
                if index.tablet_id != write.tablet_id {
                    return false;
                }
                let known = write.index_keys_complete && has_descriptor(
                    &write.index_keys,
                    &index.descriptor,
                );
                assert(known == !keys_unknown(write@, index@.descriptor));
                !known || has_key(&write.index_keys, &index.descriptor, key)
            },
            InvalidationDependency::IndexRange { index, start_inclusive, end_exclusive } => {
                if index.tablet_id != write.tablet_id {
                    return false;
                }
                let known = write.index_keys_complete && has_descriptor(
                    &write.index_keys,
                    &index.descriptor,
                );
                assert(known == !keys_unknown(write@, index@.descriptor));
                !known || has_key_in_range(
                    &write.index_keys,
                    &index.descriptor,
                    start_inclusive,
                    end_exclusive,
                )
            },
        }
    }
}

/// Whether the key material covers the index.
fn has_descriptor(index_keys: &Vec<IndexKeys>, descriptor: &String) -> (r: bool)
    ensures
        r == descriptor_set(index_keys@).contains(descriptor@),
{
    let mut i: usize = 0;
    while i < index_keys.len()
        invariant
            i <= index_keys@.len(),
            forall|k: int| 0 <= k < i ==> (#[trigger] index_keys@[k]).descriptor@ != descriptor@,
        decreases index_keys@.len() - i,
    {
        if index_keys[i].descriptor == *descriptor {
            assert(index_keys@[i as int].descriptor@ == descriptor@);
            return true;
        }
        i = i + 1;
    }
    false
}

/// Whether the key is listed for the index.
fn has_key(index_keys: &Vec<IndexKeys>, descriptor: &String, key: &Vec<u8>) -> (r: bool)
    ensures
        r == lists_key(index_keys@, descriptor@, key@),
{
    let mut i: usize = 0;
    while i < index_keys.len()
        invariant
            i <= index_keys@.len(),
            forall|k: int, j: int|
                0 <= k < i && index_keys@[k].descriptor@ == descriptor@ && 0 <= j
                    < index_keys@[k].keys@.len() ==> (#[trigger] index_keys@[k].keys@[j])@ != key@,
        decreases index_keys@.len() - i,
    {
        let entry = &index_keys[i];
        if entry.descriptor == *descriptor {
            let mut j: usize = 0;
            while j < entry.keys.len()
                invariant
                    i < index_keys@.len(),
                    *entry == index_keys@[i as int],
                    entry.descriptor@ == descriptor@,
                    j <= entry.keys@.len(),
                    forall|l: int| 0 <= l < j ==> (#[trigger] entry.keys@[l])@ != key@,
                decreases entry.keys@.len() - j,
            {
                if same_bytes(&entry.keys[j], key) {
                    assert(index_keys@[i as int].keys@[j as int]@ == key@);
                    return true;
                }
                j = j + 1;
            }
        }
        i = i + 1;
    }
    false
}

/// Whether a key listed for the index lies in the range.
fn has_key_in_range(
    index_keys: &Vec<IndexKeys>,
    descriptor: &String,
    start: &Vec<u8>,
    end: &Option<Vec<u8>>,
) -> (r: bool)
    ensures
        r == some_key_in_range(key_set(index_keys@), descriptor@, start@, end_view(*end)),
{
    let mut i: usize = 0;
    while i < index_keys.len()
        invariant
            i <= index_keys@.len(),
            forall|k: int, j: int|
                0 <= k < i && index_keys@[k].descriptor@ == descriptor@ && 0 <= j
                    < index_keys@[k].keys@.len() ==> !in_range(
                    (#[trigger] index_keys@[k].keys@[j])@,
                    start@,
                    end_view(*end),
                ),
        decreases index_keys@.len() - i,
    {
        let entry = &index_keys[i];
        if entry.descriptor == *descriptor {
            let mut j: usize = 0;
            while j < entry.keys.len()
                invariant
                    i < index_keys@.len(),
                    *entry == index_keys@[i as int],
                    entry.descriptor@ == descriptor@,
                    j <= entry.keys@.len(),
                    forall|l: int|
                        0 <= l < j ==> !in_range(
                            (#[trigger] entry.keys@[l])@,
                            start@,
                            end_view(*end),
                        ),
                decreases entry.keys@.len() - j,
            {
                if key_in_range(&entry.keys[j], start, end) {
                    proof {
                        let key = index_keys@[i as int].keys@[j as int]@;
                        assert(lists_key(index_keys@, descriptor@, key));
                        assert(key_set(index_keys@).contains((descriptor@, key)));
                    }
                    return true;
                }
                j = j + 1;
            }
        }
        i = i + 1;
    }
    proof {
        assert forall|key: Seq<u8>| #[trigger]
            key_set(index_keys@).contains((descriptor@, key)) implies !in_range(
            key,
            start@,
            end_view(*end),
        ) by {
            assert(lists_key(index_keys@, descriptor@, key));
            let (k, j) = choose|k: int, j: int|
                0 <= k < index_keys@.len() && index_keys@[k].descriptor@ == descriptor@ && 0 <= j
                    < index_keys@[k].keys@.len() && (#[trigger] index_keys@[k].keys@[j])@ == key;
        }
    }
    false
}

/// Whether every index and key in `a` is in `b`.
fn keys_within(a: &Vec<IndexKeys>, b: &Vec<IndexKeys>) -> (r: bool)
    ensures
        r == (descriptor_set(a@).subset_of(descriptor_set(b@)) && key_set(a@).subset_of(
            key_set(b@),
        )),
{
    let mut i: usize = 0;
    while i < a.len()
        invariant
            i <= a@.len(),
            forall|k: int|
                0 <= k < i ==> descriptor_set(b@).contains((#[trigger] a@[k]).descriptor@),
            forall|k: int, j: int|
                0 <= k < i && 0 <= j < a@[k].keys@.len() ==> lists_key(
                    b@,
                    a@[k].descriptor@,
                    (#[trigger] a@[k].keys@[j])@,
                ),
        decreases a@.len() - i,
    {
        let entry = &a[i];
        if !has_descriptor(b, &entry.descriptor) {
            proof {
                assert(descriptor_set(a@).contains(a@[i as int].descriptor@));
            }
            return false;
        }
        let mut j: usize = 0;
        while j < entry.keys.len()
            invariant
                i < a@.len(),
                *entry == a@[i as int],
                j <= entry.keys@.len(),
                forall|l: int|
                    0 <= l < j ==> lists_key(
                        b@,
                        entry.descriptor@,
                        (#[trigger] entry.keys@[l])@,
                    ),
            decreases entry.keys@.len() - j,
        {
            if !has_key(b, &entry.descriptor, &entry.keys[j]) {
                proof {
                    let p = (a@[i as int].descriptor@, a@[i as int].keys@[j as int]@);
                    assert(lists_key(a@, p.0, p.1));
                    assert(key_set(a@).contains(p));
                    assert(!key_set(b@).contains(p));
                }
                return false;
            }
            j = j + 1;
        }
        i = i + 1;
    }
    proof {
        assert forall|p: (Seq<char>, Seq<u8>)| #[trigger] key_set(a@).contains(p) implies key_set(
            b@,
        ).contains(p) by {
            assert(lists_key(a@, p.0, p.1));
            let (k, j) = choose|k: int, j: int|
                0 <= k < a@.len() && a@[k].descriptor@ == p.0 && 0 <= j < a@[k].keys@.len() && (
                #[trigger] a@[k].keys@[j])@ == p.1;
            assert(lists_key(b@, a@[k].descriptor@, a@[k].keys@[j]@));
        }
    }
    true
}

impl InvalidationWrite {
    /// Whether the two writes carry the same information.
    pub fn same(&self, other: &Self) -> (r: bool)
        ensures
            r == (self@ == other@),
    {
        if self.tablet_id != other.tablet_id {
            return false;
        }
        if self.index_keys_complete != other.index_keys_complete {
            return false;
        }
        let forth = keys_within(&self.index_keys, &other.index_keys);
        let back = keys_within(&other.index_keys, &self.index_keys);
        proof {
            if forth && back {
                assert(self@.descriptors =~= other@.descriptors);
                assert(self@.keys =~= other@.keys);
            }
        }
        forth && back
    }
}

impl InvalidationEvent {
    /// Whether the two events carry the same information.
    pub fn same(&self, other: &Self) -> (r: bool)
        ensures
            r == (self@ == other@),
    {
        if self.protocol_version != other.protocol_version || self.event_id.owner_sequence
            != other.event_id.owner_sequence || self.predecessor_owner_sequence
            != other.predecessor_owner_sequence || self.commit_cursor.0 != other.commit_cursor.0
            || self.catalog_version != other.catalog_version {
            return false;
        }
        if self.event_id.owner_id.0 != other.event_id.owner_id.0 {
            return false;
        }
        if self.writes.len() != other.writes.len() {
            assert(self@.writes.len() != other@.writes.len());
            return false;
        }
        let mut i: usize = 0;
        while i < self.writes.len()
            invariant
                i <= self.writes@.len(),
                self.writes@.len() == other.writes@.len(),
                forall|k: int|
                    0 <= k < i ==> (#[trigger] self.writes@[k])@ == other.writes@[k]@,
            decreases self.writes@.len() - i,
        {
            if !self.writes[i].same(&other.writes[i]) {
                assert(self@.writes[i as int] != other@.writes[i as int]);
                return false;
            }
            i = i + 1;
        }
        assert(self@.writes =~= other@.writes);
        true
    }

    /// Whether some write of this event invalidates the registration.
    pub fn matches(&self, registration: &InvalidationRegistration) -> (r: bool)
        ensures
            r == event_matches(self@, registration@.dependencies),
    {
        let dependencies = &registration.dependencies;
        let mut i: usize = 0;
        while i < dependencies.len()
            invariant
                *dependencies == registration.dependencies,
                i <= dependencies@.len(),
                forall|k: int, j: int|
                    #![trigger dependencies@[k], self@.writes[j]]
                    0 <= k < i && 0 <= j < self@.writes.len() ==> !dependency_matches(
                        dependencies@[k]@,
                        self@.writes[j],
                    ),
            decreases dependencies@.len() - i,
        {
            let mut j: usize = 0;
            while j < self.writes.len()
                invariant
                    *dependencies == registration.dependencies,
                    i < dependencies@.len(),
                    j <= self.writes@.len(),
                    forall|l: int|
                        0 <= l < j ==> !dependency_matches(
                            dependencies@[i as int]@,
                            #[trigger] self@.writes[l],
                        ),
                decreases self.writes@.len() - j,
            {
                assert(self@.writes[j as int] == self.writes@[j as int]@);
                if dependencies[i].matches(&self.writes[j]) {
                    proof {
                        let d = dependencies@[i as int]@;
                        assert(registration@.dependencies.contains(d));
                        assert(dependency_matches(d, self@.writes[j as int]));
                    }
                    return true;
                }
                j = j + 1;
            }
            i = i + 1;
        }
        proof {
            if event_matches(self@, registration@.dependencies) {
                let (d, j) = choose|d: DependencyView, j: int|
                    #![trigger registration@.dependencies.contains(d), self@.writes[j]]
                    registration@.dependencies.contains(d) && 0 <= j < self@.writes.len()
                        && dependency_matches(d, self@.writes[j]);
                let k = choose|k: int|
                    0 <= k < registration.dependencies@.len() && (
                    #[trigger] registration.dependencies@[k])@ == d;
                assert(!dependency_matches(dependencies@[k]@, self@.writes[j]));
            }
        }
        false
    }
}

/// Whether every dependency in `a` is in `b`.
fn dependencies_within(
    a: &Vec<InvalidationDependency>,
    b: &Vec<InvalidationDependency>,
) -> (r: bool)
    ensures
        r == dependency_set(a@).subset_of(dependency_set(b@)),
{
    let mut i: usize = 0;
    while i < a.len()
        invariant
            i <= a@.len(),
            forall|k: int| 0 <= k < i ==> dependency_set(b@).contains((#[trigger] a@[k])@),
        decreases a@.len() - i,
    {
        if !has_dependency(b, &a[i]) {
            assert(dependency_set(a@).contains(a@[i as int]@));
            return false;
        }
        i = i + 1;
    }
    true
}

/// Whether the dependency is listed.
pub fn has_dependency(
    list: &Vec<InvalidationDependency>,
    dependency: &InvalidationDependency,
) -> (r: bool)
    ensures
        r == dependency_set(list@).contains(dependency@),
{
    let mut i: usize = 0;
    while i < list.len()
        invariant
            i <= list@.len(),
            forall|k: int| 0 <= k < i ==> (#[trigger] list@[k])@ != dependency@,
        decreases list@.len() - i,
    {
        if list[i].same(dependency) {
            assert(list@[i as int]@ == dependency@);
            return true;
        }
        i = i + 1;
    }
    false
}

impl InvalidationRegistration {
    /// Whether the two registrations are the same.
    pub fn same(&self, other: &Self) -> (r: bool)
        ensures
            r == (self@ == other@),
    {
        if self.protocol_version != other.protocol_version || self.generation != other.generation
            || self.catalog_version != other.catalog_version || self.evaluation_cursor.0
            != other.evaluation_cursor.0 {
            return false;
        }
        if self.registration_id.0 != other.registration_id.0 || self.owner_id.0
            != other.owner_id.0 {
            return false;
        }
        let forth = dependencies_within(&self.dependencies, &other.dependencies);
        let back = dependencies_within(&other.dependencies, &self.dependencies);
        proof {
            if forth && back {
                assert(self@.dependencies =~= other@.dependencies);
            }
        }
        forth && back
    }
}

impl InvalidationUnregistration {
    /// Whether the two messages are the same.
    pub fn same(&self, other: &Self) -> (r: bool)
        ensures
            r == (self@ == other@),
    {
        self.protocol_version == other.protocol_version && self.generation == other.generation
            && self.catalog_version == other.catalog_version && self.registration_id.0
            == other.registration_id.0 && self.owner_id.0 == other.owner_id.0
    }
}

impl InvalidationIdentity {
    pub fn duplicate(&self) -> (r: Self)
        ensures
            r@ == self@,
    {
        InvalidationIdentity {
            registration_id: InvalidationRegistrationId(self.registration_id.0.clone()),
            registration_generation: self.registration_generation,
            event_id: InvalidationEventId {
                owner_id: InvalidationOwnerId(self.event_id.owner_id.0.clone()),
                owner_sequence: self.event_id.owner_sequence,
            },
            commit_cursor: self.commit_cursor,
        }
    }

    /// Whether the two identities are the same.
    pub fn same(&self, other: &Self) -> (r: bool)
        ensures
            r == (self@ == other@),
    {
        self.registration_generation == other.registration_generation
            && self.event_id.owner_sequence == other.event_id.owner_sequence
            && self.commit_cursor.0 == other.commit_cursor.0 && self.registration_id.0
            == other.registration_id.0 && self.event_id.owner_id.0 == other.event_id.owner_id.0
    }

    /// The identity that tells `registration` of `event`.
    pub fn of(registration: &InvalidationRegistration, event: &InvalidationEvent) -> (r: Self)
        ensures
            r@ == identity_of(registration@, event@),
    {
        InvalidationIdentity {
            registration_id: InvalidationRegistrationId(registration.registration_id.0.clone()),
            registration_generation: registration.generation,
            event_id: InvalidationEventId {
                owner_id: InvalidationOwnerId(event.event_id.owner_id.0.clone()),
                owner_sequence: event.event_id.owner_sequence,
            },
            commit_cursor: event.commit_cursor,
        }
    }
}

/// A range holds a key exactly when the key is not before the start and, where
/// the range has an end, before that.
pub proof fn ranges_hold_the_keys_between(key: Seq<u8>, start: Seq<u8>, end: Seq<u8>)
    ensures
        in_range(key, start, Some(end)) <==> (start == key || text::bytes_before(start, key))
            && text::bytes_before(key, end),
        in_range(key, start, None) <==> start == key || text::bytes_before(start, key),
{
    text::bytes_order_is_total(key, start, key);
    text::bytes_order_is_total(start, key, start);
}

/// A wider range loses no key: one that starts no later and ends no earlier, or
/// has no end, holds every key that the narrower one holds.
pub proof fn wider_ranges_lose_no_key(
    key: Seq<u8>,
    start: Seq<u8>,
    end: Option<Seq<u8>>,
    wider_start: Seq<u8>,
    wider_end: Option<Seq<u8>>,
)
    requires
        in_range(key, start, end),
        wider_start == start || text::bytes_before(wider_start, start),
        wider_end is None || (end matches Some(e) && wider_end matches Some(w) && (w == e
            || text::bytes_before(e, w))),
    ensures
        in_range(key, wider_start, wider_end),
        in_range(key, Seq::empty(), None),
{
    text::bytes_order_is_total(key, start, key);
    text::bytes_order_is_total(wider_start, start, key);
    text::bytes_order_is_total(wider_start, key, wider_start);
    if wider_end is Some {
        text::bytes_order_is_total(key, end->Some_0, wider_end->Some_0);
    }
    assert(!text::bytes_before(key, Seq::empty())) by {
        let empty = Seq::<u8>::empty();
        if text::bytes_before(key, empty) {
            let k = choose|k: int|
                text::lex_splits_at(text::bytes_key(key), text::bytes_key(empty), k);
            assert(k < text::bytes_key(empty).len());
        }
    }
}

/// Two ranges that meet hold together what the range over both holds, and no
/// key twice.
pub proof fn ranges_join_where_they_meet(
    key: Seq<u8>,
    start: Seq<u8>,
    middle: Seq<u8>,
    end: Option<Seq<u8>>,
)
    requires
        start == middle || text::bytes_before(start, middle),
        end matches Some(e) ==> middle == e || text::bytes_before(middle, e),
    ensures
        in_range(key, start, end) <==> in_range(key, start, Some(middle)) || in_range(
            key,
            middle,
            end,
        ),
        !(in_range(key, start, Some(middle)) && in_range(key, middle, end)),
{
    text::bytes_order_is_total(key, start, middle);
    text::bytes_order_is_total(start, middle, key);
    text::bytes_order_is_total(key, middle, start);
    text::bytes_order_is_total(key, start, key);
    if end is Some {
        text::bytes_order_is_total(key, middle, end->Some_0);
    }
}

/// A write invalidates the scan of a table exactly where it is a write to that
/// table, whatever keys it names.
pub proof fn writes_to_the_table_hit_its_scans(table: Seq<char>, write: WriteView)
    ensures
        dependency_matches(DependencyView::TableScan { tablet_id: table }, write) <==> table
            == write.tablet_id,
{
}

/// A write invalidates a point exactly where it is a write to the same table
/// that names the key in the same index, or whose keys in that index are not
/// all known.
pub proof fn writes_to_the_key_hit_its_point(index: IndexView, key: Seq<u8>, write: WriteView)
    ensures
        dependency_matches(DependencyView::Point { index, key }, write) <==> index.tablet_id
            == write.tablet_id && (!write.index_keys_complete || !write.descriptors.contains(
            index.descriptor,
        ) || write.keys.contains((index.descriptor, key))),
{
}

/// A write to a table invalidates a range of one of its indexes where it names a
/// key in that index at or after the start and before the end, if there is one.
/// A write to another table does not, nor one that names all of its keys in the
/// index and none of them there.
pub proof fn writes_into_the_range_hit_it(
    index: IndexView,
    start: Seq<u8>,
    end: Option<Seq<u8>>,
    write: WriteView,
    key: Seq<u8>,
)
    ensures
        ({
            let dependency = DependencyView::IndexRange {
                index,
                start_inclusive: start,
                end_exclusive: end,
            };
            &&& write.tablet_id == index.tablet_id && write.keys.contains((index.descriptor, key))
                && !text::bytes_before(key, start) && (end matches Some(e) ==> text::bytes_before(
                key,
                e,
            )) ==> dependency_matches(dependency, write)
            &&& write.tablet_id == index.tablet_id && (!write.index_keys_complete
                || !write.descriptors.contains(index.descriptor)) ==> dependency_matches(
                dependency,
                write,
            )
            &&& write.tablet_id != index.tablet_id ==> !dependency_matches(dependency, write)
            &&& write.index_keys_complete && write.descriptors.contains(index.descriptor) && (
            forall|k: Seq<u8>| #[trigger]
                write.keys.contains((index.descriptor, k)) ==> text::bytes_before(k, start) || (
                end matches Some(e) && !text::bytes_before(k, e))) ==> !dependency_matches(
                dependency,
                write,
            )
        }),
{
}

/// A point is hit by just the writes that hit the range from its key to the next
/// one.
pub proof fn points_are_ranges_of_one_key(index: IndexView, key: Seq<u8>, write: WriteView)
    ensures
        dependency_matches(DependencyView::Point { index, key }, write) <==> dependency_matches(
            DependencyView::IndexRange {
                index,
                start_inclusive: key,
                end_exclusive: Some(key.push(0)),
            },
            write,
        ),
{
    let next = key.push(0);
    assert forall|k: Seq<u8>| in_range(k, key, Some(next)) <==> k == key by {
        assert(next =~= key + seq![0u8] + Seq::empty());
        text::first_difference_orders_bytes(key, 0, 0, Seq::empty(), Seq::empty());
        text::bytes_order_is_total(k, key, k);
        if in_range(k, key, Some(next)) && k != key {
            text::bytes_order_is_total(key, k, key);
            let a = text::bytes_key(key);
            let b = text::bytes_key(k);
            let c = text::bytes_key(next);
            let i = choose|i: int| text::lex_splits_at(a, b, i);
            let j = choose|j: int| text::lex_splits_at(b, c, j);
            if j < i {
                assert(a[j] == b[j]);
                assert(c[j] == a[j]);
            } else if i < a.len() {
                assert(c[i] == a[i]);
                if j > i {
                    assert(b[i] == c[i]);
                }
            }
        }
    }
    assert(in_range(key, key, Some(next)));
}

/// What a write says of its keys is all of its entries together: a key is named
/// for an index exactly where some entry of that index lists it at some place.
pub proof fn every_listed_key_counts(write: InvalidationWrite, descriptor: Seq<char>, key: Seq<u8>)
    ensures
        write@.tablet_id == write.tablet_id@,
        write@.index_keys_complete == write.index_keys_complete,
        write@.descriptors.contains(descriptor) <==> exists|i: int|
            0 <= i < write.index_keys@.len() && (#[trigger] write.index_keys@[i]).descriptor@
                == descriptor,
        write@.keys.contains((descriptor, key)) <==> exists|i: int, j: int|
            0 <= i < write.index_keys@.len() && write.index_keys@[i].descriptor@ == descriptor && 0
                <= j < write.index_keys@[i].keys@.len() && (
            #[trigger] write.index_keys@[i].keys@[j])@ == key,
{
}

/// A registration depends on each of the dependencies that it lists and on
/// nothing else, and an event makes each of the writes that it lists.
pub proof fn every_listed_dependency_and_write_counts(
    registration: InvalidationRegistration,
    event: InvalidationEvent,
    dependency: DependencyView,
)
    ensures
        registration@.dependencies.contains(dependency) <==> exists|i: int|
            0 <= i < registration.dependencies@.len() && (
            #[trigger] registration.dependencies@[i])@ == dependency,
        event@.writes.len() == event.writes@.len(),
        forall|i: int|
            0 <= i < event.writes@.len() ==> #[trigger] event@.writes[i] == event.writes@[i]@,
{
}

/// An event hits a registration exactly where one of its writes, at any place,
/// hits one of the dependencies.
pub proof fn any_write_on_any_dependency_hits(
    event: EventView,
    dependencies: Set<DependencyView>,
    dependency: DependencyView,
    i: int,
)
    ensures
        dependencies.contains(dependency) && 0 <= i < event.writes.len() && dependency_matches(
            dependency,
            event.writes[i],
        ) ==> event_matches(event, dependencies),
        (forall|d: DependencyView, k: int|
            #![trigger dependencies.contains(d), event.writes[k]]
            dependencies.contains(d) && 0 <= k < event.writes.len() ==> !dependency_matches(
                d,
                event.writes[k],
            )) ==> !event_matches(event, dependencies),
{
}

/// More dependencies or more writes never undo a hit.
pub proof fn hits_only_grow(
    event: EventView,
    longer: EventView,
    dependencies: Set<DependencyView>,
    more: Set<DependencyView>,
)
    requires
        dependencies.subset_of(more),
        event.writes.len() <= longer.writes.len(),
        longer.writes.take(event.writes.len() as int) == event.writes,
        event_matches(event, dependencies),
    ensures
        event_matches(longer, more),
{
    let (d, i) = choose|d: DependencyView, i: int|
        #![trigger dependencies.contains(d), event.writes[i]]
        dependencies.contains(d) && 0 <= i < event.writes.len() && dependency_matches(
            d,
            event.writes[i],
        );
    assert(more.contains(d));
    assert(longer.writes.take(event.writes.len() as int)[i] == longer.writes[i]);
}

/// An identity names its registration with the generation, and its event with
/// the owner, the sequence and the cursor.
pub proof fn identities_name_both_sides(
    registration: InvalidationRegistration,
    event: InvalidationEvent,
    identity: InvalidationIdentity,
)
    ensures
        identity@ == identity_of(registration@, event@) <==> {
            &&& identity.registration_id.0@ == registration.registration_id.0@
            &&& identity.registration_generation == registration.generation
            &&& identity.event_id.owner_id.0@ == event.event_id.owner_id.0@
            &&& identity.event_id.owner_sequence == event.event_id.owner_sequence
            &&& identity.commit_cursor == event.commit_cursor
        },
{
}

/// Two identities are the same exactly where all of their parts are.
pub proof fn same_identities_agree_in_every_part(a: InvalidationIdentity, b: InvalidationIdentity)
    ensures
        a@ == b@ <==> {
            &&& a.registration_id.0@ == b.registration_id.0@
            &&& a.registration_generation == b.registration_generation
            &&& a.event_id.owner_id.0@ == b.event_id.owner_id.0@
            &&& a.event_id.owner_sequence == b.event_id.owner_sequence
            &&& a.commit_cursor == b.commit_cursor
        },
{
}

/// Two registrations are the same exactly where their parts are, and each
/// dependency of one is one of the other.
pub proof fn same_registrations_agree_in_every_part(
    a: InvalidationRegistration,
    b: InvalidationRegistration,
)
    ensures
        a@ == b@ <==> {
            &&& a.protocol_version == b.protocol_version
            &&& a.registration_id.0@ == b.registration_id.0@
            &&& a.generation == b.generation
            &&& a.owner_id.0@ == b.owner_id.0@
            &&& a.catalog_version == b.catalog_version
            &&& a.evaluation_cursor == b.evaluation_cursor
            &&& forall|d: DependencyView|
                a@.dependencies.contains(d) <==> b@.dependencies.contains(d)
        },
{
    if forall|d: DependencyView| a@.dependencies.contains(d) <==> b@.dependencies.contains(d) {
        assert(a@.dependencies =~= b@.dependencies);
    }
}

/// Two removals are the same exactly where all of their parts are.
pub proof fn same_removals_agree_in_every_part(
    a: InvalidationUnregistration,
    b: InvalidationUnregistration,
)
    ensures
        a@ == b@ <==> {
            &&& a.protocol_version == b.protocol_version
            &&& a.registration_id.0@ == b.registration_id.0@
            &&& a.generation == b.generation
            &&& a.owner_id.0@ == b.owner_id.0@
            &&& a.catalog_version == b.catalog_version
        },
{
}

/// Two events are the same exactly where their parts are, write for write.
pub proof fn same_events_agree_in_every_part(a: InvalidationEvent, b: InvalidationEvent)
    ensures
        a@ == b@ <==> {
            &&& a.protocol_version == b.protocol_version
            &&& a.event_id.owner_id.0@ == b.event_id.owner_id.0@
            &&& a.event_id.owner_sequence == b.event_id.owner_sequence
            &&& a.predecessor_owner_sequence == b.predecessor_owner_sequence
            &&& a.commit_cursor == b.commit_cursor
            &&& a.catalog_version == b.catalog_version
            &&& a.writes@.len() == b.writes@.len()
            &&& forall|i: int|
                0 <= i < a.writes@.len() ==> (#[trigger] a.writes@[i])@ == b.writes@[i]@
        },
{
    if a.writes@.len() == b.writes@.len() && (forall|i: int|
        0 <= i < a.writes@.len() ==> (#[trigger] a.writes@[i])@ == b.writes@[i]@) {
        assert(a@.writes =~= b@.writes);
    }
    if a@.writes == b@.writes {
        assert(a@.writes.len() == b@.writes.len());
        assert forall|i: int| 0 <= i < a.writes@.len() implies (#[trigger] a.writes@[i])@
            == b.writes@[i]@ by {
            assert(a@.writes[i] == b@.writes[i]);
        }
    }
}

/// Two dependencies are the same exactly where they are of one sort and name
/// the same table, index and keys.
pub proof fn same_dependencies_agree_in_every_part(
    a: InvalidationDependency,
    b: InvalidationDependency,
)
    ensures
        a@ == b@ <==> match (a, b) {
            (
                InvalidationDependency::Point { index: i, key: k },
                InvalidationDependency::Point { index: j, key: l },
            ) => i.tablet_id@ == j.tablet_id@ && i.descriptor@ == j.descriptor@ && k@ == l@,
            (
                InvalidationDependency::IndexRange {
                    index: i,
                    start_inclusive: k,
                    end_exclusive: e,
                },
                InvalidationDependency::IndexRange {
                    index: j,
                    start_inclusive: l,
                    end_exclusive: f,
                },
            ) => i.tablet_id@ == j.tablet_id@ && i.descriptor@ == j.descriptor@ && k@ == l@ && (
            match (e, f) {
                (None, None) => true,
                (Some(x), Some(y)) => x@ == y@,
                _ => false,
            }),
            (
                InvalidationDependency::TableScan { tablet_id: t },
                InvalidationDependency::TableScan { tablet_id: u },
            ) => t@ == u@,
            _ => false,
        },
{
}

} // verus!
