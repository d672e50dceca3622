//! A full copy of the stored state at one point in time, from which a node can
//! start without the database of another.

use vstd::prelude::*;

use crate::commit_delta;
use crate::commit_delta::{TabletId, Timestamp};
use crate::json::JsonValue;
use crate::ordered::{OrderedKey, SortedMap};
use crate::text;
use crate::text::Relation;

verus! {

/// Names a value that the store keeps beside the documents.
#[derive(Clone, Copy, Debug, PartialEq, Eq, Structural)]
pub enum PersistenceGlobalKey {
    MaxRepeatableTimestamp,
    TablesByIdIndex,
    TablesTabletId,
    IndexByIdIndex,
    IndexTabletId,
    ReplicationFrontiers,
    AppliedDeltaWatermarks,
    AppliedDataDeltaWatermarks,
    AppliedDataDeltaIds,
    ClusterGenesisRaftApplied,
    ClusterGenesis,
}

impl PersistenceGlobalKey {
    /// The name under which the value is kept.
    pub open spec fn name(self) -> Seq<char> {
        match self {
            PersistenceGlobalKey::MaxRepeatableTimestamp => "max_repeatable_ts"@,
            PersistenceGlobalKey::TablesByIdIndex => "tables_by_id"@,
            PersistenceGlobalKey::TablesTabletId => "tables_table_id"@,
            PersistenceGlobalKey::IndexByIdIndex => "index_by_id"@,
            PersistenceGlobalKey::IndexTabletId => "index_table_id"@,
            PersistenceGlobalKey::ReplicationFrontiers => "replication_frontiers"@,
            PersistenceGlobalKey::AppliedDeltaWatermarks => "applied_delta_watermarks"@,
            PersistenceGlobalKey::AppliedDataDeltaWatermarks => "applied_data_delta_watermarks"@,
            PersistenceGlobalKey::AppliedDataDeltaIds => "applied_data_delta_ids"@,
            PersistenceGlobalKey::ClusterGenesisRaftApplied => "cluster_genesis_raft_applied"@,
            PersistenceGlobalKey::ClusterGenesis => "cluster_genesis"@,
        }
    }

    /// The name under which the value is kept.
    pub fn to_name(&self) -> (r: String)
        ensures
            r@ == self.name(),
    {
        match self {
            PersistenceGlobalKey::MaxRepeatableTimestamp => "max_repeatable_ts",
            PersistenceGlobalKey::TablesByIdIndex => "tables_by_id",
            PersistenceGlobalKey::TablesTabletId => "tables_table_id",
            PersistenceGlobalKey::IndexByIdIndex => "index_by_id",
            PersistenceGlobalKey::IndexTabletId => "index_table_id",
            PersistenceGlobalKey::ReplicationFrontiers => "replication_frontiers",
            PersistenceGlobalKey::AppliedDeltaWatermarks => "applied_delta_watermarks",
            PersistenceGlobalKey::AppliedDataDeltaWatermarks => "applied_data_delta_watermarks",
            PersistenceGlobalKey::AppliedDataDeltaIds => "applied_data_delta_ids",
            PersistenceGlobalKey::ClusterGenesisRaftApplied => "cluster_genesis_raft_applied",
            PersistenceGlobalKey::ClusterGenesis => "cluster_genesis",
        }.to_owned()
    }
}

/// Identifies a document within its tablet.
#[derive(Clone, Copy, Debug, PartialEq, Eq, PartialOrd, Ord, Hash)]
pub struct InternalId(pub [u8; 16]);

/// Identifies a document.
#[derive(Clone, Copy, Debug, PartialEq, Eq, PartialOrd, Ord, Hash)]
pub struct InternalDocumentId {
    pub tablet: TabletId,
    pub internal: InternalId,
}

impl View for InternalDocumentId {
    type V = Seq<u8>;

    /// The bytes of the tablet's identifier and then those of the document's.
    open spec fn view(&self) -> Seq<u8> {
        self.tablet@ + self.internal.0@
    }
}

impl InternalDocumentId {
    /// Reads an identifier from its bytes.
    pub fn from_bytes(bytes: &[u8]) -> (r: Option<Self>)
        ensures
            r is Some <==> bytes@.len() == 32,
            r matches Some(id) ==> id@ == bytes@,
    {
        if bytes.len() != 32 {
            return None;
        }
        let front = vstd::slice::slice_subrange(bytes, 0, 16);
        let back = vstd::slice::slice_subrange(bytes, 16, 32);
        match (TabletId::from_bytes(front), TabletId::from_bytes(back)) {
            (Some(tablet), Some(internal)) => {
                let id = InternalDocumentId { tablet, internal: InternalId(internal.0) };
                assert(id@ =~= bytes@);
                Some(id)
            },
            _ => None,
        }
    }

    /// The bytes of the identifier.
    pub fn to_bytes(&self) -> (r: Vec<u8>)
        ensures
            r@ == self@,
            r@.len() == 32,
    {
        let mut out: Vec<u8> = Vec::new();
        out.extend_from_slice(self.tablet.0.as_slice());
        out.extend_from_slice(self.internal.0.as_slice());
        assert(out@ =~= self@);
        out
    }
}

/// A revision of a document. A removed document has no body. The body is kept
/// encoded.
#[derive(Clone, Debug, PartialEq, Eq)]
pub struct DocumentLogEntry {
    pub ts: Timestamp,
    pub id: InternalDocumentId,
    pub value: Option<Vec<u8>>,
    pub prev_ts: Option<Timestamp>,
}

/// What a [`DocumentLogEntry`] states.
#[verifier::ext_equal]
pub struct LogEntryView {
    pub ts: u64,
    pub id: Seq<u8>,
    pub value: Option<Seq<u8>>,
    pub prev_ts: Option<u64>,
}

/// The view of bytes that may be missing.
pub open spec fn optional_bytes(bytes: Option<Vec<u8>>) -> Option<Seq<u8>> {
    match bytes {
        Some(bytes) => Some(bytes@),
        None => None,
    }
}

impl View for DocumentLogEntry {
    type V = LogEntryView;

    open spec fn view(&self) -> LogEntryView {
        LogEntryView {
            ts: self.ts@,
            id: self.id@,
            value: optional_bytes(self.value),
            prev_ts: commit_delta::time_view(self.prev_ts),
        }
    }
}

impl DocumentLogEntry {
    pub fn duplicate(&self) -> (r: Self)
        ensures
            r@ == self@,
    {
        DocumentLogEntry {
            ts: self.ts,
            id: self.id,
            value: match &self.value {
                Some(value) => Some(value.clone()),
                None => None,
            },
            prev_ts: self.prev_ts,
        }
    }
}

/// The stored state at one point in time.
#[derive(Clone, Debug)]
pub struct CheckpointData {
    pub timestamp: Timestamp,
    pub documents: Vec<DocumentLogEntry>,
    pub globals: SortedMap<String, JsonValue>,
}

/// What [`CheckpointData`] states.
#[verifier::ext_equal]
pub struct CheckpointView {
    pub timestamp: u64,
    pub documents: Seq<LogEntryView>,
    pub globals: Map<Seq<char>, Seq<char>>,
}

/// The views of revisions.
pub open spec fn entries_view(entries: Seq<DocumentLogEntry>) -> Seq<LogEntryView> {
    Seq::new(entries.len(), |i: int| entries[i]@)
}

/// The views of the values beside the documents.
pub open spec fn globals_view(globals: Map<Seq<char>, JsonValue>) -> Map<Seq<char>, Seq<char>> {
    Map::new(|key: Seq<char>| globals.dom().contains(key), |key: Seq<char>| globals[key]@)
}

impl View for CheckpointData {
    type V = CheckpointView;

    open spec fn view(&self) -> CheckpointView {
        CheckpointView {
            timestamp: self.timestamp@,
            documents: entries_view(self.documents@),
            globals: globals_view(self.globals@),
        }
    }
}

impl CheckpointData {
    pub open spec fn wf(&self) -> bool {
        self.globals.wf()
    }
}

/// An end of a range of times.
#[derive(Clone, Copy, Debug, PartialEq, Eq, Structural)]
pub enum TimeBound {
    Unbounded,
    Included(Timestamp),
    Excluded(Timestamp),
}

/// A range of times.
#[derive(Clone, Copy, Debug, PartialEq, Eq, Structural)]
pub struct TimestampRange {
    pub start: TimeBound,
    pub end: TimeBound,
}

impl TimestampRange {
    /// The time is in the range.
    pub open spec fn holds(self, ts: u64) -> bool {
        &&& match self.start {
            TimeBound::Unbounded => true,
            TimeBound::Included(start) => start@ <= ts,
            TimeBound::Excluded(start) => start@ < ts,
        }
        &&& match self.end {
            TimeBound::Unbounded => true,
            TimeBound::Included(end) => ts <= end@,
            TimeBound::Excluded(end) => ts < end@,
        }
    }

    /// Whether the time is in the range.
    pub fn contains(&self, ts: Timestamp) -> (r: bool)
        ensures
            r == self.holds(ts@),
    {
        (match self.start {
            TimeBound::Unbounded => true,
            TimeBound::Included(start) => start.nanos() <= ts.nanos(),
            TimeBound::Excluded(start) => start.nanos() < ts.nanos(),
        }) && (match self.end {
            TimeBound::Unbounded => true,
            TimeBound::Included(end) => ts.nanos() <= end.nanos(),
            TimeBound::Excluded(end) => ts.nanos() < end.nanos(),
        })
    }
}

/// How many revisions are read at a time for a checkpoint.
pub const CHECKPOINT_PAGE_SIZE: u32 = 10_000;

/// The times whose revisions a checkpoint holds: all up to its own.
pub fn checkpoint_range(timestamp: Timestamp) -> (r: TimestampRange)
    ensures
        forall|ts: u64| r.holds(ts) <==> ts <= timestamp@,
{
    TimestampRange { start: TimeBound::Unbounded, end: TimeBound::Included(timestamp) }
}

/// The values beside the documents that a checkpoint holds.
pub open spec fn checkpoint_globals() -> Seq<PersistenceGlobalKey> {
    seq![
        PersistenceGlobalKey::MaxRepeatableTimestamp,
        PersistenceGlobalKey::TablesByIdIndex,
        PersistenceGlobalKey::TablesTabletId,
        PersistenceGlobalKey::IndexByIdIndex,
        PersistenceGlobalKey::IndexTabletId,
    ]
}

/// The values beside the documents that a checkpoint holds.
pub fn checkpoint_global_keys() -> (r: Vec<PersistenceGlobalKey>)
    ensures
        r@ == checkpoint_globals(),
{
    let mut keys: Vec<PersistenceGlobalKey> = Vec::new();
    keys.push(PersistenceGlobalKey::MaxRepeatableTimestamp);
    keys.push(PersistenceGlobalKey::TablesByIdIndex);
    keys.push(PersistenceGlobalKey::TablesTabletId);
    keys.push(PersistenceGlobalKey::IndexByIdIndex);
    keys.push(PersistenceGlobalKey::IndexTabletId);
    assert(keys@ =~= checkpoint_globals());
    keys
}

/// The first `n` values that were found, by name.
pub open spec fn found_globals(values: Seq<Option<JsonValue>>, n: nat) -> Map<Seq<char>, Seq<char>>
    decreases n,
{
    if n == 0 {
        Map::empty()
    } else {
        let before = found_globals(values, (n - 1) as nat);
        match values[n - 1] {
            Some(value) => before.insert(checkpoint_globals()[n - 1].name(), value@),
            None => before,
        }
    }
}

/// Makes a checkpoint of what was read from the store: the revisions in
/// [`checkpoint_range`], and of the values in [`checkpoint_global_keys`] those
/// that are there.
pub fn create_checkpoint(
    timestamp: Timestamp,
    documents: Vec<DocumentLogEntry>,
    values: &Vec<Option<JsonValue>>,
) -> (r: CheckpointData)
    requires
        values@.len() == checkpoint_globals().len(),
    ensures
        r.wf(),
        r@ == (CheckpointView {
            timestamp: timestamp@,
            documents: entries_view(documents@),
            globals: found_globals(values@, values@.len()),
        }),
{
    let keys = checkpoint_global_keys();
    let mut globals: SortedMap<String, JsonValue> = SortedMap::new();
    let mut i: usize = 0;
    assert(globals_view(globals@) =~= Map::empty());
    while i < values.len()
        invariant
            keys@ == checkpoint_globals(),
            values@.len() == checkpoint_globals().len(),
            i <= values@.len(),
            globals.wf(),
            globals_view(globals@) == found_globals(values@, i as nat),
        decreases values@.len() - i,
    {
        match &values[i] {
            Some(value) => {
                let ghost before = globals@;
                let copy = value.duplicate();
                let ghost stated = copy@;
                let name = keys[i].to_name();
                let ghost called = name@;
                globals.insert(name, copy);
                assert(globals_view(globals@) =~= globals_view(before).insert(called, stated));
            },
            None => {},
        }
        i = i + 1;
    }
    CheckpointData { timestamp, documents, globals }
}

/// Orders revisions by time and then by document.
#[derive(Clone, Copy, Debug)]
pub struct LogKey {
    pub ts: Timestamp,
    pub id: InternalDocumentId,
}

impl OrderedKey for LogKey {
    type Model = (u64, Seq<u8>);

    open spec fn model(&self) -> (u64, Seq<u8>) {
        (self.ts@, self.id@)
    }

    open spec fn before(a: (u64, Seq<u8>), b: (u64, Seq<u8>)) -> bool {
        a.0 < b.0 || (a.0 == b.0 && text::bytes_before(a.1, b.1))
    }

    proof fn before_is_total(a: (u64, Seq<u8>), b: (u64, Seq<u8>), c: (u64, Seq<u8>)) {
        text::bytes_order_is_total(a.1, b.1, c.1);
    }

    fn relation(&self, other: &Self) -> (r: Relation) {
        let a = self.id.to_bytes();
        let b = other.id.to_bytes();
        proof {
            text::bytes_order_is_total(a@, b@, a@);
        }
        if self.ts.nanos() < other.ts.nanos() {
            Relation::Before
        } else if other.ts.nanos() < self.ts.nanos() {
            Relation::After
        } else {
            text::relate_bytes(a.as_slice(), b.as_slice())
        }
    }
}

/// The order in which revisions are read.
#[derive(Clone, Copy, Debug, PartialEq, Eq, Structural)]
pub enum Order {
    Asc,
    Desc,
}

/// The revisions by time and document, a later one in place of an earlier one.
pub open spec fn log_of(documents: Seq<LogEntryView>) -> Map<(u64, Seq<u8>), LogEntryView>
    decreases documents.len(),
{
    if documents.len() == 0 {
        Map::empty()
    } else {
        let last = documents.last();
        log_of(documents.drop_last()).insert((last.ts, last.id), last)
    }
}

/// The views of the revisions in a log.
pub open spec fn log_view(
    log: Map<(u64, Seq<u8>), DocumentLogEntry>,
) -> Map<(u64, Seq<u8>), LogEntryView> {
    Map::new(|key: (u64, Seq<u8>)| log.dom().contains(key), |key: (u64, Seq<u8>)| log[key]@)
}

/// The revisions of the first `n` keys that are in the range.
pub open spec fn in_range(
    log: Map<(u64, Seq<u8>), LogEntryView>,
    keys: Seq<(u64, Seq<u8>)>,
    range: TimestampRange,
    n: nat,
) -> Seq<LogEntryView>
    decreases n,
{
    if n == 0 {
        Seq::empty()
    } else {
        let before = in_range(log, keys, range, (n - 1) as nat);
        if range.holds(keys[n - 1].0) {
            before.push(log[keys[n - 1]])
        } else {
            before
        }
    }
}

/// The revision is the last of the document before the time.
pub open spec fn is_last_before(
    log: Map<(u64, Seq<u8>), LogEntryView>,
    id: Seq<u8>,
    ts: u64,
    found: u64,
) -> bool {
    &&& log.dom().contains((found, id))
    &&& found < ts
    &&& forall|other: u64| other < ts && #[trigger] log.dom().contains((other, id)) ==> other
        <= found
}

/// The last revision of the document before the time.
pub open spec fn last_before(
    log: Map<(u64, Seq<u8>), LogEntryView>,
    id: Seq<u8>,
    ts: u64,
) -> Option<LogEntryView> {
    if exists|found: u64| is_last_before(log, id, ts, found) {
        Some(log[(choose|found: u64| is_last_before(log, id, ts, found), id)])
    } else {
        None
    }
}

/// The revision of the document at the time.
pub open spec fn entry_at(
    log: Map<(u64, Seq<u8>), LogEntryView>,
    id: Seq<u8>,
    ts: u64,
) -> Option<LogEntryView> {
    if log.dom().contains((ts, id)) {
        Some(log[(ts, id)])
    } else {
        None
    }
}

/// What is found for the first `n` queries, without those for which nothing is
/// found.
pub open spec fn found_for(
    queries: Seq<(u64, Seq<u8>)>,
    find: spec_fn(Seq<u8>, u64) -> Option<LogEntryView>,
    n: nat,
) -> Seq<((u64, Seq<u8>), LogEntryView)>
    decreases n,
{
    if n == 0 {
        Seq::empty()
    } else {
        let before = found_for(queries, find, (n - 1) as nat);
        let query = queries[n - 1];
        match find(query.1, query.0) {
            Some(entry) => before.push((query, entry)),
            None => before,
        }
    }
}

/// The queries as times and documents.
pub open spec fn queries_view(queries: Seq<LogKey>) -> Seq<(u64, Seq<u8>)> {
    Seq::new(queries.len(), |i: int| queries[i].model())
}

/// What was found, by query.
pub open spec fn answers_view(
    answers: Seq<(LogKey, DocumentLogEntry)>,
) -> Seq<((u64, Seq<u8>), LogEntryView)> {
    Seq::new(answers.len(), |i: int| (answers[i].0.model(), answers[i].1@))
}

/// The text of the error for an attempt to write.
pub const READ_ONLY_ERROR: &'static str = "CheckpointPersistence is read-only";

/// A store that holds a checkpoint in memory and can be read only.
#[derive(Clone, Debug)]
pub struct CheckpointPersistence {
    log: SortedMap<LogKey, DocumentLogEntry>,
    globals: SortedMap<String, JsonValue>,
    version: u32,
}

/// What a [`CheckpointPersistence`] holds.
pub struct StoreView {
    pub log: Map<(u64, Seq<u8>), LogEntryView>,
    pub globals: Map<Seq<char>, Seq<char>>,
    pub version: u32,
}

impl View for CheckpointPersistence {
    type V = StoreView;

    closed spec fn view(&self) -> StoreView {
        StoreView {
            log: log_view(self.log@),
            globals: globals_view(self.globals@),
            version: self.version,
        }
    }
}

impl CheckpointPersistence {
    /// Each revision stands under its own time and document.
    pub closed spec fn wf(&self) -> bool {
        &&& self.log.wf()
        &&& self.globals.wf()
        &&& forall|key: (u64, Seq<u8>)|
            self.log@.dom().contains(key) ==> (#[trigger] self.log@[key])@.ts == key.0
                && self.log@[key]@.id == key.1
    }

    /// The times and documents of the revisions, in order.
    pub closed spec fn keys(&self) -> Seq<(u64, Seq<u8>)> {
        self.log.keys()
    }

    /// The keys and the revisions agree.
    pub proof fn entries_agree(&self)
        requires
            self.wf(),
        ensures
            forall|key: (u64, Seq<u8>)| self@.log.dom().contains(key) <==> self.keys().contains(key),
            forall|i: int, j: int|
                0 <= i < j < self.keys().len() ==> LogKey::before(
                    #[trigger] self.keys()[i],
                    #[trigger] self.keys()[j],
                ),
            forall|key: (u64, Seq<u8>)|
                self@.log.dom().contains(key) ==> (#[trigger] self@.log[key]).ts == key.0
                    && self@.log[key].id == key.1,
    {
        self.log.entries_agree();
    }

    /// A store that holds the checkpoint.
    pub fn from_checkpoint(data: CheckpointData, version: u32) -> (r: Self)
        requires
            data.wf(),
        ensures
            r.wf(),
            r@ == (StoreView {
                log: log_of(data@.documents),
                globals: data@.globals,
                version,
            }),
    {
        let mut log: SortedMap<LogKey, DocumentLogEntry> = SortedMap::new();
        let ghost list = data@.documents;
        let mut i: usize = 0;
        assert(log_view(log@) =~= log_of(list.take(0)));
        while i < data.documents.len()
            invariant
                i <= data.documents@.len(),
                list == data@.documents,
                log.wf(),
                forall|key: (u64, Seq<u8>)|
                    log@.dom().contains(key) ==> (#[trigger] log@[key])@.ts == key.0
                        && log@[key]@.id == key.1,
                log_view(log@) == log_of(list.take(i as int)),
            decreases data.documents@.len() - i,
        {
            let entry = data.documents[i].duplicate();
            let ghost before = log@;
            let ghost stated = entry@;
            let key = LogKey { ts: entry.ts, id: entry.id };
            log.insert(key, entry);
            proof {
                assert(list.take(i + 1).drop_last() =~= list.take(i as int));
                assert(list.take(i + 1).last() == stated);
                assert(log_view(log@) =~= log_view(before).insert((stated.ts, stated.id), stated));
            }
            i = i + 1;
        }
        assert(list.take(i as int) =~= list);
        CheckpointPersistence { log, globals: data.globals, version }
    }

    /// A store that holds a checkpoint is never a new one.
    pub fn is_fresh(&self) -> (r: bool)
        ensures
            !r,
    {
        false
    }

    pub fn version(&self) -> (r: u32)
        ensures
            r == self@.version,
    {
        self.version
    }

    /// The revisions in the range, in the order asked for.
    pub fn load_documents(&self, range: TimestampRange, order: Order) -> (r: Vec<DocumentLogEntry>)
        requires
            self.wf(),
        ensures
            entries_view(r@) == (match order {
                Order::Asc => in_range(self@.log, self.keys(), range, self.keys().len()),
                Order::Desc => in_range(
                    self@.log,
                    self.keys(),
                    range,
                    self.keys().len(),
                ).reverse(),
            }),
    {
        let mut out: Vec<DocumentLogEntry> = Vec::new();
        let ghost keys = self.keys();
        let ghost log = self@.log;
        let mut i: usize = 0;
        assert(entries_view(out@) =~= Seq::empty());
        while i < self.log.len()
            invariant
                self.wf(),
                keys == self.keys(),
                log == self@.log,
                i <= keys.len(),
                entries_view(out@) == in_range(log, keys, range, i as nat),
            decreases keys.len() - i,
        {
            let key = self.log.key_at(i);
            proof {
                self.log.entries_agree();
                assert(keys[i as int] == (key.ts@, key.id@));
                assert(log[keys[i as int]] == self.log.values()[i as int]@);
            }
            if range.contains(key.ts) {
                let ghost earlier = out@;
                let entry = self.log.value_at(i).duplicate();
                let ghost stated = entry@;
                out.push(entry);
                assert(entries_view(out@) =~= entries_view(earlier).push(stated));
            }
            i = i + 1;
        }
        match order {
            Order::Asc => out,
            Order::Desc => {
                let mut back: Vec<DocumentLogEntry> = Vec::new();
                let ghost all = entries_view(out@);
                let mut left: usize = out.len();
                while left > 0
                    invariant
                        left <= out@.len(),
                        all == entries_view(out@),
                        back@.len() == out@.len() - left,
                        forall|k: int|
                            0 <= k < back@.len() ==> (#[trigger] back@[k])@ == all[all.len() - 1
                                - k],
                    decreases left,
                {
                    left = left - 1;
                    back.push(out[left].duplicate());
                }
                assert(entries_view(back@) =~= all.reverse());
                back
            },
        }
    }

    /// The last revision of the document before the time.
    pub fn previous_revision(&self, id: InternalDocumentId, ts: Timestamp) -> (r: Option<
        DocumentLogEntry,
    >)
        requires
            self.wf(),
        ensures
            match r {
                Some(entry) => is_last_before(self@.log, id@, ts@, entry@.ts) && entry@
                    == self@.log[(entry@.ts, id@)],
                None => forall|other: u64|
                    other < ts@ ==> !#[trigger] self@.log.dom().contains((other, id@)),
            },
    {
        let ghost keys = self.keys();
        let ghost log = self@.log;
        let wanted = id.to_bytes();
        let mut i: usize = self.log.len();
        proof {
            self.log.entries_agree();
        }
        while i > 0
            invariant
                self.wf(),
                keys == self.keys(),
                log == self@.log,
                wanted@ == id@,
                i <= keys.len(),
                forall|k: int|
                    i <= k < keys.len() ==> !((#[trigger] keys[k]).1 == id@ && keys[k].0 < ts@),
            decreases i,
        {
            i = i - 1;
            let key = self.log.key_at(i);
            proof {
                self.log.entries_agree();
                assert(keys[i as int] == (key.ts@, key.id@));
                assert(log.dom().contains(keys[i as int]));
                assert(log[keys[i as int]] == self.log.values()[i as int]@);
            }
            let here = key.id.to_bytes();
            let same = match text::relate_bytes(here.as_slice(), wanted.as_slice()) {
                Relation::Same => true,
                _ => false,
            };
            if same && key.ts.nanos() < ts.nanos() {
                let entry = self.log.value_at(i).duplicate();
                proof {
                    let found = keys[i as int].0;
                    assert(entry@.ts == found);
                    assert forall|other: u64|
                        other < ts@ && #[trigger] log.dom().contains((other, id@)) implies other
                        <= found by {
                        assert(keys.contains((other, id@)));
                        let k = keys.index_of((other, id@));
                        assert(keys[k] == (other, id@));
                        if k < i {
                            assert(LogKey::before(keys[k], keys[i as int]));
                        } else if k > i {
                            assert(i + 1 <= k);
                        }
                    }
                }
                return Some(entry);
            }
        }
        proof {
            self.log.entries_agree();
            assert forall|other: u64| other < ts@ implies !#[trigger] log.dom().contains(
                (other, id@),
            ) by {
                if log.dom().contains((other, id@)) {
                    assert(keys.contains((other, id@)));
                    let k = keys.index_of((other, id@));
                    assert(keys[k] == (other, id@));
                }
            }
        }
        None
    }

    /// The revision of the document at the time.
    pub fn revision_at(&self, id: InternalDocumentId, ts: Timestamp) -> (r: Option<
        DocumentLogEntry,
    >)
        requires
            self.wf(),
        ensures
            match r {
                Some(entry) => self@.log.dom().contains((ts@, id@)) && entry@ == self@.log[(
                    ts@,
                    id@,
                )],
                None => !self@.log.dom().contains((ts@, id@)),
            },
    {
        match self.log.get(&LogKey { ts, id }) {
            Some(entry) => Some(entry.duplicate()),
            None => None,
        }
    }

    /// The last revision before its time of each document that is asked for and
    /// has one, in the order of the queries.
    pub fn previous_revisions(&self, queries: &Vec<LogKey>) -> (r: Vec<(LogKey, DocumentLogEntry)>)
        requires
            self.wf(),
        ensures
            answers_view(r@) == found_for(
                queries_view(queries@),
                |id: Seq<u8>, ts: u64| last_before(self@.log, id, ts),
                queries@.len(),
            ),
    {
        let ghost find = |id: Seq<u8>, ts: u64| last_before(self@.log, id, ts);
        let mut out: Vec<(LogKey, DocumentLogEntry)> = Vec::new();
        assert(answers_view(out@) =~= found_for(queries_view(queries@), find, 0));
        for i in 0..queries.len()
            invariant
                self.wf(),
                find == (|id: Seq<u8>, ts: u64| last_before(self@.log, id, ts)),
                answers_view(out@) == found_for(queries_view(queries@), find, i as nat),
        {
            let query = queries[i];
            let ghost before = out@;
            match self.previous_revision(query.id, query.ts) {
                Some(entry) => {
                    proof {
                        let log = self@.log;
                        let chosen = choose|found: u64|
                            is_last_before(log, query.id@, query.ts@, found);
                        assert(is_last_before(log, query.id@, query.ts@, entry@.ts));
                        assert(is_last_before(log, query.id@, query.ts@, chosen));
                        assert(log.dom().contains((chosen, query.id@)));
                        assert(chosen == entry@.ts);
                        assert(find(query.id@, query.ts@) == Some(entry@));
                    }
                    out.push((query, entry));
                    assert(answers_view(out@) =~= answers_view(before).push(
                        (query.model(), entry@),
                    ));
                },
                None => {
                    assert(find(query.id@, query.ts@) is None);
                },
            }
        }
        out
    }

    /// The revision at its time of each document that is asked for and has one,
    /// in the order of the queries.
    pub fn previous_revisions_of_documents(&self, queries: &Vec<LogKey>) -> (r: Vec<
        (LogKey, DocumentLogEntry),
    >)
        requires
            self.wf(),
        ensures
            answers_view(r@) == found_for(
                queries_view(queries@),
                |id: Seq<u8>, ts: u64| entry_at(self@.log, id, ts),
                queries@.len(),
            ),
    {
        let ghost find = |id: Seq<u8>, ts: u64| entry_at(self@.log, id, ts);
        let mut out: Vec<(LogKey, DocumentLogEntry)> = Vec::new();
        assert(answers_view(out@) =~= found_for(queries_view(queries@), find, 0));
        for i in 0..queries.len()
            invariant
                self.wf(),
                find == (|id: Seq<u8>, ts: u64| entry_at(self@.log, id, ts)),
                answers_view(out@) == found_for(queries_view(queries@), find, i as nat),
        {
            let query = queries[i];
            let ghost before = out@;
            match self.revision_at(query.id, query.ts) {
                Some(entry) => {
                    assert(find(query.id@, query.ts@) == Some(entry@));
                    out.push((query, entry));
                    assert(answers_view(out@) =~= answers_view(before).push(
                        (query.model(), entry@),
                    ));
                },
                None => {
                    assert(find(query.id@, query.ts@) is None);
                },
            }
        }
        out
    }

    /// The value of the name.
    pub fn get_persistence_global(&self, name: &String) -> (r: Option<JsonValue>)
        requires
            self.wf(),
        ensures
            match r {
                Some(value) => self@.globals.dom().contains(name@) && value@
                    == self@.globals[name@],
                None => !self@.globals.dom().contains(name@),
            },
    {
        match self.globals.get(name) {
            Some(value) => Some(value.duplicate()),
            None => None,
        }
    }
}

/// A checkpoint with one revision for each time and document is read from the
/// store as it was put there.
pub proof fn store_holds_its_checkpoint(documents: Seq<LogEntryView>, i: int)
    requires
        0 <= i < documents.len(),
        forall|a: int, b: int|
            0 <= a < b < documents.len() ==> (#[trigger] documents[a]).ts != (
            #[trigger] documents[b]).ts || documents[a].id != documents[b].id,
    ensures
        log_of(documents).dom().contains((documents[i].ts, documents[i].id)),
        log_of(documents)[(documents[i].ts, documents[i].id)] == documents[i],
    decreases documents.len(),
{
    let front = documents.drop_last();
    if i < front.len() {
        assert(documents[i] == front[i]);
        store_holds_its_checkpoint(front, i);
        assert(documents[documents.len() - 1] == documents.last());
        assert(documents[i].ts != documents[documents.len() - 1].ts || documents[i].id
            != documents[documents.len() - 1].id);
    }
}

/// Each value is kept under a name of its own.
pub proof fn values_are_kept_under_their_own_names(
    a: PersistenceGlobalKey,
    b: PersistenceGlobalKey,
)
    ensures
        a.name() == b.name() ==> a == b,
        a is MaxRepeatableTimestamp <==> a.name() == "max_repeatable_ts"@,
        a is TablesByIdIndex <==> a.name() == "tables_by_id"@,
        a is TablesTabletId <==> a.name() == "tables_table_id"@,
        a is IndexByIdIndex <==> a.name() == "index_by_id"@,
        a is IndexTabletId <==> a.name() == "index_table_id"@,
        a is ReplicationFrontiers <==> a.name() == "replication_frontiers"@,
        a is AppliedDeltaWatermarks <==> a.name() == "applied_delta_watermarks"@,
        a is AppliedDataDeltaWatermarks <==> a.name() == "applied_data_delta_watermarks"@,
        a is AppliedDataDeltaIds <==> a.name() == "applied_data_delta_ids"@,
        a is ClusterGenesisRaftApplied <==> a.name() == "cluster_genesis_raft_applied"@,
        a is ClusterGenesis <==> a.name() == "cluster_genesis"@,
{
    reveal_strlit("max_repeatable_ts");
    reveal_strlit("tables_by_id");
    reveal_strlit("tables_table_id");
    reveal_strlit("index_by_id");
    reveal_strlit("index_table_id");
    reveal_strlit("replication_frontiers");
    reveal_strlit("applied_delta_watermarks");
    reveal_strlit("applied_data_delta_watermarks");
    reveal_strlit("applied_data_delta_ids");
    reveal_strlit("cluster_genesis_raft_applied");
    reveal_strlit("cluster_genesis");
    assert("max_repeatable_ts"@.len() == 17);
    assert("tables_by_id"@.len() == 12);
    assert("tables_table_id"@.len() == 15);
    assert("index_by_id"@.len() == 11);
    assert("index_table_id"@.len() == 14);
    assert("replication_frontiers"@.len() == 21);
    assert("applied_delta_watermarks"@.len() == 24);
    assert("applied_data_delta_watermarks"@.len() == 29);
    assert("applied_data_delta_ids"@.len() == 22);
    assert("cluster_genesis_raft_applied"@.len() == 28);
    assert("cluster_genesis"@.len() == 15);
    assert("tables_table_id"@[0] == 't');
    assert("cluster_genesis"@[0] == 'c');
}

/// A range holds the times between its ends, with an end that is included and
/// without one that is excluded.
pub proof fn ranges_hold_the_times_between(start: Timestamp, end: Timestamp, ts: u64)
    ensures
        ({
            let from = TimeBound::Included(start);
            let after = TimeBound::Excluded(start);
            let to = TimeBound::Included(end);
            let before = TimeBound::Excluded(end);
            let open = TimeBound::Unbounded;
            &&& (TimestampRange { start: from, end: to }).holds(ts) <==> start@ <= ts <= end@
            &&& (TimestampRange { start: from, end: before }).holds(ts) <==> start@ <= ts < end@
            &&& (TimestampRange { start: after, end: to }).holds(ts) <==> start@ < ts <= end@
            &&& (TimestampRange { start: after, end: before }).holds(ts) <==> start@ < ts < end@
            &&& (TimestampRange { start: from, end: open }).holds(ts) <==> start@ <= ts
            &&& (TimestampRange { start: after, end: open }).holds(ts) <==> start@ < ts
            &&& (TimestampRange { start: open, end: to }).holds(ts) <==> ts <= end@
            &&& (TimestampRange { start: open, end: before }).holds(ts) <==> ts < end@
            &&& (TimestampRange { start: open, end: open }).holds(ts)
        }),
{
}

/// A checkpoint asks for five of the values, each once.
pub proof fn checkpoints_ask_for_five_values(key: PersistenceGlobalKey)
    ensures
        checkpoint_globals().contains(key) <==> key is MaxRepeatableTimestamp || key
            is TablesByIdIndex || key is TablesTabletId || key is IndexByIdIndex || key
            is IndexTabletId,
        checkpoint_globals().len() == 5,
        checkpoint_globals().no_duplicates(),
{
    let list = checkpoint_globals();
    assert(list[0] is MaxRepeatableTimestamp && list[1] is TablesByIdIndex && list[2]
        is TablesTabletId && list[3] is IndexByIdIndex && list[4] is IndexTabletId);
}

/// A checkpoint has each value that was found, under its name, and no others.
pub proof fn checkpoints_have_what_was_found(values: Seq<Option<JsonValue>>, i: int)
    requires
        values.len() == 5,
        0 <= i < 5,
    ensures
        ({
            let globals = found_globals(values, 5);
            let name = checkpoint_globals()[i].name();
            &&& globals.dom().contains(name) <==> values[i] is Some
            &&& values[i] matches Some(value) ==> globals[name] == value@
            &&& forall|other: Seq<char>| #[trigger]
                globals.dom().contains(other) ==> exists|k: int|
                    0 <= k < 5 && other == (#[trigger] checkpoint_globals()[k]).name()
        }),
{
    checkpoints_ask_for_five_values(PersistenceGlobalKey::MaxRepeatableTimestamp);
    lemma_found_globals(values, i, 5);
}

proof fn lemma_found_globals(values: Seq<Option<JsonValue>>, i: int, n: nat)
    requires
        values.len() == 5,
        0 <= i < 5,
        n <= 5,
    ensures
        found_globals(values, n).dom().contains(checkpoint_globals()[i].name()) <==> i < n
            && values[i] is Some,
        i < n ==> (values[i] matches Some(value) ==> found_globals(
            values,
            n,
        )[checkpoint_globals()[i].name()] == value@),
        forall|other: Seq<char>| #[trigger]
            found_globals(values, n).dom().contains(other) ==> exists|k: int|
                0 <= k < n && other == (#[trigger] checkpoint_globals()[k]).name(),
    decreases n,
{
    if n > 0 {
        lemma_found_globals(values, i, (n - 1) as nat);
        checkpoints_ask_for_five_values(PersistenceGlobalKey::MaxRepeatableTimestamp);
        values_are_kept_under_their_own_names(checkpoint_globals()[i], checkpoint_globals()[n - 1]);
        assert(checkpoint_globals()[n - 1].name() == checkpoint_globals()[n - 1].name());
    }
}

/// Of a document and a time the store keeps the last revision that it is given,
/// and it keeps nothing that it is not given.
pub proof fn the_last_revision_given_is_kept(
    documents: Seq<LogEntryView>,
    ts: u64,
    id: Seq<u8>,
    i: int,
)
    ensures
        log_of(documents).dom().contains((ts, id)) <==> exists|k: int|
            0 <= k < documents.len() && (#[trigger] documents[k]).ts == ts && documents[k].id == id,
        0 <= i < documents.len() && documents[i].ts == ts && documents[i].id == id && (forall|k: int|
            i < k < documents.len() ==> (#[trigger] documents[k]).ts != ts || documents[k].id != id)
            ==> log_of(documents)[(ts, id)] == documents[i],
    decreases documents.len(),
{
    if documents.len() > 0 {
        let rest = documents.drop_last();
        the_last_revision_given_is_kept(rest, ts, id, i);
        assert forall|k: int| 0 <= k < rest.len() implies rest[k] == #[trigger] documents[k] by {}
        let last = documents.last();
        assert(last == documents[documents.len() - 1]);
        if log_of(rest).dom().contains((ts, id)) {
            let k = choose|k: int|
                0 <= k < rest.len() && (#[trigger] rest[k]).ts == ts && rest[k].id == id;
            assert(documents[k].ts == ts);
        }
        if exists|k: int|
            0 <= k < documents.len() && (#[trigger] documents[k]).ts == ts && documents[k].id == id {
            let k = choose|k: int|
                0 <= k < documents.len() && (#[trigger] documents[k]).ts == ts && documents[k].id
                    == id;
            if k < rest.len() {
                assert(rest[k].ts == ts);
            }
        }
    }
}

/// Revisions stand by their time, and those of one time by their documents.
pub proof fn revisions_stand_by_their_time(a: (u64, Seq<u8>), b: (u64, Seq<u8>))
    ensures
        a.0 < b.0 ==> LogKey::before(a, b) && !LogKey::before(b, a),
        a.0 == b.0 ==> (LogKey::before(a, b) <==> text::bytes_before(a.1, b.1)),
{
}

/// What is read of a range are the revisions at its times, each once and in
/// their order.
pub proof fn all_revisions_in_the_range_are_read(
    log: Map<(u64, Seq<u8>), LogEntryView>,
    keys: Seq<(u64, Seq<u8>)>,
    range: TimestampRange,
)
    ensures
        in_range(log, keys, range, keys.len()) == keys.filter(
            |key: (u64, Seq<u8>)| range.holds(key.0),
        ).map_values(|key: (u64, Seq<u8>)| log[key]),
    decreases keys.len(),
{
    let holds = |key: (u64, Seq<u8>)| range.holds(key.0);
    let revision = |key: (u64, Seq<u8>)| log[key];
    reveal(Seq::filter);
    if keys.len() > 0 {
        let rest = keys.drop_last();
        all_revisions_in_the_range_are_read(log, rest, range);
        lemma_ranges_agree(log, keys, rest, range, rest.len());
        assert(in_range(log, keys, range, keys.len()) =~= keys.filter(holds).map_values(revision));
    } else {
        assert(keys.filter(holds).map_values(revision) =~= Seq::<LogEntryView>::empty());
    }
}

proof fn lemma_ranges_agree(
    log: Map<(u64, Seq<u8>), LogEntryView>,
    a: Seq<(u64, Seq<u8>)>,
    b: Seq<(u64, Seq<u8>)>,
    range: TimestampRange,
    n: nat,
)
    requires
        forall|i: int| 0 <= i < n ==> a[i] == b[i],
    ensures
        in_range(log, a, range, n) == in_range(log, b, range, n),
    decreases n,
{
    if n > 0 {
        lemma_ranges_agree(log, a, b, range, (n - 1) as nat);
        assert(a[n - 1] == b[n - 1]);
    }
}

/// The last revision before a time is the one that no other comes between, and
/// there is none where no revision comes before.
pub proof fn nothing_comes_between_the_last_revision(
    log: Map<(u64, Seq<u8>), LogEntryView>,
    id: Seq<u8>,
    ts: u64,
    found: u64,
)
    ensures
        found < ts && log.dom().contains((found, id)) && (forall|other: u64|
            found < other < ts ==> !#[trigger] log.dom().contains((other, id))) ==> last_before(
            log,
            id,
            ts,
        ) == Some(log[(found, id)]),
        (forall|other: u64| other < ts ==> !#[trigger] log.dom().contains((other, id)))
            ==> last_before(log, id, ts) is None,
{
    if found < ts && log.dom().contains((found, id)) && (forall|other: u64|
        found < other < ts ==> !#[trigger] log.dom().contains((other, id))) {
        assert(is_last_before(log, id, ts, found));
        let chosen = choose|chosen: u64| is_last_before(log, id, ts, chosen);
        assert(is_last_before(log, id, ts, chosen));
        assert(chosen == found);
    }
}

/// A revision is found at its own time and for its own document only.
pub proof fn revisions_are_found_at_their_time(
    log: Map<(u64, Seq<u8>), LogEntryView>,
    id: Seq<u8>,
    ts: u64,
    entry: LogEntryView,
)
    ensures
        entry_at(log.insert((ts, id), entry), id, ts) == Some(entry),
        entry_at(log.remove((ts, id)), id, ts) is None,
{
}

/// Queries are answered one by one and in their order, and those for which
/// nothing is found have no answer.
pub proof fn queries_are_answered_in_order(
    queries: Seq<(u64, Seq<u8>)>,
    find: spec_fn(Seq<u8>, u64) -> Option<LogEntryView>,
)
    ensures
        found_for(queries, find, queries.len()) == queries.filter(
            |query: (u64, Seq<u8>)| find(query.1, query.0) is Some,
        ).map_values(|query: (u64, Seq<u8>)| (query, find(query.1, query.0)->Some_0)),
    decreases queries.len(),
{
    let answered = |query: (u64, Seq<u8>)| find(query.1, query.0) is Some;
    let answer = |query: (u64, Seq<u8>)| (query, find(query.1, query.0)->Some_0);
    reveal(Seq::filter);
    if queries.len() > 0 {
        let rest = queries.drop_last();
        queries_are_answered_in_order(rest, find);
        lemma_answers_agree(queries, rest, find, rest.len());
        assert(found_for(queries, find, queries.len()) =~= queries.filter(answered).map_values(
            answer,
        ));
    } else {
        assert(queries.filter(answered).map_values(answer) =~= Seq::<
            ((u64, Seq<u8>), LogEntryView),
        >::empty());
    }
}

proof fn lemma_answers_agree(
    a: Seq<(u64, Seq<u8>)>,
    b: Seq<(u64, Seq<u8>)>,
    find: spec_fn(Seq<u8>, u64) -> Option<LogEntryView>,
    n: nat,
)
    requires
        forall|i: int| 0 <= i < n ==> a[i] == b[i],
    ensures
        found_for(a, find, n) == found_for(b, find, n),
    decreases n,
{
    if n > 0 {
        lemma_answers_agree(a, b, find, (n - 1) as nat);
        assert(a[n - 1] == b[n - 1]);
    }
}

} // verus!
