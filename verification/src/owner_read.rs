//! Reads from the partition that owns a table.
//!
//! What a node mirrors of other partitions is a cache and no source of truth.
//! A transaction fetches remote index ranges from the owner, at the placement
//! version and the timestamp that it is pinned to. Documents stay encoded.

use vstd::prelude::*;

use crate::checkpoint::Order;
use crate::commit_delta;
use crate::commit_delta::{TabletId, Timestamp};
use crate::partition::{PartitionId, PartitionMap, PlacementVersion, TableName};
use crate::partition;
use crate::read_set::Interval;
use crate::text;

verus! {

/// How long a call may take, in milliseconds.
pub const OWNER_READ_GRPC_TIMEOUT_MS: u64 = 5_000;

/// The longest message. A transaction may read 16 MiB by default, so that this
/// leaves room for several ranges.
pub const OWNER_READ_GRPC_MAX_MESSAGE_SIZE: usize = 67_108_864;

/// An entry of an index.
#[derive(Clone, Debug, PartialEq, Eq)]
pub struct OwnerIndexEntry {
    pub key: Vec<u8>,
    pub ts: Timestamp,
    pub document: Vec<u8>,
}

/// What an [`OwnerIndexEntry`] states.
#[verifier::ext_equal]
pub struct EntryView {
    pub key: Seq<u8>,
    pub ts: u64,
    pub document: Seq<u8>,
}

impl View for OwnerIndexEntry {
    type V = EntryView;

    open spec fn view(&self) -> EntryView {
        EntryView { key: self.key@, ts: self.ts@, document: self.document@ }
    }
}

/// Where a read of a range stopped.
#[derive(Clone, Debug, PartialEq, Eq)]
pub enum CursorPosition {
    After(Vec<u8>),
    End,
}

/// What a [`CursorPosition`] states.
pub enum CursorView {
    After(Seq<u8>),
    End,
}

impl View for CursorPosition {
    type V = CursorView;

    open spec fn view(&self) -> CursorView {
        match self {
            CursorPosition::After(key) => CursorView::After(key@),
            CursorPosition::End => CursorView::End,
        }
    }
}

/// What was read of a range.
#[derive(Clone, Debug, PartialEq, Eq)]
pub struct OwnerIndexRangeResult {
    pub entries: Vec<OwnerIndexEntry>,
    pub cursor: CursorPosition,
}

/// What an [`OwnerIndexRangeResult`] states.
#[verifier::ext_equal]
pub struct RangeResultView {
    pub entries: Seq<EntryView>,
    pub cursor: CursorView,
}

impl View for OwnerIndexRangeResult {
    type V = RangeResultView;

    open spec fn view(&self) -> RangeResultView {
        RangeResultView {
            entries: Seq::new(self.entries@.len(), |i: int| self.entries@[i]@),
            cursor: self.cursor@,
        }
    }
}

/// An entry of an index, as a message.
#[derive(Clone, Debug, PartialEq, Eq)]
pub struct OwnerReadIndexEntry {
    pub index_key: Vec<u8>,
    pub commit_ts: u64,
    pub document: Option<Vec<u8>>,
}

/// What an [`OwnerReadIndexEntry`] states.
#[verifier::ext_equal]
pub struct EntryMessageView {
    pub index_key: Seq<u8>,
    pub commit_ts: u64,
    pub document: Option<Seq<u8>>,
}

impl View for OwnerReadIndexEntry {
    type V = EntryMessageView;

    open spec fn view(&self) -> EntryMessageView {
        EntryMessageView {
            index_key: self.index_key@,
            commit_ts: self.commit_ts,
            document: match self.document {
                Some(document) => Some(document@),
                None => None,
            },
        }
    }
}

/// What was read of a range, as a message.
#[derive(Clone, Debug, PartialEq, Eq)]
pub struct OwnerReadIndexRangeResult {
    pub entries: Vec<OwnerReadIndexEntry>,
    pub cursor: Option<CursorPosition>,
}

/// What an [`OwnerReadIndexRangeResult`] states.
#[verifier::ext_equal]
pub struct RangeMessageView {
    pub entries: Seq<EntryMessageView>,
    pub cursor: Option<CursorView>,
}

impl View for OwnerReadIndexRangeResult {
    type V = RangeMessageView;

    open spec fn view(&self) -> RangeMessageView {
        RangeMessageView {
            entries: Seq::new(self.entries@.len(), |i: int| self.entries@[i]@),
            cursor: match self.cursor {
                Some(cursor) => Some(cursor@),
                None => None,
            },
        }
    }
}

/// Why a message is not understood.
#[derive(Clone, Copy, Debug, PartialEq, Eq, Structural)]
pub enum OwnerReadError {
    MissingDocument,
    TimestampOutOfRange { value: u64 },
    MissingCursor,
    MissingEnd,
    InvalidOrder,
    TabletIdLength { len: usize },
    MissingOutcome,
}

impl OwnerReadError {
    /// The text of the error.
    pub open spec fn text(self) -> Seq<char> {
        match self {
            OwnerReadError::MissingDocument => "Owner read entry missing document"@,
            OwnerReadError::TimestampOutOfRange { value } => {
                "Timestamp out of range "@ + text::decimal(value as nat)
            },
            OwnerReadError::MissingCursor => "Owner read result missing cursor"@,
            OwnerReadError::MissingEnd => "Owner read interval missing end"@,
            OwnerReadError::InvalidOrder => "Invalid owner read order"@,
            OwnerReadError::TabletIdLength { len } => {
                "Expected 16 bytes for TabletId, got "@ + text::decimal(len as nat)
            },
            OwnerReadError::MissingOutcome => "Owner read barrier response missing outcome"@,
        }
    }

    /// The text of the error.
    pub fn message(&self) -> (r: String)
        ensures
            r@ == self.text(),
    {
        match self {
            OwnerReadError::MissingDocument => "Owner read entry missing document".to_owned(),
            OwnerReadError::TimestampOutOfRange { value } => {
                let mut s = "Timestamp out of range ".to_owned();
                text::push_decimal(&mut s, *value);
                s
            },
            OwnerReadError::MissingCursor => "Owner read result missing cursor".to_owned(),
            OwnerReadError::MissingEnd => "Owner read interval missing end".to_owned(),
            OwnerReadError::InvalidOrder => "Invalid owner read order".to_owned(),
            OwnerReadError::TabletIdLength { len } => {
                let mut s = "Expected 16 bytes for TabletId, got ".to_owned();
                text::push_decimal(&mut s, *len as u64);
                s
            },
            OwnerReadError::MissingOutcome => {
                "Owner read barrier response missing outcome".to_owned()
            },
        }
    }
}

/// The message of an entry.
pub open spec fn entry_message(e: EntryView) -> EntryMessageView {
    EntryMessageView { index_key: e.key, commit_ts: e.ts, document: Some(e.document) }
}

/// The message of what was read of a range.
pub open spec fn range_message(result: RangeResultView) -> RangeMessageView {
    RangeMessageView {
        entries: result.entries.map_values(|e: EntryView| entry_message(e)),
        cursor: Some(result.cursor),
    }
}

/// Why an entry is not understood.
pub open spec fn entry_error(e: EntryMessageView) -> Option<OwnerReadError> {
    if e.document is None {
        Some(OwnerReadError::MissingDocument)
    } else if !commit_delta::is_timestamp(e.commit_ts) {
        Some(OwnerReadError::TimestampOutOfRange { value: e.commit_ts })
    } else {
        None
    }
}

/// Why the first of `n` entries that is not understood is not.
pub open spec fn entries_error(entries: Seq<EntryMessageView>, n: nat) -> Option<OwnerReadError>
    decreases n,
{
    if n == 0 {
        None
    } else {
        match entries_error(entries, (n - 1) as nat) {
            Some(error) => Some(error),
            None => entry_error(entries[n - 1]),
        }
    }
}

/// The entry that a message holds.
pub open spec fn read_entry(e: EntryMessageView) -> EntryView {
    EntryView { key: e.index_key, ts: e.commit_ts, document: e.document->Some_0 }
}

/// What a message says was read of a range.
pub open spec fn range_in(m: RangeMessageView) -> Result<RangeResultView, OwnerReadError> {
    match entries_error(m.entries, m.entries.len()) {
        Some(error) => Err(error),
        None => match m.cursor {
            None => Err(OwnerReadError::MissingCursor),
            Some(cursor) => Ok(
                RangeResultView {
                    entries: m.entries.map_values(|e: EntryMessageView| read_entry(e)),
                    cursor,
                },
            ),
        },
    }
}

/// The times of the rows are times. Those of every result are.
pub open spec fn holds_times(result: RangeResultView) -> bool {
    forall|i: int|
        0 <= i < result.entries.len() ==> commit_delta::is_timestamp(
            (#[trigger] result.entries[i]).ts,
        )
}

/// The message of what was read of a range.
pub fn result_to_proto(result: &OwnerIndexRangeResult) -> (r: OwnerReadIndexRangeResult)
    ensures
        r@ == range_message(result@),
        holds_times(result@),
{
    let mut entries: Vec<OwnerReadIndexEntry> = Vec::new();
    let mut i: usize = 0;
    while i < result.entries.len()
        invariant
            i <= result.entries@.len(),
            entries@.len() == i,
            forall|k: int|
                0 <= k < i ==> (#[trigger] entries@[k])@ == entry_message(result@.entries[k]),
            forall|k: int|
                0 <= k < i ==> commit_delta::is_timestamp((#[trigger] result@.entries[k]).ts),
        decreases result.entries@.len() - i,
    {
        let entry = OwnerReadIndexEntry {
            index_key: result.entries[i].key.clone(),
            commit_ts: result.entries[i].ts.nanos(),
            document: Some(result.entries[i].document.clone()),
        };
        assert(entry@ =~= entry_message(result@.entries[i as int]));
        entries.push(entry);
        i = i + 1;
    }
    let cursor = match &result.cursor {
        CursorPosition::After(key) => CursorPosition::After(key.clone()),
        CursorPosition::End => CursorPosition::End,
    };
    let message = OwnerReadIndexRangeResult { entries, cursor: Some(cursor) };
    assert(message@.entries =~= range_message(result@).entries);
    message
}

proof fn lemma_entries_error_stays(entries: Seq<EntryMessageView>, n: nat, m: nat)
    requires
        n <= m,
        entries_error(entries, n) is Some,
    ensures
        entries_error(entries, m) == entries_error(entries, n),
    decreases m - n,
{
    if n < m {
        lemma_entries_error_stays(entries, n, (m - 1) as nat);
    }
}

/// What a message says was read of a range.
pub fn result_from_proto(message: OwnerReadIndexRangeResult) -> (r: Result<
    OwnerIndexRangeResult,
    OwnerReadError,
>)
    ensures
        match r {
            Ok(result) => range_in(message@) == Ok::<RangeResultView, OwnerReadError>(result@),
            Err(error) => range_in(message@) == Err::<RangeResultView, OwnerReadError>(error),
        },
{
    let ghost list = message@.entries;
    let mut entries: Vec<OwnerIndexEntry> = Vec::new();
    let mut i: usize = 0;
    while i < message.entries.len()
        invariant
            list == message@.entries,
            i <= message.entries@.len(),
            entries_error(list, i as nat) is None,
            entries@.len() == i,
            forall|k: int| 0 <= k < i ==> (#[trigger] entries@[k])@ == read_entry(list[k]),
        decreases message.entries@.len() - i,
    {
        assert(list[i as int] == message.entries@[i as int]@);
        let commit_ts: u64 = message.entries[i].commit_ts;
        match (&message.entries[i].document, Timestamp::from_nanos(commit_ts)) {
            (Some(document), Some(ts)) => {
                let entry = OwnerIndexEntry {
                    key: message.entries[i].index_key.clone(),
                    ts,
                    document: document.clone(),
                };
                assert(entry@ =~= read_entry(list[i as int]));
                entries.push(entry);
                assert(entries_error(list, (i + 1) as nat) is None);
            },
            (None, _) => {
                proof {
                    assert(entries_error(list, (i + 1) as nat) is Some);
                    lemma_entries_error_stays(list, (i + 1) as nat, list.len());
                }
                return Err(OwnerReadError::MissingDocument);
            },
            (Some(_), None) => {
                proof {
                    assert(entries_error(list, (i + 1) as nat) is Some);
                    lemma_entries_error_stays(list, (i + 1) as nat, list.len());
                }
                return Err(OwnerReadError::TimestampOutOfRange { value: commit_ts });
            },
        }
        i = i + 1;
    }
    match message.cursor {
        None => Err(OwnerReadError::MissingCursor),
        Some(cursor) => {
            let result = OwnerIndexRangeResult { entries, cursor };
            assert(result@.entries =~= list.map_values(|e: EntryMessageView| read_entry(e)));
            Ok(result)
        },
    }
}

proof fn lemma_written_entries_are_read(entries: Seq<EntryMessageView>, n: nat)
    requires
        n <= entries.len(),
        forall|i: int| 0 <= i < n ==> entry_error(#[trigger] entries[i]) is None,
    ensures
        entries_error(entries, n) is None,
    decreases n,
{
    if n > 0 {
        lemma_written_entries_are_read(entries, (n - 1) as nat);
    }
}

/// What was read of a range is understood by the reader as the owner meant it:
/// the rows, their order and the cursor are kept.
pub proof fn range_survives_the_wire(result: RangeResultView)
    requires
        holds_times(result),
    ensures
        range_in(range_message(result)) == Ok::<RangeResultView, OwnerReadError>(result),
{
    let m = range_message(result);
    assert forall|i: int| 0 <= i < m.entries.len() implies entry_error(
        #[trigger] m.entries[i],
    ) is None by {
        assert(m.entries[i] == entry_message(result.entries[i]));
    }
    lemma_written_entries_are_read(m.entries, m.entries.len());
    let entries = m.entries.map_values(|e: EntryMessageView| read_entry(e));
    assert forall|i: int| 0 <= i < entries.len() implies entries[i] == result.entries[i] by {
        assert(m.entries[i] == entry_message(result.entries[i]));
    }
    assert(entries =~= result.entries);
}

/// The bytes of a tablet's identifier.
pub fn tablet_id_to_bytes(tablet_id: TabletId) -> (r: Vec<u8>)
    ensures
        r@ == tablet_id@,
{
    vstd::slice::slice_to_vec(tablet_id.0.as_slice())
}

/// Reads a tablet's identifier from its bytes.
pub fn tablet_id_from_bytes(bytes: Vec<u8>) -> (r: Result<TabletId, OwnerReadError>)
    ensures
        match r {
            Ok(tablet_id) => bytes@.len() == 16 && tablet_id@ == bytes@,
            Err(error) => bytes@.len() != 16 && error == (OwnerReadError::TabletIdLength {
                len: bytes@.len() as usize,
            }),
        },
{
    match TabletId::from_bytes(bytes.as_slice()) {
        Some(tablet_id) => Ok(tablet_id),
        None => Err(OwnerReadError::TabletIdLength { len: bytes.len() }),
    }
}

/// The end of an interval, as a message.
#[derive(Clone, Debug, PartialEq, Eq)]
pub enum IntervalEndProto {
    Exclusive(Vec<u8>),
    AfterAll,
}

/// An interval, as a message.
#[derive(Clone, Debug, PartialEq, Eq)]
pub struct IntervalProto {
    pub start_inclusive: Vec<u8>,
    pub end: Option<IntervalEndProto>,
}

/// The message of an interval.
pub open spec fn interval_message(interval: Interval) -> IntervalProto {
    IntervalProto {
        start_inclusive: interval.start,
        end: Some(
            match interval.end {
                Some(end) => IntervalEndProto::Exclusive(end),
                None => IntervalEndProto::AfterAll,
            },
        ),
    }
}

/// The interval that a message holds.
pub open spec fn interval_in(proto: IntervalProto) -> Result<Interval, OwnerReadError> {
    match proto.end {
        None => Err(OwnerReadError::MissingEnd),
        Some(IntervalEndProto::Exclusive(end)) => Ok(
            Interval { start: proto.start_inclusive, end: Some(end) },
        ),
        Some(IntervalEndProto::AfterAll) => Ok(
            Interval { start: proto.start_inclusive, end: None },
        ),
    }
}

/// The message of an interval.
pub fn interval_to_proto(interval: Interval) -> (r: IntervalProto)
    ensures
        r == interval_message(interval),
{
    let end = match interval.end {
        Some(end) => IntervalEndProto::Exclusive(end),
        None => IntervalEndProto::AfterAll,
    };
    IntervalProto { start_inclusive: interval.start, end: Some(end) }
}

/// The interval that a message holds.
pub fn interval_from_proto(interval: IntervalProto) -> (r: Result<Interval, OwnerReadError>)
    ensures
        r == interval_in(interval),
{
    match interval.end {
        None => Err(OwnerReadError::MissingEnd),
        Some(IntervalEndProto::Exclusive(end)) => Ok(
            Interval { start: interval.start_inclusive, end: Some(end) },
        ),
        Some(IntervalEndProto::AfterAll) => Ok(
            Interval { start: interval.start_inclusive, end: None },
        ),
    }
}

/// The number that stands for an order in messages.
pub open spec fn order_number(order: Order) -> i32 {
    match order {
        Order::Asc => 0,
        Order::Desc => 1,
    }
}

/// The number that stands for an order in messages.
pub fn order_to_proto(order: Order) -> (r: i32)
    ensures
        r == order_number(order),
{
    match order {
        Order::Asc => 0,
        Order::Desc => 1,
    }
}

/// The order that a number stands for.
pub fn order_from_proto(order: i32) -> (r: Result<Order, OwnerReadError>)
    ensures
        match r {
            Ok(meant) => order == order_number(meant),
            Err(error) => order != 0 && order != 1 && error == OwnerReadError::InvalidOrder,
        },
{
    if order == 0 {
        Ok(Order::Asc)
    } else if order == 1 {
        Ok(Order::Desc)
    } else {
        Err(OwnerReadError::InvalidOrder)
    }
}

/// Intervals and orders are understood as they were meant.
pub proof fn interval_and_order_survive_the_wire(interval: Interval, a: Order, b: Order)
    ensures
        interval_in(interval_message(interval)) == Ok::<Interval, OwnerReadError>(interval),
        order_number(a) == order_number(b) ==> a == b,
{
}

/// Which index of a table is meant.
#[derive(Clone, Debug, PartialEq, Eq)]
pub enum IndexDescriptor {
    ById,
    ByCreationTime,
    Named(String),
}

/// What an [`IndexDescriptor`] states.
pub enum DescriptorView {
    ById,
    ByCreationTime,
    Named(Seq<char>),
}

impl View for IndexDescriptor {
    type V = DescriptorView;

    open spec fn view(&self) -> DescriptorView {
        match self {
            IndexDescriptor::ById => DescriptorView::ById,
            IndexDescriptor::ByCreationTime => DescriptorView::ByCreationTime,
            IndexDescriptor::Named(name) => DescriptorView::Named(name@),
        }
    }
}

/// The index that a descriptor on the wire means.
pub open spec fn descriptor_in(descriptor: Seq<char>) -> DescriptorView {
    if descriptor == "by_id"@ {
        DescriptorView::ById
    } else if descriptor == "by_creation_time"@ {
        DescriptorView::ByCreationTime
    } else {
        DescriptorView::Named(descriptor)
    }
}

/// An index, by the tablet and by the name of its table.
#[derive(Clone, Debug)]
pub struct IndexNames {
    pub tablet_id: TabletId,
    pub table_name: TableName,
    pub descriptor: IndexDescriptor,
}

/// Why no index is meant on the wire.
#[derive(Clone, Debug, PartialEq, Eq)]
pub enum IndexNamesError {
    InvalidTableName,
    /// The descriptor cannot name an index.
    InvalidDescriptor { error: String },
}

/// What an [`IndexNamesError`] states.
#[verifier::ext_equal]
pub enum IndexNamesErrorView {
    InvalidTableName,
    InvalidDescriptor { error: Seq<char> },
}

impl View for IndexNamesError {
    type V = IndexNamesErrorView;

    open spec fn view(&self) -> IndexNamesErrorView {
        match self {
            IndexNamesError::InvalidTableName => IndexNamesErrorView::InvalidTableName,
            IndexNamesError::InvalidDescriptor { error } => {
                IndexNamesErrorView::InvalidDescriptor { error: error@ }
            },
        }
    }
}

impl IndexNamesErrorView {
    /// The text of the error.
    pub open spec fn text(self) -> Seq<char> {
        match self {
            IndexNamesErrorView::InvalidTableName => "Invalid table name"@,
            IndexNamesErrorView::InvalidDescriptor { error } => error,
        }
    }
}

impl IndexNamesError {
    /// The text of the error.
    pub fn message(&self) -> (r: String)
        ensures
            r@ == self@.text(),
    {
        match self {
            IndexNamesError::InvalidTableName => "Invalid table name".to_owned(),
            IndexNamesError::InvalidDescriptor { error } => error.clone(),
        }
    }
}

/// Why no index is meant on the wire, given what is said against the descriptor
/// as the name of an index. Nothing is asked of the built-in descriptors.
pub open spec fn index_names_error(
    table_name: Seq<char>,
    descriptor: Seq<char>,
    refused: Option<Seq<char>>,
) -> Option<IndexNamesErrorView> {
    if !partition::is_table_name(table_name) {
        Some(IndexNamesErrorView::InvalidTableName)
    } else if descriptor_in(descriptor) is Named && refused is Some {
        Some(IndexNamesErrorView::InvalidDescriptor { error: refused->Some_0 })
    } else {
        None
    }
}

/// The index that is meant on the wire. `refused` is what the catalog's naming
/// rules say against the descriptor, where they do not take it.
pub fn index_names_from_wire(
    tablet_id: TabletId,
    table_name: String,
    descriptor: String,
    refused: Option<String>,
) -> (r: Result<IndexNames, IndexNamesError>)
    ensures
        match r {
            Ok(names) => {
                &&& index_names_error(table_name@, descriptor@, text::optional(refused)) is None
                &&& names.tablet_id == tablet_id
                &&& names.table_name@ == table_name@
                &&& names.descriptor@ == descriptor_in(descriptor@)
            },
            Err(error) => index_names_error(table_name@, descriptor@, text::optional(refused))
                == Some(error@),
        },
{
    let table_name = match TableName::parse(table_name.as_str()) {
        Some(table_name) => table_name,
        None => {
            return Err(IndexNamesError::InvalidTableName);
        },
    };
    let descriptor = if text::same_text(descriptor.as_str(), "by_id") {
        IndexDescriptor::ById
    } else if text::same_text(descriptor.as_str(), "by_creation_time") {
        IndexDescriptor::ByCreationTime
    } else {
        match refused {
            Some(error) => {
                return Err(IndexNamesError::InvalidDescriptor { error });
            },
            None => IndexDescriptor::Named(descriptor),
        }
    };
    Ok(IndexNames { tablet_id, table_name, descriptor })
}

/// A range of an index to read.
#[derive(Clone, Debug)]
pub struct RangeRequest {
    pub tablet_id: TabletId,
    pub table_name: TableName,
    pub descriptor: String,
    pub interval: Interval,
    pub order: Order,
    pub max_size: usize,
}

/// A range of an index to read, as a message.
#[derive(Clone, Debug, PartialEq, Eq)]
pub struct OwnerReadIndexRange {
    pub tablet_id: Vec<u8>,
    pub descriptor: String,
    pub table_name: String,
    pub interval: Option<IntervalProto>,
    pub order: i32,
    pub max_size: u64,
}

impl OwnerReadIndexRange {
    /// The message asks for the range.
    pub open spec fn asks_for(&self, range: RangeRequest) -> bool {
        &&& self.tablet_id@ == range.tablet_id@
        &&& self.descriptor@ == range.descriptor@
        &&& self.table_name@ == range.table_name@
        &&& self.interval == Some(interval_message(range.interval))
        &&& self.order == order_number(range.order)
        &&& self.max_size == range.max_size
    }
}

/// The message of a range to read.
pub fn range_to_proto(range: RangeRequest) -> (r: OwnerReadIndexRange)
    ensures
        r.asks_for(range),
{
    OwnerReadIndexRange {
        tablet_id: tablet_id_to_bytes(range.tablet_id),
        descriptor: range.descriptor,
        table_name: range.table_name.as_str().to_owned(),
        interval: Some(interval_to_proto(range.interval)),
        order: order_to_proto(range.order),
        max_size: range.max_size as u64,
    }
}

/// The outcome of a barrier, as a message.
#[derive(Clone, Copy, Debug, PartialEq, Eq, Structural)]
pub enum CloseReadTimestampOutcome {
    ClosedTs(u64),
    RetryAtTs(u64),
    BlockedTs(u64),
}

/// What an owner says of a timestamp that it is asked to close.
#[derive(Clone, Copy, Debug, PartialEq, Eq, Structural)]
pub enum ReadTimestampClosure {
    Closed(Timestamp),
    RetryAt(Timestamp),
    Blocked(Timestamp),
}

/// The closure says what the outcome says.
pub open spec fn same_closure(
    closure: ReadTimestampClosure,
    outcome: CloseReadTimestampOutcome,
) -> bool {
    match (closure, outcome) {
        (ReadTimestampClosure::Closed(ts), CloseReadTimestampOutcome::ClosedTs(value)) => ts@
            == value,
        (ReadTimestampClosure::RetryAt(ts), CloseReadTimestampOutcome::RetryAtTs(value)) => ts@
            == value,
        (ReadTimestampClosure::Blocked(ts), CloseReadTimestampOutcome::BlockedTs(value)) => ts@
            == value,
        _ => false,
    }
}

impl CloseReadTimestampOutcome {
    /// The timestamp of the outcome.
    pub open spec fn value(self) -> u64 {
        match self {
            CloseReadTimestampOutcome::ClosedTs(value) => value,
            CloseReadTimestampOutcome::RetryAtTs(value) => value,
            CloseReadTimestampOutcome::BlockedTs(value) => value,
        }
    }
}

/// What an owner says of a timestamp that it is asked to close.
pub fn closure_from_proto(outcome: Option<CloseReadTimestampOutcome>) -> (r: Result<
    ReadTimestampClosure,
    OwnerReadError,
>)
    ensures
        match outcome {
            None => r == Err::<ReadTimestampClosure, OwnerReadError>(
                OwnerReadError::MissingOutcome,
            ),
            Some(outcome) => if commit_delta::is_timestamp(outcome.value()) {
                r matches Ok(closure) && same_closure(closure, outcome)
            } else {
                r == Err::<ReadTimestampClosure, OwnerReadError>(
                    OwnerReadError::TimestampOutOfRange { value: outcome.value() },
                )
            },
        },
{
    let outcome = match outcome {
        None => {
            return Err(OwnerReadError::MissingOutcome);
        },
        Some(outcome) => outcome,
    };
    let value: u64 = match outcome {
        CloseReadTimestampOutcome::ClosedTs(value) => value,
        CloseReadTimestampOutcome::RetryAtTs(value) => value,
        CloseReadTimestampOutcome::BlockedTs(value) => value,
    };
    match Timestamp::from_nanos(value) {
        None => Err(OwnerReadError::TimestampOutOfRange { value }),
        Some(ts) => Ok(
            match outcome {
                CloseReadTimestampOutcome::ClosedTs(_) => ReadTimestampClosure::Closed(ts),
                CloseReadTimestampOutcome::RetryAtTs(_) => ReadTimestampClosure::RetryAt(ts),
                CloseReadTimestampOutcome::BlockedTs(_) => ReadTimestampClosure::Blocked(ts),
            },
        ),
    }
}

/// What is asked of an owner.
#[derive(Clone, Debug)]
pub struct OwnerReadIndexRangesRequest {
    pub owner_partition: u32,
    pub placement_version: u64,
    pub snapshot_ts: u64,
    pub ranges: Vec<OwnerReadIndexRange>,
}

/// The request for ranges.
pub fn read_index_ranges_request(
    owner_partition: PartitionId,
    placement_version: PlacementVersion,
    snapshot_ts: Timestamp,
    ranges: Vec<RangeRequest>,
) -> (r: OwnerReadIndexRangesRequest)
    ensures
        r.owner_partition == owner_partition.0,
        r.placement_version == placement_version.0,
        r.snapshot_ts == snapshot_ts@,
        r.ranges@.len() == ranges@.len(),
        forall|i: int| 0 <= i < ranges@.len() ==> (#[trigger] r.ranges@[i]).asks_for(ranges@[i]),
{
    let mut messages: Vec<OwnerReadIndexRange> = Vec::new();
    let ghost given = ranges@;
    let mut ranges = ranges;
    while ranges.len() > 0
        invariant
            ranges@.len() + messages@.len() == given.len(),
            forall|i: int| 0 <= i < ranges@.len() ==> ranges@[i] == given[messages@.len() + i],
            forall|i: int|
                0 <= i < messages@.len() ==> (#[trigger] messages@[i]).asks_for(given[i]),
        decreases ranges@.len(),
    {
        let range = ranges.remove(0);
        messages.push(range_to_proto(range));
    }
    OwnerReadIndexRangesRequest {
        owner_partition: owner_partition.0,
        placement_version: placement_version.0,
        snapshot_ts: snapshot_ts.nanos(),
        ranges: messages,
    }
}

/// What is understood of the first `n` results.
pub open spec fn ranges_in(messages: Seq<RangeMessageView>, n: nat) -> Result<
    Seq<RangeResultView>,
    OwnerReadError,
>
    decreases n,
{
    if n == 0 {
        Ok(Seq::empty())
    } else {
        match ranges_in(messages, (n - 1) as nat) {
            Err(error) => Err(error),
            Ok(before) => match range_in(messages[n - 1]) {
                Ok(result) => Ok(before.push(result)),
                Err(error) => Err(error),
            },
        }
    }
}

/// The views of messages.
pub open spec fn message_views(messages: Seq<OwnerReadIndexRangeResult>) -> Seq<RangeMessageView> {
    Seq::new(messages.len(), |i: int| messages[i]@)
}

/// The views of results.
pub open spec fn result_views(results: Seq<OwnerIndexRangeResult>) -> Seq<RangeResultView> {
    Seq::new(results.len(), |i: int| results[i]@)
}

proof fn lemma_ranges_error_stays(messages: Seq<RangeMessageView>, n: nat, m: nat)
    requires
        n <= m,
        ranges_in(messages, n) is Err,
    ensures
        ranges_in(messages, m) == ranges_in(messages, n),
    decreases m - n,
{
    if n < m {
        lemma_ranges_error_stays(messages, n, (m - 1) as nat);
    }
}

/// What an owner answers to a request for ranges.
pub fn results_from_proto(messages: Vec<OwnerReadIndexRangeResult>) -> (r: Result<
    Vec<OwnerIndexRangeResult>,
    OwnerReadError,
>)
    ensures
        match r {
            Ok(results) => ranges_in(message_views(messages@), messages@.len()) == Ok::<
                Seq<RangeResultView>,
                OwnerReadError,
            >(result_views(results@)),
            Err(error) => ranges_in(message_views(messages@), messages@.len()) == Err::<
                Seq<RangeResultView>,
                OwnerReadError,
            >(error),
        },
{
    let ghost given = messages@;
    let ghost views = message_views(given);
    let mut rest = messages;
    let mut results: Vec<OwnerIndexRangeResult> = Vec::new();
    assert(result_views(results@) =~= Seq::empty());
    while rest.len() > 0
        invariant
            given == messages@,
            views == message_views(given),
            rest@.len() + results@.len() == given.len(),
            forall|i: int| 0 <= i < rest@.len() ==> rest@[i] == given[results@.len() + i],
            ranges_in(views, results@.len()) == Ok::<Seq<RangeResultView>, OwnerReadError>(
                result_views(results@),
            ),
        decreases rest@.len(),
    {
        let ghost n = results@.len();
        let message = rest.remove(0);
        assert(views[n as int] == message@);
        match result_from_proto(message) {
            Ok(result) => {
                let ghost before = results@;
                results.push(result);
                assert(result_views(results@) =~= result_views(before).push(result@));
            },
            Err(error) => {
                proof {
                    assert(ranges_in(views, n + 1) == Err::<
                        Seq<RangeResultView>,
                        OwnerReadError,
                    >(error));
                    lemma_ranges_error_stays(views, n + 1, views.len());
                }
                return Err(error);
            },
        }
    }
    Ok(results)
}

/// An index as the registry knows it.
#[derive(Clone, Debug)]
pub struct EnabledIndex {
    pub tablet_id: TabletId,
    pub descriptor: String,
    /// How the tablet's identifier prints.
    pub tablet_text: String,
}

/// Where a page of an index comes from.
#[derive(Clone, Debug)]
pub enum PageSource {
    Local,
    Owner { owner: PartitionId, placement_version: PlacementVersion, range: RangeRequest },
}

/// A page of an index to read.
#[derive(Clone, Debug)]
pub struct PageRequest {
    /// How the index's identifier prints.
    pub index_text: String,
    pub tablet_id: TabletId,
    /// How the tablet's identifier prints.
    pub tablet_text: String,
    pub interval: Interval,
    pub order: Order,
    pub max_results: usize,
}

/// A table is read from the local store.
pub open spec fn reads_locally(map: partition::PartitionMapView, table: Seq<char>) -> bool {
    partition::is_system_name(table) || map.owner_of(table) == map.local_partition
}

/// Decides where the pages of an index come from.
pub struct OwnerAwareIndexReader {
    timestamp: Timestamp,
    partition_map: PartitionMap,
}

impl OwnerAwareIndexReader {
    pub closed spec fn wf(&self) -> bool {
        self.partition_map.wf()
    }

    pub closed spec fn map(&self) -> partition::PartitionMapView {
        self.partition_map@
    }

    /// The timestamp that is read at.
    pub closed spec fn at(&self) -> u64 {
        self.timestamp@
    }

    pub fn new(timestamp: Timestamp, partition_map: PartitionMap) -> (r: Self)
        requires
            partition_map.wf(),
        ensures
            r.wf(),
            r.at() == timestamp@,
            r.map() == partition_map@,
    {
        OwnerAwareIndexReader { timestamp, partition_map }
    }

    /// The timestamp that is read at.
    pub fn timestamp(&self) -> (r: Timestamp)
        ensures
            r@ == self.at(),
    {
        self.timestamp
    }

    /// Where a page comes from: system tables and local tables from the local
    /// store, any other from its owner. For a page of an owner the index has to
    /// be enabled, and to be one of the tablet that is read.
    pub fn page_source(
        &self,
        table_name: &TableName,
        index: Option<EnabledIndex>,
        request: PageRequest,
    ) -> (r: Result<PageSource, String>)
        requires
            self.wf(),
        ensures
            match r {
                Ok(PageSource::Local) => reads_locally(self.map(), table_name@),
                Ok(PageSource::Owner { owner, placement_version, range }) => {
                    &&& !reads_locally(self.map(), table_name@)
                    &&& owner == self.map().owner_of(table_name@)
                    &&& placement_version == self.map().placement_version
                    &&& index matches Some(index) && index.tablet_id@ == request.tablet_id@
                        && range.descriptor@ == index.descriptor@
                    &&& range.tablet_id@ == request.tablet_id@
                    &&& range.table_name@ == table_name@
                    &&& range.interval == request.interval
                    &&& range.order == request.order
                    &&& range.max_size == request.max_results
                },
                Err(error) => {
                    &&& !reads_locally(self.map(), table_name@)
                    &&& match index {
                        None => error@ == "Missing enabled index "@ + request.index_text@
                            + " for owner read"@,
                        Some(index) => index.tablet_id@ != request.tablet_id@ && error@
                            == "Index "@ + request.index_text@ + " belongs to tablet "@
                            + index.tablet_text@ + ", not requested tablet "@
                            + request.tablet_text@,
                    }
                },
            },
            r matches Ok(PageSource::Local) <==> (table_name@.len() > 0 && table_name@[0] == '_')
                || self.map().owner_of(table_name@).0 == self.map().local_partition.0,
            r matches Ok(PageSource::Owner { owner, placement_version, range }) ==> owner.0
                != self.map().local_partition.0,
    {
        let owner = self.partition_map.partition_for_table(table_name);
        if table_name.is_system() || owner.0 == self.partition_map.local_partition().0 {
            return Ok(PageSource::Local);
        }
        let index = match index {
            Some(index) => index,
            None => {
                let mut error = "Missing enabled index ".to_owned();
                error.append(request.index_text.as_str());
                error.append(" for owner read");
                return Err(error);
            },
        };
        let given = tablet_id_to_bytes(index.tablet_id);
        let wanted = tablet_id_to_bytes(request.tablet_id);
        match text::relate_bytes(given.as_slice(), wanted.as_slice()) {
            text::Relation::Same => {},
            _ => {
                let mut error = "Index ".to_owned();
                error.append(request.index_text.as_str());
                error.append(" belongs to tablet ");
                error.append(index.tablet_text.as_str());
                error.append(", not requested tablet ");
                error.append(request.tablet_text.as_str());
                return Err(error);
            },
        }
        Ok(
            PageSource::Owner {
                owner,
                placement_version: self.partition_map.placement_version(),
                range: RangeRequest {
                    tablet_id: request.tablet_id,
                    table_name: table_name.duplicate(),
                    descriptor: index.descriptor,
                    interval: request.interval,
                    order: request.order,
                    max_size: request.max_results,
                },
            },
        )
    }

    /// The page among what the owner answered: there has to be one.
    pub fn single_page(&self, owner: PartitionId, results: Vec<OwnerIndexRangeResult>) -> (r:
        Result<OwnerIndexRangeResult, String>)
        ensures
            match r {
                Ok(result) => results@.len() == 1 && result == results@[0],
                Err(error) => results@.len() != 1 && error@ == "Owner "@ + owner.printed()
                    + " returned "@ + text::decimal(results@.len()) + " index pages for one request"@,
            },
    {
        let mut results = results;
        if results.len() != 1 {
            let mut error = "Owner ".to_owned();
            error.append(owner.print().as_str());
            error.append(" returned ");
            text::push_decimal(&mut error, results.len() as u64);
            error.append(" index pages for one request");
            return Err(error);
        }
        Ok(results.remove(0))
    }
}

/// A table is read locally exactly where it is a system table, by the underscore
/// in front of its name, or where this node owns it. So of all nodes only those of
/// the owner read a user table from their own store.
pub proof fn only_owners_read_user_tables_locally(
    map: partition::PartitionMapView,
    table: Seq<char>,
    asking: PartitionId,
)
    ensures
        reads_locally(map, table) <==> (table.len() > 0 && table[0] == '_') || map.owner_of(
            table,
        ).0 == map.local_partition.0,
        table.len() > 0 && table[0] != '_' ==> (reads_locally(
            partition::PartitionMapView { local_partition: asking, ..map },
            table,
        ) <==> asking == map.owner_of(table)),
        table.len() > 0 && table[0] == '_' ==> reads_locally(
            partition::PartitionMapView { local_partition: asking, ..map },
            table,
        ),
{
}

proof fn lemma_entries_error(entries: Seq<EntryMessageView>, n: nat)
    requires
        n <= entries.len(),
    ensures
        entries_error(entries, n) is None <==> forall|i: int|
            0 <= i < n ==> (#[trigger] entries[i]).document is Some && entries[i].commit_ts
                <= i64::MAX,
        entries_error(entries, n) matches Some(error) ==> exists|i: int|
            0 <= i < n && entry_error(#[trigger] entries[i]) == Some(error) && forall|k: int|
                0 <= k < i ==> (#[trigger] entries[k]).document is Some && entries[k].commit_ts
                    <= i64::MAX,
    decreases n,
{
    if n > 0 {
        lemma_entries_error(entries, (n - 1) as nat);
        if entries_error(entries, (n - 1) as nat) is None {
            assert(entries_error(entries, n) == entry_error(entries[n - 1]));
        }
    }
}

/// A result is understood exactly where every row has its document and a time
/// that can be one, and the message says where the read stopped. It is then the
/// one whose message this is, row for row.
pub proof fn understood_ranges_are_what_was_sent(m: RangeMessageView)
    ensures
        range_in(m) is Ok <==> m.cursor is Some && forall|i: int|
            0 <= i < m.entries.len() ==> (#[trigger] m.entries[i]).document is Some
                && m.entries[i].commit_ts <= i64::MAX,
        range_in(m) matches Ok(result) ==> {
            &&& Some(result.cursor) == m.cursor
            &&& result.entries.len() == m.entries.len()
            &&& forall|i: int|
                0 <= i < m.entries.len() ==> {
                    &&& (#[trigger] result.entries[i]).key == m.entries[i].index_key
                    &&& result.entries[i].ts == m.entries[i].commit_ts
                    &&& Some(result.entries[i].document) == m.entries[i].document
                }
        },
{
    lemma_entries_error(m.entries, m.entries.len());
}

/// What is wrong with a result is said of its first row that cannot be
/// understood: that its document is missing, or else that its time is none.
pub proof fn first_bad_row_is_named(m: RangeMessageView, i: int)
    requires
        0 <= i < m.entries.len(),
        m.entries[i].document is None || m.entries[i].commit_ts > i64::MAX,
        forall|k: int|
            0 <= k < i ==> (#[trigger] m.entries[k]).document is Some && m.entries[k].commit_ts
                <= i64::MAX,
    ensures
        range_in(m) == Err::<RangeResultView, OwnerReadError>(
            if m.entries[i].document is None {
                OwnerReadError::MissingDocument
            } else {
                OwnerReadError::TimestampOutOfRange { value: m.entries[i].commit_ts }
            },
        ),
{
    lemma_entries_error(m.entries, m.entries.len());
    let error = entries_error(m.entries, m.entries.len())->Some_0;
    assert(!(m.entries[i].document is Some && m.entries[i].commit_ts <= i64::MAX));
    let k = choose|k: int|
        0 <= k < m.entries.len() && entry_error(#[trigger] m.entries[k]) == Some(error)
            && forall|l: int|
            0 <= l < k ==> (#[trigger] m.entries[l]).document is Some && m.entries[l].commit_ts
                <= i64::MAX;
    assert(k == i);
}

/// All the results of an answer are understood, or none: each in its place.
pub proof fn answers_are_understood_range_by_range(messages: Seq<RangeMessageView>, n: nat, i: int)
    requires
        0 <= i < n <= messages.len(),
    ensures
        ranges_in(messages, n) is Ok <==> forall|k: int|
            0 <= k < n ==> range_in(#[trigger] messages[k]) is Ok,
        ranges_in(messages, n) matches Ok(results) ==> results.len() == n && Ok::<
            RangeResultView,
            OwnerReadError,
        >(results[i]) == range_in(messages[i]),
    decreases n,
{
    if n > 1 {
        if i < n - 1 {
            answers_are_understood_range_by_range(messages, (n - 1) as nat, i);
        } else {
            answers_are_understood_range_by_range(messages, (n - 1) as nat, 0);
        }
    } else {
        assert(ranges_in(messages, 0) == Ok::<Seq<RangeResultView>, OwnerReadError>(Seq::empty()));
    }
}

/// An interval is understood exactly where its end is said, and keeps its start
/// and its end.
pub proof fn understood_intervals_are_what_was_sent(proto: IntervalProto)
    ensures
        interval_in(proto) is Ok <==> proto.end is Some,
        interval_in(proto) matches Ok(interval) ==> interval.start == proto.start_inclusive
            && match proto.end {
            Some(IntervalEndProto::Exclusive(end)) => interval.end == Some(end),
            _ => interval.end is None,
        },
        proto.end is None ==> interval_in(proto) == Err::<Interval, OwnerReadError>(
            OwnerReadError::MissingEnd,
        ),
{
}

/// Upward is 0 on the wire, and downward 1.
pub proof fn orders_have_their_numbers(order: Order)
    ensures
        order_number(order) == 0 <==> order == Order::Asc,
        order_number(order) == 1 <==> order == Order::Desc,
{
}

/// The built-in indexes go by their names, and every other index by its own.
pub proof fn descriptors_mean_their_index(descriptor: Seq<char>)
    ensures
        descriptor_in("by_id"@) == DescriptorView::ById,
        descriptor_in("by_creation_time"@) == DescriptorView::ByCreationTime,
        descriptor != "by_id"@ && descriptor != "by_creation_time"@ ==> descriptor_in(descriptor)
            == DescriptorView::Named(descriptor),
{
    reveal_strlit("by_id");
    reveal_strlit("by_creation_time");
    assert("by_id"@.len() != "by_creation_time"@.len());
}

/// An index is meant exactly where the table's name is one, and nothing is said
/// against a descriptor that is not built in. The name of the table is looked at
/// first.
pub proof fn index_names_are_refused_for_cause(
    table_name: Seq<char>,
    descriptor: Seq<char>,
    refused: Option<Seq<char>>,
)
    ensures
        !partition::is_table_name(table_name) ==> index_names_error(
            table_name,
            descriptor,
            refused,
        ) == Some(IndexNamesErrorView::InvalidTableName),
        partition::is_table_name(table_name) && (descriptor == "by_id"@ || descriptor
            == "by_creation_time"@ || refused is None) ==> index_names_error(
            table_name,
            descriptor,
            refused,
        ) is None,
        partition::is_table_name(table_name) && descriptor != "by_id"@ && descriptor
            != "by_creation_time"@ && refused is Some ==> index_names_error(
            table_name,
            descriptor,
            refused,
        ) == Some(IndexNamesErrorView::InvalidDescriptor { error: refused->Some_0 }),
{
}

/// What an owner says of a timestamp is understood as it was meant: closed,
/// to be tried again or blocked, and at which time.
pub proof fn closures_keep_their_meaning(
    closure: ReadTimestampClosure,
    outcome: CloseReadTimestampOutcome,
)
    ensures
        same_closure(closure, outcome) <==> {
            &&& closure is Closed <==> outcome is ClosedTs
            &&& closure is RetryAt <==> outcome is RetryAtTs
            &&& closure is Blocked <==> outcome is BlockedTs
            &&& (match closure {
                ReadTimestampClosure::Closed(ts) => ts@,
                ReadTimestampClosure::RetryAt(ts) => ts@,
                ReadTimestampClosure::Blocked(ts) => ts@,
            }) == (match outcome {
                CloseReadTimestampOutcome::ClosedTs(value) => value,
                CloseReadTimestampOutcome::RetryAtTs(value) => value,
                CloseReadTimestampOutcome::BlockedTs(value) => value,
            })
        },
        outcome.value() == (match outcome {
            CloseReadTimestampOutcome::ClosedTs(value) => value,
            CloseReadTimestampOutcome::RetryAtTs(value) => value,
            CloseReadTimestampOutcome::BlockedTs(value) => value,
        }),
{
}

/// A message asks for just the range that it was made of.
pub proof fn requests_ask_for_one_range(message: OwnerReadIndexRange, range: RangeRequest)
    requires
        message.asks_for(range),
    ensures
        message.tablet_id@ == range.tablet_id@,
        message.descriptor@ == range.descriptor@,
        message.table_name@ == range.table_name@,
        message.interval matches Some(interval) && interval_in(interval) == Ok::<
            Interval,
            OwnerReadError,
        >(range.interval),
        message.order == 0 <==> range.order == Order::Asc,
        message.order == 1 <==> range.order == Order::Desc,
        message.max_size == range.max_size,
{
}

/// A result whose rows are all understood is refused only for a cursor that is
/// missing.
pub proof fn missing_cursors_are_named(m: RangeMessageView)
    requires
        forall|i: int|
            0 <= i < m.entries.len() ==> (#[trigger] m.entries[i]).document is Some
                && m.entries[i].commit_ts <= i64::MAX,
    ensures
        range_in(m) is Err <==> m.cursor is None,
        range_in(m) matches Err(error) ==> error is MissingCursor,
{
    lemma_entries_error(m.entries, m.entries.len());
}

} // verus!
