//! Checkpoints as they are written to the object store.
//!
//! A checkpoint is stored under a key that holds its time, and the key of the
//! newest one under a key of its own.

use vstd::prelude::*;

use crate::checkpoint;
use crate::checkpoint::{
    CheckpointData,
    CheckpointView,
    DocumentLogEntry,
    InternalDocumentId,
    LogEntryView,
};
use crate::checkpoint_proto;
use crate::checkpoint_proto::{
    CheckpointMessageView,
    DocumentEntry,
    DocumentEntryView,
    GlobalEntry,
    GlobalEntryView,
};
use crate::commit_delta;
use crate::commit_delta::Timestamp;
use crate::json;
use crate::json::JsonValue;
use crate::ordered;
use crate::ordered::{OrderedKey, SortedMap};
use crate::text;

verus! {

/// How often a new checkpoint is written, in milliseconds.
pub const CHECKPOINT_INTERVAL_MS: u64 = 30_000;

/// The key of the pointer to the newest checkpoint.
pub const LATEST_KEY: &'static str = "checkpoint-latest";

/// Why bytes are no checkpoint.
#[derive(Clone, Copy, Debug, PartialEq, Eq, Structural)]
pub enum CheckpointError {
    /// The bytes are no message of a checkpoint.
    Undecodable,
    TimestampOutOfRange { value: u64 },
    DocumentIdLength { len: usize },
    /// A value beside the documents is no JSON.
    InvalidJson,
    /// There is nothing to make a checkpoint of.
    NoData,
}

impl CheckpointError {
    /// The text of the error.
    pub open spec fn text(self) -> Seq<char> {
        match self {
            CheckpointError::Undecodable => "Failed to decode checkpoint"@,
            CheckpointError::TimestampOutOfRange { value } => {
                "Timestamp out of range "@ + text::decimal(value as nat)
            },
            CheckpointError::DocumentIdLength { len } => {
                "Expected 32 bytes for InternalDocumentId, got "@ + text::decimal(len as nat)
            },
            CheckpointError::InvalidJson => "Invalid JSON in checkpoint global"@,
            CheckpointError::NoData => "No data in persistence"@,
        }
    }

    /// The text of the error.
    pub fn message(&self) -> (r: String)
        ensures
            r@ == self.text(),
    {
        match self {
            CheckpointError::Undecodable => "Failed to decode checkpoint".to_owned(),
            CheckpointError::TimestampOutOfRange { value } => {
                let mut s = "Timestamp out of range ".to_owned();
                text::push_decimal(&mut s, *value);
                s
            },
            CheckpointError::DocumentIdLength { len } => {
                let mut s = "Expected 32 bytes for InternalDocumentId, got ".to_owned();
                text::push_decimal(&mut s, *len as u64);
                s
            },
            CheckpointError::InvalidJson => "Invalid JSON in checkpoint global".to_owned(),
            CheckpointError::NoData => "No data in persistence".to_owned(),
        }
    }
}

/// The message of a revision.
pub open spec fn document_message(e: LogEntryView) -> DocumentEntryView {
    DocumentEntryView {
        ts: e.ts,
        id_bytes: e.id,
        document_bytes: match e.value {
            Some(value) => value,
            None => Seq::empty(),
        },
        has_document: e.value is Some,
        prev_ts: match e.prev_ts {
            Some(ts) => ts,
            None => 0,
        },
        has_prev_ts: e.prev_ts is Some,
    }
}

/// The message of a checkpoint whose values are listed in `names`.
pub open spec fn checkpoint_message(
    c: CheckpointView,
    names: Seq<Seq<char>>,
) -> CheckpointMessageView {
    CheckpointMessageView {
        timestamp: c.timestamp,
        documents: c.documents.map_values(|e: LogEntryView| document_message(e)),
        globals: names.map_values(
            |name: Seq<char>| GlobalEntryView { key: name, value_json: c.globals[name] },
        ),
    }
}

/// Why a stored revision is refused.
pub open spec fn document_error(e: DocumentEntryView) -> Option<CheckpointError> {
    if !commit_delta::is_timestamp(e.ts) {
        Some(CheckpointError::TimestampOutOfRange { value: e.ts })
    } else if e.id_bytes.len() != 32 {
        Some(CheckpointError::DocumentIdLength { len: e.id_bytes.len() as usize })
    } else if e.has_prev_ts && !commit_delta::is_timestamp(e.prev_ts) {
        Some(CheckpointError::TimestampOutOfRange { value: e.prev_ts })
    } else {
        None
    }
}

/// Why the first refused one of `n` stored revisions is refused.
pub open spec fn documents_error(list: Seq<DocumentEntryView>, n: nat) -> Option<CheckpointError>
    decreases n,
{
    if n == 0 {
        None
    } else {
        match documents_error(list, (n - 1) as nat) {
            Some(error) => Some(error),
            None => document_error(list[n - 1]),
        }
    }
}

/// The revision that was stored.
pub open spec fn stored_document(e: DocumentEntryView) -> LogEntryView {
    LogEntryView {
        ts: e.ts,
        id: e.id_bytes,
        value: if e.has_document {
            Some(e.document_bytes)
        } else {
            None
        },
        prev_ts: if e.has_prev_ts {
            Some(e.prev_ts)
        } else {
            None
        },
    }
}

/// The first `n` values that were stored, by name, a later one in place of an
/// earlier one. There are none where one is no JSON.
pub open spec fn stored_globals(list: Seq<GlobalEntryView>, n: nat) -> Option<
    Map<Seq<char>, Seq<char>>,
>
    decreases n,
{
    if n == 0 {
        Some(Map::empty())
    } else {
        match stored_globals(list, (n - 1) as nat) {
            None => None,
            Some(before) => match json::json_canonical(list[n - 1].value_json) {
                None => None,
                Some(value) => Some(before.insert(list[n - 1].key, value)),
            },
        }
    }
}

/// The checkpoint that was stored.
pub open spec fn stored_checkpoint(m: CheckpointMessageView) -> Result<
    CheckpointView,
    CheckpointError,
> {
    if !commit_delta::is_timestamp(m.timestamp) {
        Err(CheckpointError::TimestampOutOfRange { value: m.timestamp })
    } else if documents_error(m.documents, m.documents.len()) is Some {
        Err(documents_error(m.documents, m.documents.len())->Some_0)
    } else {
        match stored_globals(m.globals, m.globals.len()) {
            None => Err(CheckpointError::InvalidJson),
            Some(globals) => Ok(
                CheckpointView {
                    timestamp: m.timestamp,
                    documents: m.documents.map_values(|e: DocumentEntryView| stored_document(e)),
                    globals,
                },
            ),
        }
    }
}

/// The checkpoint that the bytes hold.
pub open spec fn checkpoint_in(bytes: Seq<u8>) -> Result<CheckpointView, CheckpointError> {
    match checkpoint_proto::read_checkpoint(bytes) {
        Some(m) => stored_checkpoint(m),
        None => Err(CheckpointError::Undecodable),
    }
}

/// The message of a checkpoint.
pub fn checkpoint_to_proto(data: &CheckpointData) -> (r: checkpoint_proto::CheckpointData)
    requires
        data.wf(),
    ensures
        r@ == checkpoint_message(data@, data.globals.keys()),
        data.globals.keys() == names_in_order(data@.globals),
        well_kept(data@),
{
    proof {
        checkpoint_lists_its_names(data);
    }
    let mut documents: Vec<DocumentEntry> = Vec::new();
    let mut i: usize = 0;
    while i < data.documents.len()
        invariant
            i <= data.documents@.len(),
            documents@.len() == i,
            forall|k: int|
                0 <= k < i ==> (#[trigger] documents@[k])@ == document_message(
                    data@.documents[k],
                ),
            forall|k: int|
                0 <= k < i ==> commit_delta::is_timestamp((#[trigger] data@.documents[k]).ts)
                    && data@.documents[k].id.len() == 32 && (data@.documents[k].prev_ts matches
                    Some(ts) ==> commit_delta::is_timestamp(ts)),
        decreases data.documents@.len() - i,
    {
        let entry = &data.documents[i];
        let message = DocumentEntry {
            ts: entry.ts.nanos(),
            id_bytes: entry.id.to_bytes(),
            document_bytes: match &entry.value {
                Some(value) => value.clone(),
                None => Vec::new(),
            },
            has_document: entry.value.is_some(),
            prev_ts: match entry.prev_ts {
                Some(ts) => ts.nanos(),
                None => 0,
            },
            has_prev_ts: entry.prev_ts.is_some(),
        };
        assert(message@ =~= document_message(data@.documents[i as int]));
        documents.push(message);
        i = i + 1;
    }
    let mut globals: Vec<GlobalEntry> = Vec::new();
    let ghost names = data.globals.keys();
    let mut j: usize = 0;
    while j < data.globals.len()
        invariant
            data.wf(),
            names == data.globals.keys(),
            j <= names.len(),
            globals@.len() == j,
            forall|k: int|
                0 <= k < j ==> (#[trigger] globals@[k])@ == (GlobalEntryView {
                    key: names[k],
                    value_json: data@.globals[names[k]],
                }),
            forall|k: int| 0 <= k < j ==> json::is_printed(data@.globals[#[trigger] names[k]]),
        decreases names.len() - j,
    {
        proof {
            data.globals.entries_agree();
            assert(data.globals@.dom().contains(names[j as int]));
        }
        globals.push(
            GlobalEntry {
                key: data.globals.key_at(j).clone(),
                value_json: data.globals.value_at(j).as_str().to_owned(),
            },
        );
        j = j + 1;
    }
    let message = checkpoint_proto::CheckpointData {
        timestamp: data.timestamp.nanos(),
        documents,
        globals,
    };
    proof {
        let wanted = checkpoint_message(data@, names);
        assert(message@.documents =~= wanted.documents);
        assert(message@.globals =~= wanted.globals);
        assert forall|name: Seq<char>|
            data@.globals.dom().contains(name) implies json::is_printed(
            #[trigger] data@.globals[name],
        ) by {
            assert(names.contains(name));
            let k = names.index_of(name);
            assert(names[k] == name);
        }
    }
    message
}

proof fn lemma_documents_error_stays(list: Seq<DocumentEntryView>, n: nat, m: nat)
    requires
        n <= m,
        documents_error(list, n) is Some,
    ensures
        documents_error(list, m) == documents_error(list, n),
    decreases m - n,
{
    if n < m {
        lemma_documents_error_stays(list, n, (m - 1) as nat);
    }
}

proof fn lemma_bad_json_stays(list: Seq<GlobalEntryView>, n: nat, m: nat)
    requires
        n <= m,
        stored_globals(list, n) is None,
    ensures
        stored_globals(list, m) is None,
    decreases m - n,
{
    if n < m {
        lemma_bad_json_stays(list, n, (m - 1) as nat);
    }
}

/// Reads a stored revision.
fn document_from_proto(entry: &DocumentEntry) -> (r: Result<DocumentLogEntry, CheckpointError>)
    ensures
        match r {
            Ok(document) => document_error(entry@) is None && document@ == stored_document(entry@),
            Err(error) => document_error(entry@) == Some(error),
        },
{
    let ts = match Timestamp::from_nanos(entry.ts) {
        Some(ts) => ts,
        None => {
            return Err(CheckpointError::TimestampOutOfRange { value: entry.ts });
        },
    };
    let id = match InternalDocumentId::from_bytes(entry.id_bytes.as_slice()) {
        Some(id) => id,
        None => {
            return Err(CheckpointError::DocumentIdLength { len: entry.id_bytes.len() });
        },
    };
    let prev_ts = if entry.has_prev_ts {
        match Timestamp::from_nanos(entry.prev_ts) {
            Some(ts) => Some(ts),
            None => {
                return Err(CheckpointError::TimestampOutOfRange { value: entry.prev_ts });
            },
        }
    } else {
        None
    };
    let value = if entry.has_document {
        Some(entry.document_bytes.clone())
    } else {
        None
    };
    let document = DocumentLogEntry { ts, id, value, prev_ts };
    assert(document@ =~= stored_document(entry@));
    Ok(document)
}

/// The checkpoint that a message holds.
pub fn checkpoint_from_proto(proto: checkpoint_proto::CheckpointData) -> (r: Result<
    CheckpointData,
    CheckpointError,
>)
    ensures
        match r {
            Ok(data) => data.wf() && stored_checkpoint(proto@) == Ok::<
                CheckpointView,
                CheckpointError,
            >(data@),
            Err(error) => stored_checkpoint(proto@) == Err::<CheckpointView, CheckpointError>(
                error,
            ),
        },
{
    let timestamp = match Timestamp::from_nanos(proto.timestamp) {
        Some(ts) => ts,
        None => {
            return Err(CheckpointError::TimestampOutOfRange { value: proto.timestamp });
        },
    };
    let ghost list = proto@.documents;
    let mut documents: Vec<DocumentLogEntry> = Vec::new();
    let mut i: usize = 0;
    while i < proto.documents.len()
        invariant
            commit_delta::is_timestamp(proto.timestamp),
            list == proto@.documents,
            i <= proto.documents@.len(),
            documents_error(list, i as nat) is None,
            documents@.len() == i,
            forall|k: int| 0 <= k < i ==> (#[trigger] documents@[k])@ == stored_document(list[k]),
        decreases proto.documents@.len() - i,
    {
        assert(list[i as int] == proto.documents@[i as int]@);
        match document_from_proto(&proto.documents[i]) {
            Ok(document) => {
                documents.push(document);
                assert(documents_error(list, (i + 1) as nat) is None);
            },
            Err(error) => {
                proof {
                    assert(documents_error(list, (i + 1) as nat) == Some(error));
                    lemma_documents_error_stays(list, (i + 1) as nat, list.len());
                }
                return Err(error);
            },
        }
        i = i + 1;
    }
    let ghost values = proto@.globals;
    let mut globals: SortedMap<String, JsonValue> = SortedMap::new();
    let mut j: usize = 0;
    assert(checkpoint::globals_view(globals@) =~= Map::empty());
    while j < proto.globals.len()
        invariant
            commit_delta::is_timestamp(proto.timestamp),
            list == proto@.documents,
            documents_error(list, list.len()) is None,
            values == proto@.globals,
            j <= proto.globals@.len(),
            globals.wf(),
            stored_globals(values, j as nat) == Some(checkpoint::globals_view(globals@)),
        decreases proto.globals@.len() - j,
    {
        assert(values[j as int] == proto.globals@[j as int]@);
        match JsonValue::parse(proto.globals[j].value_json.as_str()) {
            Some(value) => {
                let ghost before = globals@;
                let ghost stated = value@;
                let key = proto.globals[j].key.clone();
                let ghost name = key@;
                globals.insert(key, value);
                assert(checkpoint::globals_view(globals@) =~= checkpoint::globals_view(
                    before,
                ).insert(name, stated));
            },
            None => {
                proof {
                    assert(stored_globals(values, (j + 1) as nat) is None);
                    lemma_bad_json_stays(values, (j + 1) as nat, values.len());
                }
                return Err(CheckpointError::InvalidJson);
            },
        }
        j = j + 1;
    }
    let data = CheckpointData { timestamp, documents, globals };
    proof {
        assert(data@.documents =~= list.map_values(|e: DocumentEntryView| stored_document(e)));
    }
    Ok(data)
}

/// The names of the values, in the order of text.
pub open spec fn names_in_order(globals: Map<Seq<char>, Seq<char>>) -> Seq<Seq<char>> {
    choose|names: Seq<Seq<char>>| #[trigger]
        lists(names, globals) && ordered::increasing::<String>(names)
}

/// The bytes of a checkpoint: its values stand in the order of their names.
pub open spec fn stored_bytes(c: CheckpointView) -> Seq<u8> {
    checkpoint_proto::checkpoint_bytes(checkpoint_message(c, names_in_order(c.globals)))
}

/// The names that a checkpoint holds are those of its values, in order.
pub proof fn checkpoint_lists_its_names(data: &CheckpointData)
    requires
        data.wf(),
    ensures
        lists(data.globals.keys(), data@.globals),
        names_in_order(data@.globals) == data.globals.keys(),
{
    let keys = data.globals.keys();
    data.globals.entries_agree();
    assert forall|i: int, j: int| 0 <= i < keys.len() && 0 <= j < keys.len() && i
        != j implies keys[i] != keys[j] by {
        text::text_order_is_total(keys[i], keys[j], keys[i]);
        if i < j {
            assert(<String as OrderedKey>::before(keys[i], keys[j]));
        } else {
            assert(<String as OrderedKey>::before(keys[j], keys[i]));
        }
    }
    assert(lists(keys, data@.globals));
    let names = names_in_order(data@.globals);
    assert(lists(names, data@.globals) && ordered::increasing::<String>(names));
    assert forall|x: Seq<char>| names.contains(x) <==> keys.contains(x) by {
        assert(data@.globals.dom().contains(x) <==> names.contains(x));
        assert(data@.globals.dom().contains(x) <==> keys.contains(x));
    }
    ordered::order_is_unique::<String>(names, keys);
}

/// The bytes of a checkpoint.
pub fn checkpoint_to_bytes(data: &CheckpointData) -> (r: Vec<u8>)
    requires
        data.wf(),
    ensures
        r@ == stored_bytes(data@),
        well_kept(data@),
        fits_wire(data@),
{
    let bytes = checkpoint_to_proto(data).encode();
    proof {
        assert(bytes@.len() == bytes.len());
        checkpoint_proto::written_checkpoints_fit(
            checkpoint_message(data@, names_in_order(data@.globals)),
        );
    }
    bytes
}

/// The checkpoint that the bytes hold.
pub fn checkpoint_from_bytes(bytes: &[u8]) -> (r: Result<CheckpointData, CheckpointError>)
    ensures
        match r {
            Ok(data) => data.wf() && checkpoint_in(bytes@) == Ok::<CheckpointView, CheckpointError>(
                data@,
            ),
            Err(error) => checkpoint_in(bytes@) == Err::<CheckpointView, CheckpointError>(error),
        },
{
    match checkpoint_proto::CheckpointData::decode(bytes) {
        Some(proto) => checkpoint_from_proto(proto),
        None => Err(CheckpointError::Undecodable),
    }
}

/// The key under which a checkpoint of that time is stored.
pub open spec fn checkpoint_key(timestamp: u64) -> Seq<char> {
    "checkpoint-"@ + text::decimal(timestamp as nat)
}

/// What is uploaded for a checkpoint.
#[derive(Clone, Debug)]
pub struct CheckpointObjects {
    pub key: String,
    pub body: Vec<u8>,
    /// What the pointer to the newest checkpoint holds.
    pub latest: Vec<u8>,
}

/// Writes checkpoints to the object store, one after the other.
#[derive(Clone, Copy, Debug)]
pub struct SnapshotCheckpointer {
    pub interval_ms: u64,
}

impl SnapshotCheckpointer {
    pub fn new() -> (r: Self)
        ensures
            r.interval_ms == CHECKPOINT_INTERVAL_MS,
    {
        SnapshotCheckpointer { interval_ms: CHECKPOINT_INTERVAL_MS }
    }

    /// The time at which the next checkpoint is made: that of the newest
    /// commit.
    pub fn checkpoint_timestamp(max_ts: Option<Timestamp>) -> (r: Result<
        Timestamp,
        CheckpointError,
    >)
        ensures
            r == (match max_ts {
                Some(ts) => Ok(ts),
                None => Err(CheckpointError::NoData),
            }),
    {
        match max_ts {
            Some(ts) => Ok(ts),
            None => Err(CheckpointError::NoData),
        }
    }

    /// What is uploaded for a checkpoint: the checkpoint, and then the pointer
    /// to it.
    pub fn objects(checkpoint: &CheckpointData) -> (r: CheckpointObjects)
        requires
            checkpoint.wf(),
        ensures
            r.key@ == checkpoint_key(checkpoint@.timestamp),
            r.body@ == stored_bytes(checkpoint@),
            r.latest@ == vstd::utf8::encode_utf8(checkpoint_key(checkpoint@.timestamp)),
    {
        let mut key = "checkpoint-".to_owned();
        text::push_decimal(&mut key, checkpoint.timestamp.nanos());
        let latest = vstd::slice::slice_to_vec(key.as_str().as_bytes());
        CheckpointObjects { key, body: checkpoint_to_bytes(checkpoint), latest }
    }
}

/// The checkpoint's times are times, its documents are named by 32 bytes, and
/// its values can be listed and are texts that JSON prints as. Every checkpoint
/// is like this.
pub open spec fn well_kept(c: CheckpointView) -> bool {
    &&& commit_delta::is_timestamp(c.timestamp)
    &&& forall|i: int|
        0 <= i < c.documents.len() ==> commit_delta::is_timestamp(
            (#[trigger] c.documents[i]).ts,
        ) && c.documents[i].id.len() == 32 && (c.documents[i].prev_ts matches Some(ts)
            ==> commit_delta::is_timestamp(ts))
    &&& forall|name: Seq<char>|
        c.globals.dom().contains(name) ==> json::is_printed(#[trigger] c.globals[name])
    &&& lists(names_in_order(c.globals), c.globals)
}

/// No number among the checkpoint's values has a fraction or an exponent.
pub open spec fn is_exact(c: CheckpointView) -> bool {
    forall|name: Seq<char>|
        c.globals.dom().contains(name) ==> json::is_exact(#[trigger] c.globals[name])
}

/// The checkpoint's values are read and printed again as they are. Those that
/// hold a number with a fraction or an exponent may not be.
pub open spec fn reads_back(c: CheckpointView) -> bool {
    forall|name: Seq<char>|
        c.globals.dom().contains(name) ==> json::json_canonical(#[trigger] c.globals[name]) == Some(
            c.globals[name],
        )
}

/// A checkpoint without numbers that have a fraction or an exponent is read
/// back.
pub proof fn exact_checkpoints_read_back(c: CheckpointView)
    requires
        well_kept(c),
        is_exact(c),
    ensures
        reads_back(c),
{
}

/// What is written of the checkpoint fits on the wire.
pub open spec fn fits_wire(c: CheckpointView) -> bool {
    checkpoint_proto::fits_wire(checkpoint_message(c, names_in_order(c.globals)))
}

/// The checkpoint is one that a store can hold and give back: it is well kept,
/// its values are read back as they are, and all of it fits on the wire.
pub open spec fn storable(c: CheckpointView) -> bool {
    &&& well_kept(c)
    &&& reads_back(c)
    &&& fits_wire(c)
}

/// The names are those of the values, each once.
pub open spec fn lists(names: Seq<Seq<char>>, globals: Map<Seq<char>, Seq<char>>) -> bool {
    &&& names.no_duplicates()
    &&& forall|name: Seq<char>| globals.dom().contains(name) <==> names.contains(name)
}

proof fn lemma_no_document_refused(list: Seq<DocumentEntryView>, n: nat)
    requires
        n <= list.len(),
        forall|i: int| 0 <= i < list.len() ==> document_error(#[trigger] list[i]) is None,
    ensures
        documents_error(list, n) is None,
    decreases n,
{
    if n > 0 {
        lemma_no_document_refused(list, (n - 1) as nat);
    }
}

/// The checkpoint as it is read: each value as it prints once it has been read.
pub open spec fn as_read(c: CheckpointView) -> CheckpointView {
    CheckpointView {
        globals: c.globals.map_values(|value: Seq<char>| json::json_canonical(value)->Some_0),
        ..c
    }
}

/// The checkpoint's values are JSON.
pub open spec fn is_readable(c: CheckpointView) -> bool {
    forall|name: Seq<char>|
        c.globals.dom().contains(name) ==> json::json_canonical(
            #[trigger] c.globals[name],
        ) is Some
}

proof fn lemma_globals_are_read(
    c: CheckpointView,
    names: Seq<Seq<char>>,
    list: Seq<GlobalEntryView>,
    n: nat,
)
    requires
        n <= names.len(),
        lists(names, c.globals),
        list == names.map_values(
            |name: Seq<char>| GlobalEntryView { key: name, value_json: c.globals[name] },
        ),
        is_readable(c),
    ensures
        stored_globals(list, n) == Some(as_read(c).globals.restrict(names.take(n as int).to_set())),
    decreases n,
{
    let read = as_read(c).globals;
    if n == 0 {
        assert(read.restrict(names.take(0).to_set()) =~= Map::empty());
    } else {
        lemma_globals_are_read(c, names, list, (n - 1) as nat);
        let last = names[n - 1];
        assert(names.contains(last));
        assert(c.globals.dom().contains(last));
        assert(json::json_canonical(c.globals[last]) is Some);
        assert(names.take(n as int) =~= names.take(n - 1).push(last));
        assert forall|x: Seq<char>| names.take(n as int).to_set().contains(x) <==> names.take(
            n - 1,
        ).to_set().insert(last).contains(x) by {
            if names.take(n - 1).contains(x) {
                let i = names.take(n - 1).index_of(x);
                assert(names.take(n as int)[i] == x);
            }
            if x == last {
                assert(names.take(n as int)[n - 1] == x);
            }
            if names.take(n as int).contains(x) {
                let i = names.take(n as int).index_of(x);
                if i < n - 1 {
                    assert(names.take(n - 1)[i] == x);
                }
            }
        }
        assert(read.restrict(names.take(n - 1).to_set()).insert(last, read[last])
            =~= read.restrict(names.take(n as int).to_set()));
    }
}

/// A checkpoint is read from its message with its time and its documents as
/// they were, and each value as it prints once it has been read.
pub proof fn checkpoint_is_read_value_by_value(c: CheckpointView, names: Seq<Seq<char>>)
    requires
        well_kept(c),
        is_readable(c),
        lists(names, c.globals),
    ensures
        stored_checkpoint(checkpoint_message(c, names)) == Ok::<CheckpointView, CheckpointError>(
            as_read(c),
        ),
{
    let m = checkpoint_message(c, names);
    assert forall|i: int| 0 <= i < m.documents.len() implies document_error(
        #[trigger] m.documents[i],
    ) is None by {
        assert(m.documents[i] == document_message(c.documents[i]));
    }
    lemma_no_document_refused(m.documents, m.documents.len());
    lemma_globals_are_read(c, names, m.globals, names.len());
    assert(names.take(names.len() as int) =~= names);
    assert(as_read(c).globals.restrict(names.to_set()) =~= as_read(c).globals);
    let documents = m.documents.map_values(|e: DocumentEntryView| stored_document(e));
    assert forall|i: int| 0 <= i < documents.len() implies documents[i] == c.documents[i] by {
        assert(m.documents[i] == document_message(c.documents[i]));
        assert(documents[i] =~= c.documents[i]);
    }
    assert(documents =~= c.documents);
}

/// A checkpoint is read from its message as it was, whatever the order in which
/// the values stand. A removed document stays removed, and one without an
/// earlier revision stays without.
pub proof fn checkpoint_survives_its_message(c: CheckpointView, names: Seq<Seq<char>>)
    requires
        well_kept(c),
        reads_back(c),
        lists(names, c.globals),
    ensures
        stored_checkpoint(checkpoint_message(c, names)) == Ok::<CheckpointView, CheckpointError>(c),
{
    assert(as_read(c).globals =~= c.globals);
    checkpoint_is_read_value_by_value(c, names);
}

/// A message that names a document by any other number of bytes than 32 holds
/// no checkpoint.
pub proof fn misnamed_documents_are_refused(m: CheckpointMessageView, i: int)
    requires
        0 <= i < m.documents.len(),
        m.documents[i].id_bytes.len() != 32,
    ensures
        stored_checkpoint(m) is Err,
{
    assert(document_error(m.documents[i]) is Some);
    if documents_error(m.documents, (i + 1) as nat) is Some {
        lemma_documents_error_stays(m.documents, (i + 1) as nat, m.documents.len());
    }
}

/// A checkpoint is read from its bytes as it was.
pub proof fn checkpoint_survives_its_bytes(c: CheckpointView)
    ensures
        storable(c) ==> checkpoint_in(stored_bytes(c)) == Ok::<CheckpointView, CheckpointError>(c),
{
    if storable(c) {
        let names = names_in_order(c.globals);
        checkpoint_proto::checkpoint_reads_back(checkpoint_message(c, names));
        checkpoint_survives_its_message(c, names);
    }
}

/// A stored checkpoint is read where its times are times, its documents are
/// named by 32 bytes each, and its values are JSON.
pub proof fn checkpoints_are_read_on_these_terms(m: CheckpointMessageView)
    ensures
        stored_checkpoint(m) is Ok <==> {
            &&& m.timestamp <= i64::MAX
            &&& forall|i: int|
                0 <= i < m.documents.len() ==> (#[trigger] m.documents[i]).ts <= i64::MAX
                    && m.documents[i].id_bytes.len() == 32 && (m.documents[i].has_prev_ts
                    ==> m.documents[i].prev_ts <= i64::MAX)
            &&& forall|i: int|
                0 <= i < m.globals.len() ==> json::json_canonical(
                    (#[trigger] m.globals[i]).value_json,
                ) is Some
        },
{
    lemma_first_refused(m.documents, m.documents.len());
    lemma_values_are_json(m.globals, m.globals.len());
}

proof fn lemma_first_refused(list: Seq<DocumentEntryView>, n: nat)
    requires
        n <= list.len(),
    ensures
        documents_error(list, n) is None <==> forall|i: int|
            0 <= i < n ==> (#[trigger] list[i]).ts <= i64::MAX && list[i].id_bytes.len() == 32 && (
            list[i].has_prev_ts ==> list[i].prev_ts <= i64::MAX),
    decreases n,
{
    if n > 0 {
        lemma_first_refused(list, (n - 1) as nat);
        let last = list[n - 1];
        if documents_error(list, n) is None {
            assert forall|i: int| 0 <= i < n implies (#[trigger] list[i]).ts <= i64::MAX
                && list[i].id_bytes.len() == 32 && (list[i].has_prev_ts ==> list[i].prev_ts
                <= i64::MAX) by {
                assert(i < n - 1 || list[i] == last);
            }
        }
    }
}

proof fn lemma_values_are_json(list: Seq<GlobalEntryView>, n: nat)
    requires
        n <= list.len(),
    ensures
        stored_globals(list, n) is Some <==> forall|i: int|
            0 <= i < n ==> json::json_canonical((#[trigger] list[i]).value_json) is Some,
    decreases n,
{
    if n > 0 {
        lemma_values_are_json(list, (n - 1) as nat);
        let last = list[n - 1];
        if stored_globals(list, n) is Some {
            assert forall|i: int| 0 <= i < n implies json::json_canonical(
                (#[trigger] list[i]).value_json,
            ) is Some by {
                assert(i < n - 1 || list[i] == last);
            }
        }
    }
}

/// A stored revision is refused for the first of its faults: its time, its
/// name, and the time of the revision before it where it has one.
pub proof fn revisions_are_refused_for_cause(e: DocumentEntryView)
    requires
        e.id_bytes.len() <= usize::MAX,
    ensures
        match document_error(e) {
            Some(CheckpointError::TimestampOutOfRange { value }) => value > i64::MAX && (if e.ts
                > i64::MAX {
                value == e.ts
            } else {
                e.id_bytes.len() == 32 && e.has_prev_ts && value == e.prev_ts
            }),
            Some(CheckpointError::DocumentIdLength { len }) => e.ts <= i64::MAX && len
                == e.id_bytes.len() && len != 32,
            Some(_) => false,
            None => e.ts <= i64::MAX && e.id_bytes.len() == 32 && (e.has_prev_ts ==> e.prev_ts
                <= i64::MAX),
        },
{
}

/// The first refused revision decides what a stored checkpoint is refused for,
/// unless its own time does.
pub proof fn the_first_refused_revision_decides(m: CheckpointMessageView, i: int)
    requires
        0 <= i < m.documents.len(),
        document_error(m.documents[i]) is Some,
        forall|k: int| 0 <= k < i ==> document_error(#[trigger] m.documents[k]) is None,
    ensures
        stored_checkpoint(m) matches Err(error) && error == (if m.timestamp > i64::MAX {
            CheckpointError::TimestampOutOfRange { value: m.timestamp }
        } else {
            document_error(m.documents[i])->Some_0
        }),
{
    lemma_none_before(m.documents, i as nat);
    lemma_refusals_stay(m.documents, (i + 1) as nat, m.documents.len());
}

proof fn lemma_none_before(list: Seq<DocumentEntryView>, n: nat)
    requires
        forall|k: int| 0 <= k < n ==> document_error(#[trigger] list[k]) is None,
    ensures
        documents_error(list, n) is None,
    decreases n,
{
    if n > 0 {
        lemma_none_before(list, (n - 1) as nat);
        assert(document_error(list[n - 1]) is None);
    }
}

proof fn lemma_refusals_stay(list: Seq<DocumentEntryView>, m: nat, n: nat)
    requires
        m <= n,
    ensures
        documents_error(list, m) is Some ==> documents_error(list, n) == documents_error(list, m),
    decreases n,
{
    if m < n {
        lemma_refusals_stay(list, m, (n - 1) as nat);
    }
}

/// What is read of a stored checkpoint is its time, its revisions in their
/// order, and of each name the value that stands last.
pub proof fn stored_checkpoints_are_read_part_by_part(m: CheckpointMessageView, i: int, k: int)
    requires
        0 <= i < m.documents.len(),
        0 <= k < m.globals.len(),
        forall|later: int|
            k < later < m.globals.len() ==> (#[trigger] m.globals[later]).key != m.globals[k].key,
    ensures
        stored_checkpoint(m) matches Ok(c) ==> {
            &&& c.timestamp == m.timestamp
            &&& c.documents.len() == m.documents.len()
            &&& c.documents[i].ts == m.documents[i].ts
            &&& c.documents[i].id == m.documents[i].id_bytes
            &&& c.documents[i].value == (if m.documents[i].has_document {
                Some(m.documents[i].document_bytes)
            } else {
                None
            })
            &&& c.documents[i].prev_ts == (if m.documents[i].has_prev_ts {
                Some(m.documents[i].prev_ts)
            } else {
                None
            })
            &&& c.globals.dom().contains(m.globals[k].key)
            &&& json::json_canonical(m.globals[k].value_json) == Some(c.globals[m.globals[k].key])
            &&& forall|name: Seq<char>| #[trigger]
                c.globals.dom().contains(name) ==> exists|j: int|
                    0 <= j < m.globals.len() && (#[trigger] m.globals[j]).key == name
        },
{
    lemma_last_value_counts(m.globals, k, m.globals.len());
}

proof fn lemma_last_value_counts(list: Seq<GlobalEntryView>, k: int, n: nat)
    requires
        0 <= k,
        n <= list.len(),
        forall|later: int| k < later < n ==> (#[trigger] list[later]).key != list[k].key,
    ensures
        stored_globals(list, n) matches Some(globals) ==> {
            &&& k < n ==> globals.dom().contains(list[k].key)
            &&& k < n ==> json::json_canonical(list[k].value_json) == Some(globals[list[k].key])
            &&& forall|name: Seq<char>| #[trigger]
                globals.dom().contains(name) ==> exists|j: int|
                    0 <= j < n && (#[trigger] list[j]).key == name
        },
    decreases n,
{
    if n > 0 {
        lemma_last_value_counts(list, k, (n - 1) as nat);
        assert(list[n - 1].key == list[n - 1].key);
    }
}

/// A revision is stored with what it has, and with marks of what it does not
/// have.
pub proof fn revisions_are_stored_with_marks(e: LogEntryView)
    ensures
        document_message(e).ts == e.ts,
        document_message(e).id_bytes == e.id,
        document_message(e).has_document <==> e.value is Some,
        e.value matches Some(value) ==> document_message(e).document_bytes == value,
        e.value is None ==> document_message(e).document_bytes.len() == 0,
        document_message(e).has_prev_ts <==> e.prev_ts is Some,
        e.prev_ts matches Some(ts) ==> document_message(e).prev_ts == ts,
        e.prev_ts is None ==> document_message(e).prev_ts == 0,
{
}

/// A checkpoint is stored with all that it holds, in order.
pub proof fn checkpoints_are_stored_whole(c: CheckpointView, names: Seq<Seq<char>>, i: int)
    ensures
        ({
            let m = checkpoint_message(c, names);
            &&& m.timestamp == c.timestamp
            &&& m.documents.len() == c.documents.len()
            &&& 0 <= i < c.documents.len() ==> m.documents[i] == document_message(c.documents[i])
            &&& m.globals.len() == names.len()
            &&& 0 <= i < names.len() ==> m.globals[i].key == names[i] && m.globals[i].value_json
                == c.globals[names[i]]
        }),
{
}

/// Checkpoints of different times are stored under different keys.
pub proof fn checkpoints_have_keys_of_their_own(a: u64, b: u64)
    ensures
        checkpoint_key(a) == checkpoint_key(b) ==> a == b,
        checkpoint_key(a) == "checkpoint-"@ + text::decimal(a as nat),
        CHECKPOINT_INTERVAL_MS == 30_000,
{
    if checkpoint_key(a) == checkpoint_key(b) {
        let n = "checkpoint-"@.len() as int;
        assert(checkpoint_key(a).skip(n) =~= text::decimal(a as nat));
        assert(checkpoint_key(b).skip(n) =~= text::decimal(b as nat));
        text::decimal_is_injective(a as nat, b as nat);
    }
}

/// Bytes that are no message hold no checkpoint, and a message whose times and
/// documents are sound is refused only for a value that is no JSON.
pub proof fn checkpoints_are_refused_for_cause(bytes: Seq<u8>, m: CheckpointMessageView)
    ensures
        checkpoint_proto::read_checkpoint(bytes) is None ==> checkpoint_in(bytes) == Err::<
            CheckpointView,
            CheckpointError,
        >(CheckpointError::Undecodable),
        checkpoint_proto::read_checkpoint(bytes) == Some(m) ==> checkpoint_in(bytes)
            == stored_checkpoint(m),
        m.timestamp > i64::MAX ==> stored_checkpoint(m) == Err::<CheckpointView, CheckpointError>(
            CheckpointError::TimestampOutOfRange { value: m.timestamp },
        ),
        m.timestamp <= i64::MAX && (forall|i: int|
            0 <= i < m.documents.len() ==> document_error(#[trigger] m.documents[i]) is None) ==> (
        stored_checkpoint(m) matches Err(error) ==> error is InvalidJson),
{
    if forall|i: int|
        0 <= i < m.documents.len() ==> document_error(#[trigger] m.documents[i]) is None {
        lemma_none_before(m.documents, m.documents.len());
    }
}

} // verus!
