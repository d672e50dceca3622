//! The messages in which a checkpoint is stored.

use vstd::prelude::*;

use crate::wire;
use crate::wire::{FieldView, WireValue, WireValueView};

verus! {

/// A checkpoint.
#[derive(Clone, Debug, PartialEq, Eq)]
pub struct CheckpointData {
    pub timestamp: u64,
    pub documents: Vec<DocumentEntry>,
    pub globals: Vec<GlobalEntry>,
}

/// A revision of a document.
#[derive(Clone, Debug, PartialEq, Eq)]
pub struct DocumentEntry {
    pub ts: u64,
    pub id_bytes: Vec<u8>,
    pub document_bytes: Vec<u8>,
    pub has_document: bool,
    pub prev_ts: u64,
    pub has_prev_ts: bool,
}

/// A value beside the documents.
#[derive(Clone, Debug, PartialEq, Eq)]
pub struct GlobalEntry {
    pub key: String,
    pub value_json: String,
}

/// What a [`DocumentEntry`] states.
#[verifier::ext_equal]
pub struct DocumentEntryView {
    pub ts: u64,
    pub id_bytes: Seq<u8>,
    pub document_bytes: Seq<u8>,
    pub has_document: bool,
    pub prev_ts: u64,
    pub has_prev_ts: bool,
}

/// What a [`GlobalEntry`] states.
#[verifier::ext_equal]
pub struct GlobalEntryView {
    pub key: Seq<char>,
    pub value_json: Seq<char>,
}

/// What a [`CheckpointData`] states.
#[verifier::ext_equal]
pub struct CheckpointMessageView {
    pub timestamp: u64,
    pub documents: Seq<DocumentEntryView>,
    pub globals: Seq<GlobalEntryView>,
}

impl View for DocumentEntry {
    type V = DocumentEntryView;

    open spec fn view(&self) -> DocumentEntryView {
        DocumentEntryView {
            ts: self.ts,
            id_bytes: self.id_bytes@,
            document_bytes: self.document_bytes@,
            has_document: self.has_document,
            prev_ts: self.prev_ts,
            has_prev_ts: self.has_prev_ts,
        }
    }
}

impl View for GlobalEntry {
    type V = GlobalEntryView;

    open spec fn view(&self) -> GlobalEntryView {
        GlobalEntryView { key: self.key@, value_json: self.value_json@ }
    }
}

/// The views of revisions.
pub open spec fn document_entries(entries: Seq<DocumentEntry>) -> Seq<DocumentEntryView> {
    Seq::new(entries.len(), |i: int| entries[i]@)
}

/// The views of values.
pub open spec fn global_entries(entries: Seq<GlobalEntry>) -> Seq<GlobalEntryView> {
    Seq::new(entries.len(), |i: int| entries[i]@)
}

impl View for CheckpointData {
    type V = CheckpointMessageView;

    open spec fn view(&self) -> CheckpointMessageView {
        CheckpointMessageView {
            timestamp: self.timestamp,
            documents: document_entries(self.documents@),
            globals: global_entries(self.globals@),
        }
    }
}

/// The bytes of a revision.
pub open spec fn document_bytes(e: DocumentEntryView) -> Seq<u8> {
    wire::uint_field(1, e.ts) + (wire::bytes_field(2, e.id_bytes) + (wire::bytes_field(
        3,
        e.document_bytes,
    ) + (wire::uint_field(4, wire::bool_number(e.has_document)) + (wire::uint_field(5, e.prev_ts)
        + wire::uint_field(6, wire::bool_number(e.has_prev_ts))))))
}

/// The bytes of a value.
pub open spec fn global_bytes(e: GlobalEntryView) -> Seq<u8> {
    wire::bytes_field(1, vstd::utf8::encode_utf8(e.key)) + wire::bytes_field(
        2,
        vstd::utf8::encode_utf8(e.value_json),
    )
}

/// The bytes of each revision.
pub open spec fn documents_bytes(list: Seq<DocumentEntryView>) -> Seq<Seq<u8>> {
    list.map_values(|e: DocumentEntryView| document_bytes(e))
}

/// The bytes of each value.
pub open spec fn globals_bytes(list: Seq<GlobalEntryView>) -> Seq<Seq<u8>> {
    list.map_values(|e: GlobalEntryView| global_bytes(e))
}

/// The bytes of a checkpoint.
pub open spec fn checkpoint_bytes(c: CheckpointMessageView) -> Seq<u8> {
    wire::uint_field(1, c.timestamp) + (wire::repeated_field(2, documents_bytes(c.documents))
        + wire::repeated_field(3, globals_bytes(c.globals)))
}

/// A revision with nothing in it.
pub open spec fn empty_document() -> DocumentEntryView {
    DocumentEntryView {
        ts: 0,
        id_bytes: Seq::empty(),
        document_bytes: Seq::empty(),
        has_document: false,
        prev_ts: 0,
        has_prev_ts: false,
    }
}

/// The revision once a field of it has been read. There is none where the
/// field has the wrong type.
pub open spec fn document_with(e: DocumentEntryView, field: FieldView) -> Option<
    DocumentEntryView,
> {
    match (field.tag, field.value) {
        (1, WireValueView::Varint(value)) => Some(DocumentEntryView { ts: value, ..e }),
        (2, WireValueView::Bytes(value)) => Some(DocumentEntryView { id_bytes: value, ..e }),
        (3, WireValueView::Bytes(value)) => Some(DocumentEntryView { document_bytes: value, ..e }),
        (4, WireValueView::Varint(value)) => Some(
            DocumentEntryView { has_document: value != 0, ..e },
        ),
        (5, WireValueView::Varint(value)) => Some(DocumentEntryView { prev_ts: value, ..e }),
        (6, WireValueView::Varint(value)) => Some(
            DocumentEntryView { has_prev_ts: value != 0, ..e },
        ),
        (tag, _) => if 1 <= tag <= 6 {
            None
        } else {
            Some(e)
        },
    }
}

/// The revision once the fields have been read.
pub open spec fn document_merged(e: DocumentEntryView, fields: Seq<FieldView>) -> Option<
    DocumentEntryView,
>
    decreases fields.len(),
{
    if fields.len() == 0 {
        Some(e)
    } else {
        match document_with(e, fields[0]) {
            Some(next) => document_merged(next, fields.skip(1)),
            None => None,
        }
    }
}

/// The revision that the bytes are.
pub open spec fn read_document(bytes: Seq<u8>) -> Option<DocumentEntryView> {
    match wire::fields(bytes) {
        Some(fields) => document_merged(empty_document(), fields),
        None => None,
    }
}

/// A value with nothing in it.
pub open spec fn empty_global() -> GlobalEntryView {
    GlobalEntryView { key: Seq::empty(), value_json: Seq::empty() }
}

/// The value once a field of it has been read. There is none where the field
/// has the wrong type, or is no text.
pub open spec fn global_with(e: GlobalEntryView, field: FieldView) -> Option<GlobalEntryView> {
    match (field.tag, field.value) {
        (1, WireValueView::Bytes(value)) => if vstd::utf8::valid_utf8(value) {
            Some(GlobalEntryView { key: vstd::utf8::decode_utf8(value), ..e })
        } else {
            None
        },
        (2, WireValueView::Bytes(value)) => if vstd::utf8::valid_utf8(value) {
            Some(GlobalEntryView { value_json: vstd::utf8::decode_utf8(value), ..e })
        } else {
            None
        },
        (tag, _) => if 1 <= tag <= 2 {
            None
        } else {
            Some(e)
        },
    }
}

/// The value once the fields have been read.
pub open spec fn global_merged(e: GlobalEntryView, fields: Seq<FieldView>) -> Option<
    GlobalEntryView,
>
    decreases fields.len(),
{
    if fields.len() == 0 {
        Some(e)
    } else {
        match global_with(e, fields[0]) {
            Some(next) => global_merged(next, fields.skip(1)),
            None => None,
        }
    }
}

/// The value that the bytes are.
pub open spec fn read_global(bytes: Seq<u8>) -> Option<GlobalEntryView> {
    match wire::fields(bytes) {
        Some(fields) => global_merged(empty_global(), fields),
        None => None,
    }
}

/// A checkpoint with nothing in it.
pub open spec fn empty_checkpoint() -> CheckpointMessageView {
    CheckpointMessageView { timestamp: 0, documents: Seq::empty(), globals: Seq::empty() }
}

/// The checkpoint once a field of it has been read. There is none where the
/// field has the wrong type, or does not read as what it should hold.
pub open spec fn checkpoint_with(c: CheckpointMessageView, field: FieldView) -> Option<
    CheckpointMessageView,
> {
    match (field.tag, field.value) {
        (1, WireValueView::Varint(value)) => Some(
            CheckpointMessageView { timestamp: value, ..c },
        ),
        (2, WireValueView::Bytes(value)) => match read_document(value) {
            Some(e) => Some(CheckpointMessageView { documents: c.documents.push(e), ..c }),
            None => None,
        },
        (3, WireValueView::Bytes(value)) => match read_global(value) {
            Some(e) => Some(CheckpointMessageView { globals: c.globals.push(e), ..c }),
            None => None,
        },
        (tag, _) => if 1 <= tag <= 3 {
            None
        } else {
            Some(c)
        },
    }
}

/// The checkpoint once the fields have been read.
pub open spec fn checkpoint_merged(c: CheckpointMessageView, fields: Seq<FieldView>) -> Option<
    CheckpointMessageView,
>
    decreases fields.len(),
{
    if fields.len() == 0 {
        Some(c)
    } else {
        match checkpoint_with(c, fields[0]) {
            Some(next) => checkpoint_merged(next, fields.skip(1)),
            None => None,
        }
    }
}

/// The checkpoint that the bytes are.
pub open spec fn read_checkpoint(bytes: Seq<u8>) -> Option<CheckpointMessageView> {
    match wire::fields(bytes) {
        Some(fields) => checkpoint_merged(empty_checkpoint(), fields),
        None => None,
    }
}

impl DocumentEntry {
    /// The bytes of the revision.
    pub fn encode(&self) -> (r: Vec<u8>)
        ensures
            r@ == document_bytes(self@),
    {
        let mut out: Vec<u8> = Vec::new();
        wire::push_uint(&mut out, 1, self.ts);
        wire::push_bytes(&mut out, 2, self.id_bytes.as_slice());
        wire::push_bytes(&mut out, 3, self.document_bytes.as_slice());
        wire::push_uint(
            &mut out,
            4,
            if self.has_document {
                1
            } else {
                0
            },
        );
        wire::push_uint(&mut out, 5, self.prev_ts);
        wire::push_uint(
            &mut out,
            6,
            if self.has_prev_ts {
                1
            } else {
                0
            },
        );
        assert(out@ =~= document_bytes(self@));
        out
    }

    /// The revision that the bytes are.
    pub fn decode(bytes: &[u8]) -> (r: Option<Self>)
        ensures
            match r {
                Some(entry) => read_document(bytes@) == Some(entry@),
                None => read_document(bytes@) is None,
            },
    {
        let fields = match wire::read_fields(bytes) {
            Some(fields) => fields,
            None => {
                return None;
            },
        };
        let ghost all = wire::fields_view(fields@);
        let mut entry = DocumentEntry {
            ts: 0,
            id_bytes: Vec::new(),
            document_bytes: Vec::new(),
            has_document: false,
            prev_ts: 0,
            has_prev_ts: false,
        };
        assert(entry@ =~= empty_document());
        assert(all.skip(0) =~= all);
        let mut i: usize = 0;
        while i < fields.len()
            invariant
                i <= fields@.len(),
                all == wire::fields_view(fields@),
                wire::fields(bytes@) == Some(all),
                document_merged(empty_document(), all) == document_merged(
                    entry@,
                    all.skip(i as int),
                ),
            decreases fields@.len() - i,
        {
            let ghost rest = all.skip(i as int);
            let ghost before = entry@;
            proof {
                assert(rest[0] == fields@[i as int]@);
                assert(rest.skip(1) =~= all.skip(i + 1));
            }
            let field = &fields[i];
            match &field.value {
                WireValue::Varint(value) => {
                    if field.tag == 1 {
                        entry.ts = *value;
                    } else if field.tag == 4 {
                        entry.has_document = *value != 0;
                    } else if field.tag == 5 {
                        entry.prev_ts = *value;
                    } else if field.tag == 6 {
                        entry.has_prev_ts = *value != 0;
                    } else if field.tag == 2 || field.tag == 3 {
                        assert(document_with(before, rest[0]) is None);
                        assert(document_merged(before, rest) is None);
                        return None;
                    }
                },
                WireValue::Bytes(value) => {
                    if field.tag == 2 {
                        entry.id_bytes = value.clone();
                    } else if field.tag == 3 {
                        entry.document_bytes = value.clone();
                    } else if 1 <= field.tag && field.tag <= 6 {
                        assert(document_with(before, rest[0]) is None);
                        assert(document_merged(before, rest) is None);
                        return None;
                    }
                },
                WireValue::Other => {
                    if 1 <= field.tag && field.tag <= 6 {
                        assert(document_with(before, rest[0]) is None);
                        assert(document_merged(before, rest) is None);
                        return None;
                    }
                },
            }
            assert(document_with(before, rest[0]) == Some(entry@));
            i = i + 1;
        }
        assert(all.skip(i as int).len() == 0);
        Some(entry)
    }
}

impl GlobalEntry {
    /// The bytes of the value.
    pub fn encode(&self) -> (r: Vec<u8>)
        ensures
            r@ == global_bytes(self@),
    {
        let mut out: Vec<u8> = Vec::new();
        wire::push_bytes(&mut out, 1, self.key.as_str().as_bytes());
        wire::push_bytes(&mut out, 2, self.value_json.as_str().as_bytes());
        assert(out@ =~= global_bytes(self@));
        out
    }

    /// The value that the bytes are.
    pub fn decode(bytes: &[u8]) -> (r: Option<Self>)
        ensures
            match r {
                Some(entry) => read_global(bytes@) == Some(entry@),
                None => read_global(bytes@) is None,
            },
    {
        let fields = match wire::read_fields(bytes) {
            Some(fields) => fields,
            None => {
                return None;
            },
        };
        let ghost all = wire::fields_view(fields@);
        let mut entry = GlobalEntry { key: String::new(), value_json: String::new() };
        assert(entry@ =~= empty_global());
        assert(all.skip(0) =~= all);
        let mut i: usize = 0;
        while i < fields.len()
            invariant
                i <= fields@.len(),
                all == wire::fields_view(fields@),
                wire::fields(bytes@) == Some(all),
                global_merged(empty_global(), all) == global_merged(entry@, all.skip(i as int)),
            decreases fields@.len() - i,
        {
            let ghost rest = all.skip(i as int);
            let ghost before = entry@;
            proof {
                assert(rest[0] == fields@[i as int]@);
                assert(rest.skip(1) =~= all.skip(i + 1));
            }
            let field = &fields[i];
            match &field.value {
                WireValue::Bytes(value) => {
                    if field.tag == 1 || field.tag == 2 {
                        let text = match wire::text_of_utf8(value.clone()) {
                            Some(text) => text,
                            None => {
                                assert(global_with(before, rest[0]) is None);
                                assert(global_merged(before, rest) is None);
                                return None;
                            },
                        };
                        if field.tag == 1 {
                            entry.key = text;
                        } else {
                            entry.value_json = text;
                        }
                    }
                },
                _ => {
                    if field.tag == 1 || field.tag == 2 {
                        assert(global_with(before, rest[0]) is None);
                        assert(global_merged(before, rest) is None);
                        return None;
                    }
                },
            }
            assert(global_with(before, rest[0]) == Some(entry@));
            i = i + 1;
        }
        assert(all.skip(i as int).len() == 0);
        Some(entry)
    }
}

impl CheckpointData {
    /// The bytes of the checkpoint.
    pub fn encode(&self) -> (r: Vec<u8>)
        ensures
            r@ == checkpoint_bytes(self@),
    {
        let mut out: Vec<u8> = Vec::new();
        wire::push_uint(&mut out, 1, self.timestamp);
        let ghost head = out@;
        let ghost docs = documents_bytes(self@.documents);
        let mut i: usize = 0;
        assert(head + wire::repeated_field(2, docs.take(0)) =~= head);
        while i < self.documents.len()
            invariant
                i <= self.documents@.len(),
                docs == documents_bytes(self@.documents),
                out@ == head + wire::repeated_field(2, docs.take(i as int)),
            decreases self.documents@.len() - i,
        {
            let body = self.documents[i].encode();
            wire::push_repeated(&mut out, 2, body.as_slice(), Ghost(docs.take(i as int)));
            proof {
                assert(docs[i as int] == body@);
                assert(docs.take(i + 1) =~= docs.take(i as int).push(body@));
                assert(out@ =~= head + wire::repeated_field(2, docs.take(i + 1)));
            }
            i = i + 1;
        }
        assert(docs.take(i as int) =~= docs);
        let ghost head2 = out@;
        let ghost globals = globals_bytes(self@.globals);
        let mut j: usize = 0;
        assert(head2 + wire::repeated_field(3, globals.take(0)) =~= head2);
        while j < self.globals.len()
            invariant
                j <= self.globals@.len(),
                globals == globals_bytes(self@.globals),
                out@ == head2 + wire::repeated_field(3, globals.take(j as int)),
            decreases self.globals@.len() - j,
        {
            let body = self.globals[j].encode();
            wire::push_repeated(&mut out, 3, body.as_slice(), Ghost(globals.take(j as int)));
            proof {
                assert(globals[j as int] == body@);
                assert(globals.take(j + 1) =~= globals.take(j as int).push(body@));
                assert(out@ =~= head2 + wire::repeated_field(3, globals.take(j + 1)));
            }
            j = j + 1;
        }
        assert(globals.take(j as int) =~= globals);
        assert(out@ =~= checkpoint_bytes(self@));
        out
    }

    /// The checkpoint that the bytes are.
    pub fn decode(bytes: &[u8]) -> (r: Option<Self>)
        ensures
            match r {
                Some(checkpoint) => read_checkpoint(bytes@) == Some(checkpoint@),
                None => read_checkpoint(bytes@) is None,
            },
    {
        let fields = match wire::read_fields(bytes) {
            Some(fields) => fields,
            None => {
                return None;
            },
        };
        let ghost all = wire::fields_view(fields@);
        let mut checkpoint = CheckpointData {
            timestamp: 0,
            documents: Vec::new(),
            globals: Vec::new(),
        };
        assert(checkpoint@ =~= empty_checkpoint());
        assert(all.skip(0) =~= all);
        let mut i: usize = 0;
        while i < fields.len()
            invariant
                i <= fields@.len(),
                all == wire::fields_view(fields@),
                wire::fields(bytes@) == Some(all),
                checkpoint_merged(empty_checkpoint(), all) == checkpoint_merged(
                    checkpoint@,
                    all.skip(i as int),
                ),
            decreases fields@.len() - i,
        {
            let ghost rest = all.skip(i as int);
            let ghost before = checkpoint@;
            proof {
                assert(rest[0] == fields@[i as int]@);
                assert(rest.skip(1) =~= all.skip(i + 1));
            }
            let field = &fields[i];
            match &field.value {
                WireValue::Varint(value) => {
                    if field.tag == 1 {
                        checkpoint.timestamp = *value;
                    } else if field.tag == 2 || field.tag == 3 {
                        assert(checkpoint_with(before, rest[0]) is None);
                        assert(checkpoint_merged(before, rest) is None);
                        return None;
                    }
                },
                WireValue::Bytes(value) => {
                    if field.tag == 1 {
                        assert(checkpoint_with(before, rest[0]) is None);
                        assert(checkpoint_merged(before, rest) is None);
                        return None;
                    } else if field.tag == 2 {
                        match DocumentEntry::decode(value.as_slice()) {
                            Some(entry) => {
                                let ghost stated = entry@;
                                checkpoint.documents.push(entry);
                                assert(checkpoint@.documents =~= before.documents.push(stated));
                            },
                            None => {
                                assert(checkpoint_with(before, rest[0]) is None);
                                assert(checkpoint_merged(before, rest) is None);
                                return None;
                            },
                        }
                    } else if field.tag == 3 {
                        match GlobalEntry::decode(value.as_slice()) {
                            Some(entry) => {
                                let ghost stated = entry@;
                                checkpoint.globals.push(entry);
                                assert(checkpoint@.globals =~= before.globals.push(stated));
                            },
                            None => {
                                assert(checkpoint_with(before, rest[0]) is None);
                                assert(checkpoint_merged(before, rest) is None);
                                return None;
                            },
                        }
                    }
                },
                WireValue::Other => {
                    if 1 <= field.tag && field.tag <= 3 {
                        assert(checkpoint_with(before, rest[0]) is None);
                        assert(checkpoint_merged(before, rest) is None);
                        return None;
                    }
                },
            }
            assert(checkpoint_with(before, rest[0]) == Some(checkpoint@));
            i = i + 1;
        }
        assert(all.skip(i as int).len() == 0);
        Some(checkpoint)
    }
}

proof fn lemma_document_uint(
    e: DocumentEntryView,
    next: DocumentEntryView,
    tag: u32,
    value: u64,
    rest: Seq<FieldView>,
)
    requires
        value == 0 ==> next == e,
        value != 0 ==> document_with(e, FieldView { tag, value: WireValueView::Varint(value) })
            == Some(next),
    ensures
        document_merged(e, wire::uint_list(tag, value) + rest) == document_merged(next, rest),
{
    let list = wire::uint_list(tag, value) + rest;
    if value == 0 {
        assert(list =~= rest);
    } else {
        assert(list.skip(1) =~= rest);
    }
}

proof fn lemma_document_bytes(
    e: DocumentEntryView,
    next: DocumentEntryView,
    tag: u32,
    value: Seq<u8>,
    rest: Seq<FieldView>,
)
    requires
        value.len() == 0 ==> next == e,
        value.len() != 0 ==> document_with(
            e,
            FieldView { tag, value: WireValueView::Bytes(value) },
        ) == Some(next),
    ensures
        document_merged(e, wire::bytes_list(tag, value) + rest) == document_merged(next, rest),
{
    let list = wire::bytes_list(tag, value) + rest;
    if value.len() == 0 {
        assert(list =~= rest);
    } else {
        assert(list.skip(1) =~= rest);
    }
}

/// A revision is read as it was written.
pub proof fn document_reads_back(e: DocumentEntryView)
    requires
        e.id_bytes.len() <= u64::MAX,
        e.document_bytes.len() <= u64::MAX,
    ensures
        read_document(document_bytes(e)) == Some(e),
{
    let has = wire::bool_number(e.has_document);
    let has_prev = wire::bool_number(e.has_prev_ts);
    let none = Seq::<FieldView>::empty();
    let l6 = wire::uint_list(6, has_prev) + none;
    let b6 = wire::uint_field(6, has_prev);
    assert(b6 + Seq::<u8>::empty() =~= b6);
    wire::uint_field_reads_back(6, has_prev, Seq::empty(), none);
    let l5 = wire::uint_list(5, e.prev_ts) + l6;
    let b5 = wire::uint_field(5, e.prev_ts) + b6;
    wire::uint_field_reads_back(5, e.prev_ts, b6, l6);
    let l4 = wire::uint_list(4, has) + l5;
    let b4 = wire::uint_field(4, has) + b5;
    wire::uint_field_reads_back(4, has, b5, l5);
    let l3 = wire::bytes_list(3, e.document_bytes) + l4;
    let b3 = wire::bytes_field(3, e.document_bytes) + b4;
    wire::bytes_field_reads_back(3, e.document_bytes, b4, l4);
    let l2 = wire::bytes_list(2, e.id_bytes) + l3;
    let b2 = wire::bytes_field(2, e.id_bytes) + b3;
    wire::bytes_field_reads_back(2, e.id_bytes, b3, l3);
    let l1 = wire::uint_list(1, e.ts) + l2;
    wire::uint_field_reads_back(1, e.ts, b2, l2);
    assert(document_bytes(e) == wire::uint_field(1, e.ts) + b2);
    let e0 = empty_document();
    let e1 = DocumentEntryView { ts: e.ts, ..e0 };
    let e2 = DocumentEntryView { id_bytes: e.id_bytes, ..e1 };
    let e3 = DocumentEntryView { document_bytes: e.document_bytes, ..e2 };
    let e4 = DocumentEntryView { has_document: e.has_document, ..e3 };
    let e5 = DocumentEntryView { prev_ts: e.prev_ts, ..e4 };
    lemma_document_uint(e0, e1, 1, e.ts, l2);
    assert(e.id_bytes.len() == 0 ==> e2 =~= e1);
    lemma_document_bytes(e1, e2, 2, e.id_bytes, l3);
    assert(e.document_bytes.len() == 0 ==> e3 =~= e2);
    lemma_document_bytes(e2, e3, 3, e.document_bytes, l4);
    lemma_document_uint(e3, e4, 4, has, l5);
    lemma_document_uint(e4, e5, 5, e.prev_ts, l6);
    lemma_document_uint(e5, e, 6, has_prev, none);
}

proof fn lemma_global_bytes(
    e: GlobalEntryView,
    next: GlobalEntryView,
    tag: u32,
    value: Seq<u8>,
    rest: Seq<FieldView>,
)
    requires
        value.len() == 0 ==> next == e,
        value.len() != 0 ==> global_with(
            e,
            FieldView { tag, value: WireValueView::Bytes(value) },
        ) == Some(next),
    ensures
        global_merged(e, wire::bytes_list(tag, value) + rest) == global_merged(next, rest),
{
    let list = wire::bytes_list(tag, value) + rest;
    if value.len() == 0 {
        assert(list =~= rest);
    } else {
        assert(list.skip(1) =~= rest);
    }
}

/// A value is read as it was written.
pub proof fn global_reads_back(e: GlobalEntryView)
    requires
        vstd::utf8::encode_utf8(e.key).len() <= u64::MAX,
        vstd::utf8::encode_utf8(e.value_json).len() <= u64::MAX,
    ensures
        read_global(global_bytes(e)) == Some(e),
{
    let key = vstd::utf8::encode_utf8(e.key);
    let value = vstd::utf8::encode_utf8(e.value_json);
    vstd::utf8::encode_utf8_valid_utf8(e.key);
    vstd::utf8::encode_utf8_valid_utf8(e.value_json);
    vstd::utf8::encode_utf8_decode_utf8(e.key);
    vstd::utf8::encode_utf8_decode_utf8(e.value_json);
    let none = Seq::<FieldView>::empty();
    let l2 = wire::bytes_list(2, value) + none;
    let b2 = wire::bytes_field(2, value);
    assert(b2 + Seq::<u8>::empty() =~= b2);
    wire::bytes_field_reads_back(2, value, Seq::empty(), none);
    wire::bytes_field_reads_back(1, key, b2, l2);
    let e0 = empty_global();
    let e1 = GlobalEntryView { key: e.key, ..e0 };
    if key.len() == 0 {
        wire::only_the_empty_text_is_empty(e.key);
    }
    if value.len() == 0 {
        wire::only_the_empty_text_is_empty(e.value_json);
    }
    lemma_global_bytes(e0, e1, 1, key, l2);
    lemma_global_bytes(e1, e, 2, value, none);
}

/// What a checkpoint holds fits on the wire.
pub open spec fn fits_wire(c: CheckpointMessageView) -> bool {
    &&& forall|i: int|
        0 <= i < c.documents.len() ==> (#[trigger] c.documents[i]).id_bytes.len() <= u64::MAX
            && c.documents[i].document_bytes.len() <= u64::MAX && document_bytes(
            c.documents[i],
        ).len() <= u64::MAX
    &&& forall|i: int|
        0 <= i < c.globals.len() ==> vstd::utf8::encode_utf8((#[trigger] c.globals[i]).key).len()
            <= u64::MAX && vstd::utf8::encode_utf8(c.globals[i].value_json).len() <= u64::MAX
            && global_bytes(c.globals[i]).len() <= u64::MAX
}

/// What has been written fits on the wire.
pub proof fn written_checkpoints_fit(c: CheckpointMessageView)
    requires
        checkpoint_bytes(c).len() <= u64::MAX,
    ensures
        fits_wire(c),
{
    let docs = documents_bytes(c.documents);
    let globals = globals_bytes(c.globals);
    assert forall|i: int| 0 <= i < c.documents.len() implies (
    #[trigger] c.documents[i]).id_bytes.len() <= u64::MAX && c.documents[i].document_bytes.len()
        <= u64::MAX && document_bytes(c.documents[i]).len() <= u64::MAX by {
        wire::repeated_field_holds_its_values(2, docs, i);
        assert(docs[i] == document_bytes(c.documents[i]));
    }
    assert forall|i: int| 0 <= i < c.globals.len() implies vstd::utf8::encode_utf8(
        (#[trigger] c.globals[i]).key,
    ).len() <= u64::MAX && vstd::utf8::encode_utf8(c.globals[i].value_json).len() <= u64::MAX
        && global_bytes(c.globals[i]).len() <= u64::MAX by {
        wire::repeated_field_holds_its_values(3, globals, i);
        assert(globals[i] == global_bytes(c.globals[i]));
    }
}

proof fn lemma_documents_merge(
    c: CheckpointMessageView,
    list: Seq<DocumentEntryView>,
    rest: Seq<FieldView>,
)
    requires
        forall|i: int|
            0 <= i < list.len() ==> (#[trigger] list[i]).id_bytes.len() <= u64::MAX
                && list[i].document_bytes.len() <= u64::MAX,
    ensures
        checkpoint_merged(c, wire::repeated_list(2, documents_bytes(list)) + rest)
            == checkpoint_merged(
            CheckpointMessageView { documents: c.documents + list, ..c },
            rest,
        ),
    decreases list.len(),
{
    let fields = wire::repeated_list(2, documents_bytes(list)) + rest;
    if list.len() == 0 {
        assert(fields =~= rest);
        assert(c.documents + list =~= c.documents);
    } else {
        document_reads_back(list[0]);
        let tail = list.skip(1);
        assert(documents_bytes(list).skip(1) =~= documents_bytes(tail));
        assert(fields.skip(1) =~= wire::repeated_list(2, documents_bytes(tail)) + rest);
        assert(fields[0] == (FieldView {
            tag: 2,
            value: WireValueView::Bytes(document_bytes(list[0])),
        }));
        let next = CheckpointMessageView { documents: c.documents.push(list[0]), ..c };
        assert(checkpoint_with(c, fields[0]) == Some(next));
        assert forall|i: int| 0 <= i < tail.len() implies (#[trigger] tail[i]).id_bytes.len()
            <= u64::MAX && tail[i].document_bytes.len() <= u64::MAX by {
            assert(tail[i] == list[i + 1]);
        }
        lemma_documents_merge(next, tail, rest);
        assert(next.documents + tail =~= c.documents + list);
    }
}

proof fn lemma_globals_merge(
    c: CheckpointMessageView,
    list: Seq<GlobalEntryView>,
    rest: Seq<FieldView>,
)
    requires
        forall|i: int|
            0 <= i < list.len() ==> vstd::utf8::encode_utf8((#[trigger] list[i]).key).len()
                <= u64::MAX && vstd::utf8::encode_utf8(list[i].value_json).len() <= u64::MAX,
    ensures
        checkpoint_merged(c, wire::repeated_list(3, globals_bytes(list)) + rest)
            == checkpoint_merged(
            CheckpointMessageView { globals: c.globals + list, ..c },
            rest,
        ),
    decreases list.len(),
{
    let fields = wire::repeated_list(3, globals_bytes(list)) + rest;
    if list.len() == 0 {
        assert(fields =~= rest);
        assert(c.globals + list =~= c.globals);
    } else {
        global_reads_back(list[0]);
        let tail = list.skip(1);
        assert(globals_bytes(list).skip(1) =~= globals_bytes(tail));
        assert(fields.skip(1) =~= wire::repeated_list(3, globals_bytes(tail)) + rest);
        assert(fields[0] == (FieldView {
            tag: 3,
            value: WireValueView::Bytes(global_bytes(list[0])),
        }));
        let next = CheckpointMessageView { globals: c.globals.push(list[0]), ..c };
        assert(checkpoint_with(c, fields[0]) == Some(next));
        assert forall|i: int| 0 <= i < tail.len() implies vstd::utf8::encode_utf8(
            (#[trigger] tail[i]).key,
        ).len() <= u64::MAX && vstd::utf8::encode_utf8(tail[i].value_json).len() <= u64::MAX by {
            assert(tail[i] == list[i + 1]);
        }
        lemma_globals_merge(next, tail, rest);
        assert(next.globals + tail =~= c.globals + list);
    }
}

/// A checkpoint is read as it was written.
pub proof fn checkpoint_reads_back(c: CheckpointMessageView)
    requires
        fits_wire(c),
    ensures
        read_checkpoint(checkpoint_bytes(c)) == Some(c),
{
    let docs = documents_bytes(c.documents);
    let globals = globals_bytes(c.globals);
    let none = Seq::<FieldView>::empty();
    assert forall|i: int| 0 <= i < globals.len() implies (#[trigger] globals[i]).len()
        <= u64::MAX by {
        assert(globals[i] == global_bytes(c.globals[i]));
    }
    assert forall|i: int| 0 <= i < docs.len() implies (#[trigger] docs[i]).len() <= u64::MAX by {
        assert(docs[i] == document_bytes(c.documents[i]));
    }
    let l3 = wire::repeated_list(3, globals) + none;
    let b3 = wire::repeated_field(3, globals);
    assert(b3 + Seq::<u8>::empty() =~= b3);
    wire::repeated_field_reads_back(3, globals, Seq::empty(), none);
    let l2 = wire::repeated_list(2, docs) + l3;
    let b2 = wire::repeated_field(2, docs) + b3;
    wire::repeated_field_reads_back(2, docs, b3, l3);
    let l1 = wire::uint_list(1, c.timestamp) + l2;
    wire::uint_field_reads_back(1, c.timestamp, b2, l2);
    let c0 = empty_checkpoint();
    let c1 = CheckpointMessageView { timestamp: c.timestamp, ..c0 };
    assert(checkpoint_merged(c0, l1) == checkpoint_merged(c1, l2)) by {
        if c.timestamp == 0 {
            assert(l1 =~= l2);
        } else {
            assert(l1.skip(1) =~= l2);
        }
    }
    lemma_documents_merge(c1, c.documents, l3);
    let c2 = CheckpointMessageView { documents: c1.documents + c.documents, ..c1 };
    lemma_globals_merge(c2, c.globals, none);
    assert(CheckpointMessageView { globals: c2.globals + c.globals, ..c2 } =~= c);
}

/// A field of a revision changes the part that its number names, and nothing
/// else.
pub proof fn numbers_name_the_parts_of_a_revision(
    e: DocumentEntryView,
    tag: u32,
    n: u64,
    b: Seq<u8>,
)
    ensures
        ({
            let number = document_with(e, FieldView { tag, value: WireValueView::Varint(n) });
            let bytes = document_with(e, FieldView { tag, value: WireValueView::Bytes(b) });
            &&& number is None <==> tag == 2 || tag == 3
            &&& bytes is None <==> tag == 1 || 4 <= tag <= 6
            &&& number matches Some(next) ==> {
                &&& next.ts == (if tag == 1 {
                    n
                } else {
                    e.ts
                })
                &&& next.has_document == (if tag == 4 {
                    n > 0
                } else {
                    e.has_document
                })
                &&& next.prev_ts == (if tag == 5 {
                    n
                } else {
                    e.prev_ts
                })
                &&& next.has_prev_ts == (if tag == 6 {
                    n > 0
                } else {
                    e.has_prev_ts
                })
                &&& next.id_bytes == e.id_bytes
                &&& next.document_bytes == e.document_bytes
            }
            &&& bytes matches Some(next) ==> {
                &&& next.id_bytes == (if tag == 2 {
                    b
                } else {
                    e.id_bytes
                })
                &&& next.document_bytes == (if tag == 3 {
                    b
                } else {
                    e.document_bytes
                })
                &&& next.ts == e.ts
                &&& next.has_document == e.has_document
                &&& next.prev_ts == e.prev_ts
                &&& next.has_prev_ts == e.has_prev_ts
            }
        }),
{
}

/// A field of a value changes the text that its number names, and nothing else.
/// It has to be a text.
pub proof fn numbers_name_the_parts_of_a_value(e: GlobalEntryView, tag: u32, n: u64, b: Seq<u8>)
    ensures
        ({
            let number = global_with(e, FieldView { tag, value: WireValueView::Varint(n) });
            let bytes = global_with(e, FieldView { tag, value: WireValueView::Bytes(b) });
            let named = tag == 1 || tag == 2;
            &&& number == (if named {
                None
            } else {
                Some(e)
            })
            &&& bytes is None <==> named && !vstd::utf8::valid_utf8(b)
            &&& bytes matches Some(next) ==> {
                &&& next.key == (if tag == 1 {
                    vstd::utf8::decode_utf8(b)
                } else {
                    e.key
                })
                &&& next.value_json == (if tag == 2 {
                    vstd::utf8::decode_utf8(b)
                } else {
                    e.value_json
                })
            }
        }),
{
}

/// A field of a checkpoint sets its time, or adds a revision or a value behind
/// those that it has.
pub proof fn numbers_name_the_parts_of_a_checkpoint(
    c: CheckpointMessageView,
    tag: u32,
    n: u64,
    b: Seq<u8>,
)
    ensures
        ({
            let number = checkpoint_with(c, FieldView { tag, value: WireValueView::Varint(n) });
            let bytes = checkpoint_with(c, FieldView { tag, value: WireValueView::Bytes(b) });
            &&& number is None <==> tag == 2 || tag == 3
            &&& bytes is None <==> {
                ||| tag == 1
                ||| tag == 2 && read_document(b) is None
                ||| tag == 3 && read_global(b) is None
            }
            &&& number matches Some(next) ==> {
                &&& next.timestamp == (if tag == 1 {
                    n
                } else {
                    c.timestamp
                })
                &&& next.documents == c.documents
                &&& next.globals == c.globals
            }
            &&& bytes matches Some(next) ==> {
                &&& next.timestamp == c.timestamp
                &&& next.documents == (if tag == 2 {
                    c.documents + seq![read_document(b)->Some_0]
                } else {
                    c.documents
                })
                &&& next.globals == (if tag == 3 {
                    c.globals + seq![read_global(b)->Some_0]
                } else {
                    c.globals
                })
            }
        }),
{
    if let Some(e) = read_document(b) {
        assert(c.documents + seq![e] =~= c.documents.push(e));
    }
    if let Some(e) = read_global(b) {
        assert(c.globals + seq![e] =~= c.globals.push(e));
    }
}

/// Messages are read field by field, and one without fields has nothing in it.
pub proof fn messages_are_read_field_by_field(
    e: DocumentEntryView,
    g: GlobalEntryView,
    c: CheckpointMessageView,
    a: FieldView,
    rest: Seq<FieldView>,
)
    ensures
        document_merged(e, Seq::empty()) == Some(e),
        document_merged(e, seq![a] + rest) == (match document_with(e, a) {
            Some(next) => document_merged(next, rest),
            None => None,
        }),
        global_merged(g, Seq::empty()) == Some(g),
        global_merged(g, seq![a] + rest) == (match global_with(g, a) {
            Some(next) => global_merged(next, rest),
            None => None,
        }),
        checkpoint_merged(c, Seq::empty()) == Some(c),
        checkpoint_merged(c, seq![a] + rest) == (match checkpoint_with(c, a) {
            Some(next) => checkpoint_merged(next, rest),
            None => None,
        }),
        empty_document().ts == 0,
        empty_document().prev_ts == 0,
        empty_document().id_bytes.len() == 0,
        empty_document().document_bytes.len() == 0,
        !empty_document().has_document,
        !empty_document().has_prev_ts,
        empty_global().key.len() == 0,
        empty_global().value_json.len() == 0,
        empty_checkpoint().timestamp == 0,
        empty_checkpoint().documents.len() == 0,
        empty_checkpoint().globals.len() == 0,
{
    assert((seq![a] + rest).skip(1) =~= rest);
}

} // verus!
