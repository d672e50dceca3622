//! The wire format of protocol buffers: a message is a list of fields, each
//! with its tag, its wire type and its value.
//!
//! Numbers are written seven bits to a byte, the low ones first; a set high
//! bit says that more follow. A field that is zero or empty is not written.
//! Of a field that is there twice, the last counts; a repeated field collects
//! all. A field that is not known is passed over.

use vstd::prelude::*;
use vstd::slice::{slice_subrange, slice_to_vec};

verus! {

/// A number on the wire.
pub open spec fn varint(n: nat) -> Seq<u8>
    decreases n,
{
    if n < 128 {
        seq![n as u8]
    } else {
        seq![(n % 128 + 128) as u8] + varint(n / 128)
    }
}

/// How many bytes the number at the front takes: up to the first with a clear
/// high bit. There is none where no byte has one.
pub open spec fn varint_len(bytes: Seq<u8>) -> nat
    decreases bytes.len(),
{
    if bytes.len() == 0 {
        0
    } else if bytes[0] < 128 {
        1
    } else {
        let n = varint_len(bytes.skip(1));
        if n == 0 {
            0
        } else {
            n + 1
        }
    }
}

/// The number that the bytes make up.
pub open spec fn varint_value(bytes: Seq<u8>) -> nat
    decreases bytes.len(),
{
    if bytes.len() == 0 {
        0
    } else {
        (bytes[0] % 128) as nat + 128 * varint_value(bytes.skip(1))
    }
}

/// The number at the front, and how many bytes it takes. A number takes at
/// most ten bytes and has at most 64 bits.
pub open spec fn read_varint(bytes: Seq<u8>) -> Option<(u64, nat)> {
    let n = varint_len(bytes);
    if n == 0 || n > 10 || (n == 10 && bytes[9] >= 2) {
        None
    } else {
        Some((varint_value(bytes.take(n as int)) as u64, n))
    }
}

/// `prost::encoding::encode_varint`: appends the number, seven bits to a byte,
/// the low ones first, with the high bit set on all but the last byte.
#[verifier::external_body]
pub(crate) fn push_varint(out: &mut Vec<u8>, value: u64)
    ensures
        final(out)@ == old(out)@ + varint(value as nat),
{
    prost::encoding::encode_varint(value, out)
}

/// `prost::encoding::decode_varint`: the number at the front, and how many
/// bytes are left behind it. It refuses a number that does not end, that takes
/// more than ten bytes, or that has more than 64 bits.
#[verifier::external_body]
pub(crate) fn take_varint(bytes: &[u8]) -> (r: Option<(u64, usize)>)
    ensures
        match r {
            Some((value, left)) => left <= bytes@.len() && read_varint(bytes@) == Some(
                (value, (bytes@.len() - left) as nat),
            ),
            None => read_varint(bytes@) is None,
        },
{
    let mut rest = bytes;
    let value = prost::encoding::decode_varint(&mut rest).ok()?;
    Some((value, rest.len()))
}

/// How many bytes are left once the group with the tag, whose opening key has
/// been read, is passed over.
pub uninterp spec fn after_group(tag: u32, bytes: Seq<u8>) -> Option<usize>;

/// `prost::encoding::skip_field` on a group: how many bytes are left behind
/// the group's closing key. It refuses a group that does not close, or that is
/// nested too deep.
#[verifier::external_body]
pub(crate) fn skip_group(tag: u32, bytes: &[u8]) -> (r: Option<usize>)
    ensures
        r == after_group(tag, bytes@),
        r matches Some(left) ==> left <= bytes@.len(),
{
    let mut rest = bytes;
    let group = prost::encoding::WireType::StartGroup;
    let context = prost::encoding::DecodeContext::default();
    prost::encoding::skip_field(group, tag, &mut rest, context).ok()?;
    Some(rest.len())
}

/// `String::from_utf8` of the standard library: the text that the bytes
/// encode, where they are valid UTF-8.
#[verifier::external_body]
pub(crate) fn text_of_utf8(bytes: Vec<u8>) -> (r: Option<String>)
    ensures
        r is Some <==> vstd::utf8::valid_utf8(bytes@),
        r matches Some(text) ==> text@ == vstd::utf8::decode_utf8(bytes@),
{
    String::from_utf8(bytes).ok()
}

spec fn pow128(k: nat) -> nat
    decreases k,
{
    if k == 0 {
        1
    } else {
        128 * pow128((k - 1) as nat)
    }
}

proof fn lemma_varint_size(n: nat, k: nat)
    requires
        n < 2 * pow128(k),
    ensures
        1 <= varint(n).len() <= k + 1,
        varint(n).len() == k + 1 ==> varint(n)[k as int] < 2,
    decreases k,
{
    if n >= 128 {
        if k == 0 {
            assert(pow128(0) == 1);
        } else {
            let p = pow128((k - 1) as nat);
            assert(n / 128 < 2 * p) by (nonlinear_arith)
                requires
                    n < 2 * (128 * p),
            ;
            lemma_varint_size(n / 128, (k - 1) as nat);
        }
    } else if k == 0 {
        assert(pow128(0) == 1);
    }
}

proof fn lemma_varint_front(n: nat, rest: Seq<u8>)
    ensures
        varint_len(varint(n) + rest) == varint(n).len(),
        varint(n).len() >= 1,
        varint_value(varint(n)) == n,
    decreases n,
{
    let all = varint(n) + rest;
    if n < 128 {
        assert(all[0] == n as u8);
        assert(varint(n).skip(1) =~= Seq::<u8>::empty());
        assert(varint_value(varint(n).skip(1)) == 0);
    } else {
        lemma_varint_front(n / 128, rest);
        assert(all.skip(1) =~= varint(n / 128) + rest);
        assert(varint(n).skip(1) =~= varint(n / 128));
        let low = (n % 128 + 128) as u8;
        assert(all[0] == low);
        assert(varint(n)[0] == low);
        assert(low % 128 == n % 128);
    }
}

/// A number is read as it was written, whatever follows it.
pub proof fn varint_reads_back(n: u64, rest: Seq<u8>)
    ensures
        read_varint(varint(n as nat) + rest) == Some((n, varint(n as nat).len())),
        1 <= varint(n as nat).len() <= 10,
{
    let all = varint(n as nat) + rest;
    lemma_varint_front(n as nat, rest);
    assert(n < 2 * pow128(9)) by {
        reveal_with_fuel(pow128, 10);
    }
    lemma_varint_size(n as nat, 9);
    let k = varint(n as nat).len();
    assert(all.take(k as int) =~= varint(n as nat));
    if k == 10 {
        assert(all[9] == varint(n as nat)[9]);
    }
}

proof fn lemma_varint_len_bound(bytes: Seq<u8>)
    ensures
        varint_len(bytes) <= bytes.len(),
    decreases bytes.len(),
{
    if bytes.len() > 0 && bytes[0] >= 128 {
        lemma_varint_len_bound(bytes.skip(1));
    }
}

/// The value of a field.
#[derive(Clone, Debug)]
pub enum WireValue {
    Varint(u64),
    Bytes(Vec<u8>),
    /// A value of a wire type that no message here uses.
    Other,
}

/// What a [`WireValue`] states.
pub enum WireValueView {
    Varint(u64),
    Bytes(Seq<u8>),
    Other,
}

impl View for WireValue {
    type V = WireValueView;

    open spec fn view(&self) -> WireValueView {
        match self {
            WireValue::Varint(value) => WireValueView::Varint(*value),
            WireValue::Bytes(bytes) => WireValueView::Bytes(bytes@),
            WireValue::Other => WireValueView::Other,
        }
    }
}

/// A field of a message.
#[derive(Clone, Debug)]
pub struct Field {
    pub tag: u32,
    pub value: WireValue,
}

/// What a [`Field`] states.
pub struct FieldView {
    pub tag: u32,
    pub value: WireValueView,
}

impl View for Field {
    type V = FieldView;

    open spec fn view(&self) -> FieldView {
        FieldView { tag: self.tag, value: self.value@ }
    }
}

/// The value at the front that has the wire type, and how many bytes it takes.
pub open spec fn read_value(tag: u32, wire_type: u64, bytes: Seq<u8>) -> Option<
    (WireValueView, nat),
> {
    if wire_type == 0 {
        match read_varint(bytes) {
            Some((value, n)) => Some((WireValueView::Varint(value), n)),
            None => None,
        }
    } else if wire_type == 1 {
        if bytes.len() >= 8 {
            Some((WireValueView::Other, 8))
        } else {
            None
        }
    } else if wire_type == 2 {
        match read_varint(bytes) {
            Some((size, n)) => if n <= bytes.len() && size <= bytes.len() - n {
                Some((WireValueView::Bytes(bytes.subrange(n as int, n + size)), n + size as nat))
            } else {
                None
            },
            None => None,
        }
    } else if wire_type == 3 {
        match after_group(tag, bytes) {
            Some(left) => if left <= bytes.len() {
                Some((WireValueView::Other, (bytes.len() - left) as nat))
            } else {
                None
            },
            None => None,
        }
    } else if wire_type == 5 {
        if bytes.len() >= 4 {
            Some((WireValueView::Other, 4))
        } else {
            None
        }
    } else {
        None
    }
}

/// The field at the front, and how many bytes it takes.
pub open spec fn read_field(bytes: Seq<u8>) -> Option<(FieldView, nat)> {
    match read_varint(bytes) {
        None => None,
        Some((key, n)) => if key > u32::MAX || key / 8 == 0 || n > bytes.len() {
            None
        } else {
            let tag = (key / 8) as u32;
            match read_value(tag, key % 8, bytes.skip(n as int)) {
                Some((value, m)) => Some((FieldView { tag, value }, n + m)),
                None => None,
            }
        },
    }
}

proof fn lemma_field_size(bytes: Seq<u8>)
    ensures
        read_field(bytes) matches Some((_, n)) ==> 0 < n <= bytes.len(),
{
    lemma_varint_len_bound(bytes);
    let n = varint_len(bytes);
    lemma_varint_len_bound(bytes.skip(n as int));
}

/// The fields of a message, where the bytes are one.
pub open spec fn fields(bytes: Seq<u8>) -> Option<Seq<FieldView>>
    decreases bytes.len(),
    via fields_decreases
{
    if bytes.len() == 0 {
        Some(Seq::empty())
    } else {
        match read_field(bytes) {
            None => None,
            Some((field, n)) => match fields(bytes.skip(n as int)) {
                None => None,
                Some(rest) => Some(seq![field] + rest),
            },
        }
    }
}

#[via_fn]
proof fn fields_decreases(bytes: Seq<u8>) {
    lemma_field_size(bytes);
}

/// The views of fields.
pub open spec fn fields_view(list: Seq<Field>) -> Seq<FieldView> {
    Seq::new(list.len(), |i: int| list[i]@)
}

/// The value at the front of the bytes, and how many bytes are left.
fn take_value(tag: u32, wire_type: u64, bytes: &[u8]) -> (r: Option<(WireValue, usize)>)
    ensures
        match r {
            Some((value, left)) => left <= bytes@.len() && read_value(tag, wire_type, bytes@)
                == Some((value@, (bytes@.len() - left) as nat)),
            None => read_value(tag, wire_type, bytes@) is None,
        },
{
    proof {
        lemma_varint_len_bound(bytes@);
    }
    if wire_type == 0 {
        match take_varint(bytes) {
            Some((value, left)) => Some((WireValue::Varint(value), left)),
            None => None,
        }
    } else if wire_type == 1 {
        if bytes.len() >= 8 {
            Some((WireValue::Other, bytes.len() - 8))
        } else {
            None
        }
    } else if wire_type == 2 {
        match take_varint(bytes) {
            Some((size, left)) => {
                if size > left as u64 {
                    return None;
                }
                let from: usize = bytes.len() - left;
                let to: usize = from + size as usize;
                let value = slice_to_vec(slice_subrange(bytes, from, to));
                Some((WireValue::Bytes(value), bytes.len() - to))
            },
            None => None,
        }
    } else if wire_type == 3 {
        match skip_group(tag, bytes) {
            Some(left) => Some((WireValue::Other, left)),
            None => None,
        }
    } else if wire_type == 5 {
        if bytes.len() >= 4 {
            Some((WireValue::Other, bytes.len() - 4))
        } else {
            None
        }
    } else {
        None
    }
}

/// The field at the front of the bytes, and how many bytes are left.
fn take_field(bytes: &[u8]) -> (r: Option<(Field, usize)>)
    ensures
        match r {
            Some((field, left)) => left <= bytes@.len() && read_field(bytes@) == Some(
                (field@, (bytes@.len() - left) as nat),
            ),
            None => read_field(bytes@) is None,
        },
{
    proof {
        lemma_varint_len_bound(bytes@);
    }
    let (key, left) = match take_varint(bytes) {
        Some(read) => read,
        None => {
            return None;
        },
    };
    if key > u32::MAX as u64 || key / 8 == 0 {
        return None;
    }
    let tag: u32 = (key / 8) as u32;
    let from: usize = bytes.len() - left;
    let rest = slice_subrange(bytes, from, bytes.len());
    assert(rest@ =~= bytes@.skip(from as int));
    match take_value(tag, key % 8, rest) {
        Some((value, left)) => Some((Field { tag, value }, left)),
        None => None,
    }
}

/// The fields of a message, where the bytes are one.
pub fn read_fields(bytes: &[u8]) -> (r: Option<Vec<Field>>)
    ensures
        match r {
            Some(list) => fields(bytes@) == Some(fields_view(list@)),
            None => fields(bytes@) is None,
        },
{
    let mut list: Vec<Field> = Vec::new();
    let mut from: usize = 0;
    proof {
        assert(bytes@.skip(0) =~= bytes@);
        assert(fields_view(list@) =~= Seq::empty());
    }
    while from < bytes.len()
        invariant
            from <= bytes@.len(),
            match fields(bytes@.skip(from as int)) {
                Some(rest) => fields(bytes@) == Some(fields_view(list@) + rest),
                None => fields(bytes@) is None,
            },
        decreases bytes@.len() - from,
    {
        let rest = slice_subrange(bytes, from, bytes.len());
        assert(rest@ =~= bytes@.skip(from as int));
        proof {
            lemma_field_size(rest@);
        }
        match take_field(rest) {
            Some((field, left)) => {
                let ghost earlier = list@;
                let ghost stated = field@;
                let ghost n = rest@.len() - left;
                list.push(field);
                proof {
                    assert(rest@.skip(n) =~= bytes@.skip(from + n));
                    assert(fields_view(list@) =~= fields_view(earlier).push(stated));
                    match fields(rest@.skip(n)) {
                        Some(tail) => {
                            assert(fields_view(earlier) + (seq![stated] + tail) =~= fields_view(
                                list@,
                            ) + tail);
                        },
                        None => {},
                    }
                }
                from = bytes.len() - left;
            },
            None => {
                return None;
            },
        }
    }
    proof {
        assert(bytes@.skip(from as int) =~= Seq::<u8>::empty());
        assert(fields_view(list@) + Seq::empty() =~= fields_view(list@));
    }
    Some(list)
}

/// The key of a field.
pub open spec fn key_of(tag: u32, wire_type: nat) -> Seq<u8> {
    varint((8 * tag + wire_type) as nat)
}

/// A number field that is written.
pub open spec fn number_field(tag: u32, value: u64) -> Seq<u8> {
    key_of(tag, 0) + varint(value as nat)
}

/// A byte field that is written.
pub open spec fn delimited_field(tag: u32, value: Seq<u8>) -> Seq<u8> {
    key_of(tag, 2) + varint(value.len()) + value
}

/// A number field, which is written where it is not zero.
pub open spec fn uint_field(tag: u32, value: u64) -> Seq<u8> {
    if value == 0 {
        Seq::empty()
    } else {
        number_field(tag, value)
    }
}

/// A byte field, which is written where it is not empty.
pub open spec fn bytes_field(tag: u32, value: Seq<u8>) -> Seq<u8> {
    if value.len() == 0 {
        Seq::empty()
    } else {
        delimited_field(tag, value)
    }
}

/// The number of a truth value.
pub open spec fn bool_number(value: bool) -> u64 {
    if value {
        1
    } else {
        0
    }
}

/// The tag is one that a field can have.
pub open spec fn is_tag(tag: u32) -> bool {
    1 <= tag < 0x2000_0000
}

fn push_key(out: &mut Vec<u8>, tag: u32, wire_type: u64)
    requires
        is_tag(tag),
        wire_type < 8,
    ensures
        final(out)@ == old(out)@ + key_of(tag, wire_type as nat),
{
    push_varint(out, 8 * (tag as u64) + wire_type);
}

/// Writes a number field.
pub fn push_uint(out: &mut Vec<u8>, tag: u32, value: u64)
    requires
        is_tag(tag),
    ensures
        final(out)@ == old(out)@ + uint_field(tag, value),
{
    if value != 0 {
        push_key(out, tag, 0);
        push_varint(out, value);
    }
    assert(out@ =~= old(out)@ + uint_field(tag, value));
}

/// Writes a field of bytes or of a message, empty or not.
pub fn push_delimited(out: &mut Vec<u8>, tag: u32, value: &[u8])
    requires
        is_tag(tag),
    ensures
        final(out)@ == old(out)@ + delimited_field(tag, value@),
{
    push_key(out, tag, 2);
    push_varint(out, value.len() as u64);
    let ghost before = out@;
    out.extend_from_slice(value);
    assert(out@ =~= before + value@);
    assert(out@ =~= old(out)@ + delimited_field(tag, value@));
}

/// Writes a byte field.
pub fn push_bytes(out: &mut Vec<u8>, tag: u32, value: &[u8])
    requires
        is_tag(tag),
    ensures
        final(out)@ == old(out)@ + bytes_field(tag, value@),
{
    if value.len() > 0 {
        push_delimited(out, tag, value);
    }
    assert(out@ =~= old(out)@ + bytes_field(tag, value@));
}

proof fn lemma_key(tag: u32, wire_type: nat, rest: Seq<u8>)
    requires
        is_tag(tag),
        wire_type < 6,
    ensures
        ({
            let all = key_of(tag, wire_type) + rest;
            let n = key_of(tag, wire_type).len();
            &&& read_varint(all) == Some(((8 * tag + wire_type) as u64, n))
            &&& n <= all.len()
            &&& all.skip(n as int) == rest
            &&& ((8 * tag + wire_type) as u64) / 8 == tag
            &&& ((8 * tag + wire_type) as u64) % 8 == wire_type
        }),
{
    let key = (8 * tag + wire_type) as u64;
    varint_reads_back(key, rest);
    let all = key_of(tag, wire_type) + rest;
    assert(all.skip(key_of(tag, wire_type).len() as int) =~= rest);
}

/// A number field is read as it was written, whatever follows it.
pub proof fn number_field_reads_back(tag: u32, value: u64, rest: Seq<u8>)
    requires
        is_tag(tag),
    ensures
        fields(number_field(tag, value) + rest) == (match fields(rest) {
            Some(list) => Some(
                seq![FieldView { tag, value: WireValueView::Varint(value) }] + list,
            ),
            None => None,
        }),
{
    let behind = varint(value as nat) + rest;
    let all = number_field(tag, value) + rest;
    assert(all =~= key_of(tag, 0) + behind);
    lemma_key(tag, 0, behind);
    varint_reads_back(value, rest);
    let n = key_of(tag, 0).len();
    let m = varint(value as nat).len();
    assert(all.skip((n + m) as int) =~= rest);
}

/// A byte field is read as it was written, whatever follows it.
pub proof fn delimited_field_reads_back(tag: u32, value: Seq<u8>, rest: Seq<u8>)
    requires
        is_tag(tag),
        value.len() <= u64::MAX,
    ensures
        fields(delimited_field(tag, value) + rest) == (match fields(rest) {
            Some(list) => Some(
                seq![FieldView { tag, value: WireValueView::Bytes(value) }] + list,
            ),
            None => None,
        }),
{
    let size = value.len() as u64;
    let behind = varint(value.len()) + (value + rest);
    let all = delimited_field(tag, value) + rest;
    assert(all =~= key_of(tag, 2) + behind);
    lemma_key(tag, 2, behind);
    varint_reads_back(size, value + rest);
    let n = key_of(tag, 2).len();
    let m = varint(value.len()).len();
    assert(behind.subrange(m as int, m + size) =~= value);
    assert(all.skip((n + (m + value.len())) as int) =~= rest);
}

/// What is read of a number field.
pub open spec fn uint_list(tag: u32, value: u64) -> Seq<FieldView> {
    if value == 0 {
        Seq::empty()
    } else {
        seq![FieldView { tag, value: WireValueView::Varint(value) }]
    }
}

/// What is read of a byte field.
pub open spec fn bytes_list(tag: u32, value: Seq<u8>) -> Seq<FieldView> {
    if value.len() == 0 {
        Seq::empty()
    } else {
        seq![FieldView { tag, value: WireValueView::Bytes(value) }]
    }
}

/// A repeated field.
pub open spec fn repeated_field(tag: u32, values: Seq<Seq<u8>>) -> Seq<u8>
    decreases values.len(),
{
    if values.len() == 0 {
        Seq::empty()
    } else {
        delimited_field(tag, values[0]) + repeated_field(tag, values.skip(1))
    }
}

/// Each value of a repeated field takes part of its bytes.
pub proof fn repeated_field_holds_its_values(tag: u32, values: Seq<Seq<u8>>, i: int)
    requires
        0 <= i < values.len(),
    ensures
        values[i].len() <= repeated_field(tag, values).len(),
    decreases values.len(),
{
    if i > 0 {
        repeated_field_holds_its_values(tag, values.skip(1), i - 1);
    }
}

/// What is read of a repeated field.
pub open spec fn repeated_list(tag: u32, values: Seq<Seq<u8>>) -> Seq<FieldView> {
    Seq::new(
        values.len(),
        |i: int| FieldView { tag, value: WireValueView::Bytes(values[i]) },
    )
}

/// A number field is read as it was written, and where it is zero not at all.
pub proof fn uint_field_reads_back(tag: u32, value: u64, rest: Seq<u8>, list: Seq<FieldView>)
    requires
        is_tag(tag),
        fields(rest) == Some(list),
    ensures
        fields(uint_field(tag, value) + rest) == Some(uint_list(tag, value) + list),
{
    if value == 0 {
        assert(uint_field(tag, value) + rest =~= rest);
        assert(uint_list(tag, value) + list =~= list);
    } else {
        number_field_reads_back(tag, value, rest);
    }
}

/// A byte field is read as it was written, and where it is empty not at all.
pub proof fn bytes_field_reads_back(
    tag: u32,
    value: Seq<u8>,
    rest: Seq<u8>,
    list: Seq<FieldView>,
)
    requires
        is_tag(tag),
        value.len() <= u64::MAX,
        fields(rest) == Some(list),
    ensures
        fields(bytes_field(tag, value) + rest) == Some(bytes_list(tag, value) + list),
{
    if value.len() == 0 {
        assert(bytes_field(tag, value) + rest =~= rest);
        assert(bytes_list(tag, value) + list =~= list);
    } else {
        delimited_field_reads_back(tag, value, rest);
    }
}

/// A repeated field is read as it was written.
pub proof fn repeated_field_reads_back(
    tag: u32,
    values: Seq<Seq<u8>>,
    rest: Seq<u8>,
    list: Seq<FieldView>,
)
    requires
        is_tag(tag),
        forall|i: int| 0 <= i < values.len() ==> (#[trigger] values[i]).len() <= u64::MAX,
        fields(rest) == Some(list),
    ensures
        fields(repeated_field(tag, values) + rest) == Some(repeated_list(tag, values) + list),
    decreases values.len(),
{
    if values.len() == 0 {
        assert(repeated_field(tag, values) + rest =~= rest);
        assert(repeated_list(tag, values) + list =~= list);
    } else {
        let tail = values.skip(1);
        assert forall|i: int| 0 <= i < tail.len() implies (#[trigger] tail[i]).len()
            <= u64::MAX by {
            assert(tail[i] == values[i + 1]);
        }
        repeated_field_reads_back(tag, tail, rest, list);
        let behind = repeated_field(tag, tail) + rest;
        assert(repeated_field(tag, values) + rest =~= delimited_field(tag, values[0]) + behind);
        delimited_field_reads_back(tag, values[0], behind);
        assert(seq![FieldView { tag, value: WireValueView::Bytes(values[0]) }] + (repeated_list(
            tag,
            tail,
        ) + list) =~= repeated_list(tag, values) + list);
    }
}

proof fn lemma_repeated_push(tag: u32, values: Seq<Seq<u8>>, value: Seq<u8>)
    ensures
        repeated_field(tag, values.push(value)) == repeated_field(tag, values) + delimited_field(
            tag,
            value,
        ),
    decreases values.len(),
{
    if values.len() == 0 {
        assert(values.push(value).skip(1) =~= Seq::<Seq<u8>>::empty());
        assert(repeated_field(tag, values.push(value).skip(1)) =~= Seq::<u8>::empty());
        assert(repeated_field(tag, values.push(value)) =~= repeated_field(tag, values)
            + delimited_field(tag, value));
    } else {
        lemma_repeated_push(tag, values.skip(1), value);
        assert(values.push(value).skip(1) =~= values.skip(1).push(value));
        assert(repeated_field(tag, values.push(value)) =~= repeated_field(tag, values)
            + delimited_field(tag, value));
    }
}

/// Writes one more value of a repeated field that holds `before` so far.
pub(crate) fn push_repeated(
    out: &mut Vec<u8>,
    tag: u32,
    value: &[u8],
    Ghost(before): Ghost<Seq<Seq<u8>>>,
)
    requires
        is_tag(tag),
    ensures
        final(out)@ == old(out)@ + delimited_field(tag, value@),
        repeated_field(tag, before) + delimited_field(tag, value@) == repeated_field(
            tag,
            before.push(value@),
        ),
{
    push_delimited(out, tag, value);
    proof {
        lemma_repeated_push(tag, before, value@);
    }
}

/// Only the empty text takes no bytes.
pub proof fn only_the_empty_text_is_empty(s: Seq<char>)
    requires
        vstd::utf8::encode_utf8(s).len() == 0,
    ensures
        s == Seq::<char>::empty(),
{
    vstd::utf8::encode_utf8_decode_utf8(s);
    assert(vstd::utf8::encode_utf8(s) =~= Seq::<u8>::empty());
    assert(vstd::utf8::encode_utf8(Seq::<char>::empty()) =~= Seq::<u8>::empty());
    vstd::utf8::encode_utf8_decode_utf8(Seq::<char>::empty());
}

/// A number below 128 is one byte. A larger one has its seven lowest bits
/// first, with the high bit set, and the rest behind them.
pub proof fn numbers_stand_in_base_128(n: nat, low: u8)
    requires
        low < 128,
    ensures
        varint(low as nat) == seq![low],
        n > 0 ==> varint((128 * n + low) as nat) == seq![(low + 128) as u8] + varint(n),
{
    if n > 0 {
        let whole = (128 * n + low) as nat;
        assert(whole / 128 == n && whole % 128 == low as nat);
    }
}

/// A field is known by its number and the type of its value, eight types to a
/// number. A number field that is zero and a byte field that is empty are not
/// written.
pub proof fn fields_begin_with_their_keys(tag: u32, value: u64, bytes: Seq<u8>)
    ensures
        uint_field(tag, value) == (if value == 0 {
            Seq::empty()
        } else {
            varint(8 * tag as nat) + varint(value as nat)
        }),
        bytes_field(tag, bytes) == (if bytes.len() == 0 {
            Seq::empty()
        } else {
            varint(8 * tag as nat + 2) + varint(bytes.len()) + bytes
        }),
        delimited_field(tag, bytes) == varint(8 * tag as nat + 2) + varint(bytes.len()) + bytes,
        bool_number(true) == 1,
        bool_number(false) == 0,
{
}

/// The fields of a repeated field stand one behind the other.
pub proof fn repeated_fields_stand_in_order(tag: u32, first: Seq<u8>, values: Seq<Seq<u8>>)
    ensures
        repeated_field(tag, Seq::empty()) == Seq::<u8>::empty(),
        repeated_field(tag, seq![first] + values) == varint(8 * tag as nat + 2) + varint(
            first.len(),
        ) + first + repeated_field(tag, values),
{
    assert((seq![first] + values).skip(1) =~= values);
}

/// What a value takes of the bytes is told by its type: a number as much as it
/// has, bytes as much as they say, and the two types of fixed size eight and
/// four. Other types than these and groups are refused.
pub proof fn types_tell_what_a_value_takes(tag: u32, wire_type: u64, bytes: Seq<u8>)
    ensures
        wire_type == 0 ==> (read_value(tag, wire_type, bytes) is Some <==> read_varint(bytes)
            is Some),
        wire_type == 0 ==> (read_varint(bytes) matches Some((n, taken)) ==> read_value(
            tag,
            wire_type,
            bytes,
        ) == Some((WireValueView::Varint(n), taken))),
        wire_type == 1 ==> (read_value(tag, wire_type, bytes) is Some <==> bytes.len() >= 8),
        wire_type == 1 && bytes.len() >= 8 ==> read_value(tag, wire_type, bytes) == Some(
            (WireValueView::Other, 8nat),
        ),
        wire_type == 5 ==> (read_value(tag, wire_type, bytes) is Some <==> bytes.len() >= 4),
        wire_type == 5 && bytes.len() >= 4 ==> read_value(tag, wire_type, bytes) == Some(
            (WireValueView::Other, 4nat),
        ),
        wire_type == 4 || wire_type > 5 ==> read_value(tag, wire_type, bytes) is None,
{
}

/// Bytes say how many they are, and are refused where there are fewer.
pub proof fn bytes_say_how_many_they_are(tag: u32, value: Seq<u8>, rest: Seq<u8>, missing: nat)
    requires
        value.len() <= u64::MAX,
        0 < missing <= value.len(),
    ensures
        read_value(tag, 2, varint(value.len()) + value + rest) == Some(
            (WireValueView::Bytes(value), varint(value.len()).len() + value.len()),
        ),
        read_value(tag, 2, varint(value.len()) + value.take(value.len() - missing)) is None,
{
    let size = value.len() as u64;
    let whole = varint(size as nat) + value + rest;
    assert(whole =~= varint(size as nat) + (value + rest));
    varint_reads_back(size, value + rest);
    let n = varint(size as nat).len();
    assert(whole.subrange(n as int, n + size) =~= value);
    varint_reads_back(size, value.take(value.len() - missing));
}

/// A field is refused where its number is zero or its key has more than 32
/// bits.
pub proof fn keys_have_numbers(bytes: Seq<u8>)
    ensures
        read_varint(bytes) is None ==> read_field(bytes) is None,
        read_varint(bytes) matches Some((key, n)) ==> {
            &&& key < 8 ==> read_field(bytes) is None
            &&& key > u32::MAX ==> read_field(bytes) is None
            &&& read_field(bytes) matches Some((field, taken)) ==> {
                &&& field.tag as int == key as int / 8
                &&& taken >= n
                &&& read_value(field.tag, key % 8, bytes.skip(n as int)) == Some(
                    (field.value, (taken - n) as nat),
                )
            }
        },
{
}

/// A message is its fields one behind the other, and one of them that cannot be
/// read spoils it.
pub proof fn messages_are_their_fields(bytes: Seq<u8>)
    ensures
        bytes.len() == 0 ==> fields(bytes) == Some(Seq::<FieldView>::empty()),
        bytes.len() > 0 && read_field(bytes) is None ==> fields(bytes) is None,
        bytes.len() > 0 ==> (read_field(bytes) matches Some((field, n)) ==> {
            &&& fields(bytes) is Some <==> fields(bytes.skip(n as int)) is Some
            &&& fields(bytes) matches Some(list) ==> list == seq![field] + fields(
                bytes.skip(n as int),
            )->Some_0
        }),
{
}

} // verus!
