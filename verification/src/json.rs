//! JSON values, held as the text that they print as.

use vstd::prelude::*;

use crate::text;

verus! {

/// What a JSON text prints as once it has been read. There is none where the
/// text is no JSON.
pub uninterp spec fn json_canonical(json: Seq<char>) -> Option<Seq<char>>;

/// The number that a JSON text stands for, where it is one without sign,
/// fraction or exponent that fits in 64 bits.
pub uninterp spec fn json_u64(json: Seq<char>) -> Option<u64>;

/// The text that a JSON text stands for, where it is a string.
pub uninterp spec fn json_string(json: Seq<char>) -> Option<Seq<char>>;

/// What the member of that name prints as, where the JSON text is an object
/// that has one.
pub uninterp spec fn json_member(json: Seq<char>, name: Seq<char>) -> Option<Seq<char>>;

/// What the element at that place prints as, where the JSON text is an array
/// that has one.
pub uninterp spec fn json_element(json: Seq<char>, place: nat) -> Option<Seq<char>>;

/// The character stands for itself in a JSON string.
pub open spec fn is_plain(c: char) -> bool {
    ||| '0' <= c <= '9'
    ||| 'a' <= c <= 'z'
    ||| 'A' <= c <= 'Z'
}

/// Every character stands for itself in a JSON string.
pub open spec fn all_plain(s: Seq<char>) -> bool {
    forall|i: int| 0 <= i < s.len() ==> is_plain(#[trigger] s[i])
}

/// The JSON string of a text whose characters stand for themselves.
pub open spec fn quoted(s: Seq<char>) -> Seq<char> {
    "\""@ + s + "\""@
}

/// An object of a version and an identifier, as it prints.
pub open spec fn versioned_id(version: u32, id: Seq<char>) -> Seq<char> {
    "{\"format_version\":"@ + text::decimal(version as nat) + ",\"genesis_id\":"@ + quoted(id)
        + "}"@
}

/// The JSON text prints as it is: the digits of a number, a plain text in
/// quotes, or an object of a version and an identifier.
pub open spec fn prints_as_is(json: Seq<char>) -> bool {
    ||| exists|n: u64| json == #[trigger] text::decimal(n as nat)
    ||| exists|s: Seq<char>| all_plain(s) && json == #[trigger] quoted(s)
    ||| exists|version: u32, id: Seq<char>|
        all_plain(id) && json == #[trigger] versioned_id(version, id)
}

/// Where a reader of JSON stands in a text.
pub enum JsonPlace {
    Outside,
    InString,
    /// In a string, behind a backslash.
    Escaped,
}

/// Where a reader stands once it has read the first `n` characters. A quote
/// begins or ends a string, and a backslash in a string hides the next one.
pub open spec fn place_after(json: Seq<char>, n: nat) -> JsonPlace
    decreases n,
{
    if n == 0 {
        JsonPlace::Outside
    } else {
        match place_after(json, (n - 1) as nat) {
            JsonPlace::Outside => if json[n - 1] == '"' {
                JsonPlace::InString
            } else {
                JsonPlace::Outside
            },
            JsonPlace::InString => if json[n - 1] == '"' {
                JsonPlace::Outside
            } else if json[n - 1] == '\\' {
                JsonPlace::Escaped
            } else {
                JsonPlace::InString
            },
            JsonPlace::Escaped => JsonPlace::InString,
        }
    }
}

/// At the place, outside any string, the text has the point of a fraction or
/// the mark of an exponent.
pub open spec fn marks_fraction(json: Seq<char>, i: int) -> bool {
    &&& place_after(json, i as nat) is Outside
    &&& {
        ||| json[i] == '.'
        ||| json[i] == 'e' && i + 1 < json.len() && (json[i + 1] == '+' || json[i + 1] == '-')
    }
}

/// No number in the text has a fraction or an exponent, or the text is one
/// that prints as it is. What its strings hold does not matter.
pub open spec fn is_exact(json: Seq<char>) -> bool {
    ||| prints_as_is(json)
    ||| forall|i: int| 0 <= i < json.len() ==> !#[trigger] marks_fraction(json, i)
}

/// The text is read and printed again as it is.
pub open spec fn reads_back(json: Seq<char>) -> bool {
    json_canonical(json) == Some(json)
}

/// The text is one that a JSON value prints as: it is read and printed again
/// as it is, unless a number in it has a fraction or an exponent.
pub open spec fn is_printed(json: Seq<char>) -> bool {
    is_exact(json) ==> reads_back(json)
}

/// `serde_json::from_str` into a `serde_json::Value`, printed again by its
/// `to_string`. A number without sign prints as its digits, a plain text in
/// quotes as it is, and so does an object without blanks whose names are in
/// order. What was printed is read and printed again as it is, where no number
/// in it has a fraction or an exponent: those may be read as a neighbouring
/// number.
#[verifier::external_body]
pub(crate) fn reprint_json(json: &str) -> (r: Option<String>)
    ensures
        text::optional(r) == json_canonical(json@),
        prints_as_is(json@) ==> text::optional(r) == Some(json@),
        r matches Some(printed) ==> is_printed(printed@),
{
    let value: serde_json::Value = serde_json::from_str(json).ok()?;
    Some(value.to_string())
}

/// `serde_json::Value::as_u64` of what `serde_json::from_str` reads. The
/// digits of a number stand for the number.
#[verifier::external_body]
pub(crate) fn u64_of_json(json: &str) -> (r: Option<u64>)
    ensures
        r == json_u64(json@),
        forall|n: u64| json@ == #[trigger] text::decimal(n as nat) ==> r == Some(n),
{
    let value: serde_json::Value = serde_json::from_str(json).ok()?;
    value.as_u64()
}

/// `serde_json::Value::as_str` of what `serde_json::from_str` reads. A plain
/// text in quotes stands for that text.
#[verifier::external_body]
pub(crate) fn string_of_json(json: &str) -> (r: Option<String>)
    ensures
        text::optional(r) == json_string(json@),
        forall|s: Seq<char>|
            all_plain(s) && json@ == #[trigger] quoted(s) ==> text::optional(r) == Some(s),
{
    let value: serde_json::Value = serde_json::from_str(json).ok()?;
    value.as_str().map(|s| s.to_owned())
}

/// What the members of an object of a version and an identifier print as.
pub open spec fn versioned_member(of: (u32, Seq<char>), name: Seq<char>) -> Option<Seq<char>> {
    if name == "format_version"@ {
        Some(text::decimal(of.0 as nat))
    } else if name == "genesis_id"@ {
        Some(quoted(of.1))
    } else {
        None
    }
}

/// `serde_json::Value::get` of what `serde_json::from_str` reads, printed by
/// its `to_string`. An object of a version and an identifier has those two
/// members.
#[verifier::external_body]
pub(crate) fn member_of_json(json: &str, name: &str) -> (r: Option<String>)
    ensures
        text::optional(r) == json_member(json@, name@),
        forall|of: (u32, Seq<char>)|
            all_plain(of.1) && json@ == #[trigger] versioned_id(of.0, of.1) ==> text::optional(r)
                == versioned_member(of, name@),
{
    let value: serde_json::Value = serde_json::from_str(json).ok()?;
    value.get(name).map(|member| member.to_string())
}

/// `serde_json::Value::get` with a number, of what `serde_json::from_str`
/// reads, printed by its `to_string`. An object has no elements.
#[verifier::external_body]
pub(crate) fn element_of_json(json: &str, place: usize) -> (r: Option<String>)
    ensures
        text::optional(r) == json_element(json@, place as nat),
        forall|of: (u32, Seq<char>)|
            all_plain(of.1) && json@ == #[trigger] versioned_id(of.0, of.1) ==> text::optional(r)
                == None::<Seq<char>>,
{
    let value: serde_json::Value = serde_json::from_str(json).ok()?;
    value.get(place).map(|element| element.to_string())
}

/// A JSON value, as the text that it prints as.
#[derive(Debug, PartialEq, Eq)]
pub struct JsonValue {
    text: String,
}

impl View for JsonValue {
    type V = Seq<char>;

    closed spec fn view(&self) -> Seq<char> {
        self.text@
    }
}

impl JsonValue {
    #[verifier::type_invariant]
    spec fn printed(self) -> bool {
        is_printed(self.text@)
    }

    /// Reads a value.
    pub fn parse(json: &str) -> (r: Option<Self>)
        ensures
            match r {
                Some(value) => json_canonical(json@) == Some(value@),
                None => json_canonical(json@) is None,
            },
            prints_as_is(json@) ==> (r matches Some(value) && value@ == json@),
    {
        match reprint_json(json) {
            Some(text) => Some(JsonValue { text }),
            None => None,
        }
    }

    /// The value of a text that prints as it is.
    fn of_printed(text: String) -> (r: Self)
        requires
            prints_as_is(text@),
        ensures
            r@ == text@,
    {
        match reprint_json(text.as_str()) {
            Some(printed) => JsonValue { text: printed },
            None => JsonValue { text },
        }
    }

    /// A number.
    pub fn from_u64(n: u64) -> (r: Self)
        ensures
            r@ == text::decimal(n as nat),
    {
        Self::of_printed(text::decimal_text(n))
    }

    /// An object of a version and an identifier whose characters stand for
    /// themselves.
    pub fn versioned_id(version: u32, id: &str) -> (r: Self)
        requires
            all_plain(id@),
        ensures
            r@ == versioned_id(version, id@),
    {
        let mut s = "{\"format_version\":".to_owned();
        text::push_decimal(&mut s, version as u64);
        s.append(",\"genesis_id\":");
        let ghost before = s@;
        s.append("\"");
        s.append(id);
        s.append("\"");
        assert(s@ =~= before + quoted(id@));
        s.append("}");
        assert(s@ == versioned_id(version, id@));
        Self::of_printed(s)
    }

    /// The printed form.
    pub fn as_str(&self) -> (r: &str)
        ensures
            r@ == self@,
            is_printed(self@),
    {
        proof {
            use_type_invariant(&*self);
        }
        self.text.as_str()
    }

    /// The number, where the value is one.
    pub fn as_u64(&self) -> (r: Option<u64>)
        ensures
            r == json_u64(self@),
            forall|n: u64| self@ == #[trigger] text::decimal(n as nat) ==> r == Some(n),
    {
        u64_of_json(self.text.as_str())
    }

    pub fn duplicate(&self) -> (r: Self)
        ensures
            r@ == self@,
    {
        proof {
            use_type_invariant(&*self);
        }
        JsonValue { text: self.text.clone() }
    }
}

impl Clone for JsonValue {
    fn clone(&self) -> (r: Self)
        ensures
            r@ == self@,
    {
        self.duplicate()
    }
}

} // verus!
