//! Lexicographic order on text and bytes, and building text from pieces.

use vstd::prelude::*;

verus! {

/// How one key stands to another in a total order.
#[derive(Clone, Copy, Debug, PartialEq, Eq, Structural)]
pub enum Relation {
    Before,
    Same,
    After,
}

/// `a` and `b` agree below `k`, and at `k` either `a` has ended or it holds
/// the smaller element.
pub open spec fn lex_splits_at(a: Seq<int>, b: Seq<int>, k: int) -> bool {
    &&& 0 <= k <= a.len()
    &&& k < b.len()
    &&& forall|i: int| 0 <= i < k ==> a[i] == b[i]
    &&& k == a.len() || a[k] < b[k]
}

/// `a` comes before `b` in lexicographic order.
pub open spec fn lex_before(a: Seq<int>, b: Seq<int>) -> bool {
    exists|k: int| lex_splits_at(a, b, k)
}

proof fn lemma_lex_irreflexive(a: Seq<int>)
    ensures
        !lex_before(a, a),
{
}

proof fn lemma_lex_transitive(a: Seq<int>, b: Seq<int>, c: Seq<int>)
    requires
        lex_before(a, b),
        lex_before(b, c),
    ensures
        lex_before(a, c),
{
    let k1 = choose|k: int| lex_splits_at(a, b, k);
    let k2 = choose|k: int| lex_splits_at(b, c, k);
    let k = if k1 <= k2 {
        k1
    } else {
        k2
    };
    assert(lex_splits_at(a, c, k));
}

proof fn lemma_lex_total_from(a: Seq<int>, b: Seq<int>, k: int)
    requires
        0 <= k <= a.len(),
        k <= b.len(),
        forall|i: int| 0 <= i < k ==> a[i] == b[i],
    ensures
        lex_before(a, b) || a == b || lex_before(b, a),
    decreases a.len() - k,
{
    if k == a.len() || k == b.len() || a[k] != b[k] {
        if a.len() == b.len() && k == a.len() {
            assert(a =~= b);
        } else if k < b.len() && (k == a.len() || a[k] < b[k]) {
            assert(lex_splits_at(a, b, k));
        } else {
            assert(lex_splits_at(b, a, k));
        }
    } else {
        lemma_lex_total_from(a, b, k + 1);
    }
}

/// The code points of a text, as integers.
pub open spec fn text_key(s: Seq<char>) -> Seq<int> {
    Seq::new(s.len(), |i: int| s[i] as int)
}

/// The bytes of a byte string, as integers.
pub open spec fn bytes_key(s: Seq<u8>) -> Seq<int> {
    Seq::new(s.len(), |i: int| s[i] as int)
}

/// `a` comes before `b` in the order of `str`: by code points, which is also
/// the order of the encoded bytes.
pub open spec fn text_before(a: Seq<char>, b: Seq<char>) -> bool {
    lex_before(text_key(a), text_key(b))
}

/// `a` comes before `b` in the order of byte strings.
pub open spec fn bytes_before(a: Seq<u8>, b: Seq<u8>) -> bool {
    lex_before(bytes_key(a), bytes_key(b))
}

/// The order of text is a strict total order.
pub proof fn text_order_is_total(a: Seq<char>, b: Seq<char>, c: Seq<char>)
    ensures
        !text_before(a, a),
        text_before(a, b) && text_before(b, c) ==> text_before(a, c),
        text_before(a, b) || a == b || text_before(b, a),
{
    lemma_lex_irreflexive(text_key(a));
    if text_before(a, b) && text_before(b, c) {
        lemma_lex_transitive(text_key(a), text_key(b), text_key(c));
    }
    lemma_lex_total_from(text_key(a), text_key(b), 0);
    if text_key(a) == text_key(b) {
        assert(a.len() == text_key(a).len());
        assert forall|i: int| 0 <= i < a.len() implies a[i] == b[i] by {
            assert(text_key(a)[i] == text_key(b)[i]);
        }
        assert(a =~= b);
    }
}

/// The order of byte strings is a strict total order.
pub proof fn bytes_order_is_total(a: Seq<u8>, b: Seq<u8>, c: Seq<u8>)
    ensures
        !bytes_before(a, a),
        bytes_before(a, b) && bytes_before(b, c) ==> bytes_before(a, c),
        bytes_before(a, b) || a == b || bytes_before(b, a),
{
    lemma_lex_irreflexive(bytes_key(a));
    if bytes_before(a, b) && bytes_before(b, c) {
        lemma_lex_transitive(bytes_key(a), bytes_key(b), bytes_key(c));
    }
    lemma_lex_total_from(bytes_key(a), bytes_key(b), 0);
    if bytes_key(a) == bytes_key(b) {
        assert(a.len() == bytes_key(a).len());
        assert forall|i: int| 0 <= i < a.len() implies a[i] == b[i] by {
            assert(bytes_key(a)[i] == bytes_key(b)[i]);
        }
        assert(a =~= b);
    }
}

/// Compares two byte strings.
pub fn relate_bytes(a: &[u8], b: &[u8]) -> (r: Relation)
    ensures
        r == Relation::Before <==> bytes_before(a@, b@),
        r == Relation::Same <==> a@ == b@,
        r == Relation::After <==> bytes_before(b@, a@),
{
    let mut i: usize = 0;
    while i < a.len() && i < b.len()
        invariant
            i <= a@.len(),
            i <= b@.len(),
            forall|j: int| 0 <= j < i ==> a@[j] == b@[j],
        decreases a@.len() - i,
    {
        if a[i] < b[i] {
            proof {
                assert(lex_splits_at(bytes_key(a@), bytes_key(b@), i as int));
                bytes_order_is_total(a@, b@, a@);
                assert(a@ != b@);
            }
            return Relation::Before;
        }
        if b[i] < a[i] {
            proof {
                assert(lex_splits_at(bytes_key(b@), bytes_key(a@), i as int));
                bytes_order_is_total(b@, a@, b@);
                assert(a@ != b@);
            }
            return Relation::After;
        }
        i = i + 1;
    }
    if i < b.len() {
        proof {
            assert(lex_splits_at(bytes_key(a@), bytes_key(b@), i as int));
            bytes_order_is_total(a@, b@, a@);
        }
        Relation::Before
    } else if i < a.len() {
        proof {
            assert(lex_splits_at(bytes_key(b@), bytes_key(a@), i as int));
            bytes_order_is_total(b@, a@, b@);
        }
        Relation::After
    } else {
        proof {
            assert(a@ =~= b@);
            bytes_order_is_total(a@, b@, a@);
        }
        Relation::Same
    }
}

/// The characters of a text.
pub fn chars_of(s: &str) -> (r: Vec<char>)
    ensures
        r@ == s@,
{
    let mut out: Vec<char> = Vec::new();
    for c in it: s.chars()
        invariant
            out@ == it.seq().take(it.index() as int),
            it.seq() == s@,
    {
        out.push(c);
    }
    assert(out@ =~= s@);
    out
}

/// Compares two texts.
pub fn relate_text(a: &str, b: &str) -> (r: Relation)
    ensures
        r == Relation::Before <==> text_before(a@, b@),
        r == Relation::Same <==> a@ == b@,
        r == Relation::After <==> text_before(b@, a@),
{
    let x = chars_of(a);
    let y = chars_of(b);
    let mut i: usize = 0;
    while i < x.len() && i < y.len()
        invariant
            x@ == a@,
            y@ == b@,
            i <= x@.len(),
            i <= y@.len(),
            forall|j: int| 0 <= j < i ==> x@[j] == y@[j],
        decreases x@.len() - i,
    {
        if x[i] < y[i] {
            proof {
                assert(lex_splits_at(text_key(a@), text_key(b@), i as int));
                text_order_is_total(a@, b@, a@);
                assert(a@ != b@);
            }
            return Relation::Before;
        }
        if y[i] < x[i] {
            proof {
                assert(lex_splits_at(text_key(b@), text_key(a@), i as int));
                text_order_is_total(b@, a@, b@);
                assert(a@ != b@);
            }
            return Relation::After;
        }
        i = i + 1;
    }
    if i < y.len() {
        proof {
            assert(lex_splits_at(text_key(a@), text_key(b@), i as int));
            text_order_is_total(a@, b@, a@);
        }
        Relation::Before
    } else if i < x.len() {
        proof {
            assert(lex_splits_at(text_key(b@), text_key(a@), i as int));
            text_order_is_total(b@, a@, b@);
        }
        Relation::After
    } else {
        proof {
            assert(a@ =~= b@);
            text_order_is_total(a@, b@, a@);
        }
        Relation::Same
    }
}

/// `String::push` of the standard library appends the character.
pub assume_specification[ String::push ](s: &mut String, c: char)
    ensures
        final(s)@ == old(s)@.push(c),
;

/// The character of a decimal digit.
pub open spec fn digit_char(d: int) -> char {
    ('0' as int + d) as char
}

/// The decimal digits of a number.
pub open spec fn decimal(n: nat) -> Seq<char>
    decreases n,
{
    if n < 10 {
        seq![digit_char(n as int)]
    } else {
        decimal(n / 10).push(digit_char((n % 10) as int))
    }
}

/// Appends the decimal digits of `n`.
pub fn push_decimal(s: &mut String, n: u64)
    ensures
        final(s)@ == old(s)@ + decimal(n as nat),
    decreases n,
{
    if n >= 10 {
        push_decimal(s, n / 10);
    }
    let d: u8 = (n % 10) as u8;
    s.push((48u8 + d) as char);
    proof {
        if n >= 10 {
            assert(s@ =~= old(s)@ + decimal((n / 10) as nat).push(digit_char((n % 10) as int)));
        } else {
            assert(s@ =~= old(s)@ + decimal(n as nat));
        }
    }
}

/// The first `n` bytes as numbers, one after the other.
pub open spec fn listed_bytes(bytes: Seq<u8>, n: nat) -> Seq<char>
    decreases n,
{
    if n == 0 {
        Seq::empty()
    } else if n == 1 {
        decimal(bytes[0] as nat)
    } else {
        listed_bytes(bytes, (n - 1) as nat) + ", "@ + decimal(bytes[n - 1] as nat)
    }
}

/// The bytes as a list of numbers in brackets.
pub open spec fn printed_bytes(bytes: Seq<u8>) -> Seq<char> {
    "["@ + listed_bytes(bytes, bytes.len()) + "]"@
}

/// Appends the bytes as a list of numbers in brackets.
pub fn push_bytes(s: &mut String, bytes: &[u8])
    ensures
        final(s)@ == old(s)@ + printed_bytes(bytes@),
{
    let ghost before = s@;
    s.append("[");
    let mut i: usize = 0;
    assert(s@ =~= before + "["@ + listed_bytes(bytes@, 0));
    while i < bytes.len()
        invariant
            i <= bytes@.len(),
            s@ == before + "["@ + listed_bytes(bytes@, i as nat),
        decreases bytes@.len() - i,
    {
        if i > 0 {
            s.append(", ");
        }
        push_decimal(s, bytes[i] as u64);
        assert(s@ =~= before + "["@ + listed_bytes(bytes@, (i + 1) as nat));
        i = i + 1;
    }
    s.append("]");
    assert(s@ =~= before + printed_bytes(bytes@));
}

/// The decimal digits of `n`.
pub fn decimal_text(n: u64) -> (r: String)
    ensures
        r@ == decimal(n as nat),
{
    let mut s = String::new();
    push_decimal(&mut s, n);
    assert(s@ =~= decimal(n as nat));
    s
}

/// The character is a decimal digit.
pub open spec fn is_digit(c: char) -> bool {
    '0' <= c <= '9'
}

/// Every character is a decimal digit, and there is one.
pub open spec fn is_number(s: Seq<char>) -> bool {
    s.len() > 0 && forall|i: int| 0 <= i < s.len() ==> is_digit(#[trigger] s[i])
}

/// The number that decimal digits stand for.
pub open spec fn number_value(s: Seq<char>) -> nat
    decreases s.len(),
{
    if s.len() == 0 {
        0
    } else {
        number_value(s.drop_last()) * 10 + (s.last() as int - '0' as int) as nat
    }
}

/// Reading the digits of a number back gives the number.
pub proof fn decimal_digits_read_back(n: nat)
    ensures
        is_number(decimal(n)),
        number_value(decimal(n)) == n,
    decreases n,
{
    if n < 10 {
        let s = decimal(n);
        assert(s.drop_last() =~= Seq::<char>::empty());
        assert(number_value(s.drop_last()) == 0);
        assert(s.last() == digit_char(n as int));
    } else {
        decimal_digits_read_back(n / 10);
        let s = decimal(n);
        assert(s.drop_last() =~= decimal(n / 10));
        assert(s.last() == digit_char((n % 10) as int));
        assert forall|i: int| 0 <= i < s.len() implies is_digit(#[trigger] s[i]) by {
            if i < s.len() - 1 {
                assert(s[i] == decimal(n / 10)[i]);
            }
        }
    }
}

/// Two numbers with the same digits are the same.
pub proof fn decimal_is_injective(a: nat, b: nat)
    requires
        decimal(a) == decimal(b),
    ensures
        a == b,
{
    decimal_digits_read_back(a);
    decimal_digits_read_back(b);
}

/// The text that `u32::from_str` reads as a number, with the number: digits
/// after an optional plus sign, within the type's range.
pub open spec fn parsed_u32(s: Seq<char>) -> Option<u32> {
    let digits = if s.len() > 0 && s[0] == '+' {
        s.skip(1)
    } else {
        s
    };
    if is_number(digits) && number_value(digits) <= u32::MAX {
        Some(number_value(digits) as u32)
    } else {
        None
    }
}

proof fn lemma_number_grows(s: Seq<char>, n: int)
    requires
        is_number(s),
        0 <= n <= s.len(),
    ensures
        number_value(s.take(n)) <= number_value(s),
    decreases s.len() - n,
{
    if n < s.len() {
        lemma_number_grows(s, n + 1);
        assert(s.take(n + 1).drop_last() =~= s.take(n));
        assert(s.take(n + 1).last() == s[n]);
    } else {
        assert(s.take(n) =~= s);
    }
}

/// Reads a `u32` from the characters at positions `from` to `to`.
pub fn parse_u32(chars: &Vec<char>, from: usize, to: usize) -> (r: Option<u32>)
    requires
        from <= to <= chars@.len(),
    ensures
        r == parsed_u32(chars@.subrange(from as int, to as int)),
{
    let ghost s = chars@.subrange(from as int, to as int);
    let start: usize = if from < to && chars[from] == '+' {
        from + 1
    } else {
        from
    };
    let ghost digits = if s.len() > 0 && s[0] == '+' {
        s.skip(1)
    } else {
        s
    };
    assert(digits =~= chars@.subrange(start as int, to as int));
    if start == to {
        return None;
    }
    let mut value: u64 = 0;
    let mut i: usize = start;
    assert(digits.take(0) =~= Seq::<char>::empty());
    while i < to
        invariant
            from <= start <= i <= to <= chars@.len(),
            s == chars@.subrange(from as int, to as int),
            digits == chars@.subrange(start as int, to as int),
            digits == (if s.len() > 0 && s[0] == '+' {
                s.skip(1)
            } else {
                s
            }),
            digits.len() > 0,
            forall|k: int| 0 <= k < i - start ==> is_digit(#[trigger] digits[k]),
            value == number_value(digits.take(i - start)),
            value <= u32::MAX,
        decreases to - i,
    {
        let c = chars[i];
        assert(c == digits[i - start]);
        if c < '0' || c > '9' {
            assert(!is_digit(digits[i - start]));
            return None;
        }
        let d: u64 = (c as u32 - 48) as u64;
        proof {
            assert(digits.take(i - start + 1).drop_last() =~= digits.take(i - start));
            assert(digits.take(i - start + 1).last() == c);
            assert(is_digit(digits[i - start]));
        }
        value = value * 10 + d;
        if value > 0xffff_ffff {
            proof {
                if is_number(digits) {
                    lemma_number_grows(digits, i - start + 1);
                }
            }
            return None;
        }
        i = i + 1;
    }
    proof {
        assert(digits.take(to - start) =~= digits);
    }
    Some(value as u32)
}

/// The character has the Unicode property `White_Space`.
pub open spec fn is_white_space(c: char) -> bool {
    ||| '\u{9}' <= c <= '\u{d}'
    ||| c == ' '
    ||| c == '\u{85}'
    ||| c == '\u{a0}'
    ||| c == '\u{1680}'
    ||| '\u{2000}' <= c <= '\u{200a}'
    ||| c == '\u{2028}'
    ||| c == '\u{2029}'
    ||| c == '\u{202f}'
    ||| c == '\u{205f}'
    ||| c == '\u{3000}'
}

/// Whether the character is white space.
pub fn white_space(c: char) -> (r: bool)
    ensures
        r == is_white_space(c),
{
    ('\u{9}' <= c && c <= '\u{d}') || c == ' ' || c == '\u{85}' || c == '\u{a0}' || c == '\u{1680}'
        || ('\u{2000}' <= c && c <= '\u{200a}') || c == '\u{2028}' || c == '\u{2029}' || c
        == '\u{202f}' || c == '\u{205f}' || c == '\u{3000}'
}

/// The text without leading white space.
pub open spec fn trim_start(s: Seq<char>) -> Seq<char>
    decreases s.len(),
{
    if s.len() > 0 && is_white_space(s[0]) {
        trim_start(s.skip(1))
    } else {
        s
    }
}

/// The text without trailing white space.
pub open spec fn trim_end(s: Seq<char>) -> Seq<char>
    decreases s.len(),
{
    if s.len() > 0 && is_white_space(s.last()) {
        trim_end(s.drop_last())
    } else {
        s
    }
}

/// The text without white space at either end.
pub open spec fn trim(s: Seq<char>) -> Seq<char> {
    trim_end(trim_start(s))
}

/// The positions that are left of `from` to `to` once white space is trimmed.
pub fn trimmed_range(chars: &Vec<char>, from: usize, to: usize) -> (r: (usize, usize))
    requires
        from <= to <= chars@.len(),
    ensures
        from <= r.0 <= r.1 <= to,
        chars@.subrange(r.0 as int, r.1 as int) == trim(chars@.subrange(from as int, to as int)),
{
    let mut a: usize = from;
    while a < to && white_space(chars[a])
        invariant
            from <= a <= to <= chars@.len(),
            trim_start(chars@.subrange(a as int, to as int)) == trim_start(
                chars@.subrange(from as int, to as int),
            ),
        decreases to - a,
    {
        assert(chars@.subrange(a as int, to as int).skip(1) =~= chars@.subrange(
            a + 1,
            to as int,
        ));
        a = a + 1;
    }
    assert(trim_start(chars@.subrange(a as int, to as int)) == chars@.subrange(
        a as int,
        to as int,
    )) by {
        if a < to {
            assert(chars@.subrange(a as int, to as int)[0] == chars@[a as int]);
        }
    }
    let mut b: usize = to;
    while a < b && white_space(chars[b - 1])
        invariant
            from <= a <= b <= to <= chars@.len(),
            trim_end(chars@.subrange(a as int, b as int)) == trim(
                chars@.subrange(from as int, to as int),
            ),
        decreases b,
    {
        assert(chars@.subrange(a as int, b as int).drop_last() =~= chars@.subrange(
            a as int,
            b - 1,
        ));
        assert(chars@.subrange(a as int, b as int).last() == chars@[b - 1]);
        b = b - 1;
    }
    assert(trim_end(chars@.subrange(a as int, b as int)) == chars@.subrange(a as int, b as int))
        by {
        if a < b {
            assert(chars@.subrange(a as int, b as int).last() == chars@[b - 1]);
        }
    }
    (a, b)
}

/// The text without white space at either end.
pub fn trimmed(s: &str) -> (r: String)
    ensures
        r@ == trim(s@),
{
    let chars = chars_of(s);
    let (a, b) = trimmed_range(&chars, 0, chars.len());
    assert(chars@.subrange(0, chars@.len() as int) =~= s@);
    s.substring_char(a, b).to_owned()
}

/// The position of the first `c`, or the length where there is none.
pub open spec fn find(s: Seq<char>, c: char) -> int
    decreases s.len(),
{
    if s.len() == 0 || s[0] == c {
        0
    } else {
        1 + find(s.skip(1), c)
    }
}

/// The first `c` stands at a position, and nowhere before it.
pub proof fn find_is_first(s: Seq<char>, c: char)
    ensures
        0 <= find(s, c) <= s.len(),
        find(s, c) < s.len() ==> s[find(s, c)] == c,
        forall|i: int| 0 <= i < find(s, c) ==> s[i] != c,
    decreases s.len(),
{
    if s.len() > 0 && s[0] != c {
        find_is_first(s.skip(1), c);
        assert forall|i: int| 0 <= i < find(s, c) implies s[i] != c by {
            if i > 0 {
                assert(s[i] == s.skip(1)[i - 1]);
            }
        }
    }
}

/// The position of the first `c` from `from` on, or `to`.
pub fn position_of(chars: &Vec<char>, from: usize, to: usize, c: char) -> (r: usize)
    requires
        from <= to <= chars@.len(),
    ensures
        from <= r <= to,
        r - from == find(chars@.subrange(from as int, to as int), c),
{
    let ghost s = chars@.subrange(from as int, to as int);
    proof {
        find_is_first(s, c);
    }
    let mut i: usize = from;
    while i < to && chars[i] != c
        invariant
            from <= i <= to <= chars@.len(),
            s == chars@.subrange(from as int, to as int),
            forall|k: int| 0 <= k < i - from ==> s[k] != c,
        decreases to - i,
    {
        assert(s[i - from] == chars@[i as int]);
        i = i + 1;
    }
    proof {
        let k = find(s, c);
        if i < to {
            assert(s[i - from] == c);
        }
    }
    i
}

/// The pieces between the separators.
pub open spec fn split(s: Seq<char>, separator: char) -> Seq<Seq<char>>
    decreases s.len(),
    via split_decreases
{
    let i = find(s, separator);
    if i < s.len() {
        seq![s.take(i)] + split(s.skip(i + 1), separator)
    } else {
        seq![s]
    }
}

#[via_fn]
proof fn split_decreases(s: Seq<char>, separator: char) {
    find_is_first(s, separator);
}

/// Whether two texts are the same.
pub fn same_text(a: &str, b: &str) -> (r: bool)
    ensures
        r == (a@ == b@),
{
    match relate_text(a, b) {
        Relation::Same => true,
        _ => false,
    }
}

/// The views of texts.
pub open spec fn texts(items: Seq<String>) -> Seq<Seq<char>> {
    Seq::new(items.len(), |i: int| items[i]@)
}

/// Copies of the texts.
pub fn duplicate_texts(items: &Vec<String>) -> (r: Vec<String>)
    ensures
        texts(r@) == texts(items@),
{
    let mut out: Vec<String> = Vec::new();
    let mut i: usize = 0;
    while i < items.len()
        invariant
            i <= items@.len(),
            out@.len() == i,
            forall|k: int| 0 <= k < i ==> (#[trigger] out@[k])@ == items@[k]@,
        decreases items@.len() - i,
    {
        out.push(items[i].clone());
        i = i + 1;
    }
    assert(texts(out@) =~= texts(items@));
    out
}

/// The view of a text that may be missing.
pub open spec fn optional(text: Option<String>) -> Option<Seq<char>> {
    match text {
        Some(s) => Some(s@),
        None => None,
    }
}

/// The order of byte strings reads them from the left: the first byte in which
/// two of them differ decides, and a byte string comes before every longer one
/// that begins with it.
pub proof fn first_difference_orders_bytes(
    common: Seq<u8>,
    a: u8,
    b: u8,
    a_rest: Seq<u8>,
    b_rest: Seq<u8>,
)
    ensures
        a != b ==> (bytes_before(common + seq![a] + a_rest, common + seq![b] + b_rest) <==> a < b),
        bytes_before(common, common + seq![b] + b_rest),
        !bytes_before(common + seq![b] + b_rest, common),
        !bytes_before(common, common),
{
    let x = common + seq![a] + a_rest;
    let y = common + seq![b] + b_rest;
    let n = common.len() as int;
    if a < b {
        assert(lex_splits_at(bytes_key(x), bytes_key(y), n));
    }
    if a > b {
        assert(lex_splits_at(bytes_key(y), bytes_key(x), n));
        bytes_order_is_total(x, y, x);
    }
    assert(lex_splits_at(bytes_key(common), bytes_key(y), n));
    bytes_order_is_total(common, y, common);
}

/// The order of text reads it from the left: the first character in which two
/// texts differ decides, and a text comes before every longer one that begins
/// with it.
pub proof fn first_difference_orders_text(
    common: Seq<char>,
    a: char,
    b: char,
    a_rest: Seq<char>,
    b_rest: Seq<char>,
)
    ensures
        a != b ==> (text_before(common + seq![a] + a_rest, common + seq![b] + b_rest) <==> a < b),
        text_before(common, common + seq![b] + b_rest),
        !text_before(common + seq![b] + b_rest, common),
        !text_before(common, common),
{
    let x = common + seq![a] + a_rest;
    let y = common + seq![b] + b_rest;
    let n = common.len() as int;
    if a < b {
        assert(lex_splits_at(text_key(x), text_key(y), n));
    }
    if a > b {
        assert(lex_splits_at(text_key(y), text_key(x), n));
        text_order_is_total(x, y, x);
    }
    assert(lex_splits_at(text_key(common), text_key(y), n));
    text_order_is_total(common, y, common);
}

/// A number below ten is its digit, and a digit behind a number adds it to ten
/// times that number.
pub proof fn digits_stand_in_base_ten(n: nat, d: nat)
    requires
        d < 10,
    ensures
        decimal(d).len() == 1,
        decimal(d)[0] as int == '0' as int + d,
        n > 0 ==> decimal(10 * n + d) == decimal(n) + decimal(d),
{
    if n > 0 {
        assert((10 * n + d) / 10 == n && (10 * n + d) % 10 == d) by (nonlinear_arith)
            requires
                d < 10,
        ;
        assert(decimal(10 * n + d) =~= decimal(n) + decimal(d));
    }
}

/// A number is read from its digits, with or without a plus sign, exactly where
/// it fits the type.
pub proof fn printed_numbers_are_parsed(n: nat)
    ensures
        n <= u32::MAX ==> parsed_u32(decimal(n)) == Some(n as u32),
        n > u32::MAX ==> parsed_u32(decimal(n)) is None,
        parsed_u32(seq!['+'] + decimal(n)) == parsed_u32(decimal(n)),
{
    decimal_digits_read_back(n);
    let s = decimal(n);
    assert(is_digit(s[0]));
    assert((seq!['+'] + s).skip(1) =~= s);
}

/// A text that is no number is not read as one: each of its characters is a
/// digit, but for a plus sign before the first.
pub proof fn parsed_texts_are_digits(s: Seq<char>, i: int)
    requires
        parsed_u32(s) is Some,
        0 <= i < s.len(),
    ensures
        '0' <= s[i] <= '9' || (i == 0 && s[i] == '+' && s.len() > 1),
{
    if s[0] == '+' {
        if i > 0 {
            assert(is_digit(s.skip(1)[i - 1]));
        }
    } else {
        assert(is_digit(s[i]));
    }
}

proof fn lemma_trim_start(s: Seq<char>) -> (n: int)
    ensures
        0 <= n <= s.len(),
        trim_start(s) == s.skip(n),
        forall|i: int| 0 <= i < n ==> is_white_space(#[trigger] s[i]),
        n < s.len() ==> !is_white_space(s[n]),
    decreases s.len(),
{
    if s.len() > 0 && is_white_space(s[0]) {
        let m = lemma_trim_start(s.skip(1));
        assert(s.skip(1).skip(m) =~= s.skip(m + 1));
        assert forall|i: int| 0 <= i < m + 1 implies is_white_space(#[trigger] s[i]) by {
            if i > 0 {
                assert(s.skip(1)[i - 1] == s[i]);
            }
        }
        if m + 1 < s.len() {
            assert(s.skip(1)[m] == s[m + 1]);
        }
        m + 1
    } else {
        assert(s.skip(0) =~= s);
        0
    }
}

proof fn lemma_trim_end(s: Seq<char>) -> (n: int)
    ensures
        0 <= n <= s.len(),
        trim_end(s) == s.take(n),
        forall|i: int| n <= i < s.len() ==> is_white_space(#[trigger] s[i]),
        n > 0 ==> !is_white_space(s[n - 1]),
    decreases s.len(),
{
    if s.len() > 0 && is_white_space(s.last()) {
        let m = lemma_trim_end(s.drop_last());
        assert(s.drop_last().take(m) =~= s.take(m));
        assert forall|i: int| m <= i < s.len() implies is_white_space(#[trigger] s[i]) by {
            if i < s.len() - 1 {
                assert(s.drop_last()[i] == s[i]);
            }
        }
        if m > 0 {
            assert(s.drop_last()[m - 1] == s[m - 1]);
        }
        m
    } else {
        assert(s.take(s.len() as int) =~= s);
        s.len() as int
    }
}

/// Trimming takes white space from the two ends, all of it and nothing else.
pub proof fn trimming_takes_the_outer_white_space(s: Seq<char>) -> (at: (int, int))
    ensures
        0 <= at.0 <= at.1 <= s.len(),
        trim(s) == s.subrange(at.0, at.1),
        forall|i: int|
            0 <= i < at.0 || at.1 <= i < s.len() ==> is_white_space(#[trigger] s[i]),
        trim(s).len() > 0 ==> !is_white_space(trim(s)[0]) && !is_white_space(trim(s).last()),
{
    let from = lemma_trim_start(s);
    let rest = s.skip(from);
    let len = lemma_trim_end(rest);
    assert(rest.take(len) =~= s.subrange(from, from + len));
    assert forall|i: int| 0 <= i < from || from + len <= i < s.len() implies is_white_space(
        #[trigger] s[i],
    ) by {
        if i >= from + len {
            assert(rest[i - from] == s[i]);
        }
    }
    if len > 0 {
        assert(rest[len - 1] == s[from + len - 1]);
        assert(rest[0] == s[from]);
    }
    (from, from + len)
}

/// The pieces with the separator between them.
pub open spec fn joined(pieces: Seq<Seq<char>>, separator: char) -> Seq<char>
    decreases pieces.len(),
{
    if pieces.len() == 0 {
        Seq::empty()
    } else if pieces.len() == 1 {
        pieces[0]
    } else {
        pieces[0] + seq![separator] + joined(pieces.skip(1), separator)
    }
}

/// Splitting cuts a text at every separator and nowhere else: the pieces hold
/// no separator, and joined again they are the text.
pub proof fn split_pieces_join_again(s: Seq<char>, separator: char)
    ensures
        split(s, separator).len() > 0,
        joined(split(s, separator), separator) == s,
        forall|i: int|
            0 <= i < split(s, separator).len() ==> !(#[trigger] split(s, separator)[i]).contains(
                separator,
            ),
    decreases s.len(),
{
    find_is_first(s, separator);
    let i = find(s, separator);
    let pieces = split(s, separator);
    if i < s.len() {
        let rest = s.skip(i + 1);
        split_pieces_join_again(rest, separator);
        assert(pieces =~= seq![s.take(i)] + split(rest, separator));
        assert(pieces.skip(1) =~= split(rest, separator));
        assert(pieces[0] =~= s.take(i));
        assert(s.take(i) + seq![separator] + rest =~= s);
        assert forall|k: int| 0 <= k < pieces.len() implies !(#[trigger] pieces[k]).contains(
            separator,
        ) by {
            if k > 0 {
                assert(pieces[k] == split(rest, separator)[k - 1]);
            }
        }
    } else {
        assert(pieces =~= seq![s]);
    }
}

/// White space around a text that has none at its ends is what trimming takes.
pub proof fn padding_is_trimmed(before: Seq<char>, s: Seq<char>, after: Seq<char>)
    requires
        forall|i: int| 0 <= i < before.len() ==> is_white_space(#[trigger] before[i]),
        forall|i: int| 0 <= i < after.len() ==> is_white_space(#[trigger] after[i]),
        s.len() > 0,
        !is_white_space(s[0]),
        !is_white_space(s.last()),
    ensures
        trim(before + s + after) == s,
{
    let padded = before + s + after;
    let at = trimming_takes_the_outer_white_space(padded);
    let from = before.len() as int;
    let to = (before.len() + s.len()) as int;
    assert(padded[from] == s[0]);
    assert(padded[to - 1] == s.last());
    assert(at.0 <= from);
    assert(to <= at.1);
    let kept = trim(padded);
    assert(kept[from - at.0] == padded[from]);
    assert(kept.len() > 0);
    assert(kept[0] == padded[at.0]);
    if at.0 < from {
        assert(padded[at.0] == before[at.0]);
    }
    assert(kept.last() == padded[at.1 - 1]);
    if to < at.1 {
        assert(padded[at.1 - 1] == after[at.1 - 1 - to]);
    }
    assert(padded.subrange(from, to) =~= s);
}

proof fn lemma_find_at(before: Seq<char>, c: char, after: Seq<char>)
    requires
        !before.contains(c),
    ensures
        find(before + seq![c] + after, c) == before.len(),
{
    let s = before + seq![c] + after;
    find_is_first(s, c);
    let i = find(s, c);
    assert(s[before.len() as int] == c);
    if i < before.len() {
        assert(before[i] == s[i]);
        assert(before.contains(c));
    }
}

/// The first separator is found where it stands.
pub proof fn separators_are_found(before: Seq<char>, c: char, after: Seq<char>)
    requires
        !before.contains(c),
    ensures
        find(before + seq![c] + after, c) == before.len(),
        find(before, c) == before.len(),
{
    lemma_find_at(before, c, after);
    find_is_first(before, c);
    if find(before, c) < before.len() {
        assert(before.contains(before[find(before, c)]));
    }
}

/// Pieces without the separator, joined by it, are split into the same pieces.
pub proof fn joined_pieces_split_again(pieces: Seq<Seq<char>>, separator: char)
    requires
        pieces.len() > 0,
        forall|i: int| 0 <= i < pieces.len() ==> !(#[trigger] pieces[i]).contains(separator),
    ensures
        split(joined(pieces, separator), separator) == pieces,
    decreases pieces.len(),
{
    let s = joined(pieces, separator);
    assert(!pieces[0].contains(separator));
    if pieces.len() == 1 {
        separators_are_found(pieces[0], separator, Seq::empty());
        assert(split(s, separator) =~= pieces);
    } else {
        let rest = pieces.skip(1);
        assert forall|i: int| 0 <= i < rest.len() implies !(#[trigger] rest[i]).contains(
            separator,
        ) by {
            assert(rest[i] == pieces[i + 1]);
        }
        joined_pieces_split_again(rest, separator);
        separators_are_found(pieces[0], separator, joined(rest, separator));
        let i = pieces[0].len() as int;
        assert(s.take(i) =~= pieces[0]);
        assert(s.skip(i + 1) =~= joined(rest, separator));
        assert(split(s, separator) =~= seq![pieces[0]] + rest);
        assert(seq![pieces[0]] + rest =~= pieces);
    }
}

/// The blanks are the characters that Unicode counts as white space.
pub proof fn blanks_are_unicode_white_space(c: char)
    ensures
        is_white_space(c) <==> ({
            let code = c as int;
            ||| 9 <= code <= 13
            ||| code == 0x20
            ||| code == 0x85
            ||| code == 0xa0
            ||| code == 0x1680
            ||| 0x2000 <= code <= 0x200a
            ||| code == 0x2028
            ||| code == 0x2029
            ||| code == 0x202f
            ||| code == 0x205f
            ||| code == 0x3000
        }),
{
}

/// Bytes print as their numbers between brackets, with a comma and a blank
/// between one and the next.
pub proof fn bytes_print_as_their_numbers(bytes: Seq<u8>, last: u8)
    ensures
        printed_bytes(Seq::empty()) == "[]"@,
        bytes.len() == 0 ==> printed_bytes(bytes.push(last)) == "["@ + decimal(last as nat) + "]"@,
        bytes.len() > 0 ==> printed_bytes(bytes.push(last)) == printed_bytes(bytes).drop_last()
            + ", "@ + decimal(last as nat) + "]"@,
{
    reveal_strlit("[");
    reveal_strlit("]");
    reveal_strlit("[]");
    assert(printed_bytes(Seq::empty()) =~= "[]"@);
    let longer = bytes.push(last);
    lemma_listed_bytes_agree(bytes, longer, bytes.len());
    if bytes.len() > 0 {
        assert(printed_bytes(bytes).drop_last() =~= "["@ + listed_bytes(bytes, bytes.len()));
        assert(printed_bytes(longer) =~= printed_bytes(bytes).drop_last() + ", "@ + decimal(
            last as nat,
        ) + "]"@);
    }
}

proof fn lemma_listed_bytes_agree(a: Seq<u8>, b: Seq<u8>, n: nat)
    requires
        n <= a.len() <= b.len(),
        forall|i: int| 0 <= i < n ==> a[i] == b[i],
    ensures
        listed_bytes(a, n) == listed_bytes(b, n),
    decreases n,
{
    if n > 0 {
        lemma_listed_bytes_agree(a, b, (n - 1) as nat);
        assert(a[n - 1] == b[n - 1]);
        assert(a[0] == b[0]);
    }
}

} // verus!
