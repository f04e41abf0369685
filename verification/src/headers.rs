//! HTTP header fields: the header map of `hyper` and the rules on field names and values.

use hyper::HeaderMap;
use vstd::prelude::*;
use vstd::slice::*;
use vstd::string::*;
use vstd::utf8::*;

use crate::text::{
    chars_of, digits, digits_are_digits, lower, lowered, string_of, to_lower, trimmed,
    trimming_leaves_the_middle,
};

verus! {

/// `hyper::HeaderMap`, whose contents [`header_values`] names.
#[verifier::external_type_specification]
#[verifier::external_body]
#[verifier::reject_recursive_types(T)]
pub struct ExHeaderMap<T>(HeaderMap<T>);

/// `hyper::header::HeaderValue`, the kind of value that a header map holds.
#[verifier::external_type_specification]
#[verifier::external_body]
pub struct ExHeaderValue(hyper::header::HeaderValue);

/// What a header map holds: for each field name, in lower case, its values in order.
pub uninterp spec fn header_values(headers: HeaderMap) -> Map<Seq<char>, Seq<Seq<u8>>>;

/// The number of field names up to which a header map takes one more without reaching its
/// capacity, whatever the names are.
pub const MAX_HEADER_NAMES: usize = 6553;

/// No field at all.
pub open spec fn no_fields() -> Map<Seq<char>, Seq<Seq<u8>>> {
    Map::empty()
}

/// Whether there are `n` names.
pub open spec fn counts(n: nat, names: Set<Seq<char>>) -> bool {
    names.finite() && names.len() == n
}

/// Whether there is room for one more name.
pub open spec fn has_room(fields: Map<Seq<char>, Seq<Seq<u8>>>) -> bool {
    fields.dom().finite() && fields.dom().len() <= MAX_HEADER_NAMES
}

/// The values of the field `name`; none when there is no such field.
pub open spec fn values_in(fields: Map<Seq<char>, Seq<Seq<u8>>>, name: Seq<char>) -> Seq<Seq<u8>> {
    if fields.dom().contains(name) {
        fields[name]
    } else {
        Seq::empty()
    }
}

/// A character that may stand in a field name, in lower case.
pub open spec fn name_char(c: char) -> bool {
    ||| 'a' <= c <= 'z'
    ||| '0' <= c <= '9'
    ||| c == '!'
    ||| '#' <= c <= '\''
    ||| c == '*'
    ||| c == '+'
    ||| c == '-'
    ||| c == '.'
    ||| '^' <= c <= '`'
    ||| c == '|'
    ||| c == '~'
}

/// A field name in lower case.
pub open spec fn field_name(name: Seq<char>) -> bool {
    0 < name.len() <= 65535 && forall|i: int| 0 <= i < name.len() ==> name_char(#[trigger] name[i])
}

/// A name that a header map can hold: it is in lower case, and beside the characters of a field
/// name it may have the double quote, which the table for HTTP/2 names of `http` lets in.
pub open spec fn held_name(name: Seq<char>) -> bool {
    0 < name.len() <= 65535 && forall|i: int|
        0 <= i < name.len() ==> name_char(#[trigger] name[i]) || name[i] == '"'
}

/// A byte that may stand in a field value.
pub open spec fn value_byte(b: u8) -> bool {
    b >= 32 && b != 127 || b == 9
}

/// A field value.
pub open spec fn field_value(value: Seq<u8>) -> bool {
    forall|i: int| 0 <= i < value.len() ==> value_byte(#[trigger] value[i])
}

/// A byte of a field value that is text.
pub open spec fn visible(b: u8) -> bool {
    32 <= b < 127 || b == 9
}

/// The text of a field value; only visible ASCII characters and tabs are text.
pub open spec fn value_text(value: Seq<u8>) -> Option<Seq<char>> {
    if forall|i: int| 0 <= i < value.len() ==> visible(#[trigger] value[i]) {
        Some(value.map_values(|b: u8| b as char))
    } else {
        None
    }
}

/// The text of the first value of the field `name`.
pub open spec fn text_of(fields: Map<Seq<char>, Seq<Seq<u8>>>, name: Seq<char>) -> Option<Seq<char>> {
    if values_in(fields, name).len() > 0 {
        value_text(values_in(fields, name)[0])
    } else {
        None
    }
}

/// The values that stand under `name` in a list of fields, in order.
pub open spec fn values_named(fields: Seq<(Seq<char>, Seq<u8>)>, name: Seq<char>) -> Seq<Seq<u8>>
    decreases fields.len(),
{
    if fields.len() == 0 {
        Seq::empty()
    } else if fields.last().0 == name {
        values_named(fields.drop_last(), name).push(fields.last().1)
    } else {
        values_named(fields.drop_last(), name)
    }
}

/// The names and values of a list of fields.
pub open spec fn listed(fields: Seq<(String, Vec<u8>)>) -> Seq<(Seq<char>, Seq<u8>)> {
    fields.map_values(|field: (String, Vec<u8>)| (field.0@, field.1@))
}

/// `hyper::HeaderMap::new`: a map without fields.
#[verifier::external_body]
pub(crate) fn no_headers() -> (headers: HeaderMap)
    ensures
        header_values(headers) == no_fields(),
{
    HeaderMap::new()
}

/// `hyper::HeaderMap::get`: the first value of a field.
#[verifier::external_body]
pub(crate) fn first_value(headers: &HeaderMap, name: &str) -> (value: Option<Vec<u8>>)
    requires
        field_name(name@),
    ensures
        match value {
            Some(bytes) => values_in(header_values(*headers), name@).len() > 0 && bytes@
                == values_in(header_values(*headers), name@)[0],
            None => values_in(header_values(*headers), name@).len() == 0,
        },
{
    headers.get(name).map(|value| value.as_bytes().to_vec())
}

/// `hyper::HeaderMap::iter`: every value with its field name. The values of one field come in
/// order; the order of different fields is left open. A field that is there has a value. The names
/// are those that a map can hold and, like the values, only of the bytes that are allowed there.
#[verifier::external_body]
pub(crate) fn list_fields(headers: &HeaderMap) -> (fields: Vec<(String, Vec<u8>)>)
    ensures
        forall|name: Seq<char>| #[trigger]
            values_named(listed(fields@), name) == values_in(header_values(*headers), name),
        forall|name: Seq<char>|
            (#[trigger] values_named(listed(fields@), name)).len() > 0 <==> header_values(
                *headers,
            ).dom().contains(name),
        forall|i: int|
            #![trigger fields@[i]]
            0 <= i < fields@.len() ==> held_name(fields@[i].0@) && field_value(fields@[i].1@),
{
    headers.iter().map(|(name, value)| (name.as_str().to_string(), value.as_bytes().to_vec())).collect()
}

/// `hyper::HeaderMap::keys_len`: the number of different field names.
#[verifier::external_body]
pub(crate) fn header_count(headers: &HeaderMap) -> (n: usize)
    ensures
        counts(n as nat, header_values(*headers).dom()),
{
    headers.keys_len()
}

/// Whether `headers` has room for one more name.
pub fn fits(headers: &HeaderMap) -> (r: bool)
    ensures
        r == has_room(header_values(*headers)),
{
    header_count(headers) <= MAX_HEADER_NAMES
}

/// `hyper::HeaderMap::append`: one more value for a field, whose name is taken as it is
/// (`HeaderName::from_lowercase`).
#[verifier::external_body]
pub(crate) fn append_field(headers: &mut HeaderMap, name: &str, value: &[u8])
    requires
        held_name(name@),
        field_value(value@),
        has_room(header_values(*old(headers))),
    ensures
        header_values(*final(headers)) == header_values(*old(headers)).insert(
            name@,
            values_in(header_values(*old(headers)), name@).push(value@),
        ),
{
    headers.append(
        hyper::header::HeaderName::from_lowercase(name.as_bytes()).unwrap(),
        hyper::header::HeaderValue::from_bytes(value).unwrap(),
    );
}

/// `hyper::HeaderMap::insert`: one value for a field, in place of those it had; the name is taken as
/// it is (`HeaderName::from_lowercase`).
#[verifier::external_body]
pub(crate) fn insert_field(headers: &mut HeaderMap, name: &str, value: &[u8])
    requires
        held_name(name@),
        field_value(value@),
        has_room(header_values(*old(headers))),
    ensures
        header_values(*final(headers)) == header_values(*old(headers)).insert(name@, seq![value@]),
{
    headers.insert(
        hyper::header::HeaderName::from_lowercase(name.as_bytes()).unwrap(),
        hyper::header::HeaderValue::from_bytes(value).unwrap(),
    );
}

/// A text of visible ASCII characters is a field value.
pub proof fn ascii_field_value(text: Seq<char>)
    requires
        forall|i: int| 0 <= i < text.len() ==> ' ' <= #[trigger] text[i] <= '~',
    ensures
        field_value(encode_utf8(text)),
        value_text(encode_utf8(text)) == Some(text),
{
    assert(is_ascii_chars(text));
    is_ascii_chars_encode_utf8(text);
    let bytes = encode_utf8(text);
    assert forall|i: int| 0 <= i < bytes.len() implies visible(#[trigger] bytes[i]) && value_byte(
        bytes[i],
    ) by {
        assert(bytes[i] == text[i] as u8);
    }
    assert(bytes.map_values(|b: u8| b as char) == text);
}

/// Decimal digits are a field value.
pub proof fn digits_field_value(n: nat)
    ensures
        field_value(encode_utf8(digits(n))),
        value_text(encode_utf8(digits(n))) == Some(digits(n)),
{
    digits_are_digits(n);
    ascii_field_value(digits(n));
}

/// Whether `c` may stand in a field name, in lower case.
fn is_name_char(c: char) -> (r: bool)
    ensures
        r == name_char(c),
{
    ('a' <= c && c <= 'z') || ('0' <= c && c <= '9') || c == '!' || ('#' <= c && c <= '\'') || c
        == '*' || c == '+' || c == '-' || c == '.' || ('^' <= c && c <= '`') || c == '|' || c == '~'
}

/// The field name that `token` spells in any case; `None` when it is not one.
pub fn name_from(token: &str) -> (r: Option<String>)
    ensures
        match r {
            Some(name) => field_name(lowered(token@)) && name@ == lowered(token@),
            None => !field_name(lowered(token@)),
        },
{
    let chars = chars_of(token);
    if chars.len() == 0 || chars.len() > 65535 {
        return None;
    }
    let mut name: Vec<char> = Vec::new();
    let mut i: usize = 0;
    while i < chars.len()
        invariant
            i <= chars@.len(),
            chars@ == token@,
            name@ == lowered(chars@).take(i as int),
            forall|k: int| 0 <= k < i ==> name_char(#[trigger] lowered(chars@)[k]),
        decreases chars@.len() - i,
    {
        let c = to_lower(chars[i]);
        assert(lowered(chars@)[i as int] == c);
        if !is_name_char(c) {
            return None;
        }
        name.push(c);
        i = i + 1;
        assert(lowered(chars@).take(i as int) == lowered(chars@).take(i - 1).push(c));
    }
    assert(lowered(chars@).take(i as int) == lowered(chars@));
    Some(string_of(name.as_slice()))
}

/// Whether `value` is a field value.
pub fn is_field_value(value: &[u8]) -> (r: bool)
    ensures
        r == field_value(value@),
{
    let mut i: usize = 0;
    while i < value.len()
        invariant
            i <= value@.len(),
            forall|k: int| 0 <= k < i ==> value_byte(#[trigger] value@[k]),
        decreases value@.len() - i,
    {
        let b = value[i];
        if !(b >= 32 && b != 127 || b == 9) {
            assert(!value_byte(value@[i as int]));
            return false;
        }
        i = i + 1;
    }
    true
}

/// The text of a field value.
pub fn text_from(value: &[u8]) -> (r: Option<String>)
    ensures
        match r {
            Some(text) => value_text(value@) == Some(text@),
            None => value_text(value@) is None,
        },
{
    let mut text = String::new();
    let mut i: usize = 0;
    while i < value.len()
        invariant
            i <= value@.len(),
            forall|k: int| 0 <= k < i ==> visible(#[trigger] value@[k]),
            text@ == value@.map_values(|b: u8| b as char).take(i as int),
        decreases value@.len() - i,
    {
        let b = value[i];
        if !(b >= 32 && b < 127 || b == 9) {
            assert(!visible(value@[i as int]));
            return None;
        }
        text.push(b as char);
        i = i + 1;
        assert(value@.map_values(|b: u8| b as char).take(i as int) == value@.map_values(
            |b: u8| b as char,
        ).take(i - 1).push(b as char));
    }
    assert(value@.map_values(|b: u8| b as char).take(i as int) == value@.map_values(
        |b: u8| b as char,
    ));
    Some(text)
}

/// The text of the first value of the field `name`.
pub(crate) fn header_text(headers: &HeaderMap, name: &str) -> (r: Option<String>)
    requires
        field_name(name@),
    ensures
        match r {
            Some(text) => text_of(header_values(*headers), name@) == Some(text@),
            None => text_of(header_values(*headers), name@) is None,
        },
{
    match first_value(headers, name) {
        Some(value) => text_from(value.as_slice()),
        None => None,
    }
}

/// The first value of a field is read as it was written, character for character, when it is
/// written in visible ASCII characters, spaces and tabs.
pub proof fn first_value_is_read_as_written(
    fields: Map<Seq<char>, Seq<Seq<u8>>>,
    name: Seq<char>,
    text: Seq<char>,
)
    requires
        fields.dom().contains(name),
        fields[name].len() > 0,
        fields[name][0] == encode_utf8(text),
        forall|i: int|
            0 <= i < text.len() ==> ' ' <= #[trigger] text[i] <= '~' || text[i] == '\t',
    ensures
        text_of(fields, name) == Some(text),
{
    assert(is_ascii_chars(text));
    is_ascii_chars_encode_utf8(text);
    let bytes = encode_utf8(text);
    assert forall|i: int| 0 <= i < bytes.len() implies visible(#[trigger] bytes[i]) by {
        assert(bytes[i] == text[i] as u8);
    }
    assert(bytes.map_values(|b: u8| b as char) == text);
}

/// A field without a value, and one whose first value holds a byte that is no visible ASCII
/// character, no space and no tab, is not read as text.
pub proof fn other_values_are_not_text(fields: Map<Seq<char>, Seq<Seq<u8>>>, name: Seq<char>)
    requires
        !fields.dom().contains(name) || fields[name].len() == 0 || exists|i: int|
            #![trigger fields[name][0][i]]
            0 <= i < fields[name][0].len() && (fields[name][0][i] > 126 || (fields[name][0][i] < 32
                && fields[name][0][i] != 9)),
    ensures
        text_of(fields, name) is None,
{
}

/// What text a field is read as stands in its first value, character for character.
pub proof fn text_stands_in_the_first_value(fields: Map<Seq<char>, Seq<Seq<u8>>>, name: Seq<char>)
    ensures
        text_of(fields, name) matches Some(text) ==> {
            &&& fields.dom().contains(name)
            &&& fields[name].len() > 0
            &&& fields[name][0] == encode_utf8(text)
            &&& forall|i: int|
                0 <= i < text.len() ==> ' ' <= #[trigger] text[i] <= '~' || text[i] == '\t'
        },
{
    if let Some(text) = text_of(fields, name) {
        let bytes = fields[name][0];
        assert forall|i: int| 0 <= i < text.len() implies (' ' <= #[trigger] text[i] <= '~'
            || text[i] == '\t') && text[i] as u8 == bytes[i] && (text[i] as u32) < 128 by {
            assert(visible(bytes[i]));
        }
        assert(is_ascii_chars(text));
        is_ascii_chars_encode_utf8(text);
        assert(encode_utf8(text) =~= bytes);
    }
}

/// A field value that is a text between spaces and tabs gives that text when it is trimmed.
pub proof fn padded_value_is_trimmed(
    fields: Map<Seq<char>, Seq<Seq<u8>>>,
    name: Seq<char>,
    left: Seq<char>,
    middle: Seq<char>,
    right: Seq<char>,
)
    requires
        fields.dom().contains(name),
        fields[name].len() > 0,
        fields[name][0] == encode_utf8(left + middle + right),
        forall|i: int| 0 <= i < left.len() ==> #[trigger] left[i] == ' ' || left[i] == '\t',
        forall|i: int| 0 <= i < right.len() ==> #[trigger] right[i] == ' ' || right[i] == '\t',
        forall|i: int|
            0 <= i < middle.len() ==> ' ' <= #[trigger] middle[i] <= '~' || middle[i] == '\t',
        middle.len() > 0,
        '!' <= middle[0] <= '~',
        '!' <= middle.last() <= '~',
    ensures
        text_of(fields, name) == Some(left + middle + right),
        trimmed(left + middle + right) == middle,
{
    let text = left + middle + right;
    assert forall|i: int| 0 <= i < text.len() implies ' ' <= #[trigger] text[i] <= '~' || text[i]
        == '\t' by {
        if i < left.len() {
            assert(text[i] == left[i]);
        } else if i < left.len() + middle.len() {
            assert(text[i] == middle[i - left.len()]);
        } else {
            assert(text[i] == right[i - left.len() - middle.len()]);
        }
    }
    first_value_is_read_as_written(fields, name, text);
    trimming_leaves_the_middle(left, middle, right);
}

/// A field name has lower case letters, digits and the marks that HTTP allows in a token, code point
/// by code point, and from one to 65535 of them.
pub proof fn field_names_are_tokens(name: Seq<char>, c: char)
    ensures
        field_name(name) <==> 1 <= name.len() <= 65535 && forall|i: int|
            0 <= i < name.len() ==> name_char(#[trigger] name[i]),
        name_char(c) <==> ({
            let code = c as u32;
            ||| 97 <= code <= 122
            ||| 48 <= code <= 57
            ||| code == 33
            ||| 35 <= code <= 39
            ||| code == 42
            ||| code == 43
            ||| code == 45
            ||| code == 46
            ||| 94 <= code <= 96
            ||| code == 124
            ||| code == 126
        }),
{
}

/// A field value may hold every byte but the control characters, of which the tab alone is allowed.
pub proof fn field_values_hold_no_control_characters(value: Seq<u8>)
    ensures
        field_value(value) <==> forall|i: int|
            0 <= i < value.len() ==> #[trigger] value[i] == 9 || (32 <= value[i] && value[i] != 127),
{
    if field_value(value) {
        assert forall|i: int| 0 <= i < value.len() implies #[trigger] value[i] == 9 || (32
            <= value[i] && value[i] != 127) by {
            assert(value_byte(value[i]));
        }
    }
}

/// A header map has room for one more name while it holds no more than 6553 of them.
pub proof fn room_is_left_up_to_the_bound(fields: Map<Seq<char>, Seq<Seq<u8>>>)
    ensures
        has_room(fields) <==> fields.dom().finite() && fields.dom().len() <= 6553,
{
}

} // verus!
