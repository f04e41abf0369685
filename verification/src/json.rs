//! JSON: documents that are written as a whole, and objects that are read field by field.

use vstd::prelude::*;
use vstd::slice::*;
use vstd::utf8::*;

use crate::table::ascending;
use crate::text::digits;

verus! {

/// `serde_json::Number`, carried through unread.
#[verifier::external_type_specification]
#[verifier::external_body]
pub struct ExNumber(serde_json::Number);

/// `serde_json::Value`, only ever converted to and from [`Json`].
#[verifier::external_type_specification]
#[verifier::external_body]
pub struct ExValue(serde_json::Value);

/// A JSON value. Counters are kept as integers; every other number stays as it was read.
#[derive(Debug)]
pub enum Json {
    Null,
    Bool(bool),
    Uint(u64),
    Number(serde_json::Number),
    Text(String),
    Array(Vec<Json>),
    Object(Vec<(String, Json)>),
}

/// What a [`Json`] value stands for.
pub enum Tree {
    Null,
    Bool(bool),
    Uint(u64),
    Number(serde_json::Number),
    Text(Seq<char>),
    Array(Seq<Tree>),
    Object(Seq<(Seq<char>, Tree)>),
}

impl View for Json {
    type V = Tree;

    open spec fn view(&self) -> Tree
        decreases self,
    {
        match self {
            Json::Null => Tree::Null,
            Json::Bool(b) => Tree::Bool(*b),
            Json::Uint(n) => Tree::Uint(*n),
            Json::Number(n) => Tree::Number(*n),
            Json::Text(s) => Tree::Text(s@),
            Json::Array(items) => Tree::Array(
                Seq::new(
                    items@.len(),
                    |i: int|
                        if 0 <= i < items@.len() {
                            items@[i]@
                        } else {
                            Tree::Null
                        },
                ),
            ),
            Json::Object(fields) => Tree::Object(
                Seq::new(
                    fields@.len(),
                    |i: int|
                        if 0 <= i < fields@.len() {
                            (fields@[i].0@, fields@[i].1@)
                        } else {
                            (Seq::<char>::empty(), Tree::Null)
                        },
                ),
            ),
        }
    }
}

/// The fields and their values.
pub open spec fn fields_of(fields: Seq<(String, Json)>) -> Seq<(Seq<char>, Tree)> {
    fields.map_values(|field: (String, Json)| (field.0@, field.1@))
}

/// The items of an array.
pub open spec fn items_of(items: Seq<Json>) -> Seq<Tree> {
    items.map_values(|item: Json| item@)
}

/// An object stands for its fields.
pub proof fn object_view(fields: Vec<(String, Json)>)
    ensures
        Json::Object(fields)@ == Tree::Object(fields_of(fields@)),
{
    reveal_with_fuel(<Json as View>::view, 2);
    assert(Json::Object(fields)@->Object_0 =~= fields_of(fields@));
}

/// An array stands for its items.
pub proof fn array_view(items: Vec<Json>)
    ensures
        Json::Array(items)@ == Tree::Array(items_of(items@)),
{
    reveal_with_fuel(<Json as View>::view, 2);
    assert(Json::Array(items)@->Array_0 =~= items_of(items@));
}

/// Whether the field names of every object in `tree` are in ascending order.
pub open spec fn ordered(tree: Tree) -> bool
    decreases tree,
{
    match tree {
        Tree::Array(items) => forall|i: int| 0 <= i < items.len() ==> ordered(#[trigger] items[i]),
        Tree::Object(fields) => ascending(fields) && forall|i: int|
            0 <= i < fields.len() ==> ordered((#[trigger] fields[i]).1),
        _ => true,
    }
}

/// Whether arrays and objects are nested more than `levels` deep in `tree`.
pub open spec fn deeper(tree: Tree, levels: nat) -> bool
    decreases levels,
{
    match tree {
        Tree::Array(items) => levels == 0 || exists|i: int|
            0 <= i < items.len() && deeper(#[trigger] items[i], (levels - 1) as nat),
        Tree::Object(fields) => levels == 0 || exists|i: int|
            0 <= i < fields.len() && deeper((#[trigger] fields[i]).1, (levels - 1) as nat),
        _ => false,
    }
}

/// A value is one level deeper than one in it.
proof fn deeper_inside(tree: Tree, inner: Tree, levels: nat)
    requires
        levels > 0,
        deeper(inner, (levels - 1) as nat),
        match tree {
            Tree::Array(items) => exists|i: int| 0 <= i < items.len() && #[trigger] items[i] == inner,
            Tree::Object(fields) => exists|i: int|
                0 <= i < fields.len() && (#[trigger] fields[i]).1 == inner,
            _ => false,
        },
    ensures
        deeper(tree, levels),
{
    reveal_with_fuel(deeper, 2);
    match tree {
        Tree::Array(items) => {
            let i = choose|i: int| 0 <= i < items.len() && #[trigger] items[i] == inner;
            assert(deeper(items[i], (levels - 1) as nat));
        },
        Tree::Object(fields) => {
            let i = choose|i: int| 0 <= i < fields.len() && (#[trigger] fields[i]).1 == inner;
            assert(deeper(fields[i].1, (levels - 1) as nat));
        },
        _ => {},
    }
}

/// What is nested deeper than some levels is nested deeper than fewer.
proof fn deeper_than_fewer(tree: Tree, fewer: nat, levels: nat)
    requires
        fewer <= levels,
        deeper(tree, levels),
    ensures
        deeper(tree, fewer),
    decreases fewer,
{
    if fewer > 0 {
        match tree {
            Tree::Array(items) => {
                let i = choose|i: int|
                    0 <= i < items.len() && deeper(#[trigger] items[i], (levels - 1) as nat);
                deeper_than_fewer(items[i], (fewer - 1) as nat, (levels - 1) as nat);
            },
            Tree::Object(fields) => {
                let i = choose|i: int|
                    0 <= i < fields.len() && deeper((#[trigger] fields[i]).1, (levels - 1) as nat);
                deeper_than_fewer(fields[i].1, (fewer - 1) as nat, (levels - 1) as nat);
            },
            _ => {},
        }
    }
}

/// The levels of nesting that a document may have.
pub const MAX_LEVELS: usize = 127;

/// Whether `tree` is ordered and nested no more than `levels` deep.
pub open spec fn printable(tree: Tree, levels: nat) -> bool {
    ordered(tree) && !deeper(tree, levels)
}

/// An object is printable when its names ascend and its values are, with one level less.
pub proof fn object_printable(fields: Seq<(Seq<char>, Tree)>, levels: nat)
    requires
        ascending(fields),
        levels > 0,
        forall|i: int|
            0 <= i < fields.len() ==> printable((#[trigger] fields[i]).1, (levels - 1) as nat),
    ensures
        printable(Tree::Object(fields), levels),
{
    reveal_with_fuel(ordered, 2);
    reveal_with_fuel(deeper, 2);
}

/// An array is printable when its items are, with one level less.
pub proof fn array_printable(items: Seq<Tree>, levels: nat)
    requires
        levels > 0,
        forall|i: int| 0 <= i < items.len() ==> printable(#[trigger] items[i], (levels - 1) as nat),
    ensures
        printable(Tree::Array(items), levels),
{
    reveal_with_fuel(ordered, 2);
    reveal_with_fuel(deeper, 2);
}

/// What is printable with some levels is printable with more.
pub proof fn printable_with_more(tree: Tree, levels: nat, more: nat)
    requires
        printable(tree, levels),
        levels <= more,
    ensures
        printable(tree, more),
{
    if deeper(tree, more) {
        deeper_than_fewer(tree, levels, more);
    }
}

/// The values of a printable object are printable with one level less.
pub proof fn fields_printable(fields: Seq<(Seq<char>, Tree)>, levels: nat)
    requires
        printable(Tree::Object(fields), levels),
    ensures
        levels > 0,
        ascending(fields),
        forall|i: int|
            0 <= i < fields.len() ==> printable((#[trigger] fields[i]).1, (levels - 1) as nat),
{
    reveal_with_fuel(ordered, 2);
    reveal_with_fuel(deeper, 2);
}

/// Whether arrays and objects are nested more than `levels` deep in `json`.
pub fn is_deeper(json: &Json, levels: usize) -> (r: bool)
    ensures
        r == deeper(json@, levels as nat),
    decreases levels,
{
    match json {
        Json::Array(items) => {
            proof {
                array_view(*items);
            }
            if levels == 0 {
                return true;
            }
            let mut i: usize = 0;
            while i < items.len()
                invariant
                    i <= items@.len(),
                    levels > 0,
                    json@ == Tree::Array(items_of(items@)),
                    forall|k: int|
                        0 <= k < i ==> !deeper(#[trigger] items_of(items@)[k], (levels - 1) as nat),
                decreases items@.len() - i,
            {
                assert(items_of(items@)[i as int] == items@[i as int]@);
                if is_deeper(&items[i], levels - 1) {
                    proof {
                        deeper_inside(json@, items_of(items@)[i as int], levels as nat);
                    }
                    return true;
                }
                i = i + 1;
            }
            false
        },
        Json::Object(fields) => {
            proof {
                object_view(*fields);
            }
            if levels == 0 {
                return true;
            }
            let mut i: usize = 0;
            while i < fields.len()
                invariant
                    i <= fields@.len(),
                    levels > 0,
                    json@ == Tree::Object(fields_of(fields@)),
                    forall|k: int|
                        0 <= k < i ==> !deeper(
                            (#[trigger] fields_of(fields@)[k]).1,
                            (levels - 1) as nat,
                        ),
                decreases fields@.len() - i,
            {
                assert(fields_of(fields@)[i as int].1 == fields@[i as int].1@);
                if is_deeper(&fields[i].1, levels - 1) {
                    proof {
                        deeper_inside(json@, fields_of(fields@)[i as int].1, levels as nat);
                    }
                    return true;
                }
                i = i + 1;
            }
            false
        },
        _ => false,
    }
}

/// The bytes of a text of ASCII characters.
pub open spec fn ascii(text: Seq<char>) -> Seq<u8> {
    text.map_values(|c: char| c as u8)
}

/// How `serde_json` writes a number that is no unsigned integer.
pub uninterp spec fn number_text(number: Tree) -> Seq<u8>;

/// The hexadecimal digit for `n`, in lower case.
pub open spec fn hex_byte(n: int) -> u8 {
    if n < 10 {
        (0x30 + n) as u8
    } else {
        (0x61 + n - 10) as u8
    }
}

/// How a character of a string is written: the quote, the backslash and the control characters
/// with an escape, any other in UTF-8.
pub open spec fn char_text(c: char) -> Seq<u8> {
    if c == '"' || c == '\\' {
        seq![0x5cu8, c as u8]
    } else if c == '\u{8}' {
        seq![0x5cu8, 0x62u8]
    } else if c == '\t' {
        seq![0x5cu8, 0x74u8]
    } else if c == '\n' {
        seq![0x5cu8, 0x6eu8]
    } else if c == '\u{c}' {
        seq![0x5cu8, 0x66u8]
    } else if c == '\r' {
        seq![0x5cu8, 0x72u8]
    } else if 32 > c as int {
        seq![0x5cu8, 0x75u8, 0x30u8, 0x30u8, hex_byte(c as int / 16), hex_byte(c as int % 16)]
    } else {
        encode_utf8(seq![c])
    }
}

/// How the characters of a string are written, one after the other.
pub open spec fn chars_text(s: Seq<char>) -> Seq<u8>
    decreases s.len(),
{
    if s.len() == 0 {
        Seq::empty()
    } else {
        chars_text(s.drop_last()) + char_text(s.last())
    }
}

/// How a string is written: its characters in quotes.
#[verifier::opaque]
pub open spec fn string_text(s: Seq<char>) -> Seq<u8> {
    seq![0x22u8] + chars_text(s) + seq![0x22u8]
}

/// The items from `i` on, each after the first behind a comma.
pub open spec fn items_text(items: Seq<Tree>, i: int) -> Seq<u8>
    decreases items, items.len() - i,
{
    if 0 <= i < items.len() {
        (if i == 0 {
            Seq::<u8>::empty()
        } else {
            seq![0x2cu8]
        }) + json_text(items[i]) + items_text(items, i + 1)
    } else {
        Seq::empty()
    }
}

/// The fields from `i` on, each after the first behind a comma.
pub open spec fn fields_text(fields: Seq<(Seq<char>, Tree)>, i: int) -> Seq<u8>
    decreases fields, fields.len() - i,
{
    if 0 <= i < fields.len() {
        (if i == 0 {
            Seq::<u8>::empty()
        } else {
            seq![0x2cu8]
        }) + string_text(fields[i].0) + seq![0x3au8] + json_text(fields[i].1) + fields_text(
            fields,
            i + 1,
        )
    } else {
        Seq::empty()
    }
}

/// The compact JSON text of `tree`: no white space, fields in the order they stand in.
pub open spec fn json_text(tree: Tree) -> Seq<u8>
    decreases tree, 0int,
{
    match tree {
        Tree::Null => ascii("null"@),
        Tree::Bool(b) => if b {
            ascii("true"@)
        } else {
            ascii("false"@)
        },
        Tree::Uint(n) => ascii(digits(n as nat)),
        Tree::Number(_) => number_text(tree),
        Tree::Text(s) => string_text(s),
        Tree::Array(items) => seq![0x5bu8] + items_text(items, 0) + seq![0x5du8],
        Tree::Object(fields) => seq![0x7bu8] + fields_text(fields, 0) + seq![0x7du8],
    }
}

/// What reading one JSON value off the front of some bytes comes to.
#[derive(Debug)]
pub enum Reading<T> {
    /// The value, and the number of bytes up to its end.
    Done(T, usize),
    /// The bytes end before the value does.
    CutOff,
    /// The bytes do not start with such a value.
    Bad,
}

/// Whether `rest` is what may follow a value inside an array or an object, or at the end.
pub open spec fn delimits(rest: Seq<u8>) -> bool {
    rest.len() == 0 || rest[0] == 0x2c || rest[0] == 0x5d || rest[0] == 0x7d
}

/// What `serde_json` reads off the front of `input` as a string.
pub uninterp spec fn string_read(input: Seq<u8>) -> Reading<Seq<char>>;

/// What `serde_json` reads off the front of `input` as a value of any kind.
pub uninterp spec fn value_read(input: Seq<u8>) -> Reading<Tree>;

/// What `serde_json` skips off the front of `input` as a value of any kind.
pub uninterp spec fn value_skipped(input: Seq<u8>) -> Reading<()>;

/// What `serde_json` reads off the front of `input` as an unsigned integer or `null`.
pub uninterp spec fn count_read(input: Seq<u8>) -> Reading<Option<u64>>;

/// What `serde_json` reads `input` as when it is one value and nothing else.
pub uninterp spec fn document_read(input: Seq<u8>) -> Option<Tree>;

/// Whether `text`, as part of a larger text, is read as the value `tree` that it was written for.
pub open spec fn reads_back(text: Seq<u8>, tree: Tree) -> bool {
    &&& text.len() > 0
    &&& forall|rest: Seq<u8>|
        #![trigger text + rest]
        (text + rest).len() <= usize::MAX && delimits(rest) ==> value_skipped(text + rest)
            == Reading::Done((), text.len() as usize)
    &&& tree matches Tree::Text(s) ==> text[0] == 0x22 && forall|rest: Seq<u8>|
        #![trigger text + rest]
        (text + rest).len() <= usize::MAX ==> string_read(text + rest) == Reading::Done(
            s,
            text.len() as usize,
        ) && value_read(text + rest) == Reading::Done(tree, text.len() as usize)
}

/// Whether `text` is the text of `tree`, and it and the parts of an object in it read back.
pub open spec fn written(text: Seq<u8>, tree: Tree) -> bool {
    &&& text == json_text(tree)
    &&& reads_back(text, tree)
    &&& tree matches Tree::Object(fields) ==> forall|i: int|
        #![trigger fields[i]]
        0 <= i < fields.len() ==> reads_back(string_text(fields[i].0), Tree::Text(fields[i].0))
            && reads_back(json_text(fields[i].1), fields[i].1)
}

/// Whether the object `again` has the names of the object `tree`, and its values where they are
/// strings.
pub open spec fn same_strings(tree: Tree, again: Tree) -> bool {
    tree matches Tree::Object(fields) ==> {
        &&& again matches Tree::Object(others)
        &&& others.len() == fields.len()
        &&& forall|i: int|
            #![trigger others[i]]
            0 <= i < fields.len() ==> others[i].0 == fields[i].0 && (fields[i].1 is Text
                ==> others[i].1 == fields[i].1)
    }
}

/// A `serde_json::Value` as a [`Json`] value, kind by kind.
#[verifier::external_body]
fn json_of(value: serde_json::Value) -> Json {
    match value {
        serde_json::Value::Null => Json::Null,
        serde_json::Value::Bool(b) => Json::Bool(b),
        serde_json::Value::Number(n) => match n.as_u64() {
            Some(n) => Json::Uint(n),
            None => Json::Number(n),
        },
        serde_json::Value::String(s) => Json::Text(s),
        serde_json::Value::Array(items) => Json::Array(items.into_iter().map(json_of).collect()),
        serde_json::Value::Object(fields) => Json::Object(
            fields.into_iter().map(|(name, value)| (name, json_of(value))).collect()),
    }
}

/// A [`Json`] value as a `serde_json::Value`, kind by kind.
#[verifier::external_body]
fn value_of(json: &Json) -> serde_json::Value {
    match json {
        Json::Null => serde_json::Value::Null,
        Json::Bool(b) => serde_json::Value::Bool(*b),
        Json::Uint(n) => serde_json::Value::from(*n),
        Json::Number(n) => serde_json::Value::Number(n.clone()),
        Json::Text(s) => serde_json::Value::String(s.clone()),
        Json::Array(items) => serde_json::Value::Array(items.iter().map(value_of).collect()),
        Json::Object(fields) => serde_json::Value::Object(
            fields.iter().map(|(name, value)| (name.clone(), value_of(value))).collect()),
    }
}

/// `serde_json::to_vec` of a value. It writes compact text, with the escapes of [`char_text`] in
/// strings and other numbers than unsigned integers as [`number_text`] names them, and keeps the
/// order of fields that are in ascending order. What it writes for a value, `serde_json` skips as one value, whatever
/// stands around it in an array or an object; what it writes for a string it reads as that
/// string. When it reads the text of an object as a document, that is an object with the same
/// names, and with the same values where they are strings. That other values are read as they
/// were, or that a document is read at all, is not said: a number with a fraction need not be.
#[verifier::external_body]
pub(crate) fn print(document: &Json) -> (text: Vec<u8>)
    requires
        printable(document@, MAX_LEVELS as nat),
    ensures
        written(text@, document@),
        document_read(text@) matches Some(again) ==> same_strings(document@, again),
        document@ is Number ==> text@ == number_text(document@),
{
    serde_json::to_vec(&value_of(document)).unwrap_or_default()
}

/// `serde_json::from_slice` into a value of any kind. The fields of an object come in ascending
/// order of their names, each name once. A document that is nested too deep is not read.
#[verifier::external_body]
pub(crate) fn parse(body: &[u8]) -> (r: Option<Json>)
    ensures
        match r {
            Some(json) => document_read(body@) == Some(json@) && printable(
                json@,
                MAX_LEVELS as nat,
            ),
            None => document_read(body@) is None,
        },
{
    serde_json::from_slice::<serde_json::Value>(body).ok().map(json_of)
}

/// `serde_json`'s stream deserializer, asked for one string. It never reports more bytes than
/// there are, nor none.
#[verifier::external_body]
pub(crate) fn read_string(input: &[u8]) -> (r: Reading<String>)
    ensures
        match r {
            Reading::Done(s, used) => string_read(input@) == Reading::Done(s@, used) && 0 < used
                <= input@.len(),
            Reading::CutOff => string_read(input@) == Reading::<Seq<char>>::CutOff,
            Reading::Bad => string_read(input@) == Reading::<Seq<char>>::Bad,
        },
{
    let mut stream = serde_json::Deserializer::from_slice(input).into_iter::<String>();
    match stream.next() {
        Some(Ok(text)) => Reading::Done(text, stream.byte_offset()),
        Some(Err(error)) => if error.is_eof() { Reading::CutOff } else { Reading::Bad },
        None => Reading::CutOff,
    }
}

/// `serde_json`'s stream deserializer, asked for one value of any kind. It never reports more
/// bytes than there are, nor none.
#[verifier::external_body]
pub(crate) fn read_value(input: &[u8]) -> (r: Reading<Json>)
    ensures
        match r {
            Reading::Done(json, used) => value_read(input@) == Reading::Done(json@, used) && 0 < used
                <= input@.len(),
            Reading::CutOff => value_read(input@) == Reading::<Tree>::CutOff,
            Reading::Bad => value_read(input@) == Reading::<Tree>::Bad,
        },
{
    let mut stream = serde_json::Deserializer::from_slice(input).into_iter::<serde_json::Value>();
    match stream.next() {
        Some(Ok(value)) => Reading::Done(json_of(value), stream.byte_offset()),
        Some(Err(error)) => if error.is_eof() { Reading::CutOff } else { Reading::Bad },
        None => Reading::CutOff,
    }
}

/// `serde_json`'s stream deserializer, asked for one `serde::de::IgnoredAny`: a value of any
/// kind that is checked but not kept. It never reports more bytes than there are, nor none.
#[verifier::external_body]
pub(crate) fn skip_value(input: &[u8]) -> (r: Reading<()>)
    ensures
        r == value_skipped(input@),
        r matches Reading::Done(_, used) ==> 0 < used <= input@.len(),
{
    let mut stream = serde_json::Deserializer::from_slice(input)
        .into_iter::<serde::de::IgnoredAny>();
    match stream.next() {
        Some(Ok(_)) => Reading::Done((), stream.byte_offset()),
        Some(Err(error)) => if error.is_eof() { Reading::CutOff } else { Reading::Bad },
        None => Reading::CutOff,
    }
}

/// `serde_json`'s stream deserializer, asked for one `Option<u64>`: an unsigned integer, or
/// `null` for none. It never reports more bytes than there are, nor none.
#[verifier::external_body]
pub(crate) fn read_count(input: &[u8]) -> (r: Reading<Option<u64>>)
    ensures
        r == count_read(input@),
        r matches Reading::Done(_, used) ==> 0 < used <= input@.len(),
{
    let mut stream = serde_json::Deserializer::from_slice(input).into_iter::<Option<u64>>();
    match stream.next() {
        Some(Ok(count)) => Reading::Done(count, stream.byte_offset()),
        Some(Err(error)) => if error.is_eof() { Reading::CutOff } else { Reading::Bad },
        None => Reading::CutOff,
    }
}

/// Nesting is counted from the outside: a value that is no array and no object is not nested at all,
/// and an array or an object is one level deeper than what it holds.
pub proof fn nesting_is_counted_in_levels(tree: Tree, levels: nat)
    ensures
        !(tree is Array) && !(tree is Object) ==> !deeper(tree, levels),
        tree is Array || tree is Object ==> deeper(tree, 0),
        tree matches Tree::Array(items) ==> (deeper(tree, levels + 1) <==> exists|i: int|
            0 <= i < items.len() && deeper(#[trigger] items[i], levels)),
        tree matches Tree::Object(fields) ==> (deeper(tree, levels + 1) <==> exists|i: int|
            0 <= i < fields.len() && deeper((#[trigger] fields[i]).1, levels)),
{
}

} // verus!
