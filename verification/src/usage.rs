//! Reading the thinking effort and the token usage out of an OpenAI compatible body.

use vstd::prelude::*;
use vstd::slice::*;
use vstd::string::*;

use crate::fields::{
    after, all_blank, array_end, behind_colon, blank, blanks, colon_comes_before_the_value,
    colon_read, field_skipped, followed_by, gather, gathered, item_ahead, look_for_item,
    object_of_one_field, object_read, read_array_end, read_colon, read_object, read_whole_object,
    skip_blanks, skip_field_value, whole_object_ends, whole_object_read, FieldSink,
};
use crate::json::{
    count_read, fields_of, object_view, read_count, skip_value, string_read, value_skipped, Json,
    Reading, Tree,
};
use crate::observe::TokenUsage;
use crate::proxy::joined;
use crate::text::{
    name_set, same_bytes, same_text, text_view, trim as trim_text, trimmed,
    trimming_leaves_nothing_of_white_space, trimming_leaves_the_middle, white_space,
};

verus! {

/// The value of the first field called `name`.
pub open spec fn field_named(fields: Seq<(Seq<char>, Tree)>, name: Seq<char>) -> Option<Tree>
    decreases fields.len(),
{
    if fields.len() == 0 {
        None
    } else if fields[0].0 == name {
        Some(fields[0].1)
    } else {
        field_named(fields.skip(1), name)
    }
}

/// `text` without surrounding white space, unless nothing is left.
pub open spec fn some_text(text: Seq<char>) -> Option<Seq<char>> {
    if trimmed(text).len() == 0 {
        None
    } else {
        Some(trimmed(text))
    }
}

/// The thinking effort that a value expresses: a text, or an object whose `type`, or else
/// `effort`, is one.
pub open spec fn effort_value(value: Tree) -> Option<Seq<char>> {
    match value {
        Tree::Text(text) => some_text(text),
        Tree::Object(fields) => match (if field_named(fields, "type"@) is Some {
            field_named(fields, "type"@)
        } else {
            field_named(fields, "effort"@)
        }) {
            Some(Tree::Text(text)) => some_text(text),
            _ => None,
        },
        _ => None,
    }
}

/// The first thinking effort among the fields called `name`.
pub open spec fn effort_named(found: Seq<(Seq<char>, Tree)>, name: Seq<char>) -> Option<Seq<char>>
    decreases found.len(),
{
    if found.len() == 0 {
        None
    } else if found[0].0 == name && effort_value(found[0].1) is Some {
        effort_value(found[0].1)
    } else {
        effort_named(found.skip(1), name)
    }
}

/// The names that carry a thinking effort.
pub open spec fn effort_names() -> Set<Seq<char>> {
    set!["reasoning_effort"@, "thinking"@, "reasoning"@, "thinking_effort"@]
}

/// The thinking effort of the most authoritative name that has one, wherever its field stands.
pub open spec fn effort_among(found: Seq<(Seq<char>, Tree)>) -> Option<Seq<char>> {
    if effort_named(found, "reasoning_effort"@) is Some {
        effort_named(found, "reasoning_effort"@)
    } else if effort_named(found, "thinking"@) is Some {
        effort_named(found, "thinking"@)
    } else if effort_named(found, "reasoning"@) is Some {
        effort_named(found, "reasoning"@)
    } else {
        effort_named(found, "thinking_effort"@)
    }
}

/// The thinking effort that a request body asks for.
pub open spec fn effort_in(body: Seq<u8>) -> Option<Seq<char>> {
    match gathered(body, effort_names()) {
        Some(found) => effort_among(found),
        None => None,
    }
}

/// Trims `text`, giving up on one that has nothing else.
pub fn non_empty(text: &str) -> (r: Option<String>)
    ensures
        text_view(r) == some_text(text@),
{
    let trimmed = trim_text(text);
    if trimmed.is_empty() {
        None
    } else {
        Some(trimmed.to_string())
    }
}

/// Looks up the first field called `name`.
fn find_field<'a>(fields: &'a Vec<(String, Json)>, name: &str) -> (r: Option<&'a Json>)
    ensures
        match r {
            Some(json) => field_named(fields_of(fields@), name@) == Some(json@),
            None => field_named(fields_of(fields@), name@) is None,
        },
{
    let ghost trees = fields_of(fields@);
    let mut i: usize = 0;
    assert(trees.skip(0) == trees);
    while i < fields.len()
        invariant
            i <= fields@.len(),
            trees == fields_of(fields@),
            field_named(trees, name@) == field_named(trees.skip(i as int), name@),
        decreases fields@.len() - i,
    {
        assert(trees.skip(i as int)[0] == trees[i as int]);
        if same_text(fields[i].0.as_str(), name) {
            return Some(&fields[i].1);
        }
        assert(trees.skip(i as int).skip(1) == trees.skip(i + 1));
        i = i + 1;
    }
    None
}

/// The thinking effort that `value` expresses.
fn effort_of(value: &Json) -> (r: Option<String>)
    ensures
        text_view(r) == effort_value(value@),
{
    match value {
        Json::Text(text) => non_empty(text.as_str()),
        Json::Object(fields) => {
            proof {
                object_view(*fields);
            }
            let chosen = match find_field(fields, "type") {
                Some(value) => Some(value),
                None => find_field(fields, "effort"),
            };
            match chosen {
                Some(Json::Text(text)) => non_empty(text.as_str()),
                _ => None,
            }
        },
        _ => None,
    }
}

/// The first thinking effort among the fields called `name`.
fn find_effort(found: &Vec<(String, Json)>, name: &str) -> (r: Option<String>)
    ensures
        text_view(r) == effort_named(fields_of(found@), name@),
{
    let ghost trees = fields_of(found@);
    let mut i: usize = 0;
    assert(trees.skip(0) == trees);
    while i < found.len()
        invariant
            i <= found@.len(),
            trees == fields_of(found@),
            effort_named(trees, name@) == effort_named(trees.skip(i as int), name@),
        decreases found@.len() - i,
    {
        assert(trees.skip(i as int)[0] == trees[i as int]);
        if same_text(found[i].0.as_str(), name) {
            let effort = effort_of(&found[i].1);
            if effort.is_some() {
                return effort;
            }
        }
        assert(trees.skip(i as int).skip(1) == trees.skip(i + 1));
        i = i + 1;
    }
    None
}

/// Read the thinking effort from a request body.
///
/// Returns `None` for an empty or non-object body and for any value that is not a string: the
/// gateway never guesses, so an exotic shape simply leaves the log field as `-`.
pub fn extract_effort(body: &[u8]) -> (r: Option<String>)
    ensures
        text_view(r) == effort_in(body@),
{
    let mut wanted: Vec<String> = Vec::new();
    wanted.push("reasoning_effort".to_string());
    wanted.push("thinking".to_string());
    wanted.push("reasoning".to_string());
    wanted.push("thinking_effort".to_string());
    assert(name_set(wanted@) == effort_names()) by {
        assert(wanted@[0]@ == "reasoning_effort"@);
        assert(wanted@[1]@ == "thinking"@);
        assert(wanted@[2]@ == "reasoning"@);
        assert(wanted@[3]@ == "thinking_effort"@);
    }
    match gather(body, wanted) {
        Some(found) => {
            let effort = find_effort(&found, "reasoning_effort");
            if effort.is_some() {
                return effort;
            }
            let effort = find_effort(&found, "thinking");
            if effort.is_some() {
                return effort;
            }
            let effort = find_effort(&found, "reasoning");
            if effort.is_some() {
                return effort;
            }
            find_effort(&found, "thinking_effort")
        },
        None => None,
    }
}

/// Pick the more authoritative of two efforts: the one that was there first.
pub fn merge_effort(current: &mut Option<String>, seen: Option<String>)
    ensures
        *final(current) == (if *old(current) is Some {
            *old(current)
        } else {
            seen
        }),
{
    if current.is_none() {
        *current = seen;
    }
}

/// The token budget and the choice count of a request body.
#[derive(Debug, Clone, Copy, PartialEq, Eq)]
pub struct RequestUsage {
    /// `max_tokens` / `max_completion_tokens` as configured by the caller, if any.
    pub max_tokens: Option<u64>,
    /// `n`, the number of completions requested.
    pub choices: Option<u64>,
}

impl Default for RequestUsage {
    fn default() -> (r: RequestUsage)
        ensures
            r == (RequestUsage { max_tokens: None, choices: None }),
    {
        RequestUsage { max_tokens: None, choices: None }
    }
}

/// The unsigned integer that a value is.
pub open spec fn count_value(value: Tree) -> Option<u64> {
    match value {
        Tree::Uint(n) => Some(n),
        _ => None,
    }
}

/// The first unsigned integer among the fields that are not called `n`.
pub open spec fn budget_among(found: Seq<(Seq<char>, Tree)>) -> Option<u64>
    decreases found.len(),
{
    if found.len() == 0 {
        None
    } else if budget_among(found.drop_last()) is Some {
        budget_among(found.drop_last())
    } else if found.last().0 != "n"@ {
        count_value(found.last().1)
    } else {
        None
    }
}

/// What the last field called `n` counts.
pub open spec fn choices_among(found: Seq<(Seq<char>, Tree)>) -> Option<u64>
    decreases found.len(),
{
    if found.len() == 0 {
        None
    } else if found.last().0 == "n"@ {
        count_value(found.last().1)
    } else {
        choices_among(found.drop_last())
    }
}

/// The names that carry token counters in a request.
pub open spec fn request_usage_names() -> Set<Seq<char>> {
    set!["max_tokens"@, "max_completion_tokens"@, "max_output_tokens"@, "n"@]
}

/// What a request body says about tokens.
pub open spec fn request_usage_in(body: Seq<u8>) -> RequestUsage {
    match gathered(body, request_usage_names()) {
        Some(found) => RequestUsage {
            max_tokens: budget_among(found),
            choices: choices_among(found),
        },
        None => RequestUsage { max_tokens: None, choices: None },
    }
}

/// Read the token budget and the choice count of a request body.
///
/// This is what a request can contribute to the token side of the log: the prompt length is
/// only known to the upstream, and the completion counters arrive with the response.
pub fn extract_request_usage(body: &[u8]) -> (r: RequestUsage)
    ensures
        r == request_usage_in(body@),
{
    let mut wanted: Vec<String> = Vec::new();
    wanted.push("max_tokens".to_string());
    wanted.push("max_completion_tokens".to_string());
    wanted.push("max_output_tokens".to_string());
    wanted.push("n".to_string());
    assert(name_set(wanted@) == request_usage_names()) by {
        assert(wanted@[0]@ == "max_tokens"@);
        assert(wanted@[1]@ == "max_completion_tokens"@);
        assert(wanted@[2]@ == "max_output_tokens"@);
        assert(wanted@[3]@ == "n"@);
    }
    let mut usage = RequestUsage { max_tokens: None, choices: None };
    match gather(body, wanted) {
        Some(found) => {
            let ghost trees = fields_of(found@);
            let mut i: usize = 0;
            while i < found.len()
                invariant
                    i <= found@.len(),
                    trees == fields_of(found@),
                    usage.max_tokens == budget_among(trees.take(i as int)),
                    usage.choices == choices_among(trees.take(i as int)),
                decreases found@.len() - i,
            {
                assert(trees.take(i + 1).drop_last() == trees.take(i as int));
                assert(trees.take(i + 1).last() == trees[i as int]);
                let value: Option<u64> = match &found[i].1 {
                    Json::Uint(n) => Some(*n),
                    _ => None,
                };
                if same_text(found[i].0.as_str(), "n") {
                    usage.choices = value;
                } else if usage.max_tokens.is_none() {
                    usage.max_tokens = value;
                }
                i = i + 1;
            }
            assert(trees.take(i as int) == trees);
            usage
        },
        None => usage,
    }
}

/// Longest object the scanner is willing to buffer before giving up. A usage object is a few
/// hundred bytes; anything far larger is not one, and this is the only per-request buffer
/// the logging path adds.
pub const MAX_PENDING: usize = 16 * 1024;

/// Marker that introduces a server-sent event's payload: `data:`.
pub open spec fn sse_data() -> Seq<u8> {
    seq![0x64u8, 0x61u8, 0x74u8, 0x61u8, 0x3au8]
}

/// The first place where `needle` occurs in `haystack`; nowhere when `needle` is empty.
pub open spec fn found_at(haystack: Seq<u8>, needle: Seq<u8>) -> Option<int>
    decreases haystack.len(),
{
    if needle.len() == 0 || needle.len() > haystack.len() {
        None
    } else if haystack.take(needle.len() as int) == needle {
        Some(0int)
    } else {
        match found_at(haystack.skip(1), needle) {
            Some(i) => Some(i + 1),
            None => None,
        }
    }
}

/// Where a search ends: the place found, or the end.
pub open spec fn found_or_end(haystack: Seq<u8>, needle: Seq<u8>) -> int {
    match found_at(haystack, needle) {
        Some(i) => i,
        None => haystack.len() as int,
    }
}

/// What is found lies within the bytes, and the needle stands there.
pub proof fn found_at_bounds(haystack: Seq<u8>, needle: Seq<u8>)
    ensures
        found_at(haystack, needle) matches Some(i) ==> 0 <= i && i + needle.len() <= haystack.len()
            && needle.len() > 0 && haystack.subrange(i, i + needle.len()) == needle,
    decreases haystack.len(),
{
    if needle.len() == 0 || needle.len() > haystack.len() {
    } else if haystack.take(needle.len() as int) == needle {
        assert(haystack.subrange(0, needle.len() as int) == needle);
    } else {
        found_at_bounds(haystack.skip(1), needle);
        if let Some(i) = found_at(haystack.skip(1), needle) {
            assert(haystack.subrange(i + 1, i + 1 + needle.len()) == haystack.skip(1).subrange(
                i,
                i + needle.len(),
            ));
        }
    }
}

/// Finds the first occurrence of `needle` in `haystack`.
pub fn find(haystack: &[u8], needle: &[u8]) -> (r: Option<usize>)
    ensures
        match r {
            Some(i) => found_at(haystack@, needle@) == Some(i as int) && i + needle@.len()
                <= haystack@.len(),
            None => found_at(haystack@, needle@) is None,
        },
{
    if needle.len() == 0 || needle.len() > haystack.len() {
        return None;
    }
    let size = needle.len();
    let last = haystack.len() - size;
    let mut i: usize = 0;
    assert(haystack@.skip(0) == haystack@);
    while i <= last
        invariant
            0 < size == needle@.len() <= haystack@.len() <= usize::MAX,
            last == haystack@.len() - needle@.len(),
            i <= last + 1,
            match found_at(haystack@.skip(i as int), needle@) {
                Some(k) => found_at(haystack@, needle@) == Some(i + k),
                None => found_at(haystack@, needle@) is None,
            },
        decreases last + 1 - i,
    {
        let rest = slice_subrange(haystack, i, i + size);
        assert(rest@ == haystack@.skip(i as int).take(needle@.len() as int));
        if same_bytes(rest, needle) {
            return Some(i);
        }
        assert(haystack@.skip(i as int).skip(1) == haystack@.skip(i + 1));
        i = i + 1;
    }
    None
}

/// ASCII white space.
pub open spec fn ascii_space(b: u8) -> bool {
    b == 0x20 || b == 0x09 || b == 0x0a || b == 0x0c || b == 0x0d
}

/// `data` without the ASCII white space in front.
pub open spec fn bytes_trimmed_start(data: Seq<u8>) -> Seq<u8>
    decreases data.len(),
{
    if data.len() > 0 && ascii_space(data[0]) {
        bytes_trimmed_start(data.skip(1))
    } else {
        data
    }
}

/// `data` without the ASCII white space at the end.
pub open spec fn bytes_trimmed_end(data: Seq<u8>) -> Seq<u8>
    decreases data.len(),
{
    if data.len() > 0 && ascii_space(data.last()) {
        bytes_trimmed_end(data.drop_last())
    } else {
        data
    }
}

/// `data` without the ASCII white space on either side.
pub open spec fn bytes_trimmed(data: Seq<u8>) -> Seq<u8> {
    bytes_trimmed_end(bytes_trimmed_start(data))
}

/// Whether `part` is what stands from `i` to `j` in `whole`.
pub open spec fn is_part(part: Seq<u8>, whole: Seq<u8>, i: int, j: int) -> bool {
    0 <= i <= j <= whole.len() && part == whole.subrange(i, j)
}

/// Whether `part` is a contiguous part of `whole`.
pub open spec fn part_of(part: Seq<u8>, whole: Seq<u8>) -> bool {
    exists|i: int, j: int| #[trigger] is_part(part, whole, i, j)
}

/// A part of what stands from `i` to `j` in `whole` is a part of `whole`.
proof fn part_of_part(part: Seq<u8>, whole: Seq<u8>, i: int, j: int)
    requires
        0 <= i <= j <= whole.len(),
        part_of(part, whole.subrange(i, j)),
    ensures
        part_of(part, whole),
{
    let (a, b) = choose|a: int, b: int| #[trigger] is_part(part, whole.subrange(i, j), a, b);
    assert(whole.subrange(i, j).subrange(a, b) == whole.subrange(i + a, i + b));
    assert(is_part(part, whole, i + a, i + b));
}

fn is_ascii_space(b: u8) -> (r: bool)
    ensures
        r == ascii_space(b),
{
    b == 0x20 || b == 0x09 || b == 0x0a || b == 0x0c || b == 0x0d
}

/// ASCII white space and carriage returns, which server-sent events allow before the payload.
pub fn trim<'a>(data: &'a [u8]) -> (r: &'a [u8])
    ensures
        r@ == bytes_trimmed(data@),
        part_of(r@, data@),
{
    let mut from: usize = 0;
    assert(data@.skip(0) == data@);
    while from < data.len() && is_ascii_space(data[from])
        invariant
            from <= data@.len(),
            bytes_trimmed_start(data@.skip(from as int)) == bytes_trimmed_start(data@),
        decreases data@.len() - from,
    {
        assert(data@.skip(from as int).skip(1) == data@.skip(from + 1));
        from = from + 1;
    }
    let ghost started = data@.skip(from as int);
    let mut to: usize = data.len();
    assert(started == data@.subrange(from as int, to as int));
    while from < to && is_ascii_space(data[to - 1])
        invariant
            from <= to <= data@.len(),
            bytes_trimmed_end(data@.subrange(from as int, to as int)) == bytes_trimmed_end(started),
        decreases to,
    {
        assert(data@.subrange(from as int, to as int).drop_last() == data@.subrange(
            from as int,
            to - 1,
        ));
        to = to - 1;
    }
    assert(is_part(data@.subrange(from as int, to as int), data@, from as int, to as int));
    slice_subrange(data, from, to)
}

/// What follows the marker that `frame` starts with: one space less, if there is one.
pub open spec fn payload(frame: Seq<u8>) -> Seq<u8> {
    let rest = frame.skip(5);
    if rest.len() > 0 && rest[0] == 0x20 {
        rest.skip(1)
    } else {
        rest
    }
}

/// The byte sequences of a frame that could extend or start an object. While an object is open,
/// the bytes before the first marker continue it. Every marker introduces a payload up to the
/// end of its line. A frame without markers is offered as a whole.
#[verifier::opaque]
pub open spec fn candidates(frame: Seq<u8>, open: bool) -> Seq<Seq<u8>>
    decreases
            frame.len(),
            if open {
                1int
            } else {
                0int
            },
{
    if frame.len() == 0 {
        Seq::empty()
    } else if open {
        proof {
            found_at_bounds(frame, sse_data());
        }
        let start = found_or_end(frame, sse_data());
        if start > 0 {
            seq![frame.take(start)] + candidates(frame.skip(start), false)
        } else {
            candidates(frame, false)
        }
    } else {
        match found_at(frame, sse_data()) {
            Some(start) => {
                proof {
                    found_at_bounds(frame, sse_data());
                    found_at_bounds(payload(frame.skip(start)), seq![0x0au8]);
                }
                let line = payload(frame.skip(start));
                let end = found_or_end(line, seq![0x0au8]);
                seq![bytes_trimmed(line.take(end))] + candidates(line.skip(end), false)
            },
            None => seq![bytes_trimmed(frame)],
        }
    }
}

/// Yields the byte sequences of one frame that could extend or start an object.
pub struct Candidates<'a> {
    pub rest: &'a [u8],
    /// Whether the leading part of the frame continues an object that is still open.
    pub open: bool,
}

impl<'a> Candidates<'a> {
    pub fn new(frame: &'a [u8], open: bool) -> (r: Self)
        ensures
            r.rest@ == frame@,
            r.open == open,
    {
        Candidates { rest: frame, open }
    }

    /// Consume `length` bytes off the front and return them.
    fn take(&mut self, length: usize) -> (head: &'a [u8])
        requires
            length <= old(self).rest@.len(),
        ensures
            head@ == old(self).rest@.take(length as int),
            final(self).rest@ == old(self).rest@.skip(length as int),
            final(self).open == old(self).open,
    {
        let rest = self.rest;
        let head = slice_subrange(rest, 0, length);
        self.rest = slice_subrange(rest, length, rest.len());
        assert(head@ == rest@.take(length as int));
        assert(self.rest@ == rest@.skip(length as int));
        head
    }

    /// The next candidate: a contiguous part of the bytes that are consumed, which come off the
    /// front of the rest. There is one as long as there are bytes left.
    pub fn next(&mut self) -> (r: Option<&'a [u8]>)
        ensures
            final(self).rest@.len() <= old(self).rest@.len(),
            final(self).rest@ == old(self).rest@.skip(
                old(self).rest@.len() - final(self).rest@.len(),
            ),
            match r {
                Some(candidate) => {
                    &&& candidates(old(self).rest@, old(self).open) == seq![candidate@]
                        + candidates(final(self).rest@, final(self).open)
                    &&& final(self).rest@.len() < old(self).rest@.len()
                    &&& part_of(
                        candidate@,
                        old(self).rest@.take(old(self).rest@.len() - final(self).rest@.len()),
                    )
                },
                None => {
                    &&& old(self).rest@.len() == 0
                    &&& candidates(old(self).rest@, old(self).open).len() == 0
                    &&& *final(self) == *old(self)
                },
            },
    {
        let marker: [u8; 5] = [0x64, 0x61, 0x74, 0x61, 0x3a];
        assert(marker@ == sse_data());
        let ghost frame = self.rest@;
        proof {
            found_at_bounds(frame, sse_data());
            assert(frame.skip(0) == frame);
        }
        if self.rest.len() == 0 {
            proof {
                reveal(candidates);
            }
            return None;
        }
        if self.open {
            let start = match find(self.rest, marker.as_slice()) {
                Some(start) => start,
                None => self.rest.len(),
            };
            self.open = false;
            proof {
                open_candidates(frame);
            }
            if start > 0 {
                let head = self.take(start);
                assert(head@ == frame.take(start as int).subrange(0, start as int));
                assert(is_part(head@, frame.take(start as int), 0, start as int));
                return Some(head);
            }
        }
        Some(self.next_payload())
    }

    /// Consume what precedes the payload behind the marker at `start`.
    fn skip_marker(&mut self, start: usize)
        requires
            start + 5 <= old(self).rest@.len(),
        ensures
            final(self).rest@ == payload(old(self).rest@.skip(start as int)),
            final(self).rest@.len() < old(self).rest@.len(),
            final(self).rest@ == old(self).rest@.skip(
                old(self).rest@.len() - final(self).rest@.len(),
            ),
            final(self).open == old(self).open,
    {
        let ghost frame = self.rest@;
        let length = self.rest.len();
        // The marker itself is not part of the payload, nor is the single space that
        // conventionally follows it.
        let _ = self.take(start + 5);
        assert(self.rest@ == frame.skip(start as int).skip(5));
        if self.rest.len() > 0 && self.rest[0] == 0x20 {
            let _ = self.take(1);
        }
        assert(self.rest@ == frame.skip(frame.len() - self.rest@.len()));
    }

    /// The next candidate where no object is open.
    fn next_payload(&mut self) -> (candidate: &'a [u8])
        requires
            old(self).rest@.len() > 0,
            !old(self).open,
        ensures
            candidates(old(self).rest@, false) == seq![candidate@] + candidates(
                final(self).rest@,
                false,
            ),
            !final(self).open,
            final(self).rest@.len() < old(self).rest@.len(),
            final(self).rest@ == old(self).rest@.skip(
                old(self).rest@.len() - final(self).rest@.len(),
            ),
            part_of(
                candidate@,
                old(self).rest@.take(old(self).rest@.len() - final(self).rest@.len()),
            ),
            found_at(old(self).rest@, sse_data()) is Some ==> payloads(old(self).rest@) == seq![
                candidate@,
            ] + payloads(final(self).rest@),
    {
        let marker: [u8; 5] = [0x64, 0x61, 0x74, 0x61, 0x3a];
        let newline: [u8; 1] = [0x0a];
        assert(marker@ == sse_data());
        assert(newline@ == seq![0x0au8]);
        let ghost frame = self.rest@;
        proof {
            payload_candidates(frame);
            first_payload(frame);
            found_at_bounds(frame, sse_data());
        }
        let length = self.rest.len();
        match find(self.rest, marker.as_slice()) {
            Some(start) => {
                self.skip_marker(start);
                let ghost line = self.rest@;
                let ghost from = frame.len() - line.len();
                proof {
                    found_at_bounds(line, seq![0x0au8]);
                }
                let end = match find(self.rest, newline.as_slice()) {
                    Some(newline) => newline,
                    None => self.rest.len(),
                };
                let head = self.take(end);
                assert(self.rest@ == frame.skip(from + end));
                assert(head@ == frame.take(from + end).subrange(from, from + end));
                let candidate = trim(head);
                proof {
                    part_of_part(candidate@, frame.take(from + end), from, from + end);
                }
                candidate
            },
            None => {
                let head = self.take(length);
                assert(head@ == frame);
                assert(frame.take(length as int) == frame);
                assert(self.rest@ == frame.skip(length as int));
                trim(head)
            },
        }
    }
}

/// The candidates of a frame while an object is open.
proof fn open_candidates(frame: Seq<u8>)
    requires
        frame.len() > 0,
    ensures
        ({
            let start = found_or_end(frame, sse_data());
            candidates(frame, true) == if start > 0 {
                seq![frame.take(start)] + candidates(frame.skip(start), false)
            } else {
                candidates(frame, false)
            }
        }),
{
    reveal(candidates);
}

/// The candidates of a frame where no object is open: the payload behind the first marker comes
/// first.
proof fn payload_candidates(frame: Seq<u8>)
    requires
        frame.len() > 0,
    ensures
        match found_at(frame, sse_data()) {
            Some(start) => {
                let line = payload(frame.skip(start));
                let end = found_or_end(line, seq![0x0au8]);
                candidates(frame, false) == seq![bytes_trimmed(line.take(end))] + candidates(
                    line.skip(end),
                    false,
                )
            },
            None => candidates(frame, false) == seq![bytes_trimmed(frame)] + candidates(
                frame.skip(frame.len() as int),
                false,
            ),
        },
{
    reveal(candidates);
    if found_at(frame, sse_data()) is None {
        assert(candidates(frame.skip(frame.len() as int), false) == Seq::<Seq<u8>>::empty());
        assert(seq![bytes_trimmed(frame)] + Seq::<Seq<u8>>::empty() == seq![bytes_trimmed(frame)]);
    }
}

/// The payload behind the first marker comes first.
proof fn first_payload(frame: Seq<u8>)
    ensures
        match found_at(frame, sse_data()) {
            Some(start) => {
                let line = payload(frame.skip(start));
                let end = found_or_end(line, seq![0x0au8]);
                payloads(frame) == seq![bytes_trimmed(line.take(end))] + payloads(line.skip(end))
            },
            None => payloads(frame) == Seq::<Seq<u8>>::empty(),
        },
{
    reveal(payloads);
}

/// A frame offers at most as many candidates as it has bytes.
pub proof fn candidates_are_few(frame: Seq<u8>, open: bool)
    ensures
        candidates(frame, open).len() <= frame.len(),
        candidates(frame, open).len() == 0 <==> frame.len() == 0,
    decreases
            frame.len(),
            if open {
                1int
            } else {
                0int
            },
{
    reveal(candidates);
    found_at_bounds(frame, sse_data());
    if frame.len() > 0 {
        if open {
            let start = found_or_end(frame, sse_data());
            if start > 0 {
                candidates_are_few(frame.skip(start), false);
            } else {
                candidates_are_few(frame, false);
            }
        } else if let Some(start) = found_at(frame, sse_data()) {
            let line = payload(frame.skip(start));
            found_at_bounds(line, seq![0x0au8]);
            candidates_are_few(line.skip(found_or_end(line, seq![0x0au8])), false);
        }
    }
}

/// The value of a counter field: an unsigned integer or `null`.
pub open spec fn field_count(rest: Seq<u8>) -> Reading<Option<u64>> {
    followed_by(colon_read(rest), count_read(behind_colon(rest)))
}

fn read_field_count(rest: &[u8]) -> (r: Reading<Option<u64>>)
    ensures
        r == field_count(rest@),
        r matches Reading::Done(_, used) ==> 0 < used <= rest@.len(),
{
    match read_colon(rest) {
        Reading::Done(_, at) => {
            match read_count(slice_subrange(rest, at, rest.len())) {
                Reading::Done(count, used) => Reading::Done(count, at + used),
                Reading::CutOff => Reading::CutOff,
                Reading::Bad => Reading::Bad,
            }
        },
        Reading::CutOff => Reading::CutOff,
        Reading::Bad => Reading::Bad,
    }
}

/// The detail counters of a `usage` object; a counter that was read is `Some`.
#[derive(Clone, Copy)]
pub struct TokenDetails {
    pub cached_tokens: Option<Option<u64>>,
    pub reasoning_tokens: Option<Option<u64>>,
}

impl View for TokenDetails {
    type V = TokenDetails;

    open spec fn view(&self) -> TokenDetails {
        *self
    }
}

/// Reads a counter that must not have come before.
pub open spec fn count_once(before: Option<Option<u64>>, rest: Seq<u8>) -> Reading<Option<u64>> {
    if before is Some {
        Reading::Bad
    } else {
        field_count(rest)
    }
}

fn read_count_once(before: Option<Option<u64>>, rest: &[u8]) -> (r: Reading<Option<u64>>)
    ensures
        r == count_once(before, rest@),
        r matches Reading::Done(_, used) ==> 0 < used <= rest@.len(),
{
    if before.is_some() {
        Reading::Bad
    } else {
        read_field_count(rest)
    }
}

impl FieldSink for TokenDetails {
    open spec fn step(s: TokenDetails, name: Seq<char>, rest: Seq<u8>) -> Reading<TokenDetails> {
        if name == "cached_tokens"@ {
            match count_once(s.cached_tokens, rest) {
                Reading::Done(count, used) => Reading::Done(
                    TokenDetails { cached_tokens: Some(count), ..s },
                    used,
                ),
                Reading::CutOff => Reading::CutOff,
                Reading::Bad => Reading::Bad,
            }
        } else if name == "reasoning_tokens"@ {
            match count_once(s.reasoning_tokens, rest) {
                Reading::Done(count, used) => Reading::Done(
                    TokenDetails { reasoning_tokens: Some(count), ..s },
                    used,
                ),
                Reading::CutOff => Reading::CutOff,
                Reading::Bad => Reading::Bad,
            }
        } else {
            match field_skipped(rest) {
                Reading::Done(_, used) => Reading::Done(s, used),
                Reading::CutOff => Reading::CutOff,
                Reading::Bad => Reading::Bad,
            }
        }
    }

    fn field(&mut self, name: &str, rest: &[u8]) -> (r: Reading<()>) {
        if same_text(name, "cached_tokens") {
            match read_count_once(self.cached_tokens, rest) {
                Reading::Done(count, used) => {
                    self.cached_tokens = Some(count);
                    Reading::Done((), used)
                },
                Reading::CutOff => Reading::CutOff,
                Reading::Bad => Reading::Bad,
            }
        } else if same_text(name, "reasoning_tokens") {
            match read_count_once(self.reasoning_tokens, rest) {
                Reading::Done(count, used) => {
                    self.reasoning_tokens = Some(count);
                    Reading::Done((), used)
                },
                Reading::CutOff => Reading::CutOff,
                Reading::Bad => Reading::Bad,
            }
        } else {
            skip_field_value(rest)
        }
    }
}

/// Details that say nothing.
pub open spec fn no_details() -> TokenDetails {
    TokenDetails { cached_tokens: None, reasoning_tokens: None }
}

/// Reads the counter that comes next in an array; there has to be one.
pub open spec fn count_item(rest: Seq<u8>, first: bool) -> Reading<Option<u64>> {
    match item_ahead(rest, first) {
        Reading::Done(true, at) => after(at as int, count_read(rest.skip(at as int))),
        Reading::Done(false, _) => Reading::Bad,
        Reading::CutOff => Reading::CutOff,
        Reading::Bad => Reading::Bad,
    }
}

fn read_count_item(rest: &[u8], first: bool) -> (r: Reading<Option<u64>>)
    ensures
        r == count_item(rest@, first),
        r matches Reading::Done(_, used) ==> 0 < used <= rest@.len(),
{
    match look_for_item(rest, first) {
        Reading::Done(true, at) => {
            let item = slice_subrange(rest, at, rest.len());
            assert(item@ == rest@.skip(at as int));
            match read_count(item) {
                Reading::Done(count, used) => Reading::Done(count, at + used),
                Reading::CutOff => Reading::CutOff,
                Reading::Bad => Reading::Bad,
            }
        },
        Reading::Done(false, _) => Reading::Bad,
        Reading::CutOff => Reading::CutOff,
        Reading::Bad => Reading::Bad,
    }
}

/// Reads details that are given as an array, from behind its opening bracket on: the two counters
/// in order, and nothing else.
pub open spec fn details_listed(rest: Seq<u8>) -> Reading<TokenDetails> {
    match count_item(rest, true) {
        Reading::Done(cached, a) => match count_item(rest.skip(a as int), false) {
            Reading::Done(reasoning, b) => match array_end(rest.skip(a + b)) {
                Reading::Done(_, c) => Reading::Done(
                    TokenDetails {
                        cached_tokens: Some(cached),
                        reasoning_tokens: Some(reasoning),
                    },
                    (a + b + c) as usize,
                ),
                Reading::CutOff => Reading::CutOff,
                Reading::Bad => Reading::Bad,
            },
            Reading::CutOff => Reading::CutOff,
            Reading::Bad => Reading::Bad,
        },
        Reading::CutOff => Reading::CutOff,
        Reading::Bad => Reading::Bad,
    }
}

fn read_listed_details(rest: &[u8]) -> (r: Reading<TokenDetails>)
    ensures
        r == details_listed(rest@),
        r matches Reading::Done(_, used) ==> 0 < used <= rest@.len(),
{
    match read_count_item(rest, true) {
        Reading::Done(cached, a) => {
            let second = slice_subrange(rest, a, rest.len());
            assert(second@ == rest@.skip(a as int));
            match read_count_item(second, false) {
                Reading::Done(reasoning, b) => {
                    let end = slice_subrange(rest, a + b, rest.len());
                    assert(end@ == rest@.skip(a + b));
                    match read_array_end(end) {
                        Reading::Done(_, c) => Reading::Done(
                            TokenDetails {
                                cached_tokens: Some(cached),
                                reasoning_tokens: Some(reasoning),
                            },
                            a + b + c,
                        ),
                        Reading::CutOff => Reading::CutOff,
                        Reading::Bad => Reading::Bad,
                    }
                },
                Reading::CutOff => Reading::CutOff,
                Reading::Bad => Reading::Bad,
            }
        },
        Reading::CutOff => Reading::CutOff,
        Reading::Bad => Reading::Bad,
    }
}

/// Reads details: an object, or an array of its counters in order.
pub open spec fn details_read(input: Seq<u8>) -> Reading<TokenDetails> {
    let at = blanks(input);
    if 0 <= at < input.len() && input[at] == 0x5b {
        after(at + 1, details_listed(input.skip(at + 1)))
    } else {
        object_read::<TokenDetails>(input, no_details())
    }
}

fn read_details(input: &[u8]) -> (r: Reading<TokenDetails>)
    ensures
        r == details_read(input@),
        r matches Reading::Done(_, used) ==> 0 < used <= input@.len(),
{
    assert(input@.skip(0) == input@);
    let at = skip_blanks(input, 0);
    if at < input.len() && input[at] == 0x5b {
        let items = slice_subrange(input, at + 1, input.len());
        assert(items@ == input@.skip(at + 1));
        match read_listed_details(items) {
            Reading::Done(details, used) => Reading::Done(details, at + 1 + used),
            Reading::CutOff => Reading::CutOff,
            Reading::Bad => Reading::Bad,
        }
    } else {
        let mut details = TokenDetails { cached_tokens: None, reasoning_tokens: None };
        match read_object(&mut details, input) {
            Reading::Done(_, used) => Reading::Done(details, used),
            Reading::CutOff => Reading::CutOff,
            Reading::Bad => Reading::Bad,
        }
    }
}

/// Reads details that must not have come before.
pub open spec fn details_once(before: Option<TokenDetails>, rest: Seq<u8>) -> Reading<TokenDetails> {
    if before is Some {
        Reading::Bad
    } else {
        followed_by(colon_read(rest), details_read(behind_colon(rest)))
    }
}

fn read_details_once(before: Option<TokenDetails>, rest: &[u8]) -> (r: Reading<TokenDetails>)
    ensures
        r == details_once(before, rest@),
        r matches Reading::Done(_, used) ==> 0 < used <= rest@.len(),
{
    if before.is_some() {
        return Reading::Bad;
    }
    match read_colon(rest) {
        Reading::Done(_, at) => {
            match read_details(slice_subrange(rest, at, rest.len())) {
                Reading::Done(details, used) => Reading::Done(details, at + used),
                Reading::CutOff => Reading::CutOff,
                Reading::Bad => Reading::Bad,
            }
        },
        Reading::CutOff => Reading::CutOff,
        Reading::Bad => Reading::Bad,
    }
}

/// The `usage` object of an OpenAI compatible response; what was read is `Some`.
///
/// Every field is optional because providers differ: the prompt and completion counters are
/// always there, while the cache and reasoning counters are extensions that many servers
/// simply omit.
#[derive(Clone, Copy)]
pub struct UsageBody {
    pub prompt_tokens: Option<Option<u64>>,
    pub completion_tokens: Option<Option<u64>>,
    pub total_tokens: Option<Option<u64>>,
    pub prompt_tokens_details: Option<TokenDetails>,
    pub completion_tokens_details: Option<TokenDetails>,
}

impl View for UsageBody {
    type V = UsageBody;

    open spec fn view(&self) -> UsageBody {
        *self
    }
}

/// A `usage` object that says nothing.
pub open spec fn no_usage() -> UsageBody {
    UsageBody {
        prompt_tokens: None,
        completion_tokens: None,
        total_tokens: None,
        prompt_tokens_details: None,
        completion_tokens_details: None,
    }
}

impl FieldSink for UsageBody {
    open spec fn step(s: UsageBody, name: Seq<char>, rest: Seq<u8>) -> Reading<UsageBody> {
        if name == "prompt_tokens"@ {
            match count_once(s.prompt_tokens, rest) {
                Reading::Done(count, used) => Reading::Done(
                    UsageBody { prompt_tokens: Some(count), ..s },
                    used,
                ),
                Reading::CutOff => Reading::CutOff,
                Reading::Bad => Reading::Bad,
            }
        } else if name == "completion_tokens"@ {
            match count_once(s.completion_tokens, rest) {
                Reading::Done(count, used) => Reading::Done(
                    UsageBody { completion_tokens: Some(count), ..s },
                    used,
                ),
                Reading::CutOff => Reading::CutOff,
                Reading::Bad => Reading::Bad,
            }
        } else if name == "total_tokens"@ {
            match count_once(s.total_tokens, rest) {
                Reading::Done(count, used) => Reading::Done(
                    UsageBody { total_tokens: Some(count), ..s },
                    used,
                ),
                Reading::CutOff => Reading::CutOff,
                Reading::Bad => Reading::Bad,
            }
        } else if name == "prompt_tokens_details"@ {
            match details_once(s.prompt_tokens_details, rest) {
                Reading::Done(details, used) => Reading::Done(
                    UsageBody { prompt_tokens_details: Some(details), ..s },
                    used,
                ),
                Reading::CutOff => Reading::CutOff,
                Reading::Bad => Reading::Bad,
            }
        } else if name == "completion_tokens_details"@ {
            match details_once(s.completion_tokens_details, rest) {
                Reading::Done(details, used) => Reading::Done(
                    UsageBody { completion_tokens_details: Some(details), ..s },
                    used,
                ),
                Reading::CutOff => Reading::CutOff,
                Reading::Bad => Reading::Bad,
            }
        } else {
            match field_skipped(rest) {
                Reading::Done(_, used) => Reading::Done(s, used),
                Reading::CutOff => Reading::CutOff,
                Reading::Bad => Reading::Bad,
            }
        }
    }

    fn field(&mut self, name: &str, rest: &[u8]) -> (r: Reading<()>) {
        if same_text(name, "prompt_tokens") {
            match read_count_once(self.prompt_tokens, rest) {
                Reading::Done(count, used) => {
                    self.prompt_tokens = Some(count);
                    Reading::Done((), used)
                },
                Reading::CutOff => Reading::CutOff,
                Reading::Bad => Reading::Bad,
            }
        } else if same_text(name, "completion_tokens") {
            match read_count_once(self.completion_tokens, rest) {
                Reading::Done(count, used) => {
                    self.completion_tokens = Some(count);
                    Reading::Done((), used)
                },
                Reading::CutOff => Reading::CutOff,
                Reading::Bad => Reading::Bad,
            }
        } else if same_text(name, "total_tokens") {
            match read_count_once(self.total_tokens, rest) {
                Reading::Done(count, used) => {
                    self.total_tokens = Some(count);
                    Reading::Done((), used)
                },
                Reading::CutOff => Reading::CutOff,
                Reading::Bad => Reading::Bad,
            }
        } else if same_text(name, "prompt_tokens_details") {
            match read_details_once(self.prompt_tokens_details, rest) {
                Reading::Done(details, used) => {
                    self.prompt_tokens_details = Some(details);
                    Reading::Done((), used)
                },
                Reading::CutOff => Reading::CutOff,
                Reading::Bad => Reading::Bad,
            }
        } else if same_text(name, "completion_tokens_details") {
            match read_details_once(self.completion_tokens_details, rest) {
                Reading::Done(details, used) => {
                    self.completion_tokens_details = Some(details);
                    Reading::Done((), used)
                },
                Reading::CutOff => Reading::CutOff,
                Reading::Bad => Reading::Bad,
            }
        } else {
            skip_field_value(rest)
        }
    }
}

/// Reads the details that come next in an array, if they do.
pub open spec fn details_item(rest: Seq<u8>) -> Reading<Option<TokenDetails>> {
    match item_ahead(rest, false) {
        Reading::Done(true, at) => match details_read(rest.skip(at as int)) {
            Reading::Done(details, used) => Reading::Done(Some(details), (at + used) as usize),
            Reading::CutOff => Reading::CutOff,
            Reading::Bad => Reading::Bad,
        },
        Reading::Done(false, _) => Reading::Done(None, 0),
        Reading::CutOff => Reading::CutOff,
        Reading::Bad => Reading::Bad,
    }
}

fn read_details_item(rest: &[u8]) -> (r: Reading<Option<TokenDetails>>)
    ensures
        r == details_item(rest@),
        r matches Reading::Done(_, used) ==> used <= rest@.len(),
{
    match look_for_item(rest, false) {
        Reading::Done(true, at) => {
            let item = slice_subrange(rest, at, rest.len());
            assert(item@ == rest@.skip(at as int));
            match read_details(item) {
                Reading::Done(details, used) => Reading::Done(Some(details), at + used),
                Reading::CutOff => Reading::CutOff,
                Reading::Bad => Reading::Bad,
            }
        },
        Reading::Done(false, _) => Reading::Done(None, 0),
        Reading::CutOff => Reading::CutOff,
        Reading::Bad => Reading::Bad,
    }
}

/// Reads the three counters that a `usage` array starts with.
pub open spec fn counts_listed(rest: Seq<u8>) -> Reading<UsageBody> {
    match count_item(rest, true) {
        Reading::Done(prompt, a) => match count_item(rest.skip(a as int), false) {
            Reading::Done(completion, b) => match count_item(rest.skip(a + b), false) {
                Reading::Done(total, c) => Reading::Done(
                    UsageBody {
                        prompt_tokens: Some(prompt),
                        completion_tokens: Some(completion),
                        total_tokens: Some(total),
                        prompt_tokens_details: None,
                        completion_tokens_details: None,
                    },
                    (a + b + c) as usize,
                ),
                Reading::CutOff => Reading::CutOff,
                Reading::Bad => Reading::Bad,
            },
            Reading::CutOff => Reading::CutOff,
            Reading::Bad => Reading::Bad,
        },
        Reading::CutOff => Reading::CutOff,
        Reading::Bad => Reading::Bad,
    }
}

fn read_listed_counts(rest: &[u8]) -> (r: Reading<UsageBody>)
    ensures
        r == counts_listed(rest@),
        r matches Reading::Done(_, used) ==> 0 < used <= rest@.len(),
{
    match read_count_item(rest, true) {
        Reading::Done(prompt, a) => {
            let second = slice_subrange(rest, a, rest.len());
            assert(second@ == rest@.skip(a as int));
            match read_count_item(second, false) {
                Reading::Done(completion, b) => {
                    let third = slice_subrange(rest, a + b, rest.len());
                    assert(third@ == rest@.skip(a + b));
                    match read_count_item(third, false) {
                        Reading::Done(total, c) => Reading::Done(
                            UsageBody {
                                prompt_tokens: Some(prompt),
                                completion_tokens: Some(completion),
                                total_tokens: Some(total),
                                prompt_tokens_details: None,
                                completion_tokens_details: None,
                            },
                            a + b + c,
                        ),
                        Reading::CutOff => Reading::CutOff,
                        Reading::Bad => Reading::Bad,
                    }
                },
                Reading::CutOff => Reading::CutOff,
                Reading::Bad => Reading::Bad,
            }
        },
        Reading::CutOff => Reading::CutOff,
        Reading::Bad => Reading::Bad,
    }
}

/// Reads a `usage` that is given as an array, from behind its opening bracket on: its fields in
/// order. The counters have to be there, the details may be left out from the end.
pub open spec fn usage_listed(rest: Seq<u8>) -> Reading<UsageBody> {
    match counts_listed(rest) {
        Reading::Done(counts, a) => match details_item(rest.skip(a as int)) {
            Reading::Done(prompt, b) => match details_item(rest.skip(a + b)) {
                Reading::Done(completion, c) => match array_end(rest.skip(a + b + c)) {
                    Reading::Done(_, d) => Reading::Done(
                        UsageBody {
                            prompt_tokens_details: prompt,
                            completion_tokens_details: completion,
                            ..counts
                        },
                        (a + b + c + d) as usize,
                    ),
                    Reading::CutOff => Reading::CutOff,
                    Reading::Bad => Reading::Bad,
                },
                Reading::CutOff => Reading::CutOff,
                Reading::Bad => Reading::Bad,
            },
            Reading::CutOff => Reading::CutOff,
            Reading::Bad => Reading::Bad,
        },
        Reading::CutOff => Reading::CutOff,
        Reading::Bad => Reading::Bad,
    }
}

fn read_listed_usage(rest: &[u8]) -> (r: Reading<UsageBody>)
    ensures
        r == usage_listed(rest@),
        r matches Reading::Done(_, used) ==> 0 < used <= rest@.len(),
{
    match read_listed_counts(rest) {
        Reading::Done(counts, a) => {
            let fourth = slice_subrange(rest, a, rest.len());
            assert(fourth@ == rest@.skip(a as int));
            match read_details_item(fourth) {
                Reading::Done(prompt, b) => {
                    let fifth = slice_subrange(rest, a + b, rest.len());
                    assert(fifth@ == rest@.skip(a + b));
                    match read_details_item(fifth) {
                        Reading::Done(completion, c) => {
                            let end = slice_subrange(rest, a + b + c, rest.len());
                            assert(end@ == rest@.skip(a + b + c));
                            match read_array_end(end) {
                                Reading::Done(_, d) => Reading::Done(
                                    UsageBody {
                                        prompt_tokens: counts.prompt_tokens,
                                        completion_tokens: counts.completion_tokens,
                                        total_tokens: counts.total_tokens,
                                        prompt_tokens_details: prompt,
                                        completion_tokens_details: completion,
                                    },
                                    a + b + c + d,
                                ),
                                Reading::CutOff => Reading::CutOff,
                                Reading::Bad => Reading::Bad,
                            }
                        },
                        Reading::CutOff => Reading::CutOff,
                        Reading::Bad => Reading::Bad,
                    }
                },
                Reading::CutOff => Reading::CutOff,
                Reading::Bad => Reading::Bad,
            }
        },
        Reading::CutOff => Reading::CutOff,
        Reading::Bad => Reading::Bad,
    }
}

/// A counter that was read, if it was not `null`.
pub open spec fn given(count: Option<Option<u64>>) -> Option<u64> {
    match count {
        Some(count) => count,
        None => None,
    }
}

/// The sum of two counters, modulo two to the power of 64.
pub open spec fn counters_sum(a: u64, b: u64) -> u64 {
    if a + b > u64::MAX {
        (a + b - u64::MAX - 1) as u64
    } else {
        (a + b) as u64
    }
}

/// The counters that a `usage` object reports. A missing total is the sum of the prompt and
/// completion counters when both are there.
pub open spec fn usage_of(body: UsageBody) -> TokenUsage {
    TokenUsage {
        prompt_tokens: given(body.prompt_tokens),
        completion_tokens: given(body.completion_tokens),
        total_tokens: match given(body.total_tokens) {
            Some(total) => Some(total),
            None => match (given(body.prompt_tokens), given(body.completion_tokens)) {
                (Some(prompt), Some(completion)) => Some(counters_sum(prompt, completion)),
                _ => None,
            },
        },
        reasoning_tokens: match body.completion_tokens_details {
            Some(details) => given(details.reasoning_tokens),
            None => None,
        },
        cached_tokens: match body.prompt_tokens_details {
            Some(details) => given(details.cached_tokens),
            None => None,
        },
    }
}

fn given_count(count: Option<Option<u64>>) -> (r: Option<u64>)
    ensures
        r == given(count),
{
    match count {
        Some(count) => count,
        None => None,
    }
}

fn usage_from(body: UsageBody) -> (r: TokenUsage)
    ensures
        r == usage_of(body),
{
    let prompt_tokens = given_count(body.prompt_tokens);
    let completion_tokens = given_count(body.completion_tokens);
    let total_tokens: Option<u64> = match given_count(body.total_tokens) {
        Some(total) => Some(total),
        None => match (prompt_tokens, completion_tokens) {
            (Some(prompt), Some(completion)) => Some(prompt.wrapping_add(completion)),
            _ => None,
        },
    };
    TokenUsage {
        prompt_tokens,
        completion_tokens,
        total_tokens,
        reasoning_tokens: match body.completion_tokens_details {
            Some(details) => given_count(details.reasoning_tokens),
            None => None,
        },
        cached_tokens: match body.prompt_tokens_details {
            Some(details) => given_count(details.cached_tokens),
            None => None,
        },
    }
}

/// The `usage` field of a response body or event: counters, or none where it is `null`.
pub struct UsageProbe {
    pub usage: Option<TokenUsage>,
}

impl View for UsageProbe {
    type V = Option<TokenUsage>;

    open spec fn view(&self) -> Option<TokenUsage> {
        self.usage
    }
}

/// Reads a `usage` value: `null`, which is common before the final chunk of a stream, an object,
/// or an array of the object's fields in order.
pub open spec fn usage_read(input: Seq<u8>) -> Reading<Option<TokenUsage>> {
    let at = blanks(input);
    if 0 <= at < input.len() && input[at] == 0x6e {
        match value_skipped(input) {
            Reading::Done(_, used) => Reading::Done(None, used),
            Reading::CutOff => Reading::CutOff,
            Reading::Bad => Reading::Bad,
        }
    } else if 0 <= at < input.len() && input[at] == 0x5b {
        match after(at + 1, usage_listed(input.skip(at + 1))) {
            Reading::Done(body, used) => Reading::Done(Some(usage_of(body)), used),
            Reading::CutOff => Reading::CutOff,
            Reading::Bad => Reading::Bad,
        }
    } else {
        match object_read::<UsageBody>(input, no_usage()) {
            Reading::Done(body, used) => Reading::Done(Some(usage_of(body)), used),
            Reading::CutOff => Reading::CutOff,
            Reading::Bad => Reading::Bad,
        }
    }
}

fn read_usage(input: &[u8]) -> (r: Reading<Option<TokenUsage>>)
    ensures
        r == usage_read(input@),
        r matches Reading::Done(_, used) ==> 0 < used <= input@.len(),
{
    assert(input@.skip(0) == input@);
    let at = skip_blanks(input, 0);
    if at < input.len() && input[at] == 0x6e {
        match skip_value(input) {
            Reading::Done(_, used) => Reading::Done(None, used),
            Reading::CutOff => Reading::CutOff,
            Reading::Bad => Reading::Bad,
        }
    } else if at < input.len() && input[at] == 0x5b {
        let items = slice_subrange(input, at + 1, input.len());
        assert(items@ == input@.skip(at + 1));
        match read_listed_usage(items) {
            Reading::Done(body, used) => Reading::Done(Some(usage_from(body)), at + 1 + used),
            Reading::CutOff => Reading::CutOff,
            Reading::Bad => Reading::Bad,
        }
    } else {
        let mut body = UsageBody {
            prompt_tokens: None,
            completion_tokens: None,
            total_tokens: None,
            prompt_tokens_details: None,
            completion_tokens_details: None,
        };
        match read_object(&mut body, input) {
            Reading::Done(_, used) => Reading::Done(Some(usage_from(body)), used),
            Reading::CutOff => Reading::CutOff,
            Reading::Bad => Reading::Bad,
        }
    }
}

impl FieldSink for UsageProbe {
    open spec fn step(s: Option<TokenUsage>, name: Seq<char>, rest: Seq<u8>) -> Reading<
        Option<TokenUsage>,
    > {
        if name == "usage"@ {
            followed_by(colon_read(rest), usage_read(behind_colon(rest)))
        } else {
            match field_skipped(rest) {
                Reading::Done(_, used) => Reading::Done(s, used),
                Reading::CutOff => Reading::CutOff,
                Reading::Bad => Reading::Bad,
            }
        }
    }

    fn field(&mut self, name: &str, rest: &[u8]) -> (r: Reading<()>) {
        if same_text(name, "usage") {
            match read_colon(rest) {
                Reading::Done(_, at) => {
                    match read_usage(slice_subrange(rest, at, rest.len())) {
                        Reading::Done(usage, used) => {
                            self.usage = usage;
                            Reading::Done((), at + used)
                        },
                        Reading::CutOff => Reading::CutOff,
                        Reading::Bad => Reading::Bad,
                    }
                },
                Reading::CutOff => Reading::CutOff,
                Reading::Bad => Reading::Bad,
            }
        } else {
            skip_field_value(rest)
        }
    }
}

/// What a response body or an event says about token usage.
#[verifier::opaque]
pub open spec fn usage_in(body: Seq<u8>) -> Reading<Option<TokenUsage>> {
    whole_object_read::<UsageProbe>(body, None)
}

/// How many counters are given.
pub open spec fn given_counters(usage: TokenUsage) -> nat {
    (if usage.prompt_tokens is Some { 1nat } else { 0 })
        + (if usage.completion_tokens is Some { 1nat } else { 0 })
        + (if usage.total_tokens is Some { 1nat } else { 0 })
        + (if usage.reasoning_tokens is Some { 1nat } else { 0 })
        + (if usage.cached_tokens is Some { 1nat } else { 0 })
}

/// The number of counters that `usage` gives.
pub fn completeness(usage: &TokenUsage) -> (n: usize)
    ensures
        n == given_counters(*usage),
        n == counters_told(*usage),
{
    let mut n: usize = 0;
    if usage.prompt_tokens.is_some() {
        n = n + 1;
    }
    if usage.completion_tokens.is_some() {
        n = n + 1;
    }
    if usage.total_tokens.is_some() {
        n = n + 1;
    }
    if usage.reasoning_tokens.is_some() {
        n = n + 1;
    }
    if usage.cached_tokens.is_some() {
        n = n + 1;
    }
    n
}

/// The more complete of two usages, the later one when they are equally complete.
pub open spec fn merged(current: Option<TokenUsage>, seen: Option<TokenUsage>) -> Option<TokenUsage> {
    match (current, seen) {
        (_, None) => current,
        (Some(existing), Some(seen)) if given_counters(existing) > given_counters(seen) => current,
        _ => seen,
    }
}

/// How many of its five counters a report tells, field by field.
pub open spec fn counters_told(report: TokenUsage) -> int {
    (if report.prompt_tokens is Some { 1int } else { 0 })
        + (if report.completion_tokens is Some { 1int } else { 0 })
        + (if report.total_tokens is Some { 1int } else { 0 })
        + (if report.reasoning_tokens is Some { 1int } else { 0 })
        + (if report.cached_tokens is Some { 1int } else { 0 })
}

/// Keep the most complete usage seen: a stream reports the full counters in its last chunk,
/// so later values replace earlier partial ones.
pub fn merge_usage(current: &mut Option<TokenUsage>, seen: Option<TokenUsage>)
    ensures
        *final(current) == merged(*old(current), seen),
        match (*old(current), seen) {
            (_, None) => *final(current) == *old(current),
            (None, Some(_)) => *final(current) == seen,
            (Some(was), Some(now)) => *final(current) == (if counters_told(now) >= counters_told(
                was,
            ) {
                seen
            } else {
                *old(current)
            }),
        },
{
    if let Some(value) = seen {
        match *current {
            Some(existing) if completeness(&existing) > completeness(&value) => {},
            _ => {
                *current = Some(value);
            },
        }
    }
}

/// The buffered bytes and the usage after an attempt to read the buffer: a complete object is
/// merged and freed, one that is cut off is kept, anything else is dropped.
#[verifier::opaque]
pub open spec fn consumed(pending: Seq<u8>, usage: Option<TokenUsage>) -> (
    Seq<u8>,
    Option<TokenUsage>,
) {
    if pending.len() > MAX_PENDING {
        (Seq::empty(), usage)
    } else {
        match usage_in(pending) {
            Reading::Done(seen, _) => (Seq::empty(), merged(usage, seen)),
            Reading::CutOff => (pending, usage),
            Reading::Bad => (Seq::empty(), usage),
        }
    }
}

/// The buffered bytes and the usage after each of `offered` was appended to the buffer and an
/// attempt to read it was made.
pub open spec fn offered(
    pending: Seq<u8>,
    usage: Option<TokenUsage>,
    candidates: Seq<Seq<u8>>,
) -> (Seq<u8>, Option<TokenUsage>)
    decreases candidates.len(),
{
    if candidates.len() == 0 {
        (pending, usage)
    } else {
        let (pending, usage) = consumed(pending + candidates[0], usage);
        offered(pending, usage, candidates.skip(1))
    }
}

/// The first offer is made before the others.
proof fn offered_first(
    pending: Seq<u8>,
    usage: Option<TokenUsage>,
    first: Seq<u8>,
    others: Seq<Seq<u8>>,
)
    ensures
        offered(pending, usage, seq![first] + others) == ({
            let (pending, usage) = consumed(pending + first, usage);
            offered(pending, usage, others)
        }),
{
    let all = seq![first] + others;
    assert(all[0] == first);
    assert(all.skip(1) == others);
}

/// Whether `data` starts with a marker.
pub open spec fn starts_with_marker(data: Seq<u8>) -> bool {
    data.len() >= 5 && data.take(5) == sse_data()
}

/// Whether the last `n` bytes of `data` are the start of a marker that is cut off.
pub open spec fn ends_in_marker(data: Seq<u8>, n: int) -> bool {
    0 < n < 5 && n <= data.len() && data.skip(data.len() - n) == sse_data().take(n)
}

/// How many of the last `n` bytes of `data` are the start of a marker.
pub open spec fn marker_length(data: Seq<u8>, n: int) -> int
    decreases n,
{
    if n <= 0 {
        0
    } else if ends_in_marker(data, n) {
        n
    } else {
        marker_length(data, n - 1)
    }
}

/// The end of `data` that may be the start of a marker which the next frame completes.
#[verifier::opaque]
pub open spec fn held(data: Seq<u8>) -> Seq<u8> {
    data.skip(data.len() - marker_length(data, 4))
}

/// `data` without the end that may be the start of a marker.
#[verifier::opaque]
pub open spec fn settled(data: Seq<u8>) -> Seq<u8> {
    data.take(data.len() - marker_length(data, 4))
}

/// The payloads behind the markers of a frame, each up to the end of its line.
#[verifier::opaque]
pub open spec fn payloads(frame: Seq<u8>) -> Seq<Seq<u8>>
    decreases frame.len(),
{
    match found_at(frame, sse_data()) {
        Some(start) => {
            proof {
                found_at_bounds(frame, sse_data());
                found_at_bounds(payload(frame.skip(start)), seq![0x0au8]);
            }
            let line = payload(frame.skip(start));
            let end = found_or_end(line, seq![0x0au8]);
            seq![bytes_trimmed(line.take(end))] + payloads(line.skip(end))
        },
        None => Seq::empty(),
    }
}

/// What a frame offers when a marker follows it: while an object is open, the bytes before the
/// first marker, and then the payloads. What else stands in front of a marker is not offered.
pub open spec fn offers_before_marker(frame: Seq<u8>, open: bool) -> Seq<Seq<u8>> {
    let start = found_or_end(frame, sse_data());
    (if open && start > 0 {
        seq![frame.take(start)]
    } else {
        Seq::empty()
    }) + payloads(frame)
}

/// The payload whose line a frame ends in.
#[verifier::opaque]
pub open spec fn unfinished(frame: Seq<u8>) -> Option<Seq<u8>>
    decreases frame.len(),
{
    match found_at(frame, sse_data()) {
        Some(start) => {
            proof {
                found_at_bounds(frame, sse_data());
                found_at_bounds(payload(frame.skip(start)), seq![0x0au8]);
            }
            let line = payload(frame.skip(start));
            match found_at(line, seq![0x0au8]) {
                Some(end) => unfinished(line.skip(end)),
                None => Some(line),
            }
        },
        None => None,
    }
}

/// What a scanner holds between two frames.
pub ghost struct Scan {
    /// Start of the object that is still incomplete.
    pub object: Seq<u8>,
    /// Whether the last line is a marker whose payload has yet to come.
    pub expecting: bool,
    /// The end of the last frames that may be the start of a marker.
    pub marker: Seq<u8>,
    /// The object that is incomplete if it is.
    pub object_before: Seq<u8>,
    /// The usage that is to be added if it is.
    pub told_before: Option<TokenUsage>,
}

/// What a scanner holds when an object is incomplete and nothing else.
pub open spec fn holding(object: Seq<u8>) -> Scan {
    Scan {
        object,
        expecting: false,
        marker: Seq::empty(),
        object_before: Seq::empty(),
        told_before: None,
    }
}

/// Whether what a scanner holds is bounded. An object is only kept aside while the bytes of a
/// marker that may be cut off are held, and then the other object has fewer bytes than these.
pub open spec fn within_bounds(scan: Scan) -> bool {
    &&& scan.object.len() <= MAX_PENDING
    &&& scan.object_before.len() <= MAX_PENDING
    &&& scan.marker.len() < 5
    &&& scan.marker.len() > 0 ==> scan.object.len() < scan.marker.len()
    &&& scan.marker.len() == 0 ==> scan.object_before.len() == 0
}

/// What a scanner holds before the first frame.
pub open spec fn nothing_held() -> Scan {
    holding(Seq::empty())
}

/// The usage after the payload of a marker that the last frame ended in, where it stands in front
/// of the first marker of `frame`.
pub open spec fn with_expected(
    expecting: bool,
    object: Seq<u8>,
    usage: Option<TokenUsage>,
    frame: Seq<u8>,
) -> Option<TokenUsage> {
    match found_at(frame, sse_data()) {
        Some(start) if expecting && object.len() == 0 && start > 0 => consumed(
            bytes_trimmed(frame.take(start)),
            usage,
        ).1,
        _ => usage,
    }
}

/// Whether a payload has yet to come behind the last marker after `frame`.
pub open spec fn still_expecting(expecting: bool, frame: Seq<u8>) -> bool {
    match unfinished(frame) {
        Some(line) => bytes_trimmed(line).len() == 0,
        None => expecting && found_at(frame, sse_data()) is None && found_at(frame, seq![0x0au8])
            is None && bytes_trimmed(frame).len() == 0,
    }
}

/// The usage that `frame` tells on top of what it tells by itself, when a marker follows it.
pub open spec fn told_if_marker(expecting: bool, object: Seq<u8>, frame: Seq<u8>) -> Option<
    TokenUsage,
> {
    if found_at(frame, sse_data()) is Some {
        None
    } else if object.len() > 0 {
        offered(object, None, offers_before_marker(frame, true)).1
    } else if expecting {
        consumed(bytes_trimmed(frame), None).1
    } else {
        None
    }
}

/// What a scanner holds and the usage after a frame that completes no marker. Its candidates are
/// offered one after the other. Where nothing is incomplete after it, but it ends in what may be
/// the start of a marker outside of any payload, what it comes to in that case is kept aside.
pub open spec fn taken(
    object: Seq<u8>,
    expecting: bool,
    usage: Option<TokenUsage>,
    frame: Seq<u8>,
) -> (Scan, Option<TokenUsage>) {
    let open = object.len() > 0;
    let (now, usage) = offered(
        object,
        with_expected(expecting, object, usage, frame),
        candidates(frame, open),
    );
    let before = settled(frame);
    let cut = held(frame).len() > 0 && now.len() == 0 && unfinished(before) is None;
    (
        Scan {
            object: now,
            expecting: now.len() == 0 && still_expecting(expecting, frame),
            marker: if cut {
                held(frame)
            } else {
                Seq::empty()
            },
            object_before: if cut {
                offered(object, None, offers_before_marker(before, open)).0
            } else {
                Seq::empty()
            },
            told_before: if cut {
                told_if_marker(expecting, object, before)
            } else {
                None
            },
        },
        usage,
    )
}

/// What a scanner holds and the usage after one more frame. Where the frame completes a marker
/// that the last ones ended in, it goes on with that marker, and what stood in front of it is
/// what it comes to before a marker. In any other case the frame is taken by itself.
pub open spec fn scanned(scan: Scan, usage: Option<TokenUsage>, frame: Seq<u8>) -> (
    Scan,
    Option<TokenUsage>,
) {
    let data = scan.marker + frame;
    if scan.marker.len() > 0 && starts_with_marker(data) {
        taken(scan.object_before, false, merged(usage, scan.told_before), data)
    } else if scan.marker.len() > 0 && ends_in_marker(data, data.len() as int) {
        let (object, usage) = offered(
            scan.object,
            usage,
            candidates(frame, scan.object.len() > 0),
        );
        (Scan { object, expecting: false, marker: data, ..scan }, usage)
    } else {
        taken(scan.object, scan.expecting, usage, frame)
    }
}

/// The start of a marker begins with the only `d` it has, so no other length fits.
proof fn marker_length_unique(data: Seq<u8>, n: int, k: int)
    requires
        ends_in_marker(data, n),
        ends_in_marker(data, k),
    ensures
        n == k,
{
    assert(data.skip(data.len() - n)[0] == sse_data()[0]);
    assert(data.skip(data.len() - k)[0] == sse_data()[0]);
    if n < k {
        assert(data.skip(data.len() - k)[k - n] == sse_data().take(k)[k - n]);
    }
    if k < n {
        assert(data.skip(data.len() - n)[n - k] == sse_data().take(n)[n - k]);
    }
}

proof fn marker_length_bounds(data: Seq<u8>, n: int)
    ensures
        0 <= marker_length(data, n),
        marker_length(data, n) > 0 ==> marker_length(data, n) <= n && ends_in_marker(
            data,
            marker_length(data, n),
        ),
        forall|k: int| 0 < k <= n ==> marker_length(data, n) >= k || !ends_in_marker(data, k),
    decreases n,
{
    if n > 0 && !ends_in_marker(data, n) {
        marker_length_bounds(data, n - 1);
    }
}

/// A text is what is settled and what is held of it.
proof fn held_parts(data: Seq<u8>)
    ensures
        settled(data) + held(data) == data,
        held(data).len() < 5,
        held(data).len() > 0 ==> ends_in_marker(data, held(data).len() as int),
        held(data).len() > 0 ==> held(data) == sse_data().take(held(data).len() as int),
{
    reveal(held);
    reveal(settled);
    marker_length_bounds(data, 4);
}

/// What is held is known from its length.
proof fn held_length(data: Seq<u8>, n: int)
    requires
        ends_in_marker(data, n) || (n == 0 && forall|k: int| !ends_in_marker(data, k)),
    ensures
        settled(data) == data.take(data.len() - n),
        held(data) == data.skip(data.len() - n),
{
    reveal(held);
    reveal(settled);
    marker_length_bounds(data, 4);
    let m = marker_length(data, 4);
    if n > 0 {
        marker_length_unique(data, m, n);
    } else if m > 0 {
        assert(ends_in_marker(data, m));
    }
}

/// The number of bytes at the end of `data` that may be the start of a marker.
fn held_bytes(data: &[u8]) -> (n: usize)
    ensures
        n <= data@.len(),
        n < 5,
        settled(data@) == data@.take(data@.len() - n),
        held(data@) == data@.skip(data@.len() - n),
{
    let marker: [u8; 5] = [0x64, 0x61, 0x74, 0x61, 0x3a];
    assert(marker@ == sse_data());
    let length = data.len();
    let mut n: usize = 4;
    while n > 0
        invariant
            n <= 4,
            marker@ == sse_data(),
            length == data@.len(),
            forall|k: int| n < k ==> !ends_in_marker(data@, k),
        decreases n,
    {
        if n <= length {
            let tail = slice_subrange(data, length - n, length);
            let head = slice_subrange(marker.as_slice(), 0, n);
            assert(tail@ == data@.skip(length - n));
            assert(head@ == sse_data().take(n as int));
            if same_bytes(tail, head) {
                proof {
                    held_length(data@, n as int);
                }
                return n;
            }
        }
        n = n - 1;
    }
    proof {
        held_length(data@, 0);
    }
    0
}

/// Whether `data` starts with a marker.
fn has_marker_in_front(data: &[u8]) -> (r: bool)
    ensures
        r == starts_with_marker(data@),
{
    let marker: [u8; 5] = [0x64, 0x61, 0x74, 0x61, 0x3a];
    assert(marker@ == sse_data());
    if data.len() < 5 {
        return false;
    }
    let head = slice_subrange(data, 0, 5);
    assert(head@ == data@.take(5));
    same_bytes(head, marker.as_slice())
}

/// The payload whose line `frame` ends in.
fn unfinished_line<'a>(frame: &'a [u8]) -> (r: Option<&'a [u8]>)
    ensures
        match r {
            Some(line) => unfinished(frame@) == Some(line@),
            None => unfinished(frame@) is None,
        },
{
    let newline: [u8; 1] = [0x0a];
    let marker: [u8; 5] = [0x64, 0x61, 0x74, 0x61, 0x3a];
    assert(marker@ == sse_data());
    assert(newline@ == seq![0x0au8]);
    let mut left = Candidates::new(frame, false);
    loop
        invariant
            marker@ == sse_data(),
            newline@ == seq![0x0au8],
            unfinished(left.rest@) == unfinished(frame@),
        decreases left.rest@.len(),
    {
        proof {
            reveal(unfinished);
        }
        match find(left.rest, marker.as_slice()) {
            Some(start) => {
                left.skip_marker(start);
                let line = left.rest;
                match find(line, newline.as_slice()) {
                    Some(end) => {
                        let _ = left.take(end);
                    },
                    None => {
                        return Some(line);
                    },
                }
            },
            None => {
                return None;
            },
        }
    }
}

/// Offer to the buffer what `frame` offers when a marker follows it.
fn offer_before_marker(pending: &mut Vec<u8>, frame: &[u8], usage: &mut Option<TokenUsage>)
    requires
        old(pending)@.len() <= MAX_PENDING,
    ensures
        (final(pending)@, *final(usage)) == offered(
            old(pending)@,
            *old(usage),
            offers_before_marker(frame@, old(pending)@.len() > 0),
        ),
        final(pending)@.len() <= MAX_PENDING,
{
    let marker: [u8; 5] = [0x64, 0x61, 0x74, 0x61, 0x3a];
    assert(marker@ == sse_data());
    let ghost all = offered(
        pending@,
        *usage,
        offers_before_marker(frame@, pending@.len() > 0),
    );
    let ghost none = Seq::<Seq<u8>>::empty();
    proof {
        found_at_bounds(frame@, sse_data());
    }
    let start = match find(frame, marker.as_slice()) {
        Some(start) => start,
        None => frame.len(),
    };
    if pending.len() > 0 && start > 0 {
        let head = slice_subrange(frame, 0, start);
        assert(head@ == frame@.take(start as int));
        proof {
            offered_first(pending@, *usage, head@, payloads(frame@));
        }
        offer(pending, head, usage);
    } else {
        assert(none + payloads(frame@) == payloads(frame@));
    }
    let mut left = Candidates::new(frame, false);
    while find(left.rest, marker.as_slice()).is_some()
        invariant
            marker@ == sse_data(),
            !left.open,
            pending@.len() <= MAX_PENDING,
            all == offered(pending@, *usage, payloads(left.rest@)),
        decreases left.rest@.len(),
    {
        proof {
            found_at_bounds(left.rest@, sse_data());
        }
        let candidate = left.next_payload();
        proof {
            offered_first(pending@, *usage, candidate@, payloads(left.rest@));
        }
        offer(pending, candidate, usage);
    }
    proof {
        reveal(payloads);
    }
}

/// Scan response frames and merge what they say about the token usage.
///
/// The scanner is fed raw chunks of the response as they are forwarded, so it has to survive
/// chunk boundaries that cut through a JSON object or a marker. Two shapes have to work:
///
/// - a buffered JSON response, where the chunk is simply the body;
/// - server-sent events, where one chunk may hold zero, one or many `data: {...}` payloads
///   (an upstream is free to batch several events into a single write).
///
/// State is therefore kept per event: the buffer holds the not yet complete object of the
/// event currently being read. It never grows beyond [`MAX_PENDING`] bytes. Where a frame ends in
/// what may be the start of a marker, the buffer as it is in that case is kept aside, so that the
/// next frame can complete the marker; where it does not, nothing has changed.
#[derive(Debug)]
pub struct UsageScanner {
    pending: Vec<u8>,
    expecting: bool,
    marker: Vec<u8>,
    pending_before: Vec<u8>,
    told_before: Option<TokenUsage>,
}

impl View for UsageScanner {
    type V = Scan;

    /// What the next frame continues.
    closed spec fn view(&self) -> Scan {
        Scan {
            object: self.pending@,
            expecting: self.expecting,
            marker: self.marker@,
            object_before: self.pending_before@,
            told_before: self.told_before,
        }
    }
}

impl UsageScanner {
    /// The buffers are bounded, and no two of them are large at the same time.
    #[verifier::type_invariant]
    spec fn bounded(self) -> bool {
        within_bounds(self@)
    }

    pub fn new() -> (scanner: Self)
        ensures
            scanner@ == nothing_held(),
    {
        UsageScanner {
            pending: Vec::new(),
            expecting: false,
            marker: Vec::new(),
            pending_before: Vec::new(),
            told_before: None,
        }
    }

    /// The bytes of the incomplete object that are buffered.
    pub fn pending(&self) -> (bytes: &[u8])
        ensures
            bytes@ == self@.object,
            bytes@.len() <= MAX_PENDING,
    {
        proof {
            use_type_invariant(self);
        }
        self.pending.as_slice()
    }

    /// Feed one response frame and merge the usage it contains.
    ///
    /// The candidate objects of the frame are offered to the buffer one at a time, and after
    /// each offer a parse is attempted, see [`consumed`].
    pub fn push(&mut self, frame: &[u8], usage: &mut Option<TokenUsage>)
        ensures
            (final(self)@, *final(usage)) == scanned(old(self)@, *old(usage), frame@),
            within_bounds(final(self)@),
            final(self)@.object.len() + final(self)@.object_before.len() <= MAX_PENDING + 3,
    {
        proof {
            use_type_invariant(&*self);
        }
        let expecting = self.expecting;
        let told_before = self.told_before;
        let mut pending: Vec<u8> = Vec::new();
        let mut data: Vec<u8> = Vec::new();
        let mut pending_before: Vec<u8> = Vec::new();
        std::mem::swap(&mut pending, &mut self.pending);
        std::mem::swap(&mut pending_before, &mut self.pending_before);
        std::mem::swap(&mut data, &mut self.marker);
        if data.len() > 0 {
            data.extend_from_slice(frame);
            assert(data@ == old(self)@.marker + frame@);
            if has_marker_in_front(data.as_slice()) {
                merge_usage(usage, told_before);
                *self = take_frame(pending_before, false, data.as_slice(), usage);
                proof {
                    use_type_invariant(&*self);
                }
                return ;
            }
            let n = held_bytes(data.as_slice());
            proof {
                held_parts(data@);
                if ends_in_marker(data@, data@.len() as int) {
                    held_length(data@, data@.len() as int);
                }
            }
            if n == data.len() {
                proof {
                    start_of_marker_is_short(pending@, *usage, frame@, old(self)@.marker);
                }
                offer_all(&mut pending, frame, usage);
                *self = UsageScanner {
                    pending,
                    expecting: false,
                    marker: data,
                    pending_before,
                    told_before,
                };
                return ;
            }
        }
        *self = take_frame(pending, expecting, frame, usage);
        proof {
            use_type_invariant(&*self);
        }
    }
}

/// Where a frame only brings more of a marker, no object comes to have as many bytes as are held.
proof fn start_of_marker_is_short(
    object: Seq<u8>,
    usage: Option<TokenUsage>,
    frame: Seq<u8>,
    marker: Seq<u8>,
)
    requires
        object.len() < marker.len(),
        (marker + frame).len() < 5,
    ensures
        offered(object, usage, candidates(frame, object.len() > 0)).0.len() < (marker + frame).len(),
{
    assert(found_at(frame, sse_data()) is None);
    if frame.len() == 0 {
        assert(frame == Seq::<u8>::empty());
        no_candidates(object.len() > 0);
    } else if object.len() > 0 {
        continuing_candidates(frame);
        offered_once(object, usage, frame);
    } else {
        plain_candidates(frame);
        trimmed_is_shorter(frame);
        offered_once(object, usage, bytes_trimmed(frame));
    }
    reveal(consumed);
}

/// Takes a frame that completes no marker, see [`taken`].
fn take_frame(pending: Vec<u8>, expecting: bool, frame: &[u8], usage: &mut Option<TokenUsage>) -> (r:
    UsageScanner)
    requires
        pending@.len() <= MAX_PENDING,
    ensures
        (r@, *final(usage)) == taken(pending@, expecting, *old(usage), frame@),
{
    let marker: [u8; 5] = [0x64, 0x61, 0x74, 0x61, 0x3a];
    let newline: [u8; 1] = [0x0a];
    assert(marker@ == sse_data());
    assert(newline@ == seq![0x0au8]);
    let ghost object = pending@;
    let open = pending.len() > 0;
    let n = held_bytes(frame);
    let to = frame.len() - n;
    let before = slice_subrange(frame, 0, to);
    assert(before@ == settled(frame@));
    let mut pending = pending;
    let mut pending_before: Vec<u8> = Vec::new();
    if n > 0 {
        pending_before.extend_from_slice(pending.as_slice());
    }
    assert(n > 0 ==> pending_before@ == object);
    let found = find(frame, marker.as_slice());
    proof {
        found_at_bounds(frame@, sse_data());
    }
    if expecting && !open {
        if let Some(start) = found {
            if start > 0 {
                let mut head: Vec<u8> = Vec::new();
                let payload_part = slice_subrange(frame, 0, start);
                assert(payload_part@ == frame@.take(start as int));
                head.extend_from_slice(trim(payload_part));
                assert(head@ == bytes_trimmed(frame@.take(start as int)));
                consume(&mut head, usage);
            }
        }
    }
    assert(*usage == with_expected(expecting, object, *old(usage), frame@));
    offer_all(&mut pending, frame, usage);
    let waits = match unfinished_line(frame) {
        Some(line) => trim(line).len() == 0,
        None => expecting && found.is_none() && find(frame, newline.as_slice()).is_none() && trim(
            frame,
        ).len() == 0,
    };
    let expecting_now = pending.len() == 0 && waits;
    if n == 0 || pending.len() > 0 || unfinished_line(before).is_some() {
        return UsageScanner {
            pending,
            expecting: expecting_now,
            marker: Vec::new(),
            pending_before: Vec::new(),
            told_before: None,
        };
    }
    let mut told: Option<TokenUsage> = None;
    offer_before_marker(&mut pending_before, before, &mut told);
    if find(before, marker.as_slice()).is_some() {
        told = None;
    } else if !open {
        told = None;
        if expecting {
            let mut head: Vec<u8> = Vec::new();
            head.extend_from_slice(trim(before));
            assert(head@ == bytes_trimmed(before@));
            consume(&mut head, &mut told);
        }
    }
    let mut start: Vec<u8> = Vec::new();
    let tail = slice_subrange(frame, to, frame.len());
    start.extend_from_slice(tail);
    assert(start@ == held(frame@));
    UsageScanner { pending, expecting: expecting_now, marker: start, pending_before, told_before: told }
}

/// Offer the candidates of `data` to the buffer, one after the other.
fn offer_all(pending: &mut Vec<u8>, data: &[u8], usage: &mut Option<TokenUsage>)
    requires
        old(pending)@.len() <= MAX_PENDING,
    ensures
        (final(pending)@, *final(usage)) == offered(
            old(pending)@,
            *old(usage),
            candidates(data@, old(pending)@.len() > 0),
        ),
        final(pending)@.len() <= MAX_PENDING,
{
    let ghost all = offered(pending@, *usage, candidates(data@, pending@.len() > 0));
    let mut candidates_left = Candidates::new(data, pending.len() > 0);
    loop
        invariant_except_break
            pending@.len() <= MAX_PENDING,
            all == offered(
                pending@,
                *usage,
                candidates(candidates_left.rest@, candidates_left.open),
            ),
        ensures
            pending@.len() <= MAX_PENDING,
            all == (pending@, *usage),
        decreases candidates_left.rest@.len(),
    {
        match candidates_left.next() {
            Some(candidate) => {
                proof {
                    offered_first(
                        pending@,
                        *usage,
                        candidate@,
                        candidates(candidates_left.rest@, candidates_left.open),
                    );
                }
                offer(pending, candidate, usage);
            },
            None => {
                break;
            },
        }
    }
}

/// Append `candidate` to the buffer and try to parse it.
fn offer(pending: &mut Vec<u8>, candidate: &[u8], usage: &mut Option<TokenUsage>)
    ensures
        (final(pending)@, *final(usage)) == consumed(old(pending)@ + candidate@, *old(usage)),
        final(pending)@.len() <= MAX_PENDING,
{
    pending.extend_from_slice(candidate);
    assert(pending@ == old(pending)@ + candidate@);
    consume(pending, usage);
}

/// Try to parse the buffered bytes as a response object, merging the usage when they are one.
///
/// The buffer is left empty unless the object is cut off, in which case it is kept for the
/// next candidate or frame.
fn consume(pending: &mut Vec<u8>, usage: &mut Option<TokenUsage>)
    ensures
        (final(pending)@, *final(usage)) == consumed(old(pending)@, *old(usage)),
        final(pending)@.len() <= MAX_PENDING,
{
    reveal(consumed);
    reveal(usage_in);
    if pending.len() > MAX_PENDING {
        // Not a usage object: give up on it instead of holding the whole body.
        pending.clear();
        return ;
    }
    let mut probe = UsageProbe { usage: None };
    match read_whole_object(&mut probe, pending.as_slice()) {
        Reading::Done(_, _) => {
            merge_usage(usage, probe.usage);
            pending.clear();
        },
        // The object continues in the next candidate or frame; keep buffering it.
        Reading::CutOff => {},
        // Not usable as an object: drop it so the following bytes get a chance.
        Reading::Bad => {
            pending.clear();
        },
    }
}

/// The counters that a response has given are never replaced by fewer: whatever frame comes, the
/// usage stays at least as complete as it was.
pub proof fn usage_stays_complete(scan: Scan, usage: TokenUsage, frame: Seq<u8>)
    ensures
        scanned(scan, Some(usage), frame).1 matches Some(now) && given_counters(now)
            >= given_counters(usage),
{
    let data = scan.marker + frame;
    if scan.marker.len() > 0 && starts_with_marker(data) {
        let now = merged(Some(usage), scan.told_before);
        taken_stays_complete(scan.object_before, false, now->Some_0, data);
    } else {
        offers_stay_complete(scan.object, usage, candidates(frame, scan.object.len() > 0));
        taken_stays_complete(scan.object, scan.expecting, usage, frame);
    }
}

proof fn taken_stays_complete(object: Seq<u8>, expecting: bool, usage: TokenUsage, frame: Seq<u8>)
    ensures
        taken(object, expecting, Some(usage), frame).1 matches Some(now) && given_counters(now)
            >= given_counters(usage),
{
    let seen = with_expected(expecting, object, Some(usage), frame);
    assert(seen matches Some(seen) && given_counters(seen) >= given_counters(usage)) by {
        reveal(consumed);
    }
    offers_stay_complete(object, seen->Some_0, candidates(frame, object.len() > 0));
}

proof fn offers_stay_complete(pending: Seq<u8>, usage: TokenUsage, offers: Seq<Seq<u8>>)
    ensures
        offered(pending, Some(usage), offers).1 matches Some(now) && given_counters(now)
            >= given_counters(usage),
    decreases offers.len(),
{
    if offers.len() > 0 {
        reveal(consumed);
        let (pending, next) = consumed(pending + offers[0], Some(usage));
        offers_stay_complete(pending, next->Some_0, offers.skip(1));
    }
}

/// Nothing is found exactly when the needle stands nowhere.
proof fn found_nowhere(haystack: Seq<u8>, needle: Seq<u8>)
    requires
        needle.len() > 0,
    ensures
        found_at(haystack, needle) is None <==> forall|i: int|
            0 <= i <= haystack.len() - needle.len() ==> #[trigger] haystack.subrange(
                i,
                i + needle.len(),
            ) != needle,
    decreases haystack.len(),
{
    found_at_bounds(haystack, needle);
    if needle.len() <= haystack.len() && found_at(haystack, needle) is None {
        let rest = haystack.skip(1);
        found_nowhere(rest, needle);
        assert forall|i: int| 0 <= i <= haystack.len() - needle.len() implies #[trigger] haystack.subrange(
            i,
            i + needle.len(),
        ) != needle by {
            if i == 0 {
                assert(haystack.subrange(0, needle.len() as int) == haystack.take(
                    needle.len() as int,
                ));
            } else {
                assert(haystack.subrange(i, i + needle.len()) == rest.subrange(
                    i - 1,
                    i - 1 + needle.len(),
                ));
            }
        }
    }
}

/// What is not found in the whole is not found in a part.
proof fn found_in_no_part(a: Seq<u8>, b: Seq<u8>, needle: Seq<u8>)
    requires
        needle.len() > 0,
        found_at(a + b, needle) is None,
    ensures
        found_at(a, needle) is None,
        found_at(b, needle) is None,
{
    found_nowhere(a + b, needle);
    found_nowhere(a, needle);
    found_nowhere(b, needle);
    assert forall|i: int| 0 <= i <= a.len() - needle.len() implies #[trigger] a.subrange(
        i,
        i + needle.len(),
    ) != needle by {
        assert(a.subrange(i, i + needle.len()) == (a + b).subrange(i, i + needle.len()));
    }
    assert forall|i: int| 0 <= i <= b.len() - needle.len() implies #[trigger] b.subrange(
        i,
        i + needle.len(),
    ) != needle by {
        assert(b.subrange(i, i + needle.len()) == (a + b).subrange(
            a.len() + i,
            a.len() + i + needle.len(),
        ));
    }
}

/// A frame without markers is offered as a whole.
proof fn plain_candidates(frame: Seq<u8>)
    requires
        frame.len() > 0,
        found_at(frame, sse_data()) is None,
    ensures
        candidates(frame, false) == seq![bytes_trimmed(frame)],
{
    reveal(candidates);
}

/// A frame without markers continues the object that is open.
proof fn continuing_candidates(frame: Seq<u8>)
    requires
        frame.len() > 0,
        found_at(frame, sse_data()) is None,
    ensures
        candidates(frame, true) == seq![frame],
{
    reveal(candidates);
    let end = frame.len() as int;
    assert(frame.take(end) == frame);
    assert(frame.skip(end).len() == 0);
    assert(candidates(frame.skip(end), false) == Seq::<Seq<u8>>::empty());
    assert(seq![frame] + Seq::<Seq<u8>>::empty() == seq![frame]);
}

/// An empty frame offers nothing.
proof fn no_candidates(open: bool)
    ensures
        candidates(Seq::empty(), open) == Seq::<Seq<u8>>::empty(),
{
    reveal(candidates);
}

/// One offer is one attempt.
proof fn offered_once(pending: Seq<u8>, usage: Option<TokenUsage>, offer: Seq<u8>)
    ensures
        offered(pending, usage, seq![offer]) == consumed(pending + offer, usage),
{
    reveal_with_fuel(offered, 2);
    assert(seq![offer].skip(1) == Seq::<Seq<u8>>::empty());
}

/// What is found in the front part is found there in the whole.
proof fn found_in_front(a: Seq<u8>, b: Seq<u8>, needle: Seq<u8>)
    requires
        found_at(a, needle) is Some,
    ensures
        found_at(a + b, needle) == found_at(a, needle),
    decreases a.len(),
{
    let all = a + b;
    assert(all.take(needle.len() as int) == a.take(needle.len() as int));
    if a.take(needle.len() as int) != needle {
        assert(all.skip(1) == a.skip(1) + b);
        found_in_front(a.skip(1), b, needle);
    }
}

/// No marker lies across the place where something begins that starts as a marker does.
proof fn found_over(a: Seq<u8>, b: Seq<u8>)
    requires
        b.len() > 0,
        b[0] == 0x64,
    ensures
        found_at(a + b, sse_data()) == (match found_at(a, sse_data()) {
            Some(i) => Some(i),
            None => match found_at(b, sse_data()) {
                Some(k) => Some(a.len() + k),
                None => None,
            },
        }),
    decreases a.len(),
{
    let all = a + b;
    if a.len() == 0 {
        assert(all == b);
    } else {
        found_over(a.skip(1), b);
        assert(all.skip(1) == a.skip(1) + b);
        if a.len() >= 5 {
            assert(all.take(5) == a.take(5));
        } else if all.len() >= 5 {
            assert(all.take(5)[a.len() as int] == 0x64);
            assert(sse_data()[a.len() as int] != 0x64);
        } else {
            assert(found_at(a.skip(1) + b, sse_data()) is None);
        }
    }
}

/// A payload goes on with what follows the frame.
proof fn payload_goes_on(frame: Seq<u8>, b: Seq<u8>)
    requires
        frame.len() >= 5,
        b.len() > 0,
        b[0] != 0x20,
    ensures
        payload(frame + b) == payload(frame) + b,
{
    let rest = frame.skip(5);
    assert((frame + b).skip(5) == rest + b);
    if rest.len() > 0 && rest[0] == 0x20 {
        assert((rest + b).skip(1) == rest.skip(1) + b);
    }
}

/// Behind a frame that ends outside of any payload, something that starts as a marker does is
/// read on its own; what stands between the last payload and it is returned.
proof fn read_over(x: Seq<u8>, b: Seq<u8>) -> (rest: Seq<u8>)
    requires
        unfinished(x) is None,
        b.len() > 0,
        b[0] == 0x64,
    ensures
        payloads(x + b) == payloads(x) + payloads(b),
        unfinished(x + b) == unfinished(b),
        candidates(x + b, false) == payloads(x) + candidates(rest + b, false),
        found_at(rest, sse_data()) is None,
        found_at(x, sse_data()) is None ==> rest == x,
    decreases x.len(),
{
    let none = Seq::<Seq<u8>>::empty();
    let all = x + b;
    let newline = seq![0x0au8];
    found_over(x, b);
    found_at_bounds(x, sse_data());
    found_at_bounds(b, sse_data());
    first_payload(x);
    first_payload(all);
    first_payload(b);
    unfinished_step(x);
    unfinished_step(all);
    unfinished_step(b);
    match found_at(x, sse_data()) {
        None => {
            assert(none + payloads(b) == payloads(b));
            assert(none + candidates(x + b, false) == candidates(x + b, false));
            if let Some(k) = found_at(b, sse_data()) {
                assert(all.skip(x.len() + k) == b.skip(k));
            }
            x
        },
        Some(start) => {
            let line = payload(x.skip(start));
            let end = found_at(line, newline)->Some_0;
            found_at_bounds(line, newline);
            assert(all.skip(start) == x.skip(start) + b);
            payload_goes_on(x.skip(start), b);
            found_in_front(line, b, newline);
            assert((line + b).take(end) == line.take(end));
            assert((line + b).skip(end) == line.skip(end) + b);
            payload_candidates(all);
            let rest = read_over(line.skip(end), b);
            let first = seq![bytes_trimmed(line.take(end))];
            let more = payloads(line.skip(end));
            assert(first + (more + payloads(b)) == (first + more) + payloads(b));
            assert(first + (more + candidates(rest + b, false)) == (first + more) + candidates(
                rest + b,
                false,
            ));
            rest
        },
    }
}

/// Only what stands in front of the first marker depends on whether an object is open.
proof fn front_candidates(frame: Seq<u8>)
    requires
        found_at(frame, sse_data()) is Some,
    ensures
        candidates(frame, true) == (if found_or_end(frame, sse_data()) > 0 {
            seq![frame.take(found_or_end(frame, sse_data()))]
        } else {
            Seq::empty()
        }) + candidates(frame, false),
{
    let none = Seq::<Seq<u8>>::empty();
    found_at_bounds(frame, sse_data());
    let start = found_or_end(frame, sse_data());
    let rest = frame.skip(start);
    open_candidates(frame);
    assert(rest.take(5) == sse_data()) by {
        assert(frame.subrange(start, start + 5) == rest.take(5));
    }
    assert(found_at(rest, sse_data()) == Some(0int));
    assert(rest.skip(0) == rest);
    payload_candidates(frame);
    payload_candidates(rest);
    assert(none + candidates(frame, false) == candidates(frame, false));
}

/// What stands in front of a marker, and the marker with all that follows, are read one after the
/// other.
proof fn candidates_over_marker(x: Seq<u8>, m: Seq<u8>, open: bool)
    requires
        unfinished(x) is None,
        starts_with_marker(m),
    ensures
        candidates(x + m, open) == offers_before_marker(x, open) + candidates(m, false),
        candidates(m, open) == candidates(m, false),
        offers_before_marker(x + m, open) == offers_before_marker(x, open) + payloads(m),
        offers_before_marker(m, open) == payloads(m),
{
    let none = Seq::<Seq<u8>>::empty();
    let all = x + m;
    assert(m.take(5)[0] == 0x64);
    assert(found_at(m, sse_data()) == Some(0int));
    let rest = read_over(x, m);
    found_over(x, m);
    found_over(rest, m);
    found_at_bounds(x, sse_data());
    payload_candidates(rest + m);
    payload_candidates(m);
    assert((rest + m).skip(rest.len() as int) == m);
    assert(m.skip(0) == m);
    front_candidates(m);
    assert(none + candidates(m, false) == candidates(m, false));
    assert(none + payloads(m) == payloads(m));
    front_candidates(all);
    let start = found_or_end(x, sse_data());
    assert(found_or_end(all, sse_data()) == start);
    assert(all.take(start) == x.take(start));
    let head = if open && start > 0 {
        seq![x.take(start)]
    } else {
        none
    };
    assert(head + (payloads(x) + candidates(m, false)) == head + payloads(x) + candidates(m, false));
    assert(head + (payloads(x) + payloads(m)) == head + payloads(x) + payloads(m));
    assert(none + candidates(all, false) == candidates(all, false));
}

/// Offers that are made one after the other.
proof fn offered_in_turn(
    pending: Seq<u8>,
    usage: Option<TokenUsage>,
    a: Seq<Seq<u8>>,
    b: Seq<Seq<u8>>,
)
    ensures
        offered(pending, usage, a + b) == ({
            let (pending, usage) = offered(pending, usage, a);
            offered(pending, usage, b)
        }),
    decreases a.len(),
{
    if a.len() == 0 {
        assert(a + b == b);
    } else {
        let (now, seen) = consumed(pending + a[0], usage);
        assert((a + b)[0] == a[0]);
        assert((a + b).skip(1) == a.skip(1) + b);
        offered_in_turn(now, seen, a.skip(1), b);
    }
}

/// What offers tell is merged with what was known before.
proof fn offered_told(pending: Seq<u8>, usage: Option<TokenUsage>, offers: Seq<Seq<u8>>)
    ensures
        offered(pending, usage, offers).0 == offered(pending, None, offers).0,
        offered(pending, usage, offers).1 == merged(usage, offered(pending, None, offers).1),
    decreases offers.len(),
{
    if offers.len() > 0 {
        consumed_told(pending + offers[0], usage);
        let (now, seen) = consumed(pending + offers[0], usage);
        let (_, told) = consumed(pending + offers[0], None);
        offered_told(now, seen, offers.skip(1));
        offered_told(now, told, offers.skip(1));
    }
}

proof fn consumed_told(pending: Seq<u8>, usage: Option<TokenUsage>)
    ensures
        consumed(pending, usage).0 == consumed(pending, None).0,
        consumed(pending, usage).1 == merged(usage, consumed(pending, None).1),
{
    reveal(consumed);
}

/// Bytes that end in something else than a brace or white space are no complete object, so nothing
/// is told by them.
proof fn unread_end(pending: Seq<u8>, usage: Option<TokenUsage>)
    requires
        pending.len() > 0,
        pending.last() != 0x7d,
        !blank(pending.last()),
    ensures
        consumed(pending, usage).1 == usage,
{
    reveal(consumed);
    reveal(usage_in);
    if pending.len() <= MAX_PENDING {
        whole_object_ends::<UsageProbe>(pending, None);
    }
}

/// What is left after trimming ends as before, unless that was white space.
proof fn trimmed_keeps_end(data: Seq<u8>)
    requires
        data.len() > 0,
        !ascii_space(data.last()),
    ensures
        bytes_trimmed(data).len() > 0,
        bytes_trimmed(data).last() == data.last(),
    decreases data.len(),
{
    if ascii_space(data[0]) {
        assert(data.skip(1).last() == data.last());
        trimmed_keeps_end(data.skip(1));
    }
}

/// A frame that is cut in a marker tells by itself what it tells up to its last payload.
proof fn told_by_cut_frame(
    object: Seq<u8>,
    usage: Option<TokenUsage>,
    x: Seq<u8>,
    start: Seq<u8>,
)
    requires
        unfinished(x) is None,
        ends_in_marker(start, start.len() as int),
    ensures
        offered(object, usage, candidates(x + start, object.len() > 0)).1 == (if found_at(
            x,
            sse_data(),
        ) is Some {
            offered(object, usage, offers_before_marker(x, object.len() > 0)).1
        } else {
            usage
        }),
{
    let none = Seq::<Seq<u8>>::empty();
    let open = object.len() > 0;
    let all = x + start;
    assert(start.skip(0) == start);
    assert(start[0] == 0x64 && start.last() != 0x7d && !blank(start.last()) && !ascii_space(
        start.last(),
    )) by {
        assert(start == sse_data().take(start.len() as int));
    }
    assert(found_at(start, sse_data()) is None);
    found_over(x, start);
    let rest = read_over(x, start);
    found_over(rest, start);
    let end = rest + start;
    plain_candidates(end);
    trimmed_keeps_end(end);
    if found_at(x, sse_data()) is Some {
        found_at_bounds(x, sse_data());
        let at = found_or_end(x, sse_data());
        assert(all.take(at) == x.take(at));
        let head = if open && at > 0 {
            seq![x.take(at)]
        } else {
            none
        };
        front_candidates(all);
        assert(none + candidates(all, false) == candidates(all, false));
        let lead = offers_before_marker(x, open);
        assert(head + (payloads(x) + candidates(end, false)) == lead + candidates(end, false));
        offered_in_turn(object, usage, lead, candidates(end, false));
        let (now, seen) = offered(object, usage, lead);
        offered_once(now, seen, bytes_trimmed(end));
        unread_end(now + bytes_trimmed(end), seen);
    } else if open {
        continuing_candidates(all);
        offered_once(object, usage, all);
        unread_end(object + all, usage);
    } else {
        first_payload(x);
        assert(none + candidates(end, false) == candidates(end, false));
        offered_once(object, usage, bytes_trimmed(end));
        unread_end(object + bytes_trimmed(end), usage);
    }
}

/// What is settled and held of a text, by the length of what is held.
proof fn held_length_of(data: Seq<u8>, n: int)
    requires
        n == held(data).len(),
    ensures
        0 <= n <= data.len(),
        settled(data) == data.take(data.len() - n),
        held(data) == data.skip(data.len() - n),
{
    held_parts(data);
    let all = settled(data) + held(data);
    assert(all.take(all.len() - n) == settled(data));
    assert(all.skip(all.len() - n) == held(data));
}

/// A marker in front is not held.
proof fn marker_is_settled(m: Seq<u8>)
    requires
        starts_with_marker(m),
    ensures
        starts_with_marker(settled(m)),
{
    held_parts(m);
    let n = held(m).len() as int;
    held_length_of(m, n);
    let at = m.len() - n;
    if n > 0 && at < 5 {
        assert(m.skip(at)[0] == sse_data()[0]);
        assert(m.take(5)[at] == sse_data()[at]);
        assert(at > 0);
        assert(false);
    }
    assert(m.take(at).take(5) == m.take(5));
}

/// Whether a text ends in the start of a marker is decided by its last bytes.
proof fn ends_alike(x: Seq<u8>, m: Seq<u8>, k: int)
    requires
        m.len() >= 5,
    ensures
        ends_in_marker(x + m, k) == ends_in_marker(m, k),
{
    if 0 < k < 5 {
        assert((x + m).skip((x + m).len() - k) == m.skip(m.len() - k));
    }
}

/// What is held at the end does not depend on what stands far in front of it.
proof fn held_behind(x: Seq<u8>, m: Seq<u8>)
    requires
        starts_with_marker(m),
    ensures
        settled(x + m) == x + settled(m),
        held(x + m) == held(m),
        starts_with_marker(settled(m)),
{
    let all = x + m;
    held_parts(m);
    marker_is_settled(m);
    let n = held(m).len() as int;
    held_length_of(m, n);
    assert forall|k: int| ends_in_marker(all, k) implies n > 0 by {
        ends_alike(x, m, k);
        held_length(m, k);
    }
    ends_alike(x, m, n);
    held_length(all, n);
    assert(all.take(all.len() - n) == x + m.take(m.len() - n));
    assert(all.skip(all.len() - n) == m.skip(m.len() - n));
}

/// A frame in which a marker follows what ends outside of any payload is taken in two steps: what
/// stands in front of the marker, and the marker with all that follows.
proof fn taken_over_marker(
    object: Seq<u8>,
    expecting: bool,
    usage: Option<TokenUsage>,
    x: Seq<u8>,
    m: Seq<u8>,
)
    requires
        unfinished(x) is None,
        starts_with_marker(m),
    ensures
        taken(object, expecting, usage, x + m) == ({
            let (now, seen) = offered(
                object,
                with_expected(expecting, object, usage, x + m),
                offers_before_marker(x, object.len() > 0),
            );
            taken(now, false, seen, m)
        }),
{
    let open = object.len() > 0;
    let all = x + m;
    let first = with_expected(expecting, object, usage, all);
    let lead = offers_before_marker(x, open);
    let (now, seen) = offered(object, first, lead);
    let behind = settled(m);
    assert(m.take(5)[0] == 0x64);
    assert(found_at(m, sse_data()) == Some(0int));
    found_over(x, m);
    candidates_over_marker(x, m, open);
    candidates_over_marker(x, m, now.len() > 0);
    offered_in_turn(object, first, lead, candidates(m, false));
    held_behind(x, m);
    assert(behind.take(5)[0] == 0x64);
    assert(found_at(behind, sse_data()) == Some(0int));
    found_over(x, behind);
    candidates_over_marker(x, behind, open);
    candidates_over_marker(x, behind, now.len() > 0);
    let rest = read_over(x, m);
    let other = read_over(x, behind);
    offered_in_turn(object, None, lead, payloads(behind));
    offered_told(object, first, lead);
    let (_, told) = offered(object, None, lead);
    offered_told(now, told, payloads(behind));
}

/// A marker that is split across two writes is joined: where the first ends in the start of a
/// marker, outside of any payload and with no object open, and the second completes it, both are
/// read as if they had been written at once.
pub proof fn split_marker_is_joined(
    scan: Scan,
    usage: Option<TokenUsage>,
    first: Seq<u8>,
    second: Seq<u8>,
)
    requires
        scan.marker.len() == 0,
        scanned(scan, usage, first).0.marker.len() > 0,
        starts_with_marker(scanned(scan, usage, first).0.marker + second),
    ensures
        ({
            let (scan, usage) = scanned(scan, usage, first);
            scanned(scan, usage, second)
        }) == scanned(scan, usage, first + second),
{
    let object = scan.object;
    let open = object.len() > 0;
    let x = settled(first);
    let start = held(first);
    let m = start + second;
    let all = first + second;
    let lead = offers_before_marker(x, open);
    assert(scan.marker + first == first);
    assert(scan.marker + all == all);
    held_parts(first);
    assert(all == x + m);
    assert(m.take(5)[0] == 0x64);
    assert(found_at(m, sse_data()) == Some(0int));
    assert(start.skip(0) == start);
    assert(ends_in_marker(start, start.len() as int));
    assert(start[0] == 0x64);
    assert(found_at(start, sse_data()) is None);
    found_over(x, m);
    found_over(x, start);
    found_at_bounds(x, sse_data());
    let before = with_expected(scan.expecting, object, usage, first);
    let whole = with_expected(scan.expecting, object, usage, all);
    told_by_cut_frame(object, before, x, start);
    taken_over_marker(object, scan.expecting, usage, x, m);
    let (now, seen) = scanned(scan, usage, first);
    offered_told(object, whole, lead);
    if let Some(at) = found_at(x, sse_data()) {
        assert(first.take(at) == x.take(at));
        assert(all.take(at) == x.take(at));
        assert(before == whole);
    } else {
        assert(before == usage);
        assert(all.take(x.len() as int) == x);
        if open {
            assert(whole == usage);
        } else {
            first_payload(x);
            assert(lead == Seq::<Seq<u8>>::empty());
            if scan.expecting {
                consumed_told(bytes_trimmed(x), usage);
                if x.len() == 0 {
                    assert(bytes_trimmed(x) == x);
                    reveal(consumed);
                    reveal(usage_in);
                }
            }
        }
    }
    assert(merged(seen, now.told_before) == offered(object, whole, lead).1);
}

/// The start of a marker may come in any number of writes: one that only brings more of it is read
/// together with the one that completes it.
pub proof fn split_marker_goes_on(
    scan: Scan,
    usage: Option<TokenUsage>,
    more: Seq<u8>,
    second: Seq<u8>,
)
    requires
        scan.marker.len() > 0,
        ends_in_marker(scan.marker + more, (scan.marker + more).len() as int),
        starts_with_marker(scan.marker + more + second),
    ensures
        ({
            let (scan, usage) = scanned(scan, usage, more);
            scanned(scan, usage, second)
        }) == scanned(scan, usage, more + second),
{
    let data = scan.marker + more;
    let open = scan.object.len() > 0;
    assert(scan.marker + (more + second) == data + second);
    assert(data.skip(0) == data);
    assert(!starts_with_marker(data));
    if more.len() == 0 {
        assert(more == Seq::<u8>::empty());
        no_candidates(open);
    } else {
        assert(data.last() == more.last());
        assert(data.last() == sse_data()[data.len() - 1]);
        assert(found_at(more, sse_data()) is None);
        if open {
            continuing_candidates(more);
            offered_once(scan.object, usage, more);
            unread_end(scan.object + more, usage);
        } else {
            plain_candidates(more);
            trimmed_keeps_end(more);
            offered_once(scan.object, usage, bytes_trimmed(more));
            unread_end(scan.object + bytes_trimmed(more), usage);
        }
    }
}

/// A frame that opens no object and announces no payload leaves the reading of the next frame as
/// it was, unless that one continues a marker: the next frame is read as if it were the first.
pub proof fn next_frame_is_read_alone(scan: Scan, usage: Option<TokenUsage>, frame: Seq<u8>)
    requires
        scan.object.len() == 0,
        !scan.expecting,
        scan.marker.len() > 0 ==> !starts_with_marker(scan.marker + frame) && !ends_in_marker(
            scan.marker + frame,
            (scan.marker + frame).len() as int,
        ),
    ensures
        scanned(scan, usage, frame) == scanned(nothing_held(), usage, frame),
{
    assert(scan.object == Seq::<u8>::empty());
}

/// A payload that comes in the write after its marker is read, also where further events follow it
/// in that write: the events are read as if they had come alone, with what the payload told known
/// before.
pub proof fn expected_payload_is_read(
    scan: Scan,
    usage: Option<TokenUsage>,
    x: Seq<u8>,
    others: Seq<u8>,
)
    requires
        scan.object.len() == 0,
        scan.expecting,
        scan.marker.len() == 0,
        x.len() > 0,
        unfinished(x) is None,
        found_at(x, sse_data()) is None,
        starts_with_marker(others),
    ensures
        scanned(scan, usage, x + others) == scanned(
            nothing_held(),
            consumed(bytes_trimmed(x), usage).1,
            others,
        ),
{
    let none = Seq::<u8>::empty();
    assert(scan.marker + (x + others) == x + others);
    assert(none + others == others);
    assert(scan.object == none);
    assert(others.take(5)[0] == 0x64);
    assert(found_at(others, sse_data()) == Some(0int));
    found_over(x, others);
    assert((x + others).take(x.len() as int) == x);
    taken_over_marker(scan.object, true, usage, x, others);
    first_payload(x);
    assert(offers_before_marker(x, false) == Seq::<Seq<u8>>::empty());
}

/// What a scanner holds and the usage after some more frames.
pub open spec fn scanned_all(scan: Scan, usage: Option<TokenUsage>, frames: Seq<Seq<u8>>) -> (
    Scan,
    Option<TokenUsage>,
)
    decreases frames.len(),
{
    if frames.len() == 0 {
        (scan, usage)
    } else {
        let (scan, usage) = scanned_all(scan, usage, frames.drop_last());
        scanned(scan, usage, frames.last())
    }
}

/// The incomplete object and the usage.
pub open spec fn reading_of(state: (Scan, Option<TokenUsage>)) -> (Seq<u8>, Option<TokenUsage>) {
    (state.0.object, state.1)
}

/// Whether `object` is still cut off after each of `frames` but the last.
pub open spec fn cut_off_before_the_end(object: Seq<u8>, frames: Seq<Seq<u8>>) -> bool {
    forall|k: int|
        0 <= k < frames.len() ==> usage_in(object + joined(#[trigger] frames.take(k))) is CutOff
}

/// A frame that comes behind an incomplete object, without a marker, continues it.
proof fn frame_goes_on(object: Seq<u8>, usage: Option<TokenUsage>, frame: Seq<u8>)
    requires
        0 < object.len() <= MAX_PENDING,
        usage_in(object) is CutOff,
        found_at(frame, sse_data()) is None,
    ensures
        reading_of(scanned(holding(object), usage, frame)) == consumed(object + frame, usage),
        consumed(object + frame, usage).0.len() > 0 ==> scanned(holding(object), usage, frame).0
            == holding(consumed(object + frame, usage).0),
{
    let none = Seq::<u8>::empty();
    assert(none + frame == frame);
    if frame.len() > 0 {
        continuing_candidates(frame);
        offered_once(object, usage, frame);
    } else {
        assert(frame == none);
        no_candidates(true);
        assert(object + frame == object);
        reveal(consumed);
    }
}

/// Frames without markers continue the object that is incomplete, as if they had arrived as one.
proof fn continuation_is_joined(object: Seq<u8>, usage: Option<TokenUsage>, frames: Seq<Seq<u8>>)
    requires
        frames.len() > 0,
        object.len() > 0,
        found_at(joined(frames), sse_data()) is None,
        (object + joined(frames)).len() <= MAX_PENDING,
        cut_off_before_the_end(object, frames),
    ensures
        reading_of(scanned_all(holding(object), usage, frames)) == consumed(
            object + joined(frames),
            usage,
        ),
    decreases frames.len(),
{
    let others = frames.drop_last();
    let last = frames.last();
    let so_far = object + joined(others);
    assert(object + joined(frames) == so_far + last);
    found_in_no_part(joined(others), last, sse_data());
    assert(usage_in(so_far) is CutOff) by {
        assert(frames.take(frames.len() - 1) == others);
    }
    assert(scanned_all(holding(object), usage, others) == (holding(so_far), usage)) by {
        if others.len() == 0 {
            assert(so_far == object);
            reveal_with_fuel(scanned_all, 2);
        } else {
            assert forall|k: int| 0 <= k < others.len() implies usage_in(
                object + joined(#[trigger] others.take(k)),
            ) is CutOff by {
                assert(others.take(k) == frames.take(k));
            }
            continuation_is_joined(object, usage, others);
            continuation_is_held(object, usage, others);
            reveal(consumed);
        }
    }
    frame_goes_on(so_far, usage, last);
}

/// As long as the object is cut off, nothing else is held.
proof fn continuation_is_held(object: Seq<u8>, usage: Option<TokenUsage>, frames: Seq<Seq<u8>>)
    requires
        object.len() > 0,
        found_at(joined(frames), sse_data()) is None,
        (object + joined(frames)).len() <= MAX_PENDING,
        cut_off_before_the_end(object, frames),
        usage_in(object + joined(frames)) is CutOff,
    ensures
        scanned_all(holding(object), usage, frames) == (holding(object + joined(frames)), usage),
    decreases frames.len(),
{
    if frames.len() == 0 {
        assert(object + joined(frames) == object);
    } else {
        let others = frames.drop_last();
        let so_far = object + joined(others);
        assert(object + joined(frames) == so_far + frames.last());
        found_in_no_part(joined(others), frames.last(), sse_data());
        assert forall|k: int| 0 <= k < others.len() implies usage_in(
            object + joined(#[trigger] others.take(k)),
        ) is CutOff by {
            assert(others.take(k) == frames.take(k));
        }
        assert(usage_in(so_far) is CutOff) by {
            assert(frames.take(frames.len() - 1) == others);
        }
        continuation_is_held(object, usage, others);
        frame_goes_on(so_far, usage, frames.last());
        reveal(consumed);
    }
}

/// The start of an object is kept.
proof fn start_is_kept(usage: Option<TokenUsage>, frame: Seq<u8>, object: Seq<u8>)
    requires
        candidates(frame, false) == seq![object],
        0 < object.len() <= MAX_PENDING,
        usage_in(object) is CutOff,
    ensures
        scanned(nothing_held(), usage, frame) == (holding(object), usage),
{
    let none = Seq::<u8>::empty();
    assert(none + frame == frame);
    offered_once(none, usage, object);
    assert(none + object == object);
    reveal(consumed);
}

/// A frame with one candidate is one attempt.
proof fn one_candidate(usage: Option<TokenUsage>, frame: Seq<u8>, object: Seq<u8>)
    requires
        candidates(frame, false) == seq![object],
    ensures
        reading_of(scanned(nothing_held(), usage, frame)) == consumed(object, usage),
{
    let none = Seq::<u8>::empty();
    assert(none + frame == frame);
    offered_once(none, usage, object);
    assert(none + object == object);
}

/// A body that arrives in any number of frames is joined: what is cut off stays in the buffer
/// until the frame that completes it, and is read together with all that follows. Where there is
/// no white space to trim at the end of the first frame, that is as if the body had arrived in
/// one.
pub proof fn split_body_is_joined(
    usage: Option<TokenUsage>,
    first: Seq<u8>,
    others: Seq<Seq<u8>>,
)
    requires
        others.len() > 0,
        bytes_trimmed(first).len() > 0,
        found_at(first + joined(others), sse_data()) is None,
        (first + joined(others)).len() <= MAX_PENDING,
        cut_off_before_the_end(bytes_trimmed(first), others),
    ensures
        ({
            let (scan, now) = scanned(nothing_held(), usage, first);
            let whole = first + joined(others);
            let read = reading_of(scanned_all(scan, now, others));
            &&& read == consumed(bytes_trimmed(first) + joined(others), usage)
            &&& bytes_trimmed(first) == first && bytes_trimmed(whole) == whole ==> read
                == reading_of(scanned(nothing_held(), usage, whole))
        }),
{
    let whole = first + joined(others);
    let object = bytes_trimmed(first);
    trimmed_is_shorter(first);
    found_in_no_part(first, joined(others), sse_data());
    plain_candidates(first);
    object_is_cut_off(object, others);
    start_is_kept(usage, first, object);
    continuation_is_joined(object, usage, others);
    plain_candidates(whole);
    one_candidate(usage, whole, bytes_trimmed(whole));
}

/// What is cut off before the end is cut off at the start.
proof fn object_is_cut_off(object: Seq<u8>, frames: Seq<Seq<u8>>)
    requires
        frames.len() > 0,
        cut_off_before_the_end(object, frames),
    ensures
        usage_in(object) is CutOff,
{
    assert(frames.take(0) == Seq::<Seq<u8>>::empty());
    assert(object + joined(frames.take(0)) == object);
}

/// Trimming makes nothing longer.
proof fn trimmed_is_shorter(data: Seq<u8>)
    ensures
        bytes_trimmed(data).len() <= data.len(),
{
    trimmed_start_is_shorter(data);
    trimmed_end_is_shorter(bytes_trimmed_start(data));
}

proof fn trimmed_start_is_shorter(data: Seq<u8>)
    ensures
        bytes_trimmed_start(data).len() <= data.len(),
    decreases data.len(),
{
    if data.len() > 0 && ascii_space(data[0]) {
        trimmed_start_is_shorter(data.skip(1));
    }
}

proof fn trimmed_end_is_shorter(data: Seq<u8>)
    ensures
        bytes_trimmed_end(data).len() <= data.len(),
    decreases data.len(),
{
    if data.len() > 0 && ascii_space(data.last()) {
        trimmed_end_is_shorter(data.drop_last());
    }
}

/// The event whose payload is `x`, up to where its line is still open.
pub open spec fn event(x: Seq<u8>) -> Seq<u8> {
    sse_data() + seq![0x20u8] + x
}

/// What an event starts with.
proof fn event_starts(x: Seq<u8>, rest: Seq<u8>)
    ensures
        found_at(event(x) + rest, sse_data()) == Some(0int),
        payload((event(x) + rest).skip(0)) == x + rest,
{
    let frame = event(x) + rest;
    assert(frame.take(5) == sse_data());
    assert(frame.skip(0) == frame);
    assert(frame.skip(5)[0] == 0x20);
    assert(frame.skip(5).skip(1) == x + rest);
}

/// An event without a line break offers its payload, and its line is open.
proof fn event_candidates(x: Seq<u8>)
    requires
        found_at(x, seq![0x0au8]) is None,
    ensures
        candidates(event(x), false) == seq![bytes_trimmed(x)],
        unfinished(event(x)) == Some(x),
{
    let none = Seq::<u8>::empty();
    let frame = event(x);
    event_starts(x, none);
    assert(frame + none == frame);
    assert(x + none == x);
    payload_candidates(frame);
    let end = x.len() as int;
    assert(x.take(end) == x);
    assert(x.skip(end) == none);
    no_candidates(false);
    assert(seq![bytes_trimmed(x)] + Seq::<Seq<u8>>::empty() == seq![bytes_trimmed(x)]);
    reveal(unfinished);
}

/// An event that is split across writes behind its marker is joined: its payload is read together
/// with all that follows up to the next marker, be it the rest of the line or line breaks. Where
/// there is no white space to trim at the end of the first write, and the line is not over, that
/// is as if the event had been written at once.
pub proof fn split_event_is_joined(usage: Option<TokenUsage>, x: Seq<u8>, others: Seq<Seq<u8>>)
    requires
        others.len() > 0,
        bytes_trimmed(x).len() > 0,
        found_at(x, seq![0x0au8]) is None,
        found_at(joined(others), sse_data()) is None,
        (x + joined(others)).len() <= MAX_PENDING,
        cut_off_before_the_end(bytes_trimmed(x), others),
    ensures
        ({
            let (scan, now) = scanned(nothing_held(), usage, event(x));
            let whole = x + joined(others);
            let read = reading_of(scanned_all(scan, now, others));
            &&& read == consumed(bytes_trimmed(x) + joined(others), usage)
            &&& bytes_trimmed(x) == x && bytes_trimmed(whole) == whole && found_at(
                whole,
                seq![0x0au8],
            ) is None ==> read == reading_of(scanned(nothing_held(), usage, event(whole)))
        }),
{
    let whole = x + joined(others);
    let object = bytes_trimmed(x);
    trimmed_is_shorter(x);
    event_candidates(x);
    object_is_cut_off(object, others);
    start_is_kept(usage, event(x), object);
    continuation_is_joined(object, usage, others);
    if found_at(whole, seq![0x0au8]) is None {
        event_candidates(whole);
        one_candidate(usage, event(whole), bytes_trimmed(whole));
    }
}

/// An event that is split across writes is joined also where the write that ends it goes on with
/// further events: its payload is read together with all that comes up to the next marker, and the
/// events behind that are read as if they had come on their own.
pub proof fn split_event_ends_before_others(
    usage: Option<TokenUsage>,
    x: Seq<u8>,
    between: Seq<Seq<u8>>,
    rest: Seq<u8>,
    others: Seq<u8>,
)
    requires
        bytes_trimmed(x).len() > 0,
        found_at(x, seq![0x0au8]) is None,
        found_at(joined(between), sse_data()) is None,
        (x + joined(between)).len() <= MAX_PENDING,
        cut_off_before_the_end(bytes_trimmed(x), between),
        usage_in(bytes_trimmed(x) + joined(between)) is CutOff,
        found_at(rest, sse_data()) is None,
        starts_with_marker(others),
    ensures
        ({
            let (scan, now) = scanned(nothing_held(), usage, event(x));
            let (scan, now) = scanned_all(scan, now, between);
            let (left, seen) = consumed(bytes_trimmed(x) + joined(between) + rest, usage);
            scanned(scan, now, rest + others) == scanned(holding(left), seen, others)
        }),
{
    let object = bytes_trimmed(x);
    trimmed_is_shorter(x);
    event_candidates(x);
    if between.len() > 0 {
        object_is_cut_off(object, between);
    } else {
        assert(object + joined(between) == object);
    }
    start_is_kept(usage, event(x), object);
    continuation_is_held(object, usage, between);
    object_ends_before_events(object + joined(between), usage, rest, others);
}

/// An incomplete object is read together with what comes up to the next marker.
proof fn object_ends_before_events(
    object: Seq<u8>,
    usage: Option<TokenUsage>,
    rest: Seq<u8>,
    others: Seq<u8>,
)
    requires
        0 < object.len() <= MAX_PENDING,
        usage_in(object) is CutOff,
        found_at(rest, sse_data()) is None,
        starts_with_marker(others),
    ensures
        ({
            let (left, seen) = consumed(object + rest, usage);
            scanned(holding(object), usage, rest + others) == scanned(holding(left), seen, others)
        }),
{
    let none = Seq::<u8>::empty();
    let no_offers = Seq::<Seq<u8>>::empty();
    assert(none + (rest + others) == rest + others);
    assert(none + others == others);
    unfinished_step(rest);
    first_payload(rest);
    taken_over_marker(object, false, usage, rest, others);
    if rest.len() > 0 {
        assert(rest.take(rest.len() as int) == rest);
        assert(seq![rest] + no_offers == seq![rest]);
        offered_once(object, usage, rest);
    } else {
        assert(no_offers + no_offers == no_offers);
        assert(object + rest == object);
        reveal(consumed);
    }
}

/// An event whose payload has yet to come announces it.
pub proof fn payload_is_expected(scan: Scan, usage: Option<TokenUsage>, x: Seq<u8>)
    requires
        scan.object.len() == 0,
        scan.marker.len() == 0,
        found_at(x, seq![0x0au8]) is None,
        bytes_trimmed(x).len() == 0,
    ensures
        ({
            let (now, seen) = scanned(scan, usage, event(x));
            now.object.len() == 0 && now.expecting && now.marker.len() == 0 && seen == usage
        }),
{
    let none = Seq::<u8>::empty();
    let frame = event(x);
    assert(scan.marker + frame == frame);
    event_candidates(x);
    event_starts(x, none);
    assert(frame + none == frame);
    assert(bytes_trimmed(x) == none);
    offered_once(scan.object, usage, none);
    assert(scan.object + none == none);
    assert(consumed(none, usage) == (none, usage)) by {
        reveal(consumed);
        reveal(usage_in);
    }
    held_parts(frame);
    if held(frame).len() > 0 {
        event_ends_in_payload(x);
    }
}

/// A marker that an event ends in stands in its payload.
proof fn event_ends_in_payload(x: Seq<u8>)
    requires
        found_at(x, seq![0x0au8]) is None,
        held(event(x)).len() > 0,
    ensures
        unfinished(settled(event(x))) is Some,
{
    let frame = event(x);
    held_parts(frame);
    let n = held(frame).len() as int;
    held_length(frame, n);
    let at = frame.len() - n;
    assert(frame.skip(at)[0] == sse_data().take(n)[0]);
    assert(frame.skip(at)[0] == 0x64);
    if at < 6 {
        assert(frame[at] == (sse_data() + seq![0x20u8])[at]);
        assert(at == 0);
        assert(false);
    }
    let left = x.take(x.len() - n);
    assert(frame.take(at) == event(left));
    assert(x == left + x.skip(x.len() - n));
    found_in_no_part(left, x.skip(x.len() - n), seq![0x0au8]);
    event_candidates(left);
}

/// Offering nothing more changes nothing once an attempt has been made.
proof fn offered_nothing(pending: Seq<u8>, usage: Option<TokenUsage>)
    ensures
        ({
            let (pending, usage) = consumed(pending, usage);
            consumed(pending + Seq::<u8>::empty(), usage)
        }) == consumed(pending, usage),
{
    reveal(consumed);
    let (left, now) = consumed(pending, usage);
    assert(left + Seq::<u8>::empty() == left);
    if left.len() == 0 {
        assert(left == Seq::<u8>::empty());
        assert(usage_in(left) is CutOff) by {
            reveal(usage_in);
        }
    }
}

/// The first line break is the one that ends the line.
proof fn line_break_found(x: Seq<u8>, rest: Seq<u8>)
    requires
        found_at(x, seq![0x0au8]) is None,
    ensures
        found_at(x + (seq![0x0au8] + rest), seq![0x0au8]) == Some(x.len() as int),
    decreases x.len(),
{
    let line = x + (seq![0x0au8] + rest);
    if x.len() == 0 {
        assert(line.take(1) == seq![0x0au8]);
    } else {
        assert(line.take(1) == x.take(1));
        assert(line.skip(1) == x.skip(1) + (seq![0x0au8] + rest));
        line_break_found(x.skip(1), rest);
    }
}

/// A text that ends in a line break does not end in a marker.
proof fn line_break_is_settled(data: Seq<u8>)
    requires
        data.len() > 0,
        data.last() == 0x0a || data.last() == 0x0d,
    ensures
        settled(data) == data,
        held(data) == Seq::<u8>::empty(),
{
    assert forall|k: int| !ends_in_marker(data, k) by {
        if ends_in_marker(data, k) {
            assert(data.skip(data.len() - k)[k - 1] == sse_data().take(k)[k - 1]);
        }
    }
    held_length(data, 0);
    assert(data.take(data.len() as int) == data);
    assert(data.skip(data.len() as int) == Seq::<u8>::empty());
}

/// Line breaks, such as those that end an event.
pub open spec fn line_breaks(data: Seq<u8>) -> bool {
    data.len() > 0 && data[0] == 0x0a && forall|i: int|
        0 <= i < data.len() ==> #[trigger] data[i] == 0x0a || data[i] == 0x0d
}

/// No marker stands in line breaks.
proof fn line_breaks_hold_no_marker(gap: Seq<u8>)
    requires
        line_breaks(gap),
    ensures
        found_at(gap, sse_data()) is None,
{
    found_at_bounds(gap, sse_data());
    if let Some(i) = found_at(gap, sse_data()) {
        assert(gap.subrange(i, i + 5)[0] == gap[i]);
        assert(sse_data()[0] == 0x64);
    }
}

/// Line breaks offer nothing.
proof fn line_breaks_candidates(gap: Seq<u8>)
    requires
        line_breaks(gap),
    ensures
        candidates(gap, false) == seq![Seq::<u8>::empty()],
{
    line_breaks_hold_no_marker(gap);
    plain_candidates(gap);
    space_is_trimmed(gap);
}

/// Nothing is left of white space.
proof fn space_is_trimmed(data: Seq<u8>)
    requires
        forall|i: int| 0 <= i < data.len() ==> ascii_space(#[trigger] data[i]),
    ensures
        bytes_trimmed(data) == Seq::<u8>::empty(),
    decreases data.len(),
{
    if data.len() > 0 {
        assert forall|i: int| 0 <= i < data.skip(1).len() implies ascii_space(
            #[trigger] data.skip(1)[i],
        ) by {
            assert(data.skip(1)[i] == data[i + 1]);
        }
        assert(ascii_space(data[0]));
        space_is_trimmed(data.skip(1));
    }
}

/// An event and its line breaks.
proof fn event_line(x: Seq<u8>, gap: Seq<u8>, open: bool)
    requires
        found_at(x, seq![0x0au8]) is None,
        line_breaks(gap),
    ensures
        unfinished(event(x) + gap) is None,
        offers_before_marker(event(x) + gap, open) == seq![bytes_trimmed(x)],
        candidates(event(x) + gap, open) == seq![bytes_trimmed(x)] + seq![Seq::<u8>::empty()],
{
    let frame = event(x) + gap;
    let none = Seq::<Seq<u8>>::empty();
    let first = seq![bytes_trimmed(x)];
    event_line_split(x, gap);
    line_breaks_candidates(gap);
    first_payload(frame);
    first_payload(gap);
    unfinished_step(frame);
    unfinished_step(gap);
    payload_candidates(frame);
    front_candidates(frame);
    assert(none + candidates(frame, false) == candidates(frame, false));
    assert(none + payloads(frame) == payloads(frame));
    assert(first + none == first);
}

/// The line of an event ends where its line breaks begin, and no marker stands in them.
proof fn event_line_split(x: Seq<u8>, gap: Seq<u8>)
    requires
        found_at(x, seq![0x0au8]) is None,
        line_breaks(gap),
    ensures
        ({
            let line = payload((event(x) + gap).skip(0));
            &&& found_at(event(x) + gap, sse_data()) == Some(0int)
            &&& found_at(line, seq![0x0au8]) == Some(x.len() as int)
            &&& line.take(x.len() as int) == x
            &&& line.skip(x.len() as int) == gap
        }),
        found_at(gap, sse_data()) is None,
{
    event_starts(x, gap);
    assert(gap == seq![0x0au8] + gap.skip(1));
    line_break_found(x, gap.skip(1));
    let line = x + gap;
    assert(line.take(x.len() as int) == x);
    assert(line.skip(x.len() as int) == gap);
    line_breaks_hold_no_marker(gap);
}

/// The line that a frame ends in, one payload at a time.
proof fn unfinished_step(frame: Seq<u8>)
    ensures
        unfinished(frame) == (match found_at(frame, sse_data()) {
            Some(start) => {
                let line = payload(frame.skip(start));
                match found_at(line, seq![0x0au8]) {
                    Some(end) => unfinished(line.skip(end)),
                    None => Some(line),
                }
            },
            None => None,
        }),
{
    reveal(unfinished);
}

/// Events that are batched into one write are all read: a frame that starts with an event and
/// goes on, behind its line breaks, with further ones is read as if the event had been written on
/// its own.
pub proof fn batched_events_are_all_read(
    scan: Scan,
    usage: Option<TokenUsage>,
    x: Seq<u8>,
    gap: Seq<u8>,
    others: Seq<u8>,
)
    requires
        scan.marker.len() == 0,
        found_at(x, seq![0x0au8]) is None,
        line_breaks(gap),
        starts_with_marker(others),
    ensures
        scanned(scan, usage, event(x) + gap + others) == ({
            let (scan, usage) = scanned(scan, usage, event(x) + gap);
            scanned(scan, usage, others)
        }),
{
    let none = Seq::<u8>::empty();
    let line = event(x) + gap;
    let first = bytes_trimmed(x);
    assert(scan.marker + line == line);
    assert(scan.marker + (line + others) == line + others);
    assert(none + others == others);
    assert(line.last() == gap[gap.len() - 1]);
    line_break_is_settled(line);
    event_line(x, gap, scan.object.len() > 0);
    event_starts(x, gap);
    event_starts(x, gap + others);
    assert(event(x) + (gap + others) == line + others);
    taken_over_marker(scan.object, scan.expecting, usage, line, others);
    offered_first(scan.object, usage, first, seq![none]);
    offered_once(scan.object, usage, first);
    let (left, now) = consumed(scan.object + first, usage);
    offered_once(left, now, none);
    offered_nothing(scan.object + first, usage);
}

/// A field with a more authoritative name decides, whatever the others say.
pub proof fn effort_precedence(found: Seq<(Seq<char>, Tree)>)
    ensures
        effort_named(found, "reasoning_effort"@) is Some ==> effort_among(found) == effort_named(
            found,
            "reasoning_effort"@,
        ),
        effort_named(found, "reasoning_effort"@) is None && effort_named(found, "thinking"@) is Some
            ==> effort_among(found) == effort_named(found, "thinking"@),
        effort_named(found, "reasoning_effort"@) is None && effort_named(found, "thinking"@) is None
            && effort_named(found, "reasoning"@) is Some ==> effort_among(found) == effort_named(
            found,
            "reasoning"@,
        ),
{
}

/// The order in which fields with different names come does not change the thinking effort.
pub proof fn effort_ignores_field_order(
    before: Seq<(Seq<char>, Tree)>,
    x: (Seq<char>, Tree),
    y: (Seq<char>, Tree),
    behind: Seq<(Seq<char>, Tree)>,
)
    requires
        x.0 != y.0,
    ensures
        effort_among(before + seq![x, y] + behind) == effort_among(before + seq![y, x] + behind),
{
    effort_named_swapped(before, x, y, behind, "reasoning_effort"@);
    effort_named_swapped(before, x, y, behind, "thinking"@);
    effort_named_swapped(before, x, y, behind, "reasoning"@);
    effort_named_swapped(before, x, y, behind, "thinking_effort"@);
}

proof fn effort_named_swapped(
    before: Seq<(Seq<char>, Tree)>,
    x: (Seq<char>, Tree),
    y: (Seq<char>, Tree),
    behind: Seq<(Seq<char>, Tree)>,
    name: Seq<char>,
)
    requires
        x.0 != y.0,
    ensures
        effort_named(before + seq![x, y] + behind, name) == effort_named(
            before + seq![y, x] + behind,
            name,
        ),
    decreases before.len(),
{
    let one = before + seq![x, y] + behind;
    let other = before + seq![y, x] + behind;
    if before.len() > 0 {
        effort_named_swapped(before.skip(1), x, y, behind, name);
        assert(one.skip(1) == before.skip(1) + seq![x, y] + behind);
        assert(other.skip(1) == before.skip(1) + seq![y, x] + behind);
    } else {
        assert(one.skip(1).skip(1) == behind);
        assert(other.skip(1).skip(1) == behind);
        assert(one[0] == x && one.skip(1)[0] == y);
        assert(other[0] == y && other.skip(1)[0] == x);
        reveal_with_fuel(effort_named, 3);
    }
}

/// Of two reports the later one is held, unless the earlier one tells more of the five counters;
/// a report that is missing changes nothing.
pub proof fn later_report_replaces_an_earlier_one(earlier: TokenUsage, later: TokenUsage)
    ensures
        ({
            let before = (if earlier.prompt_tokens is Some { 1int } else { 0 })
                + (if earlier.completion_tokens is Some { 1int } else { 0 })
                + (if earlier.total_tokens is Some { 1int } else { 0 })
                + (if earlier.reasoning_tokens is Some { 1int } else { 0 })
                + (if earlier.cached_tokens is Some { 1int } else { 0 });
            let now = (if later.prompt_tokens is Some { 1int } else { 0 })
                + (if later.completion_tokens is Some { 1int } else { 0 })
                + (if later.total_tokens is Some { 1int } else { 0 })
                + (if later.reasoning_tokens is Some { 1int } else { 0 })
                + (if later.cached_tokens is Some { 1int } else { 0 });
            &&& now >= before ==> merged(Some(earlier), Some(later)) == Some(later)
            &&& now < before ==> merged(Some(earlier), Some(later)) == Some(earlier)
        }),
        merged(None, Some(later)) == Some(later),
        merged(Some(earlier), None) == Some(earlier),
{
}

/// Whether `held` is the last of those of `reports` that tell the most counters, or nothing when
/// there is no report among them.
pub open spec fn last_of_the_most_complete(
    reports: Seq<Option<TokenUsage>>,
    held: Option<TokenUsage>,
) -> bool {
    match held {
        None => forall|j: int| 0 <= j < reports.len() ==> (#[trigger] reports[j]) is None,
        Some(best) => exists|k: int|
            {
                &&& 0 <= k < reports.len()
                &&& #[trigger] reports[k] == Some(best)
                &&& forall|j: int|
                    #![trigger reports[j]]
                    0 <= j < reports.len() && reports[j] is Some ==> {
                        &&& counters_told(reports[j].unwrap()) <= counters_told(best)
                        &&& j > k ==> counters_told(reports[j].unwrap()) < counters_told(best)
                    }
            },
    }
}

/// One event as it is written: what stands in front of its marker, such as a line with its type or a
/// comment, and, behind the marker, white space, the payload, white space again, and line breaks.
pub ghost struct EventText {
    pub lead: Seq<u8>,
    pub left: Seq<u8>,
    pub object: Seq<u8>,
    pub right: Seq<u8>,
    pub gap: Seq<u8>,
}

/// Whether the marker of an event stands nowhere in `frame`.
pub open spec fn has_no_marker(frame: Seq<u8>) -> bool {
    forall|i: int|
        0 <= i && i + 5 <= frame.len() ==> #[trigger] frame.subrange(i, i + 5) != seq![
            0x64u8,
            0x61u8,
            0x74u8,
            0x61u8,
            0x3au8,
        ]
}

/// Whether `frame` is one event.
pub open spec fn is_event(frame: Seq<u8>, event: EventText) -> bool {
    &&& frame == event.lead + seq![0x64u8, 0x61u8, 0x74u8, 0x61u8, 0x3au8] + event.left
        + event.object + event.right + event.gap
    &&& has_no_marker(event.lead)
    &&& forall|i: int|
        0 <= i < event.left.len() ==> #[trigger] event.left[i] == 32 || event.left[i] == 9
    &&& event.object.len() > 0
    &&& event.object[0] > 32
    &&& event.object.last() > 32
    &&& forall|i: int| 0 <= i < event.object.len() ==> #[trigger] event.object[i] != 10
    &&& forall|i: int|
        0 <= i < event.right.len() ==> #[trigger] event.right[i] == 32 || event.right[i] == 9
            || event.right[i] == 13
    &&& event.gap.len() > 0
    &&& event.gap[0] == 10
    &&& forall|i: int|
        0 <= i < event.gap.len() ==> #[trigger] event.gap[i] == 10 || event.gap[i] == 13
}

/// A line without a line break has none to find.
proof fn no_line_break(x: Seq<u8>)
    requires
        forall|i: int| 0 <= i < x.len() ==> #[trigger] x[i] != 0x0a,
    ensures
        found_at(x, seq![0x0au8]) is None,
{
    found_at_bounds(x, seq![0x0au8]);
    if let Some(i) = found_at(x, seq![0x0au8]) {
        assert(x.subrange(i, i + 1)[0] == x[i]);
    }
}

/// The line of an event, whatever follows its first line break.
proof fn event_line_of(frame: Seq<u8>, event: EventText, tail: Seq<u8>)
    requires
        is_event(frame, event),
        tail.len() > 0,
        tail[0] == 10,
    ensures
        ({
            let whole = frame.take(frame.len() - event.gap.len()) + tail;
            let line = payload(whole.skip(event.lead.len() as int));
            let end = found_or_end(line, seq![0x0au8]);
            &&& found_at(whole, sse_data()) == Some(event.lead.len() as int)
            &&& found_at(line, seq![0x0au8]) is Some
            &&& bytes_trimmed(line.take(end)) == event.object
            &&& line.skip(end) == tail
        }),
{
    let (left, object, right) = (event.left, event.object, event.right);
    let whole = frame.take(frame.len() - event.gap.len()) + tail;
    let at = event.lead.len() as int;
    let marked = sse_data() + left + object + right + tail;
    assert(whole =~= event.lead + marked);
    assert(whole.skip(at) =~= marked);
    assert(marked.take(5) =~= sse_data());
    assert(found_at(marked, sse_data()) == Some(0int));
    found_at_bounds(event.lead, sse_data());
    assert(found_at(event.lead, sse_data()) is None);
    found_over(event.lead, marked);
    let lead = if left.len() > 0 && left[0] == 32 {
        left.skip(1)
    } else {
        left
    };
    let x = lead + object + right;
    assert(marked.skip(5) =~= left + object + right + tail);
    if left.len() > 0 {
        assert(marked.skip(5)[0] == left[0]);
    } else {
        assert(marked.skip(5)[0] == object[0]);
    }
    assert(payload(marked) =~= x + tail);
    assert forall|i: int| 0 <= i < x.len() implies #[trigger] x[i] != 10 by {
        if i < lead.len() {
            assert(lead[i] == left[i + left.len() - lead.len()]);
        } else if i < lead.len() + object.len() {
            assert(x[i] == object[i - lead.len()]);
        } else {
            assert(x[i] == right[i - lead.len() - object.len()]);
        }
    }
    no_line_break(x);
    assert(tail =~= seq![0x0au8] + tail.skip(1));
    line_break_found(x, tail.skip(1));
    let line = x + tail;
    assert(line.take(x.len() as int) =~= x);
    assert(line.skip(x.len() as int) =~= tail);
    assert forall|i: int| 0 <= i < lead.len() implies #[trigger] lead[i] == 32 || 9 <= lead[i] <= 10
        || 12 <= lead[i] <= 13 by {
        assert(lead[i] == left[i + left.len() - lead.len()]);
    }
    payload_is_trimmed_of_ascii_space(lead, object, right);
}

/// One event offers its payload and nothing else.
proof fn event_frame(frame: Seq<u8>, event: EventText)
    requires
        is_event(frame, event),
    ensures
        found_at(frame, sse_data()) == Some(event.lead.len() as int),
        unfinished(frame) is None,
        held(frame) == Seq::<u8>::empty(),
        candidates(frame, false) == seq![event.object, Seq::<u8>::empty()],
        offers_before_marker(frame, false) == seq![event.object],
{
    let none = Seq::<u8>::empty();
    let gap = event.gap;
    assert(frame.take(frame.len() - gap.len()) + gap =~= frame);
    event_line_of(frame, event, gap);
    line_breaks_hold_no_marker(gap);
    line_breaks_candidates(gap);
    unfinished_step(frame);
    unfinished_step(gap);
    payload_candidates(frame);
    assert(frame.last() == gap[gap.len() - 1]);
    line_break_is_settled(frame);
    assert(seq![event.object] + seq![none] =~= seq![event.object, none]);
    first_payload(frame);
    first_payload(gap);
    assert(seq![event.object] + Seq::<Seq<u8>>::empty() =~= seq![event.object]);
    assert(Seq::<Seq<u8>>::empty() + payloads(frame) =~= payloads(frame));
}

/// What is held after one event is what reading its payload comes to.
proof fn event_is_consumed(usage: Option<TokenUsage>, frame: Seq<u8>, event: EventText)
    requires
        is_event(frame, event),
    ensures
        scanned(nothing_held(), usage, frame) == (
            holding(consumed(event.object, usage).0),
            consumed(event.object, usage).1,
        ),
{
    let none = Seq::<u8>::empty();
    let object = event.object;
    let scan = nothing_held();
    assert(scan.marker + frame == frame);
    event_frame(frame, event);
    offered_first(none, usage, object, seq![none]);
    offered_once(none, usage, object);
    assert(none + object == object);
    let (kept, now) = consumed(object, usage);
    offered_once(kept, now, none);
    offered_nothing(object, usage);
    assert(seq![object, none] =~= seq![object] + seq![none]);
}

/// What one event reports is merged into what was held, and nothing is left waiting.
pub proof fn event_is_merged(
    usage: Option<TokenUsage>,
    frame: Seq<u8>,
    event: EventText,
    report: Option<TokenUsage>,
    used: usize,
)
    requires
        is_event(frame, event),
        event.object.len() <= 16384,
        usage_in(event.object) == Reading::Done(report, used),
    ensures
        scanned(nothing_held(), usage, frame) == (nothing_held(), merged(usage, report)),
{
    event_is_consumed(usage, frame, event);
    reveal(consumed);
}

/// An event that cannot be read, or is longer than 16 KiB, reports nothing, and nothing of it is
/// left waiting.
pub proof fn unreadable_event_is_dropped(
    usage: Option<TokenUsage>,
    frame: Seq<u8>,
    event: EventText,
)
    requires
        is_event(frame, event),
        usage_in(event.object) is Bad || event.object.len() > 16384,
    ensures
        scanned(nothing_held(), usage, frame) == (nothing_held(), usage),
{
    event_is_consumed(usage, frame, event);
    reveal(consumed);
}

/// An event whose object is cut off is kept to be read on, and changes nothing until then.
pub proof fn cut_off_event_is_kept(usage: Option<TokenUsage>, frame: Seq<u8>, event: EventText)
    requires
        is_event(frame, event),
        event.object.len() <= 16384,
        usage_in(event.object) is CutOff,
    ensures
        scanned(nothing_held(), usage, frame) == (holding(event.object), usage),
{
    event_is_consumed(usage, frame, event);
    reveal(consumed);
}

/// After any number of events the usage that is held is the last of the most complete reports
/// among them, so of equally complete reports the later one counts.
pub proof fn last_of_the_most_complete_reports_is_held(
    frames: Seq<Seq<u8>>,
    events: Seq<EventText>,
    reports: Seq<Option<TokenUsage>>,
    used: Seq<usize>,
)
    requires
        events.len() == frames.len(),
        reports.len() == frames.len(),
        used.len() == frames.len(),
        forall|i: int|
            #![trigger events[i]]
            0 <= i < events.len() ==> {
                &&& is_event(frames[i], events[i])
                &&& events[i].object.len() <= 16384
                &&& usage_in(events[i].object) == Reading::Done(reports[i], used[i])
            },
    ensures
        scanned_all(nothing_held(), None, frames).0 == nothing_held(),
        last_of_the_most_complete(reports, scanned_all(nothing_held(), None, frames).1),
    decreases frames.len(),
{
    if frames.len() > 0 {
        let n = frames.len() - 1;
        let others = reports.drop_last();
        let earlier = events.drop_last();
        assert forall|i: int|
            #![trigger earlier[i]]
            0 <= i < earlier.len() implies ({
            &&& is_event(frames.drop_last()[i], earlier[i])
            &&& earlier[i].object.len() <= 16384
            &&& usage_in(earlier[i].object) == Reading::Done(others[i], used.drop_last()[i])
        }) by {
            assert(earlier[i] == events[i]);
        }
        last_of_the_most_complete_reports_is_held(
            frames.drop_last(),
            earlier,
            others,
            used.drop_last(),
        );
        let kept = scanned_all(nothing_held(), None, frames.drop_last()).1;
        assert(is_event(frames[n], events[n]));
        event_is_merged(kept, frames[n], events[n], reports[n], used[n]);
        one_more_report(others, kept, reports[n]);
        assert(others.push(reports[n]) =~= reports);
    }
}

/// Merging one more report keeps the last of the most complete ones.
proof fn one_more_report(
    reports: Seq<Option<TokenUsage>>,
    held: Option<TokenUsage>,
    report: Option<TokenUsage>,
)
    requires
        last_of_the_most_complete(reports, held),
    ensures
        last_of_the_most_complete(reports.push(report), merged(held, report)),
{
    let all = reports.push(report);
    let now = merged(held, report);
    let n = reports.len() as int;
    assert(all[n] == report);
    assert forall|j: int| 0 <= j < n implies #[trigger] all[j] == reports[j] by {}
    if let Some(best) = held {
        let k = choose|k: int|
            {
                &&& 0 <= k < reports.len()
                &&& #[trigger] reports[k] == Some(best)
                &&& forall|j: int|
                    #![trigger reports[j]]
                    0 <= j < reports.len() && reports[j] is Some ==> {
                        &&& counters_told(reports[j].unwrap()) <= counters_told(best)
                        &&& j > k ==> counters_told(reports[j].unwrap()) < counters_told(best)
                    }
            };
        assert forall|j: int| 0 <= j < n && reports[j] is Some implies counters_told(
            (#[trigger] reports[j]).unwrap(),
        ) <= counters_told(best) && (j > k ==> counters_told(reports[j].unwrap()) < counters_told(
            best,
        )) by {}
        if let Some(seen) = report {
            if counters_told(seen) >= counters_told(best) {
                assert(now == Some(seen));
                assert(all[n] == Some(seen));
            } else {
                assert(now == Some(best));
                assert(all[k] == Some(best));
            }
        } else {
            assert(all[k] == Some(best));
        }
    }
}

/// A report tells the counters that its `usage` object gives, each under its own name: the prompt,
/// completion and total counters as they are, the reasoning counter of the completion details and
/// the cache counter of the prompt details. Only a total that is not given is made up, as the sum
/// of the prompt and completion counters, in 64 bits, where both are given.
pub proof fn report_tells_the_given_counters(body: UsageBody)
    ensures
        ({
            let report = usage_of(body);
            let prompt = if body.prompt_tokens is Some {
                body.prompt_tokens.unwrap()
            } else {
                None
            };
            let completion = if body.completion_tokens is Some {
                body.completion_tokens.unwrap()
            } else {
                None
            };
            &&& report.prompt_tokens == prompt
            &&& report.completion_tokens == completion
            &&& match body.total_tokens {
                Some(Some(total)) => report.total_tokens == Some(total),
                _ => if prompt is Some && completion is Some {
                    report.total_tokens is Some && report.total_tokens.unwrap() == (prompt.unwrap()
                        + completion.unwrap()) % 0x1_0000_0000_0000_0000
                } else {
                    report.total_tokens is None
                },
            }
            &&& report.reasoning_tokens == (match body.completion_tokens_details {
                Some(details) if details.reasoning_tokens is Some => details.reasoning_tokens.unwrap(),
                _ => None,
            })
            &&& report.cached_tokens == (match body.prompt_tokens_details {
                Some(details) if details.cached_tokens is Some => details.cached_tokens.unwrap(),
                _ => None,
            })
        }),
{
}

/// A counter of a `usage` object is read from the field of its name, and at most once.
pub proof fn counters_are_read_by_name(
    s: UsageBody,
    gap: Seq<u8>,
    value: Seq<u8>,
    count: Option<u64>,
    used: usize,
)
    requires
        all_blank(gap),
        gap.len() + 1 + value.len() <= usize::MAX,
        count_read(value) == Reading::Done(count, used),
    ensures
        ({
            let rest = gap + seq![0x3au8] + value;
            let end = (gap.len() + 1 + used) as usize;
            &&& UsageBody::step(s, "prompt_tokens"@, rest) == (if s.prompt_tokens is None {
                Reading::Done(UsageBody { prompt_tokens: Some(count), ..s }, end)
            } else {
                Reading::Bad
            })
            &&& UsageBody::step(s, "completion_tokens"@, rest) == (if s.completion_tokens is None {
                Reading::Done(UsageBody { completion_tokens: Some(count), ..s }, end)
            } else {
                Reading::Bad
            })
            &&& UsageBody::step(s, "total_tokens"@, rest) == (if s.total_tokens is None {
                Reading::Done(UsageBody { total_tokens: Some(count), ..s }, end)
            } else {
                Reading::Bad
            })
        }),
{
    colon_comes_before_the_value(gap, 0x3a, value);
    reveal_strlit("prompt_tokens");
    reveal_strlit("completion_tokens");
    reveal_strlit("total_tokens");
    reveal_strlit("prompt_tokens_details");
    reveal_strlit("completion_tokens_details");
    assert("prompt_tokens"@.len() == 13 && "completion_tokens"@.len() == 17);
    assert("total_tokens"@.len() == 12);
}

/// A counter of the details is read from the field of its name, and at most once.
pub proof fn detail_counters_are_read_by_name(
    s: TokenDetails,
    gap: Seq<u8>,
    value: Seq<u8>,
    count: Option<u64>,
    used: usize,
)
    requires
        all_blank(gap),
        gap.len() + 1 + value.len() <= usize::MAX,
        count_read(value) == Reading::Done(count, used),
    ensures
        ({
            let rest = gap + seq![0x3au8] + value;
            let end = (gap.len() + 1 + used) as usize;
            &&& TokenDetails::step(s, "cached_tokens"@, rest) == (if s.cached_tokens is None {
                Reading::Done(TokenDetails { cached_tokens: Some(count), ..s }, end)
            } else {
                Reading::Bad
            })
            &&& TokenDetails::step(s, "reasoning_tokens"@, rest) == (if s.reasoning_tokens is None {
                Reading::Done(TokenDetails { reasoning_tokens: Some(count), ..s }, end)
            } else {
                Reading::Bad
            })
        }),
{
    colon_comes_before_the_value(gap, 0x3a, value);
    reveal_strlit("cached_tokens");
    reveal_strlit("reasoning_tokens");
    assert("cached_tokens"@.len() == 13 && "reasoning_tokens"@.len() == 16);
}

/// The details of the prompt and of the completion are read from the objects of their names, and at
/// most once.
pub proof fn details_are_read_by_name(
    s: UsageBody,
    gap: Seq<u8>,
    value: Seq<u8>,
    details: TokenDetails,
    used: usize,
)
    requires
        all_blank(gap),
        gap.len() + 1 + value.len() <= usize::MAX,
        value.len() > 0,
        value[0] == 0x7b,
        object_read::<TokenDetails>(
            value,
            TokenDetails { cached_tokens: None, reasoning_tokens: None },
        ) == Reading::Done(details, used),
    ensures
        ({
            let rest = gap + seq![0x3au8] + value;
            let end = (gap.len() + 1 + used) as usize;
            &&& UsageBody::step(s, "prompt_tokens_details"@, rest) == (
            if s.prompt_tokens_details is None {
                Reading::Done(UsageBody { prompt_tokens_details: Some(details), ..s }, end)
            } else {
                Reading::Bad
            })
            &&& UsageBody::step(s, "completion_tokens_details"@, rest) == (
            if s.completion_tokens_details is None {
                Reading::Done(UsageBody { completion_tokens_details: Some(details), ..s }, end)
            } else {
                Reading::Bad
            })
        }),
{
    colon_comes_before_the_value(gap, 0x3a, value);
    assert(blanks(value) == 0);
    reveal_strlit("prompt_tokens");
    reveal_strlit("completion_tokens");
    reveal_strlit("total_tokens");
    reveal_strlit("prompt_tokens_details");
    reveal_strlit("completion_tokens_details");
    assert("prompt_tokens"@.len() == 13 && "completion_tokens"@.len() == 17);
    assert("total_tokens"@.len() == 12);
    assert("prompt_tokens_details"@.len() == 21 && "completion_tokens_details"@.len() == 25);
}

/// A field of any other name is passed over, whatever its value is.
pub proof fn other_counters_are_passed_over(
    s: UsageBody,
    d: TokenDetails,
    u: Option<TokenUsage>,
    name: Seq<char>,
    gap: Seq<u8>,
    value: Seq<u8>,
    used: usize,
)
    requires
        all_blank(gap),
        gap.len() + 1 + value.len() <= usize::MAX,
        value_skipped(value) == Reading::Done((), used),
    ensures
        ({
            let rest = gap + seq![0x3au8] + value;
            let end = (gap.len() + 1 + used) as usize;
            &&& {
                &&& name != "prompt_tokens"@
                &&& name != "completion_tokens"@
                &&& name != "total_tokens"@
                &&& name != "prompt_tokens_details"@
                &&& name != "completion_tokens_details"@
            } ==> UsageBody::step(s, name, rest) == Reading::Done(s, end)
            &&& name != "cached_tokens"@ && name != "reasoning_tokens"@ ==> TokenDetails::step(
                d,
                name,
                rest,
            ) == Reading::Done(d, end)
            &&& name != "usage"@ ==> UsageProbe::step(u, name, rest) == Reading::Done(u, end)
        }),
{
    colon_comes_before_the_value(gap, 0x3a, value);
}

/// The `usage` of a body or an event is read from the object of that name; `null` reports nothing.
pub proof fn usage_is_read_by_name(
    u: Option<TokenUsage>,
    gap: Seq<u8>,
    value: Seq<u8>,
    body: UsageBody,
    used: usize,
)
    requires
        all_blank(gap),
        gap.len() + 1 + value.len() <= usize::MAX,
        value.len() > 0,
    ensures
        ({
            let rest = gap + seq![0x3au8] + value;
            let end = (gap.len() + 1 + used) as usize;
            &&& value[0] == 0x7b && object_read::<UsageBody>(
                value,
                UsageBody {
                    prompt_tokens: None,
                    completion_tokens: None,
                    total_tokens: None,
                    prompt_tokens_details: None,
                    completion_tokens_details: None,
                },
            ) == Reading::Done(body, used) ==> UsageProbe::step(u, "usage"@, rest) == Reading::Done(
                Some(usage_of(body)),
                end,
            )
            &&& value[0] == 0x6e && value_skipped(value) == Reading::Done((), used)
                ==> UsageProbe::step(u, "usage"@, rest) == Reading::Done(None::<TokenUsage>, end)
        }),
{
    colon_comes_before_the_value(gap, 0x3a, value);
    if value[0] == 0x7b || value[0] == 0x6e {
        assert(blanks(value) == 0);
    }
}

/// A body whose only field is `usage` reports what is read from that field.
pub proof fn usage_field_is_reported(field: Seq<u8>, length: usize, report: Option<TokenUsage>)
    requires
        field.len() + 2 <= usize::MAX,
        field.len() > 0,
        field[0] == 0x22,
        0 < length <= field.len(),
        string_read(field + seq![0x7du8]) == Reading::Done("usage"@, length),
        UsageProbe::step(None, "usage"@, (field + seq![0x7du8]).skip(length as int))
            == Reading::Done(report, (field.len() - length) as usize),
    ensures
        usage_in(seq![0x7bu8] + field + seq![0x7du8]) == Reading::Done(
            report,
            (field.len() + 2) as usize,
        ),
{
    object_of_one_field::<UsageProbe>(field, None, "usage"@, length, report);
    reveal(usage_in);
}

/// A body that is not a stream of events is read as a whole, without the white space around it: what
/// it reports is merged into what was held. One that is cut off is kept to be read on, and one that
/// cannot be read, or is longer than 16 KiB, is dropped.
pub proof fn plain_body_is_read(
    usage: Option<TokenUsage>,
    left: Seq<u8>,
    body: Seq<u8>,
    right: Seq<u8>,
)
    requires
        has_no_marker(left + body + right),
        forall|i: int|
            0 <= i < left.len() ==> #[trigger] left[i] == 32 || 9 <= left[i] <= 10 || left[i] == 13,
        forall|i: int|
            0 <= i < right.len() ==> #[trigger] right[i] == 32 || 9 <= right[i] <= 10 || right[i]
                == 13,
        body.len() > 0,
        body[0] > 32,
        body.last() > 32,
    ensures
        ({
            let (scan, now) = scanned(nothing_held(), usage, left + body + right);
            if body.len() > 16384 {
                scan.object.len() == 0 && now == usage
            } else {
                match usage_in(body) {
                    Reading::Done(report, _) => scan.object.len() == 0 && now == merged(
                        usage,
                        report,
                    ),
                    Reading::CutOff => scan.object == body && now == usage,
                    Reading::Bad => scan.object.len() == 0 && now == usage,
                }
            }
        }),
{
    let none = Seq::<u8>::empty();
    let scan = nothing_held();
    let frame = left + body + right;
    assert(scan.marker + frame == frame);
    found_at_bounds(frame, sse_data());
    assert(found_at(frame, sse_data()) is None);
    plain_candidates(frame);
    payload_is_trimmed_of_ascii_space(left, body, right);
    offered_once(none, usage, body);
    assert(none + body == body);
    reveal(consumed);
}

/// Line breaks and other white space between events change nothing.
pub proof fn blank_frames_change_nothing(usage: Option<TokenUsage>, blank: Seq<u8>)
    requires
        forall|i: int|
            0 <= i < blank.len() ==> #[trigger] blank[i] == 32 || 9 <= blank[i] <= 10 || blank[i]
                == 13,
    ensures
        scanned(nothing_held(), usage, blank) == (nothing_held(), usage),
{
    let none = Seq::<u8>::empty();
    let scan = nothing_held();
    assert(scan.marker + blank == blank);
    found_at_bounds(blank, sse_data());
    if let Some(i) = found_at(blank, sse_data()) {
        assert(blank.subrange(i, i + 5)[0] == blank[i]);
        assert(sse_data()[0] == 0x64);
    }
    unfinished_step(blank);
    assert forall|k: int| !ends_in_marker(blank, k) by {
        if ends_in_marker(blank, k) {
            assert(blank.skip(blank.len() - k)[0] == sse_data().take(k)[0]);
        }
    }
    held_length(blank, 0);
    assert(blank.skip(blank.len() as int) =~= none);
    if blank.len() == 0 {
        no_candidates(false);
        assert(blank =~= none);
    } else {
        plain_candidates(blank);
        space_is_trimmed(blank);
        offered_once(none, usage, none);
        assert(none + none =~= none);
        reveal(consumed);
        reveal(usage_in);
    }
}

/// An object that was cut off is read together with what follows it: what the whole reports is
/// merged into what was held, and what is still cut off is kept on. A whole that cannot be read, or
/// is longer than 16 KiB, is dropped.
pub proof fn open_object_is_read_on(usage: Option<TokenUsage>, object: Seq<u8>, frame: Seq<u8>)
    requires
        object.len() > 0,
        frame.len() > 0,
        has_no_marker(frame),
    ensures
        ({
            let whole = object + frame;
            let (scan, now) = scanned(holding(object), usage, frame);
            if whole.len() > 16384 {
                scan.object.len() == 0 && now == usage
            } else {
                match usage_in(whole) {
                    Reading::Done(report, _) => scan.object.len() == 0 && now == merged(
                        usage,
                        report,
                    ),
                    Reading::CutOff => scan.object == whole && now == usage,
                    Reading::Bad => scan.object.len() == 0 && now == usage,
                }
            }
        }),
{
    let scan = holding(object);
    assert(scan.marker + frame == frame);
    found_at_bounds(frame, sse_data());
    assert(found_at(frame, sse_data()) is None);
    continuing_candidates(frame);
    offered_once(object, usage, frame);
    reveal(consumed);
}

/// A text expresses the thinking effort that it spells, character for character, without the white
/// space around it.
pub proof fn effort_is_read_as_written(left: Seq<char>, middle: Seq<char>, right: Seq<char>)
    requires
        forall|i: int| 0 <= i < left.len() ==> white_space(#[trigger] left[i]),
        forall|i: int| 0 <= i < right.len() ==> white_space(#[trigger] right[i]),
        middle.len() > 0,
        !white_space(middle[0]),
        !white_space(middle.last()),
    ensures
        effort_value(Tree::Text(left + middle + right)) == Some(middle),
        effort_value(Tree::Text(left)) is None,
{
    trimming_leaves_the_middle(left, middle, right);
    trimming_leaves_nothing_of_white_space(left);
}

/// The first field called `name` is found, and none when there is no such field.
proof fn field_named_first(fields: Seq<(Seq<char>, Tree)>, i: int, name: Seq<char>)
    requires
        0 <= i <= fields.len(),
        forall|k: int| 0 <= k < i ==> (#[trigger] fields[k]).0 != name,
        i < fields.len() ==> fields[i].0 == name,
    ensures
        field_named(fields, name) == (if i < fields.len() {
            Some(fields[i].1)
        } else {
            None
        }),
    decreases fields.len(),
{
    if fields.len() > 0 && i > 0 {
        let rest = fields.skip(1);
        assert forall|k: int| 0 <= k < i - 1 implies (#[trigger] rest[k]).0 != name by {
            assert(rest[k] == fields[k + 1]);
        }
        field_named_first(rest, i - 1, name);
    }
}

/// An object expresses the effort of its `type`, and where it has none of its `effort`; a field of
/// these names that is not a text, and every other field, expresses none.
pub proof fn effort_of_an_object(fields: Seq<(Seq<char>, Tree)>, i: int, j: int)
    requires
        0 <= i <= fields.len(),
        forall|k: int| 0 <= k < i ==> (#[trigger] fields[k]).0 != "type"@,
        i < fields.len() ==> fields[i].0 == "type"@,
        0 <= j <= fields.len(),
        forall|k: int| 0 <= k < j ==> (#[trigger] fields[k]).0 != "effort"@,
        j < fields.len() ==> fields[j].0 == "effort"@,
    ensures
        effort_value(Tree::Object(fields)) == (if i < fields.len() {
            match fields[i].1 {
                Tree::Text(text) => effort_value(Tree::Text(text)),
                _ => None,
            }
        } else if j < fields.len() {
            match fields[j].1 {
                Tree::Text(text) => effort_value(Tree::Text(text)),
                _ => None,
            }
        } else {
            None
        }),
{
    field_named_first(fields, i, "type"@);
    field_named_first(fields, j, "effort"@);
}

/// A value that is neither a text nor an object expresses no effort.
pub proof fn other_values_express_no_effort(value: Tree)
    requires
        !(value is Text),
        !(value is Object),
    ensures
        effort_value(value) is None,
{
}

/// Among the fields of one name the first that expresses an effort counts.
pub proof fn first_effort_of_a_name_counts(found: Seq<(Seq<char>, Tree)>, name: Seq<char>)
    ensures
        match effort_named(found, name) {
            Some(effort) => exists|i: int|
                #![trigger found[i]]
                0 <= i < found.len() && found[i].0 == name && effort_value(found[i].1) == Some(
                    effort,
                ) && forall|k: int|
                    #![trigger found[k]]
                    0 <= k < i && found[k].0 == name ==> effort_value(found[k].1) is None,
            None => forall|k: int|
                #![trigger found[k]]
                0 <= k < found.len() && found[k].0 == name ==> effort_value(found[k].1) is None,
        },
    decreases found.len(),
{
    if found.len() > 0 {
        let rest = found.skip(1);
        if found[0].0 == name && effort_value(found[0].1) is Some {
            assert(effort_named(found, name) == effort_value(found[0].1));
        } else {
            first_effort_of_a_name_counts(rest, name);
            if let Some(effort) = effort_named(rest, name) {
                let i = choose|i: int|
                    #![trigger rest[i]]
                    0 <= i < rest.len() && rest[i].0 == name && effort_value(rest[i].1) == Some(
                        effort,
                    ) && forall|k: int|
                        #![trigger rest[k]]
                        0 <= k < i && rest[k].0 == name ==> effort_value(rest[k].1) is None;
                assert(found[i + 1] == rest[i]);
                assert forall|k: int|
                    #![trigger found[k]]
                    0 <= k < i + 1 && found[k].0 == name implies effort_value(found[k].1) is None by {
                    if k > 0 {
                        assert(rest[k - 1] == found[k]);
                    }
                }
            } else {
                assert forall|k: int|
                    #![trigger found[k]]
                    0 <= k < found.len() && found[k].0 == name implies effort_value(
                    found[k].1,
                ) is None by {
                    if k > 0 {
                        assert(rest[k - 1] == found[k]);
                    }
                }
            }
        }
    }
}

/// The effort of a request body is that of its `reasoning_effort`, or else of its `thinking`, or
/// else of its `reasoning`, or else of its `thinking_effort`. A body that is not one JSON object
/// has none.
pub proof fn effort_of_a_body(body: Seq<u8>)
    ensures
        effort_in(body) == (match gathered(
            body,
            set!["reasoning_effort"@, "thinking"@, "reasoning"@, "thinking_effort"@],
        ) {
            Some(found) => match effort_named(found, "reasoning_effort"@) {
                Some(effort) => Some(effort),
                None => match effort_named(found, "thinking"@) {
                    Some(effort) => Some(effort),
                    None => match effort_named(found, "reasoning"@) {
                        Some(effort) => Some(effort),
                        None => effort_named(found, "thinking_effort"@),
                    },
                },
            },
            None => None,
        }),
{
}

/// The token budget of a request is the first whole number among the fields that can carry one.
pub proof fn first_budget_counts(found: Seq<(Seq<char>, Tree)>)
    ensures
        match budget_among(found) {
            Some(budget) => exists|i: int|
                #![trigger found[i]]
                0 <= i < found.len() && found[i].0 != "n"@ && found[i].1 == Tree::Uint(budget)
                    && forall|k: int|
                    #![trigger found[k]]
                    0 <= k < i && found[k].0 != "n"@ ==> !(found[k].1 is Uint),
            None => forall|k: int|
                #![trigger found[k]]
                0 <= k < found.len() && found[k].0 != "n"@ ==> !(found[k].1 is Uint),
        },
    decreases found.len(),
{
    if found.len() > 0 {
        let front = found.drop_last();
        let n = found.len() - 1;
        first_budget_counts(front);
        if let Some(budget) = budget_among(front) {
            let i = choose|i: int|
                #![trigger front[i]]
                0 <= i < front.len() && front[i].0 != "n"@ && front[i].1 == Tree::Uint(budget)
                    && forall|k: int|
                    #![trigger front[k]]
                    0 <= k < i && front[k].0 != "n"@ ==> !(front[k].1 is Uint);
            assert(found[i] == front[i]);
            assert forall|k: int|
                #![trigger found[k]]
                0 <= k < i && found[k].0 != "n"@ implies !(found[k].1 is Uint) by {
                assert(front[k] == found[k]);
            }
        } else {
            assert forall|k: int|
                #![trigger found[k]]
                0 <= k < n && found[k].0 != "n"@ implies !(found[k].1 is Uint) by {
                assert(front[k] == found[k]);
            }
            assert(found[n] == found.last());
        }
    }
}

/// The number of completions that a request asks for is that of its last `n`, where that is a whole
/// number.
pub proof fn last_choice_count_counts(found: Seq<(Seq<char>, Tree)>, i: int)
    requires
        -1 <= i < found.len(),
        i >= 0 ==> found[i].0 == "n"@,
        forall|k: int| i < k < found.len() ==> (#[trigger] found[k]).0 != "n"@,
    ensures
        choices_among(found) == (if i < 0 {
            None
        } else {
            match found[i].1 {
                Tree::Uint(count) => Some(count),
                _ => None,
            }
        }),
    decreases found.len(),
{
    if found.len() > 0 && i < found.len() - 1 {
        let front = found.drop_last();
        assert(found[found.len() - 1].0 != "n"@);
        assert forall|k: int| i < k < front.len() implies (#[trigger] front[k]).0 != "n"@ by {
            assert(front[k] == found[k]);
        }
        last_choice_count_counts(front, i);
    }
}

/// The budget and the number of completions of a request body are read from its `max_tokens`,
/// `max_completion_tokens`, `max_output_tokens` and `n`. A body that is not one JSON object tells
/// neither.
pub proof fn request_usage_of_a_body(body: Seq<u8>)
    ensures
        match gathered(
            body,
            set!["max_tokens"@, "max_completion_tokens"@, "max_output_tokens"@, "n"@],
        ) {
            Some(found) => {
                &&& request_usage_in(body).max_tokens == budget_among(found)
                &&& request_usage_in(body).choices == choices_among(found)
            },
            None => {
                &&& request_usage_in(body).max_tokens is None
                &&& request_usage_in(body).choices is None
            },
        },
{
}

/// White space around a payload is that of ASCII: space, tab, line feed, form feed and carriage
/// return, and trimming takes nothing else off.
pub proof fn payload_is_trimmed_of_ascii_space(left: Seq<u8>, middle: Seq<u8>, right: Seq<u8>)
    requires
        forall|i: int|
            0 <= i < left.len() ==> #[trigger] left[i] == 32 || 9 <= left[i] <= 10 || 12 <= left[i]
                <= 13,
        forall|i: int|
            0 <= i < right.len() ==> #[trigger] right[i] == 32 || 9 <= right[i] <= 10 || 12
                <= right[i] <= 13,
        middle.len() > 0,
        middle[0] != 32 && middle[0] != 9 && middle[0] != 10 && middle[0] != 12 && middle[0] != 13,
        middle.last() != 32 && middle.last() != 9 && middle.last() != 10 && middle.last() != 12
            && middle.last() != 13,
    ensures
        bytes_trimmed(left + middle + right) == middle,
    decreases left.len() + right.len(),
{
    let all = left + middle + right;
    if left.len() > 0 {
        let rest = left.skip(1);
        assert(all[0] == left[0]);
        assert(all.skip(1) == rest + middle + right);
        assert forall|i: int| 0 <= i < rest.len() implies #[trigger] rest[i] == 32 || 9 <= rest[i]
            <= 10 || 12 <= rest[i] <= 13 by {
            assert(rest[i] == left[i + 1]);
        }
        payload_is_trimmed_of_ascii_space(rest, middle, right);
    } else {
        assert(all == middle + right);
        assert(bytes_trimmed_start(all) == all);
        end_is_trimmed(middle, right);
    }
}

proof fn end_is_trimmed(middle: Seq<u8>, right: Seq<u8>)
    requires
        forall|i: int| 0 <= i < right.len() ==> ascii_space(#[trigger] right[i]),
        middle.len() > 0,
        !ascii_space(middle.last()),
    ensures
        bytes_trimmed_end(middle + right) == middle,
    decreases right.len(),
{
    let all = middle + right;
    if right.len() > 0 {
        let rest = right.drop_last();
        assert(all.drop_last() == middle + rest);
        assert(all.last() == right[right.len() - 1]);
        assert forall|i: int| 0 <= i < rest.len() implies ascii_space(#[trigger] rest[i]) by {
            assert(rest[i] == right[i]);
        }
        end_is_trimmed(middle, rest);
    } else {
        assert(all == middle);
    }
}

/// The first place where a needle stands is the one that is found.
pub proof fn first_occurrence_is_found(haystack: Seq<u8>, needle: Seq<u8>, i: int)
    requires
        needle.len() > 0,
        0 <= i,
        i + needle.len() <= haystack.len(),
        haystack.subrange(i, i + needle.len()) == needle,
        forall|k: int| 0 <= k < i ==> #[trigger] haystack.subrange(k, k + needle.len()) != needle,
    ensures
        found_at(haystack, needle) == Some(i),
    decreases haystack.len(),
{
    assert(haystack.take(needle.len() as int) == haystack.subrange(0, 0int + needle.len()));
    if i > 0 {
        let rest = haystack.skip(1);
        assert(rest.subrange(i - 1, i - 1 + needle.len()) =~= haystack.subrange(
            i,
            i + needle.len(),
        ));
        assert forall|k: int| 0 <= k < i - 1 implies #[trigger] rest.subrange(
            k,
            k + needle.len(),
        ) != needle by {
            assert(rest.subrange(k, k + needle.len()) =~= haystack.subrange(
                k + 1,
                k + 1 + needle.len(),
            ));
        }
        first_occurrence_is_found(rest, needle, i - 1);
    }
}

/// Details that are given as an array are the cache counter and then the reasoning counter.
pub proof fn listed_details_come_in_order(
    rest: Seq<u8>,
    cached: Option<u64>,
    a: usize,
    reasoning: Option<u64>,
    b: usize,
)
    requires
        count_item(rest, true) == Reading::Done(cached, a),
        count_item(rest.skip(a as int), false) == Reading::Done(reasoning, b),
    ensures
        match details_listed(rest) {
            Reading::Done(details, _) => {
                &&& array_end(rest.skip(a + b)) is Done
                &&& details.cached_tokens == Some(cached)
                &&& details.reasoning_tokens == Some(reasoning)
            },
            _ => !(array_end(rest.skip(a + b)) is Done),
        },
{
}

/// Counters that are given as an array are those of the prompt, of the completion and of both.
pub proof fn listed_counters_come_in_order(
    rest: Seq<u8>,
    prompt: Option<u64>,
    a: usize,
    completion: Option<u64>,
    b: usize,
    total: Option<u64>,
    c: usize,
)
    requires
        count_item(rest, true) == Reading::Done(prompt, a),
        count_item(rest.skip(a as int), false) == Reading::Done(completion, b),
        count_item(rest.skip(a + b), false) == Reading::Done(total, c),
    ensures
        counts_listed(rest) matches Reading::Done(body, used) && {
            &&& body.prompt_tokens == Some(prompt)
            &&& body.completion_tokens == Some(completion)
            &&& body.total_tokens == Some(total)
            &&& body.prompt_tokens_details is None
            &&& body.completion_tokens_details is None
            &&& used == (a + b + c) as usize
        },
{
}

/// A `usage` that is given as an array is its three counters, then the details of the prompt, then
/// those of the completion; details that are left out are not told.
pub proof fn listed_usage_comes_in_order(
    rest: Seq<u8>,
    counts: UsageBody,
    a: usize,
    prompt: Option<TokenDetails>,
    b: usize,
    completion: Option<TokenDetails>,
    c: usize,
)
    requires
        counts_listed(rest) == Reading::Done(counts, a),
        details_item(rest.skip(a as int)) == Reading::Done(prompt, b),
        details_item(rest.skip(a + b)) == Reading::Done(completion, c),
    ensures
        match usage_listed(rest) {
            Reading::Done(body, _) => {
                &&& array_end(rest.skip(a + b + c)) is Done
                &&& body.prompt_tokens == counts.prompt_tokens
                &&& body.completion_tokens == counts.completion_tokens
                &&& body.total_tokens == counts.total_tokens
                &&& body.prompt_tokens_details == prompt
                &&& body.completion_tokens_details == completion
            },
            _ => !(array_end(rest.skip(a + b + c)) is Done),
        },
{
}

/// What a body reports is what reading all of it as one object comes to.
pub proof fn usage_is_read_from_the_whole_body(body: Seq<u8>)
    ensures
        usage_in(body) == whole_object_read::<UsageProbe>(body, None),
{
    reveal(usage_in);
}

/// A counter that is an item of an array is read where the item stands; there has to be one.
pub proof fn counters_are_read_in_turn(rest: Seq<u8>, first: bool)
    ensures
        match item_ahead(rest, first) {
            Reading::Done(true, at) => match count_read(rest.skip(at as int)) {
                Reading::Done(count, used) => count_item(rest, first) == Reading::Done(
                    count,
                    (at + used) as usize,
                ),
                Reading::CutOff => count_item(rest, first) is CutOff,
                Reading::Bad => count_item(rest, first) is Bad,
            },
            Reading::Done(false, _) => count_item(rest, first) is Bad,
            Reading::CutOff => count_item(rest, first) is CutOff,
            Reading::Bad => count_item(rest, first) is Bad,
        },
{
}

/// The `usage` of a body may be given as an array.
pub proof fn usage_may_be_an_array(
    u: Option<TokenUsage>,
    gap: Seq<u8>,
    items: Seq<u8>,
    body: UsageBody,
    used: usize,
)
    requires
        all_blank(gap),
        gap.len() + 2 + items.len() <= usize::MAX,
        used <= items.len(),
        usage_listed(items) == Reading::Done(body, used),
    ensures
        UsageProbe::step(u, "usage"@, gap + seq![0x3au8] + (seq![0x5bu8] + items)) == Reading::Done(
            Some(usage_of(body)),
            (gap.len() + 2 + used) as usize,
        ),
{
    let value = seq![0x5bu8] + items;
    colon_comes_before_the_value(gap, 0x3a, value);
    assert(blanks(value) == 0);
    assert(value.skip(1) =~= items);
}

/// The details in it may be given as arrays as well.
pub proof fn details_may_be_an_array(
    s: UsageBody,
    gap: Seq<u8>,
    items: Seq<u8>,
    details: TokenDetails,
    used: usize,
)
    requires
        all_blank(gap),
        gap.len() + 2 + items.len() <= usize::MAX,
        used <= items.len(),
        details_listed(items) == Reading::Done(details, used),
        s.prompt_tokens_details is None,
        s.completion_tokens_details is None,
    ensures
        ({
            let rest = gap + seq![0x3au8] + (seq![0x5bu8] + items);
            let end = (gap.len() + 2 + used) as usize;
            &&& UsageBody::step(s, "prompt_tokens_details"@, rest) == Reading::Done(
                UsageBody { prompt_tokens_details: Some(details), ..s },
                end,
            )
            &&& UsageBody::step(s, "completion_tokens_details"@, rest) == Reading::Done(
                UsageBody { completion_tokens_details: Some(details), ..s },
                end,
            )
        }),
{
    let value = seq![0x5bu8] + items;
    colon_comes_before_the_value(gap, 0x3a, value);
    assert(blanks(value) == 0);
    assert(value.skip(1) =~= items);
    assert(details_read(value) == Reading::Done(details, (1 + used) as usize));
    reveal_strlit("prompt_tokens");
    reveal_strlit("completion_tokens");
    reveal_strlit("total_tokens");
    reveal_strlit("prompt_tokens_details");
    reveal_strlit("completion_tokens_details");
    assert("prompt_tokens"@.len() == 13 && "completion_tokens"@.len() == 17);
    assert("total_tokens"@.len() == 12 && "prompt_tokens_details"@.len() == 21);
    assert("completion_tokens_details"@.len() == 25);
}

/// A counter that cannot be read spoils the report, and one that is cut off leaves it open.
pub proof fn unreadable_counters_spoil_the_report(
    s: UsageBody,
    d: TokenDetails,
    gap: Seq<u8>,
    value: Seq<u8>,
)
    requires
        all_blank(gap),
        gap.len() + 1 + value.len() <= usize::MAX,
        s.prompt_tokens is None && s.completion_tokens is None && s.total_tokens is None,
        d.cached_tokens is None && d.reasoning_tokens is None,
        !(count_read(value) is Done),
    ensures
        ({
            let rest = gap + seq![0x3au8] + value;
            let cut = count_read(value) is CutOff;
            &&& UsageBody::step(s, "prompt_tokens"@, rest) == (if cut {
                Reading::CutOff
            } else {
                Reading::<UsageBody>::Bad
            })
            &&& UsageBody::step(s, "completion_tokens"@, rest) == (if cut {
                Reading::CutOff
            } else {
                Reading::<UsageBody>::Bad
            })
            &&& UsageBody::step(s, "total_tokens"@, rest) == (if cut {
                Reading::CutOff
            } else {
                Reading::<UsageBody>::Bad
            })
            &&& TokenDetails::step(d, "cached_tokens"@, rest) == (if cut {
                Reading::CutOff
            } else {
                Reading::<TokenDetails>::Bad
            })
            &&& TokenDetails::step(d, "reasoning_tokens"@, rest) == (if cut {
                Reading::CutOff
            } else {
                Reading::<TokenDetails>::Bad
            })
        }),
{
    colon_comes_before_the_value(gap, 0x3a, value);
    reveal_strlit("prompt_tokens");
    reveal_strlit("completion_tokens");
    reveal_strlit("total_tokens");
    reveal_strlit("cached_tokens");
    reveal_strlit("reasoning_tokens");
    assert("prompt_tokens"@.len() == 13 && "completion_tokens"@.len() == 17);
    assert("total_tokens"@.len() == 12);
    assert("cached_tokens"@.len() == 13 && "reasoning_tokens"@.len() == 16);
}

/// A `usage` object that cannot be read spoils the body it stands in, and one that is cut off leaves
/// it open.
pub proof fn unreadable_usage_spoils_the_body(
    u: Option<TokenUsage>,
    gap: Seq<u8>,
    value: Seq<u8>,
)
    requires
        all_blank(gap),
        gap.len() + 1 + value.len() <= usize::MAX,
        value.len() > 0,
        value[0] == 0x7b,
    ensures
        ({
            let rest = gap + seq![0x3au8] + value;
            let reading = object_read::<UsageBody>(
                value,
                UsageBody {
                    prompt_tokens: None,
                    completion_tokens: None,
                    total_tokens: None,
                    prompt_tokens_details: None,
                    completion_tokens_details: None,
                },
            );
            &&& reading is Bad ==> UsageProbe::step(u, "usage"@, rest) is Bad
            &&& reading is CutOff ==> UsageProbe::step(u, "usage"@, rest) is CutOff
        }),
{
    colon_comes_before_the_value(gap, 0x3a, value);
    assert(blanks(value) == 0);
}

/// A frame that ends an event and starts the marker of the next one holds that start.
proof fn cut_marker_is_held(
    usage: Option<TokenUsage>,
    frame: Seq<u8>,
    event: EventText,
    k: int,
    report: Option<TokenUsage>,
    used: usize,
)
    requires
        is_event(frame, event),
        event.object.len() <= 16384,
        usage_in(event.object) == Reading::Done(report, used),
        0 < k < 5,
        usage_in(sse_data().take(k)) is Bad,
    ensures
        scanned(nothing_held(), usage, frame + sse_data().take(k)).0.marker == sse_data().take(k),
{
    let none = Seq::<u8>::empty();
    let object = event.object;
    let start = sse_data().take(k);
    let all = frame + start;
    event_frame(frame, event);
    let scan = nothing_held();
    assert(scan.marker + all == all);
    cut_event_frame(frame, event, k);
    assert(all.skip(all.len() - k) =~= start);
    assert(ends_in_marker(all, k));
    held_length(all, k);
    assert(all.take(all.len() - k) =~= frame);
    offered_first(none, usage, object, seq![start]);
    offered_once(none, usage, object);
    assert(none + object == object);
    let (left, now) = consumed(object, usage);
    assert(left == none) by {
        reveal(consumed);
    }
    offered_once(left, now, start);
    assert(none + start == start);
    assert(consumed(start, now).0 == none) by {
        reveal(consumed);
    }
    assert(seq![object, start] =~= seq![object] + seq![start]);
}

/// Such a frame offers the payload of the event and then what it holds.
proof fn cut_event_frame(frame: Seq<u8>, event: EventText, k: int)
    requires
        is_event(frame, event),
        0 < k < 5,
    ensures
        candidates(frame + sse_data().take(k), false) == seq![event.object, sse_data().take(k)],
        found_at(frame + sse_data().take(k), sse_data()) is Some,
{
    let gap = event.gap;
    let start = sse_data().take(k);
    let all = frame + start;
    let rest = gap + start;
    assert(frame.take(frame.len() - gap.len()) + rest =~= all);
    event_line_of(frame, event, rest);
    assert(start[0] == 0x64);
    line_breaks_hold_no_marker(gap);
    found_over(gap, start);
    assert(found_at(start, sse_data()) is None);
    payload_candidates(all);
    plain_candidates(rest);
    assert(start.last() == sse_data()[k - 1]);
    payload_is_trimmed_of_ascii_space(gap, start, Seq::empty());
    assert(gap + start + Seq::<u8>::empty() =~= rest);
    assert(seq![event.object] + seq![start] =~= seq![event.object, start]);
}

/// Two events are both read when they come in one frame.
pub proof fn two_events_in_a_frame_are_merged(
    usage: Option<TokenUsage>,
    first: (Seq<u8>, EventText),
    report: (Option<TokenUsage>, usize),
    second: (Seq<u8>, EventText),
    further: (Option<TokenUsage>, usize),
)
    requires
        is_event(first.0, first.1),
        first.1.object.len() <= 16384,
        usage_in(first.1.object) == Reading::Done(report.0, report.1),
        is_event(second.0, second.1),
        second.1.object.len() <= 16384,
        usage_in(second.1.object) == Reading::Done(further.0, further.1),
        second.1.lead.len() == 0,
    ensures
        scanned(nothing_held(), usage, first.0 + second.0) == (
            nothing_held(),
            merged(merged(usage, report.0), further.0),
        ),
{
    let none = Seq::<u8>::empty();
    let scan = nothing_held();
    let all = first.0 + second.0;
    let object = first.1.object;
    event_frame(first.0, first.1);
    event_frame(second.0, second.1);
    assert(second.0.take(5) =~= sse_data());
    assert(scan.marker + all == all);
    assert(scan.marker + second.0 == second.0);
    assert(second.0[0] == 0x64);
    found_over(first.0, second.0);
    taken_over_marker(none, false, usage, first.0, second.0);
    offered_once(none, usage, object);
    assert(none + object == object);
    let (left, now) = consumed(object, usage);
    assert((left, now) == (none, merged(usage, report.0))) by {
        reveal(consumed);
    }
    event_is_merged(now, second.0, second.1, further.0, further.1);
}

/// An event whose marker is cut anywhere by the end of a frame is read all the same: two events come
/// to the same, whether they are written each on its own, in one frame, or in two frames between
/// which the marker of the second is cut, where the start of a marker alone is no object.
pub proof fn cut_marker_loses_nothing(
    usage: Option<TokenUsage>,
    first: (Seq<u8>, EventText),
    report: (Option<TokenUsage>, usize),
    second: (Seq<u8>, EventText),
    further: (Option<TokenUsage>, usize),
    k: int,
)
    requires
        is_event(first.0, first.1),
        first.1.object.len() <= 16384,
        usage_in(first.1.object) == Reading::Done(report.0, report.1),
        is_event(second.0, second.1),
        second.1.object.len() <= 16384,
        usage_in(second.1.object) == Reading::Done(further.0, further.1),
        second.1.lead.len() == 0,
        0 < k < 5,
        usage_in(second.0.take(k)) is Bad,
    ensures
        scanned_all(
            nothing_held(),
            usage,
            seq![first.0 + second.0.take(k), second.0.skip(k)],
        ) == (nothing_held(), merged(merged(usage, report.0), further.0)),
{
    let start = sse_data().take(k);
    let rest = second.0.skip(k);
    let frames = seq![first.0 + second.0.take(k), rest];
    assert(second.0.take(k) =~= start);
    assert(second.0.take(5) =~= sse_data());
    assert(start + rest =~= second.0);
    cut_marker_is_held(usage, first.0, first.1, k, report.0, report.1);
    assert(starts_with_marker(start + rest));
    split_marker_is_joined(nothing_held(), usage, first.0 + start, rest);
    assert((first.0 + start) + rest =~= first.0 + second.0);
    two_events_in_a_frame_are_merged(usage, first, report, second, further);
    assert(frames.drop_last() =~= seq![first.0 + start]);
    assert(frames.drop_last().drop_last() =~= Seq::empty());
    reveal_with_fuel(scanned_all, 3);
}

/// Details that are an item of an array are read where the item stands; where the array ends instead,
/// there are none, and its end is still to be read.
pub proof fn details_are_read_in_turn(rest: Seq<u8>)
    ensures
        match item_ahead(rest, false) {
            Reading::Done(true, at) => match details_read(rest.skip(at as int)) {
                Reading::Done(details, used) => details_item(rest) == Reading::Done(
                    Some(details),
                    (at + used) as usize,
                ),
                Reading::CutOff => details_item(rest) is CutOff,
                Reading::Bad => details_item(rest) is Bad,
            },
            Reading::Done(false, _) => details_item(rest) == Reading::Done(
                None::<TokenDetails>,
                0usize,
            ),
            Reading::CutOff => details_item(rest) is CutOff,
            Reading::Bad => details_item(rest) is Bad,
        },
{
}

} // verus!
