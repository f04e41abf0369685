//! Caller authentication: validates the unified key, returns 401 on failure.

use hyper::HeaderMap;
use vstd::prelude::*;
use vstd::string::*;
use vstd::utf8::*;

use crate::config::AuthConfig;
use crate::error::GatewayError;
use crate::headers::{
    field_name, first_value_is_read_as_written, header_text, header_values,
    other_values_are_not_text, padded_value_is_trimmed, text_of,
};
use crate::text::{
    chars_of, lower, lowered, same_chars, to_lower, trim, trimmed, trimmed_end, trimmed_start,
    trimming_leaves_nothing_of_white_space, trimming_leaves_the_middle, white_space,
};

verus! {

/// Alternative auth header, accepted for compatibility with some clients.
pub const API_KEY_HEADER: &'static str = "x-api-key";

/// `raw` without white space around it and without the `Bearer ` in front, in any case.
pub open spec fn bearer_stripped(raw: Seq<char>) -> Seq<char> {
    let text = trimmed(raw);
    if text.len() >= 7 && lowered(text.take(7)) == "bearer "@ {
        trimmed(text.skip(7))
    } else {
        text
    }
}

/// The key that a request carries: that of `Authorization`, or else that of `X-API-Key`.
pub open spec fn key_in(fields: Map<Seq<char>, Seq<Seq<u8>>>) -> Option<Seq<char>> {
    match text_of(fields, "authorization"@) {
        Some(raw) if bearer_stripped(raw).len() > 0 => Some(bearer_stripped(raw)),
        _ => match text_of(fields, "x-api-key"@) {
            Some(raw) if trimmed(raw).len() > 0 => Some(trimmed(raw)),
            _ => None,
        },
    }
}

/// Validate the unified key carried by the request.
///
/// - With `auth.enabled = false` every request gets through and `Ok(None)` is returned.
/// - On success, the description mapped to the key is returned (used for audit logs).
pub fn authenticate<'a>(auth: &'a AuthConfig, headers: &HeaderMap) -> (r: Result<
    Option<&'a str>,
    GatewayError,
>)
    ensures
        match r {
            Ok(None) => !auth.enabled,
            Ok(Some(caller)) => {
                &&& auth.enabled
                &&& key_in(header_values(*headers)) matches Some(key)
                &&& auth.keys@.dom().contains(key)
                &&& caller@ == auth.keys@[key]@
            },
            Err(error) => {
                &&& auth.enabled
                &&& error.status.0 == 401
                &&& match key_in(header_values(*headers)) {
                    Some(key) => !auth.keys@.dom().contains(key) && error.message@
                        == "invalid API key"@,
                    None => error.message@
                        == "missing credentials: provide 'Authorization: Bearer <key>' or 'X-API-Key'"@,
                }
            },
        },
{
    if !auth.enabled {
        return Ok(None);
    }
    let key = match extract_key(headers) {
        Some(key) => key,
        None => {
            return Err(
                GatewayError::unauthorized(
                    "missing credentials: provide 'Authorization: Bearer <key>' or 'X-API-Key'",
                ),
            );
        },
    };
    match auth.keys.get(key.as_str()) {
        Some(caller) => Ok(Some(caller.as_str())),
        None => Err(GatewayError::unauthorized("invalid API key")),
    }
}

/// Tries `Authorization` first, then `X-API-Key`; returns the key without the `Bearer ` prefix.
pub fn extract_key(headers: &HeaderMap) -> (r: Option<String>)
    ensures
        match r {
            Some(key) => key_in(header_values(*headers)) == Some(key@),
            None => key_in(header_values(*headers)) is None,
        },
{
    proof {
        reveal_strlit("authorization");
        reveal_strlit("x-api-key");
        assert(field_name("authorization"@));
        assert(field_name("x-api-key"@));
    }
    if let Some(raw) = header_text(headers, "authorization") {
        let key = strip_bearer(raw.as_str());
        if !key.is_empty() {
            return Some(key.to_string());
        }
    }
    if let Some(raw) = header_text(headers, API_KEY_HEADER) {
        let key = trim(raw.as_str());
        if !key.is_empty() {
            return Some(key.to_string());
        }
    }
    None
}

/// Strips the case-insensitive `Bearer ` prefix.
pub fn strip_bearer<'a>(raw: &'a str) -> (key: &'a str)
    ensures
        key@ == bearer_stripped(raw@),
{
    let trimmed = trim(raw);
    let length = trimmed.unicode_len();
    if length < 7 {
        return trimmed;
    }
    let head = trimmed.substring_char(0, 7);
    assert(head@ == trimmed@.take(7));
    let mut prefix = chars_of(head);
    let mut i: usize = 0;
    while i < 7
        invariant
            i <= 7 == prefix@.len() == head@.len(),
            forall|k: int| 0 <= k < i ==> prefix@[k] == lowered(head@)[k],
            forall|k: int| i <= k < 7 ==> prefix@[k] == head@[k],
        decreases 7 - i,
    {
        let c = to_lower(prefix[i]);
        prefix.set(i, c);
        i = i + 1;
    }
    assert(prefix@ == lowered(head@));
    let bearer = chars_of("bearer ");
    if same_chars(prefix.as_slice(), bearer.as_slice()) {
        let rest = trimmed.substring_char(7, length);
        assert(rest@ == trimmed@.skip(7));
        trim(rest)
    } else {
        trimmed
    }
}

/// What is left after trimming the end does not end with white space, and starts as before.
proof fn trimmed_ends(s: Seq<char>)
    ensures
        trimmed_end(s).len() > 0 ==> !white_space(trimmed_end(s).last()) && trimmed_end(s)[0] == s[0],
        trimmed_end(trimmed_end(s)) == trimmed_end(s),
    decreases s.len(),
{
    if s.len() > 0 && white_space(s.last()) {
        trimmed_ends(s.drop_last());
    }
}

/// What stands in front of a text that is not blank is not touched when its end is trimmed.
proof fn trimmed_end_behind(front: Seq<char>, s: Seq<char>)
    requires
        trimmed_end(s).len() > 0,
    ensures
        trimmed_end(front + s) == front + trimmed_end(s),
    decreases s.len(),
{
    let all = front + s;
    assert(all.last() == s.last());
    if white_space(s.last()) {
        assert(all.drop_last() == front + s.drop_last());
        trimmed_end_behind(front, s.drop_last());
    }
}

/// The white space in front of a text comes off whatever follows it.
proof fn trimmed_starts(s: Seq<char>, other: Seq<char>)
    ensures
        trimmed_start(s).len() <= s.len(),
        s == s.take(s.len() - trimmed_start(s).len()) + trimmed_start(s),
        trimmed_start(s.take(s.len() - trimmed_start(s).len()) + other) == trimmed_start(other),
        trimmed_start(s).len() > 0 ==> !white_space(trimmed_start(s)[0]),
    decreases s.len(),
{
    let n = s.len() - trimmed_start(s).len();
    if s.len() > 0 && white_space(s[0]) {
        let rest = s.skip(1);
        trimmed_starts(rest, other);
        let all = s.take(n) + other;
        assert(all.skip(1) == rest.take(n - 1) + other);
        assert(all[0] == s[0]);
        assert(s == seq![s[0]] + rest);
        assert(s.take(n) + trimmed_start(s) == seq![s[0]] + (rest.take(n - 1) + trimmed_start(rest)));
    } else {
        assert(s.take(0) + s == s);
        assert(s.take(0) + other == other);
    }
}

/// Trimming a text whose end is trimmed already comes to the same.
proof fn trimmed_from_its_end(s: Seq<char>)
    requires
        trimmed(s).len() > 0,
    ensures
        trimmed_end(s).len() > 0,
        trimmed(trimmed_end(s)) == trimmed(s),
{
    let inner = trimmed_start(s);
    trimmed_starts(s, trimmed_end(inner));
    let front = s.take(s.len() - inner.len());
    trimmed_end_behind(front, inner);
    trimmed_ends(inner);
    assert(trimmed_start(trimmed_end(inner)) == trimmed_end(inner));
}

/// The word `Bearer` in front of a key is recognised in any case: whatever the case, the key
/// alone is left, without white space around it.
pub proof fn bearer_in_any_case(prefix: Seq<char>, key: Seq<char>)
    requires
        lowered(prefix) == "bearer "@,
        trimmed(key).len() > 0,
    ensures
        bearer_stripped(prefix + key) == trimmed(key),
{
    reveal_strlit("bearer ");
    let raw = prefix + key;
    assert(lowered(prefix).len() == 7);
    assert(lowered(prefix)[0] == lower(prefix[0]));
    assert(!white_space(raw[0]));
    assert(trimmed_start(raw) == raw);
    trimmed_from_its_end(key);
    trimmed_end_behind(prefix, key);
    let left = prefix + trimmed_end(key);
    assert(left.take(7) == prefix);
    assert(left.skip(7) == trimmed_end(key));
}

/// A key in `Authorization` is the one that counts, whatever `X-API-Key` says.
pub proof fn authorization_comes_first(
    fields: Map<Seq<char>, Seq<Seq<u8>>>,
    other: Seq<Seq<u8>>,
    raw: Seq<char>,
)
    requires
        text_of(fields, "authorization"@) == Some(raw),
        bearer_stripped(raw).len() > 0,
    ensures
        key_in(fields) == Some(bearer_stripped(raw)),
        key_in(fields.insert("x-api-key"@, other)) == key_in(fields),
{
    reveal_strlit("authorization");
    reveal_strlit("x-api-key");
    assert("authorization"@.len() == 13 && "x-api-key"@.len() == 9);
}

/// The key behind `Bearer ` in `Authorization` is the caller's, character for character, in
/// whatever case the word is written and whatever white space stands around the key; `X-API-Key`
/// does not count then.
pub proof fn bearer_key_is_read_as_sent(
    fields: Map<Seq<char>, Seq<Seq<u8>>>,
    word: Seq<char>,
    left: Seq<char>,
    key: Seq<char>,
    right: Seq<char>,
)
    requires
        fields.dom().contains("authorization"@),
        fields["authorization"@].len() > 0,
        fields["authorization"@][0] == encode_utf8(word + left + key + right),
        lowered(word) == "bearer "@,
        forall|i: int| 0 <= i < left.len() ==> #[trigger] left[i] == ' ' || left[i] == '\t',
        forall|i: int| 0 <= i < right.len() ==> #[trigger] right[i] == ' ' || right[i] == '\t',
        forall|i: int|
            0 <= i < key.len() ==> ' ' <= #[trigger] key[i] <= '~' || key[i] == '\t',
        key.len() > 0,
        '!' <= key[0] <= '~',
        '!' <= key.last() <= '~',
    ensures
        key_in(fields) == Some(key),
{
    let text = word + left + key + right;
    let rest = left + key + right;
    assert(text == word + rest);
    reveal_strlit("bearer ");
    assert(lowered(word).len() == 7);
    assert forall|i: int| 0 <= i < text.len() implies ' ' <= #[trigger] text[i] <= '~' || text[i]
        == '\t' by {
        if i < 7 {
            assert(lowered(word)[i] == lower(word[i]));
            assert(text[i] == word[i]);
        } else if i < 7 + left.len() {
            assert(text[i] == left[i - 7]);
        } else if i < 7 + left.len() + key.len() {
            assert(text[i] == key[i - 7 - left.len()]);
        } else {
            assert(text[i] == right[i - 7 - left.len() - key.len()]);
        }
    }
    first_value_is_read_as_written(fields, "authorization"@, text);
    trimming_leaves_the_middle(left, key, right);
    bearer_in_any_case(word, rest);
}

/// A key in `Authorization` without the word in front is the caller's as it stands.
pub proof fn bare_key_is_read_as_sent(
    fields: Map<Seq<char>, Seq<Seq<u8>>>,
    left: Seq<char>,
    key: Seq<char>,
    right: Seq<char>,
)
    requires
        fields.dom().contains("authorization"@),
        fields["authorization"@].len() > 0,
        fields["authorization"@][0] == encode_utf8(left + key + right),
        key.len() < 7 || lowered(key.take(7)) != "bearer "@,
        forall|i: int| 0 <= i < left.len() ==> #[trigger] left[i] == ' ' || left[i] == '\t',
        forall|i: int| 0 <= i < right.len() ==> #[trigger] right[i] == ' ' || right[i] == '\t',
        forall|i: int|
            0 <= i < key.len() ==> ' ' <= #[trigger] key[i] <= '~' || key[i] == '\t',
        key.len() > 0,
        '!' <= key[0] <= '~',
        '!' <= key.last() <= '~',
    ensures
        key_in(fields) == Some(key),
{
    padded_value_is_trimmed(fields, "authorization"@, left, key, right);
}

/// Without `Authorization`, the text of `X-API-Key` is the caller's key, character for character.
pub proof fn api_key_header_is_read_as_sent(
    fields: Map<Seq<char>, Seq<Seq<u8>>>,
    left: Seq<char>,
    key: Seq<char>,
    right: Seq<char>,
)
    requires
        !fields.dom().contains("authorization"@),
        fields.dom().contains("x-api-key"@),
        fields["x-api-key"@].len() > 0,
        fields["x-api-key"@][0] == encode_utf8(left + key + right),
        forall|i: int| 0 <= i < left.len() ==> #[trigger] left[i] == ' ' || left[i] == '\t',
        forall|i: int| 0 <= i < right.len() ==> #[trigger] right[i] == ' ' || right[i] == '\t',
        forall|i: int|
            0 <= i < key.len() ==> ' ' <= #[trigger] key[i] <= '~' || key[i] == '\t',
        key.len() > 0,
        '!' <= key[0] <= '~',
        '!' <= key.last() <= '~',
    ensures
        key_in(fields) == Some(key),
{
    padded_value_is_trimmed(fields, "x-api-key"@, left, key, right);
}

/// A request without either header carries no key.
pub proof fn no_header_carries_no_key(fields: Map<Seq<char>, Seq<Seq<u8>>>)
    requires
        !fields.dom().contains("authorization"@),
        !fields.dom().contains("x-api-key"@),
    ensures
        key_in(fields) is None,
{
}

/// An `Authorization` of spaces and tabs alone, and one that is not text, is passed over: the text of
/// `X-API-Key` is the caller's key then.
pub proof fn empty_authorization_is_passed_over(
    fields: Map<Seq<char>, Seq<Seq<u8>>>,
    blank: Seq<char>,
    left: Seq<char>,
    key: Seq<char>,
    right: Seq<char>,
)
    requires
        fields.dom().contains("authorization"@),
        fields["authorization"@].len() > 0,
        fields["authorization"@][0] == encode_utf8(blank) || exists|i: int|
            #![trigger fields["authorization"@][0][i]]
            0 <= i < fields["authorization"@][0].len() && fields["authorization"@][0][i] > 126,
        forall|i: int| 0 <= i < blank.len() ==> #[trigger] blank[i] == ' ' || blank[i] == '\t',
        fields.dom().contains("x-api-key"@),
        fields["x-api-key"@].len() > 0,
        fields["x-api-key"@][0] == encode_utf8(left + key + right),
        forall|i: int| 0 <= i < left.len() ==> #[trigger] left[i] == ' ' || left[i] == '\t',
        forall|i: int| 0 <= i < right.len() ==> #[trigger] right[i] == ' ' || right[i] == '\t',
        forall|i: int|
            0 <= i < key.len() ==> ' ' <= #[trigger] key[i] <= '~' || key[i] == '\t',
        key.len() > 0,
        '!' <= key[0] <= '~',
        '!' <= key.last() <= '~',
    ensures
        key_in(fields) == Some(key),
{
    padded_value_is_trimmed(fields, "x-api-key"@, left, key, right);
    if fields["authorization"@][0] == encode_utf8(blank) {
        assert forall|i: int| 0 <= i < blank.len() implies ' ' <= #[trigger] blank[i] <= '~'
            || blank[i] == '\t' by {}
        first_value_is_read_as_written(fields, "authorization"@, blank);
        trimming_leaves_nothing_of_white_space(blank);
    } else {
        other_values_are_not_text(fields, "authorization"@);
    }
}

/// A text that does not start with the word is kept as it is, without the white space around it.
pub proof fn text_without_the_word_is_kept(left: Seq<char>, key: Seq<char>, right: Seq<char>)
    requires
        forall|i: int| 0 <= i < left.len() ==> white_space(#[trigger] left[i]),
        forall|i: int| 0 <= i < right.len() ==> white_space(#[trigger] right[i]),
        key.len() > 0,
        !white_space(key[0]),
        !white_space(key.last()),
        key.len() < 7 || lowered(key.take(7)) != "bearer "@,
    ensures
        bearer_stripped(left + key + right) == key,
{
    trimming_leaves_the_middle(left, key, right);
}

} // verus!
