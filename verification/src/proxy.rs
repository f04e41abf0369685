//! Forwarding: body reading, header filtering, upstream request building.

use hyper::HeaderMap;
use vstd::prelude::*;
use vstd::set_lib::*;
use vstd::string::*;
use vstd::utf8::*;

use crate::config::{only_path, target_of, Upstream};
use crate::error::{GatewayError, StatusCode};
use crate::headers::{
    append_field, digits_field_value, field_name, field_value, first_value_is_read_as_written,
    has_room, header_count, header_values, held_name, insert_field, is_field_value, list_fields,
    listed, name_from, no_fields, no_headers, text_from, text_stands_in_the_first_value, value_text,
    values_in, values_named, MAX_HEADER_NAMES,
};
use crate::json::{document_read, json_text, Tree};
use crate::json_model::{
    body_without_a_model_is_never_rewritten, every_other_model_is_rewritten, model_in, rewritten,
    try_rewrite_model,
};
use crate::table::ascending;
use crate::text::{
    chars_of, decimal, digits, lowered, name_set, parts_stand_between_separators, same_text, split,
    split_at_each, string_of, trim, trimmed, what_stands_between_separators_is_a_part,
};
use crate::uri::{Uri, UriParts};

verus! {

/// Hop-by-hop headers, which a proxy has to filter out per RFC 7230.
pub open spec fn hop_by_hop() -> Set<Seq<char>> {
    set![
        "connection"@,
        "proxy-connection"@,
        "keep-alive"@,
        "proxy-authenticate"@,
        "proxy-authorization"@,
        "te"@,
        "trailer"@,
        "transfer-encoding"@,
        "upgrade"@,
    ]
}

/// Extra headers stripped from the request:
/// - `host`: must be regenerated from the upstream URI;
/// - `content-length`: declared anew for the body that is sent;
/// - `authorization` / `x-api-key`: re-injected by the key mapping;
/// - `x-model`: gateway-internal routing header, never leaked upstream;
/// - `expect`: keeps 100-continue semantics from being misread by an intermediary.
pub open spec fn request_strip() -> Set<Seq<char>> {
    set![
        "host"@,
        "content-length"@,
        "authorization"@,
        "x-api-key"@,
        "x-model"@,
        "expect"@,
    ]
}

/// Whether one of the header values names the header `name` between its commas.
pub open spec fn token_in(values: Seq<Seq<u8>>, name: Seq<char>) -> bool {
    exists|i: int, j: int| #[trigger] token_at(values, i, j, name)
}

/// Whether the part `j` of the value `i` is `name`, in any case and with white space around it.
pub open spec fn token_at(values: Seq<Seq<u8>>, i: int, j: int, name: Seq<char>) -> bool {
    &&& 0 <= i < values.len()
    &&& value_text(values[i]) matches Some(text)
    &&& 0 <= j < split_at_each(text, ',').len()
    &&& lowered(trimmed(split_at_each(text, ',')[j])) == name
}

/// The custom hop-by-hop headers named in the `Connection` header.
pub open spec fn connection_names(fields: Map<Seq<char>, Seq<Seq<u8>>>) -> Set<Seq<char>> {
    Set::new(
        |name: Seq<char>| field_name(name) && token_in(values_in(fields, "connection"@), name),
    )
}

/// Whether a header of `fields` is not passed on.
pub open spec fn stripped(
    fields: Map<Seq<char>, Seq<Seq<u8>>>,
    extra: Set<Seq<char>>,
    name: Seq<char>,
) -> bool {
    hop_by_hop().contains(name) || extra.contains(name) || connection_names(fields).contains(name)
}

/// The names in a list of texts.
pub open spec fn texts_set(names: Seq<&str>) -> Set<Seq<char>> {
    Set::new(|name: Seq<char>| exists|i: int| 0 <= i < names.len() && (#[trigger] names[i])@ == name)
}

/// Whether `name` is one of `names`.
fn is_one_of(name: &str, names: &[&str]) -> (r: bool)
    ensures
        r == texts_set(names@).contains(name@),
{
    let mut i: usize = 0;
    while i < names.len()
        invariant
            i <= names@.len(),
            forall|k: int| 0 <= k < i ==> (#[trigger] names@[k])@ != name@,
        decreases names@.len() - i,
    {
        if same_text(names[i], name) {
            assert(names@[i as int]@ == name@);
            return true;
        }
        i = i + 1;
    }
    false
}

/// Whether `name` is a hop-by-hop header.
fn is_hop_by_hop(name: &str) -> (r: bool)
    ensures
        r == hop_by_hop().contains(name@),
{
    same_text(name, "connection") || same_text(name, "proxy-connection") || same_text(
        name,
        "keep-alive",
    ) || same_text(name, "proxy-authenticate") || same_text(name, "proxy-authorization")
        || same_text(name, "te") || same_text(name, "trailer") || same_text(
        name,
        "transfer-encoding",
    ) || same_text(name, "upgrade")
}

/// Whether `name` is one of `names`.
fn is_among(name: &str, names: &Vec<String>) -> (r: bool)
    ensures
        r == name_set(names@).contains(name@),
{
    let mut i: usize = 0;
    while i < names.len()
        invariant
            i <= names@.len(),
            forall|k: int| 0 <= k < i ==> (#[trigger] names@[k])@ != name@,
        decreases names@.len() - i,
    {
        if same_text(names[i].as_str(), name) {
            assert(names@[i as int]@ == name@);
            return true;
        }
        i = i + 1;
    }
    false
}

/// Adds the header names that stand between the commas of `text`.
fn add_tokens(tokens: &mut Vec<String>, text: &str)
    ensures
        forall|name: Seq<char>| #[trigger]
            name_set(final(tokens)@).contains(name) <==> name_set(old(tokens)@).contains(name) || (
            field_name(name) && exists|j: int|
                0 <= j < split_at_each(text@, ',').len() && lowered(
                    trimmed(#[trigger] split_at_each(text@, ',')[j]),
                ) == name),
{
    let chars = chars_of(text);
    let parts = split(chars.as_slice(), ',');
    let ghost texts = split_at_each(text@, ',');
    let ghost was = name_set(tokens@);
    let mut j: usize = 0;
    while j < parts.len()
        invariant
            j <= parts@.len() == texts.len(),
            texts == split_at_each(text@, ','),
            texts == parts@.map_values(|part: Vec<char>| part@),
            forall|name: Seq<char>| #[trigger]
                name_set(tokens@).contains(name) <==> was.contains(name) || (field_name(name)
                    && exists|k: int|
                    0 <= k < j && lowered(trimmed(#[trigger] texts[k])) == name),
        decreases parts@.len() - j,
    {
        let part = string_of(parts[j].as_slice());
        let ghost before = tokens@;
        assert(texts[j as int] == part@);
        let token = trim(part.as_str());
        if let Some(found) = name_from(token) {
            tokens.push(found);
            assert forall|name: Seq<char>| #[trigger]
                name_set(tokens@).contains(name) <==> name_set(before).contains(name) || name
                == found@ by {
                if name_set(before).contains(name) {
                    let k = choose|k: int| 0 <= k < before.len() && (#[trigger] before[k])@ == name;
                    assert(tokens@[k]@ == name);
                }
                if name == found@ {
                    assert(tokens@[before.len() as int]@ == name);
                }
                if name_set(tokens@).contains(name) && name != found@ {
                    let k = choose|k: int|
                        0 <= k < tokens@.len() && (#[trigger] tokens@[k])@ == name;
                    assert(before[k]@ == name);
                }
            }
        }
        j = j + 1;
    }
}

/// Parse the custom hop-by-hop headers named in the `Connection` header.
pub fn connection_tokens(headers: &HeaderMap) -> (tokens: Vec<String>)
    ensures
        name_set(tokens@) == connection_names(header_values(*headers)),
{
    let fields = list_fields(headers);
    let ghost all = listed(fields@);
    let ghost connection = "connection"@;
    let mut tokens: Vec<String> = Vec::new();
    let mut i: usize = 0;
    assert(all.take(0) == Seq::<(Seq<char>, Seq<u8>)>::empty());
    while i < fields.len()
        invariant
            i <= fields@.len(),
            all == listed(fields@),
            connection == "connection"@,
            forall|name: Seq<char>| #[trigger]
                name_set(tokens@).contains(name) <==> field_name(name) && token_in(
                    values_named(all.take(i as int), connection),
                    name,
                ),
        decreases fields@.len() - i,
    {
        let ghost values = values_named(all.take(i as int), connection);
        let ghost next = values_named(all.take(i + 1), connection);
        assert(all.take(i + 1).drop_last() == all.take(i as int));
        assert(all.take(i + 1).last() == all[i as int]);
        assert(all[i as int] == (fields@[i as int].0@, fields@[i as int].1@));
        if same_text(fields[i].0.as_str(), "connection") {
            assert(next == values.push(fields@[i as int].1@));
            let ghost before = tokens@;
            let text = text_from(fields[i].1.as_slice());
            if let Some(text) = &text {
                add_tokens(&mut tokens, text.as_str());
            }
            assert forall|name: Seq<char>| #[trigger]
                name_set(tokens@).contains(name) <==> field_name(name) && token_in(next, name) by {
                if token_in(values, name) {
                    let (a, b) = choose|a: int, b: int| #[trigger] token_at(values, a, b, name);
                    assert(token_at(next, a, b, name));
                }
                if let Some(text) = text {
                    if exists|j: int|
                        0 <= j < split_at_each(text@, ',').len() && lowered(
                            trimmed(#[trigger] split_at_each(text@, ',')[j]),
                        ) == name {
                        let j = choose|j: int|
                            0 <= j < split_at_each(text@, ',').len() && lowered(
                                trimmed(#[trigger] split_at_each(text@, ',')[j]),
                            ) == name;
                        assert(token_at(next, values.len() as int, j, name));
                    }
                }
                if token_in(next, name) {
                    let (a, b) = choose|a: int, b: int| #[trigger] token_at(next, a, b, name);
                    if a < values.len() {
                        assert(token_at(values, a, b, name));
                    } else {
                        assert(text is Some);
                    }
                }
            }
        }
        i = i + 1;
    }
    assert(all.take(i as int) == all);
    assert(values_named(all, connection) == values_in(header_values(*headers), connection));
    assert(name_set(tokens@) =~= connection_names(header_values(*headers)));
    tokens
}

/// A name that is listed has a value.
proof fn listed_name_has_value(fields: Seq<(Seq<char>, Seq<u8>)>, i: int)
    requires
        0 <= i < fields.len(),
    ensures
        values_named(fields, fields[i].0).len() > 0,
    decreases fields.len(),
{
    if i < fields.len() - 1 {
        listed_name_has_value(fields.drop_last(), i);
        assert(fields.drop_last()[i] == fields[i]);
    }
}

/// Whether the headers of two maps fit into one.
pub open spec fn have_room(
    fields: Map<Seq<char>, Seq<Seq<u8>>>,
    others: Map<Seq<char>, Seq<Seq<u8>>>,
) -> bool {
    &&& fields.dom().finite()
    &&& others.dom().finite()
    &&& fields.dom().len() + others.dom().len() <= MAX_HEADER_NAMES
}

/// Whether the headers of `source` fit beside those in `target`.
pub fn fits_beside(source: &HeaderMap, target: &HeaderMap) -> (r: bool)
    ensures
        r == have_room(header_values(*source), header_values(*target)),
{
    let one = header_count(source);
    let other = header_count(target);
    one <= MAX_HEADER_NAMES && other <= MAX_HEADER_NAMES - one
}

/// Copy end-to-end headers, filtering hop-by-hop headers, headers named in `Connection`, and
/// `extra_strip`.
///
/// The request side additionally drops host / content-length / credentials / routing headers;
/// the response side only drops hop-by-hop headers and keeps `content-length` (the upstream
/// length is accurate, and keeping it avoids pointless chunked encoding).
pub fn copy_headers(source: &HeaderMap, target: &mut HeaderMap, extra_strip: &[&str])
    requires
        have_room(header_values(*source), header_values(*old(target))),
    ensures
        forall|name: Seq<char>| #[trigger]
            values_in(header_values(*final(target)), name) == values_in(
                header_values(*old(target)),
                name,
            ) + (if stripped(header_values(*source), texts_set(extra_strip@), name) {
                Seq::empty()
            } else {
                values_in(header_values(*source), name)
            }),
        forall|name: Seq<char>| #[trigger]
            header_values(*final(target)).dom().contains(name) <==> header_values(
                *old(target),
            ).dom().contains(name) || (header_values(*source).dom().contains(name) && !stripped(
                header_values(*source),
                texts_set(extra_strip@),
                name,
            )),
        header_values(*final(target)).dom().finite(),
        header_values(*final(target)).dom().len() <= header_values(*source).dom().len()
            + header_values(*old(target)).dom().len(),
{
    let tokens = connection_tokens(source);
    let fields = list_fields(source);
    let ghost from = header_values(*source);
    let ghost into = header_values(*target);
    let ghost all = listed(fields@);
    let ghost extra = texts_set(extra_strip@);
    let ghost room = from.dom().union(into.dom());
    proof {
        lemma_len_union(from.dom(), into.dom());
        lemma_set_union_finite_iff(from.dom(), into.dom());
    }
    let mut i: usize = 0;
    assert(all.take(0) == Seq::<(Seq<char>, Seq<u8>)>::empty());
    while i < fields.len()
        invariant
            i <= fields@.len(),
            all == listed(fields@),
            from == header_values(*source),
            into == header_values(*old(target)),
            extra == texts_set(extra_strip@),
            name_set(tokens@) == connection_names(from),
            room == from.dom().union(into.dom()),
            room.finite(),
            room.len() <= MAX_HEADER_NAMES,
            forall|name: Seq<char>| #[trigger] values_named(all, name) == values_in(from, name),
            forall|name: Seq<char>|
                (#[trigger] values_named(all, name)).len() > 0 <==> from.dom().contains(name),
            forall|k: int|
                #![trigger fields@[k]]
                0 <= k < fields@.len() ==> held_name(fields@[k].0@) && field_value(fields@[k].1@),
            header_values(*target).dom().subset_of(room),
            forall|name: Seq<char>| #[trigger]
                values_in(header_values(*target), name) == values_in(into, name) + (if stripped(
                    from,
                    extra,
                    name,
                ) {
                    Seq::empty()
                } else {
                    values_named(all.take(i as int), name)
                }),
            forall|name: Seq<char>| #[trigger]
                header_values(*target).dom().contains(name) <==> into.dom().contains(name) || (
                values_named(all.take(i as int), name).len() > 0 && !stripped(from, extra, name)),
        decreases fields@.len() - i,
    {
        let name = fields[i].0.as_str();
        let ghost value = fields@[i as int].1@;
        let ghost was = header_values(*target);
        let ghost seen = all.take(i as int);
        let ghost now = all.take(i + 1);
        assert(now.drop_last() == seen);
        assert(now.last() == (name@, value));
        proof {
            assert(all[i as int] == (name@, value));
            listed_name_has_value(all, i as int);
            lemma_len_subset(was.dom(), room);
        }
        let strip = is_hop_by_hop(name) || is_one_of(name, extra_strip) || is_among(name, &tokens);
        assert(strip == stripped(from, extra, name@));
        if !strip {
            append_field(target, name, fields[i].1.as_slice());
            let ghost after = header_values(*target);
            assert forall|other: Seq<char>| #[trigger]
                values_in(after, other) == values_in(into, other) + (if stripped(
                    from,
                    extra,
                    other,
                ) {
                    Seq::empty()
                } else {
                    values_named(now, other)
                }) by {
                assert(values_in(was, other) == values_in(into, other) + (if stripped(
                    from,
                    extra,
                    other,
                ) {
                    Seq::empty()
                } else {
                    values_named(seen, other)
                }));
                if other == name@ {
                    assert(values_in(after, other) == values_in(was, other).push(value));
                    assert(values_named(now, other) == values_named(seen, other).push(value));
                } else {
                    assert(values_in(after, other) == values_in(was, other));
                }
            }
        }
        i = i + 1;
    }
    assert(all.take(i as int) == all);
    proof {
        lemma_len_subset(header_values(*target).dom(), room);
    }
}

/// The headers of `fields` that are passed on, with all their values.
pub open spec fn passed_on(
    fields: Map<Seq<char>, Seq<Seq<u8>>>,
    extra: Set<Seq<char>>,
) -> Map<Seq<char>, Seq<Seq<u8>>> {
    Map::new(
        |name: Seq<char>| fields.dom().contains(name) && !stripped(fields, extra, name),
        |name: Seq<char>| fields[name],
    )
}

/// A new map with the headers of `source` that are passed on.
fn filtered(source: &HeaderMap, extra_strip: &[&str]) -> (headers: HeaderMap)
    requires
        has_room(header_values(*source)),
    ensures
        header_values(headers) == passed_on(header_values(*source), texts_set(extra_strip@)),
        header_values(headers).dom().finite(),
        header_values(headers).dom().len() <= header_values(*source).dom().len(),
{
    let mut headers = no_headers();
    copy_headers(source, &mut headers, extra_strip);
    let ghost from = header_values(*source);
    let ghost extra = texts_set(extra_strip@);
    assert forall|name: Seq<char>|
        header_values(headers).dom().contains(name) implies #[trigger] header_values(headers)[name]
        == passed_on(from, extra)[name] by {
        assert(values_in(header_values(headers), name) == values_in(no_fields(), name) + values_in(
            from,
            name,
        ));
        assert(values_in(no_fields(), name) + from[name] == from[name]);
    }
    assert(header_values(headers) == passed_on(from, extra));
    headers
}

/// The head of a request, as it came from the client.
#[derive(Debug)]
pub struct Parts {
    pub method: String,
    pub uri: Uri,
    pub headers: HeaderMap,
}

/// The request that is sent upstream.
#[derive(Debug)]
pub struct UpstreamRequest {
    pub method: String,
    pub uri: Uri,
    pub headers: HeaderMap,
    pub body: Vec<u8>,
}

/// The head of the response that is sent to the client.
#[derive(Debug)]
pub struct ResponseHead {
    pub status: StatusCode,
    pub headers: HeaderMap,
}

/// The header value that carries an upstream key.
pub open spec fn bearer(key: Seq<char>) -> Seq<u8> {
    encode_utf8("Bearer "@ + key)
}

/// The headers of the request that is sent upstream: those of the client that are passed on, the
/// length of the body and, where the upstream has a key, that key.
pub open spec fn request_headers(
    fields: Map<Seq<char>, Seq<Seq<u8>>>,
    length: nat,
    api_key: Option<Seq<char>>,
) -> Map<Seq<char>, Seq<Seq<u8>>> {
    let sized = passed_on(fields, request_strip()).insert(
        "content-length"@,
        seq![encode_utf8(digits(length))],
    );
    match api_key {
        Some(key) => sized.insert("authorization"@, seq![bearer(key)]),
        None => sized,
    }
}

/// Whether an upstream key can be sent in a header.
pub open spec fn sendable(api_key: Option<Seq<char>>) -> bool {
    match api_key {
        Some(key) => field_value(bearer(key)),
        None => true,
    }
}

/// Whether two more headers fit beside those of the client.
pub open spec fn has_room_for_request(fields: Map<Seq<char>, Seq<Seq<u8>>>) -> bool {
    fields.dom().finite() && fields.dom().len() < MAX_HEADER_NAMES
}

/// Whether two more headers fit beside those in `headers`.
pub fn fits_request(headers: &HeaderMap) -> (r: bool)
    ensures
        r == has_room_for_request(header_values(*headers)),
{
    header_count(headers) < MAX_HEADER_NAMES
}

/// Build the request that is sent upstream.
pub fn build_request(upstream: &Upstream, parts: &Parts, target_uri: Uri, body: Vec<u8>) -> (r:
    Result<UpstreamRequest, GatewayError>)
    requires
        has_room_for_request(header_values(parts.headers)),
    ensures
        match r {
            Ok(request) => {
                &&& sendable(upstream@.api_key)
                &&& request.method@ == parts.method@
                &&& request.uri == target_uri
                &&& request.body == body
                &&& header_values(request.headers) == request_headers(
                    header_values(parts.headers),
                    body@.len(),
                    upstream@.api_key,
                )
                &&& match upstream@.api_key {
                    Some(key) => {
                        &&& header_values(request.headers).dom().contains("authorization"@)
                        &&& header_values(request.headers)["authorization"@] == seq![
                            encode_utf8("Bearer "@ + key),
                        ]
                    },
                    None => !header_values(request.headers).dom().contains("authorization"@),
                }
            },
            Err(error) => {
                &&& upstream@.api_key matches Some(key)
                &&& !field_value(encode_utf8("Bearer "@ + key))
                &&& !sendable(upstream@.api_key)
                &&& error.status.0 == 500
                &&& error.message@ == "upstream api_key contains invalid characters"@
            },
        },
{
    let strip: [&str; 6] = [
        "host",
        "content-length",
        "authorization",
        "x-api-key",
        "x-model",
        "expect",
    ];
    proof {
        request_strip_listed(strip@);
        reveal_strlit("content-length");
        reveal_strlit("authorization");
        assert(field_name("content-length"@));
        assert(field_name("authorization"@));
        digits_field_value(body@.len());
    }
    let mut headers = filtered(&parts.headers, strip.as_slice());
    // The client's content-length was stripped, so declare the real body length here.
    let length = decimal(body.len() as u64);
    insert_field(&mut headers, "content-length", length.as_str().as_bytes());
    if let Some(api_key) = &upstream.api_key {
        let mut value = "Bearer ".to_string();
        value.append(api_key.as_str());
        if !is_field_value(value.as_str().as_bytes()) {
            return Err(GatewayError::internal("upstream api_key contains invalid characters"));
        }
        insert_field(&mut headers, "authorization", value.as_str().as_bytes());
    }
    Ok(UpstreamRequest { method: parts.method.clone(), uri: target_uri, headers, body })
}

/// The list that is used for requests names the headers that are stripped from them.
proof fn request_strip_listed(names: Seq<&str>)
    requires
        names == seq![
            "host",
            "content-length",
            "authorization",
            "x-api-key",
            "x-model",
            "expect",
        ],
    ensures
        texts_set(names) == request_strip(),
{
    assert(names[0]@ == "host"@);
    assert(names[1]@ == "content-length"@);
    assert(names[2]@ == "authorization"@);
    assert(names[3]@ == "x-api-key"@);
    assert(names[4]@ == "x-model"@);
    assert(names[5]@ == "expect"@);
    assert(texts_set(names) =~= request_strip());
}

/// What a request is answered whose body is over the limit.
pub open spec fn limit_message(max_body_bytes: u64) -> Seq<char> {
    "request body exceeds the "@ + digits(max_body_bytes as nat) + "-byte limit"@
}

/// 413: the request body is over the limit.
pub fn payload_too_large(max_body_bytes: u64) -> (error: GatewayError)
    ensures
        error.status.0 == 413,
        error.message@ == limit_message(max_body_bytes),
{
    let mut message = "request body exceeds the ".to_string();
    message.append(decimal(max_body_bytes).as_str());
    message.append("-byte limit");
    GatewayError::payload_too_large(message.as_str())
}

/// Collects a request body up to a limit.
pub struct BodyReader {
    max_body_bytes: u64,
    buffer: Vec<u8>,
}

impl BodyReader {
    /// What was read never exceeds the limit.
    #[verifier::type_invariant]
    spec fn within_limit(self) -> bool {
        self.buffer@.len() <= self.max_body_bytes
    }

    /// The limit.
    pub closed spec fn limit(self) -> u64 {
        self.max_body_bytes
    }

    /// What was read so far.
    pub closed spec fn read(self) -> Seq<u8> {
        self.buffer@
    }

    /// Starts reading; a body whose declared length is over the limit is rejected early.
    pub fn new(declared_len: Option<u64>, max_body_bytes: u64) -> (r: Result<Self, GatewayError>)
        ensures
            match r {
                Ok(reader) => {
                    &&& (declared_len matches Some(len) ==> len <= max_body_bytes)
                    &&& reader.limit() == max_body_bytes
                    &&& reader.read() == Seq::<u8>::empty()
                },
                Err(error) => (declared_len matches Some(len) && len > max_body_bytes)
                    && error.status.0 == 413 && error.message@ == limit_message(max_body_bytes),
            },
    {
        if let Some(len) = declared_len {
            if len > max_body_bytes {
                return Err(payload_too_large(max_body_bytes));
            }
        }
        Ok(BodyReader { max_body_bytes, buffer: Vec::new() })
    }

    /// Takes the next chunk of the body.
    pub fn push(&mut self, chunk: &[u8]) -> (r: Result<(), GatewayError>)
        ensures
            final(self).limit() == old(self).limit(),
            match r {
                Ok(_) => old(self).read().len() + chunk@.len() <= old(self).limit()
                    && final(self).read() == old(self).read() + chunk@,
                Err(error) => old(self).read().len() + chunk@.len() > old(self).limit()
                    && error.status.0 == 413 && error.message@ == limit_message(old(self).limit())
                    && final(self).read() == old(self).read(),
            },
    {
        proof {
            use_type_invariant(&*self);
        }
        if chunk.len() as u64 > self.max_body_bytes - self.buffer.len() as u64 {
            return Err(payload_too_large(self.max_body_bytes));
        }
        let ghost was = self.buffer@;
        let mut buffer: Vec<u8> = Vec::new();
        std::mem::swap(&mut buffer, &mut self.buffer);
        buffer.extend_from_slice(chunk);
        assert(buffer@ == was + chunk@);
        *self = BodyReader { max_body_bytes: self.max_body_bytes, buffer };
        Ok(())
    }

    /// The whole body.
    pub fn finish(self) -> (body: Vec<u8>)
        ensures
            body@ == self.read(),
            body@.len() <= self.limit(),
    {
        proof {
            use_type_invariant(&self);
        }
        self.buffer
    }

    /// 400: the connection failed while the body was read.
    pub fn failed(error: &str) -> (r: GatewayError)
        ensures
            r.status.0 == 400,
            r.message@ == "failed to read request body: "@ + error@,
    {
        let mut message = "failed to read request body: ".to_string();
        message.append(error);
        GatewayError::bad_request(message.as_str())
    }
}

/// The chunks of a body put together.
pub open spec fn joined(chunks: Seq<Seq<u8>>) -> Seq<u8>
    decreases chunks.len(),
{
    if chunks.len() == 0 {
        Seq::empty()
    } else {
        joined(chunks.drop_last()) + chunks.last()
    }
}

/// Whether a reader with the limit `limit` takes all of `chunks`, one after the other.
pub open spec fn all_taken(chunks: Seq<Seq<u8>>, limit: nat) -> bool
    decreases chunks.len(),
{
    chunks.len() == 0 || (all_taken(chunks.drop_last(), limit) && joined(chunks.drop_last()).len()
        + chunks.last().len() <= limit)
}

/// A body is read in full exactly when it is within the limit, however it is cut into chunks.
pub proof fn body_limit_ignores_chunks(chunks: Seq<Seq<u8>>, limit: nat)
    ensures
        all_taken(chunks, limit) <==> joined(chunks).len() <= limit,
    decreases chunks.len(),
{
    if chunks.len() > 0 {
        body_limit_ignores_chunks(chunks.drop_last(), limit);
    }
}

/// The body that is sent to an upstream: with the model that the upstream serves under, where it
/// is configured and differs from the request's, and as it came otherwise.
pub open spec fn forwarded_body(
    upstream_model: Option<Seq<char>>,
    body_model: Option<Seq<char>>,
    body: Seq<u8>,
) -> Seq<u8> {
    match upstream_model {
        Some(target) => if body_model == Some(target) {
            body
        } else {
            match rewritten(body, target) {
                Some(document) => json_text(document),
                None => body,
            }
        },
        None => body,
    }
}

/// Whether a body that was rewritten to `sent` is read to name the model of the upstream.
pub open spec fn new_model_is_read(
    upstream_model: Option<Seq<char>>,
    body_model: Option<Seq<char>>,
    body: Seq<u8>,
    sent: Seq<u8>,
) -> bool {
    match upstream_model {
        Some(target) => target.len() > 0 && body_model != Some(target) && rewritten(
            body,
            target,
        ) is Some ==> model_in(sent) == Some(target),
        None => true,
    }
}

/// Whether `body` is read as an object with a model.
pub open spec fn has_model(body: Seq<u8>) -> bool {
    document_read(body) matches Some(Tree::Object(fields)) && exists|i: int|
        0 <= i < fields.len() && (#[trigger] fields[i]).0 == "model"@
}

/// Whether `body` names exactly `model`, either way of reading it.
pub open spec fn names_model(body: Seq<u8>, model: Seq<char>) -> bool {
    model_in(body) == Some(model) || (document_read(body) matches Some(Tree::Object(fields))
        && exists|i: int|
        0 <= i < fields.len() && #[trigger] fields[i] == ("model"@, Tree::Text(model)))
}

/// Whether `sent` is `body` with its model replaced by `model`, every other field being kept.
pub open spec fn model_replaced(body: Seq<u8>, model: Seq<char>, sent: Seq<u8>) -> bool {
    exists|fields: Seq<(Seq<char>, Tree)>, at: int|
        {
            &&& document_read(body) == Some(Tree::Object(fields))
            &&& 0 <= at < fields.len()
            &&& fields[at].0 == "model"@
            &&& sent == json_text(
                Tree::Object(#[trigger] fields.update(at, ("model"@, Tree::Text(model)))),
            )
        }
}

/// Rewrites the model of a body where the upstream needs it.
fn prepare_body(upstream: &Upstream, body: Vec<u8>, body_model: Option<&str>) -> (r: Vec<u8>)
    ensures
        r@ == forwarded_body(
            upstream@.upstream_model,
            match body_model {
                Some(model) => Some(model@),
                None => None,
            },
            body@,
        ),
        new_model_is_read(
            upstream@.upstream_model,
            match body_model {
                Some(model) => Some(model@),
                None => None,
            },
            body@,
            r@,
        ),
        match upstream@.upstream_model {
            Some(target) => {
                &&& r@ == body@ || model_replaced(body@, target, r@)
                &&& target.len() > 0 && has_model(body@) ==> names_model(r@, target) || (
                body_model matches Some(model) && model@ == target && r@ == body@)
            },
            None => r@ == body@,
        },
{
    match &upstream.upstream_model {
        Some(target) => {
            let same = match body_model {
                Some(model) => same_text(model, target.as_str()),
                None => false,
            };
            if same {
                body
            } else {
                match try_rewrite_model(body.as_slice(), target.as_str()) {
                    Some(text) => text,
                    None => body,
                }
            }
        },
        None => body,
    }
}

/// What is sent upstream for a request; `body_model` is the model already extracted from the
/// body, and a rewrite only happens when it differs from the upstream's. What the upstream then
/// reads from a rewritten body is the model it serves under.
pub fn forward_request(
    upstream: &Upstream,
    parts: &Parts,
    body: Vec<u8>,
    body_model: Option<&str>,
) -> (r: Result<UpstreamRequest, GatewayError>)
    requires
        has_room_for_request(header_values(parts.headers)),
    ensures
        ({
            let model = match body_model {
                Some(model) => Some(model@),
                None => None,
            };
            let sent = forwarded_body(upstream@.upstream_model, model, body@);
            match r {
                Ok(request) => {
                    &&& sendable(upstream@.api_key)
                    &&& request.method@ == parts.method@
                    &&& target_of(upstream@, parts.uri@) == Ok::<UriParts, Seq<char>>(
                        request.uri@,
                    )
                    &&& request.body@ == sent
                    &&& header_values(request.headers) == request_headers(
                        header_values(parts.headers),
                        sent.len(),
                        upstream@.api_key,
                    )
                    &&& match upstream@.api_key {
                        Some(key) => {
                            &&& header_values(request.headers).dom().contains("authorization"@)
                            &&& header_values(request.headers)["authorization"@] == seq![
                                encode_utf8("Bearer "@ + key),
                            ]
                        },
                        None => !header_values(request.headers).dom().contains("authorization"@),
                    }
                    &&& request.uri@.authority == upstream@.base.authority
                    &&& upstream@.base.scheme is Some ==> request.uri@.scheme
                        == upstream@.base.scheme
                    &&& match upstream@.upstream_model {
                        Some(target) => {
                            &&& request.body@ == body@ || model_replaced(
                                body@,
                                target,
                                request.body@,
                            )
                            &&& target.len() > 0 && has_model(body@) ==> names_model(
                                request.body@,
                                target,
                            ) || (model == Some(target) && request.body@ == body@)
                        },
                        None => request.body@ == body@,
                    }
                    &&& only_path(upstream@.path_prefix + parts.uri@.path) && (
                    parts.uri@.query matches Some(query) ==> !query.contains('#'))
                        ==> request.uri@.query == parts.uri@.query && request.uri@.path == (if (
                    upstream@.path_prefix + parts.uri@.path).len() == 0 {
                        seq!['/']
                    } else {
                        upstream@.path_prefix + parts.uri@.path
                    })
                    &&& new_model_is_read(
                        upstream@.upstream_model,
                        model,
                        body@,
                        request.body@,
                    )
                },
                Err(error) => {
                    &&& error.status.0 == 500
                    &&& match target_of(upstream@, parts.uri@) {
                        Err(message) => error.message@ == message,
                        Ok(_) => !sendable(upstream@.api_key) && error.message@
                            == "upstream api_key contains invalid characters"@,
                    }
                },
            }
        }),
{
    let body = prepare_body(upstream, body, body_model);
    match upstream.target_uri(&parts.uri) {
        Ok(target_uri) => build_request(upstream, parts, target_uri, body),
        Err(error) => Err(error),
    }
}

/// 502: the upstream could not be reached or did not answer.
pub fn request_failed(upstream: &str, error: &str) -> (r: GatewayError)
    ensures
        r.status.0 == 502,
        r.message@ == "upstream '"@ + upstream@ + "' request failed: "@ + error@,
{
    let mut message = "upstream '".to_string();
    message.append(upstream);
    message.append("' request failed: ");
    message.append(error);
    GatewayError::bad_gateway(message.as_str())
}

/// The head of the response that an upstream's response is passed on with: its own status and
/// its end-to-end headers.
pub fn forward_response(status: StatusCode, headers: &HeaderMap) -> (head: ResponseHead)
    requires
        has_room(header_values(*headers)),
    ensures
        head.status == status,
        header_values(head.headers) == passed_on(header_values(*headers), Set::empty()),
        forall|name: Seq<char>| #[trigger]
            header_values(head.headers).dom().contains(name) <==> {
                &&& header_values(*headers).dom().contains(name)
                &&& !connection_names(header_values(*headers)).contains(name)
                &&& name != "connection"@
                &&& name != "proxy-connection"@
                &&& name != "keep-alive"@
                &&& name != "proxy-authenticate"@
                &&& name != "proxy-authorization"@
                &&& name != "te"@
                &&& name != "trailer"@
                &&& name != "transfer-encoding"@
                &&& name != "upgrade"@
            },
        forall|name: Seq<char>|
            header_values(head.headers).dom().contains(name) ==> #[trigger] header_values(
                head.headers,
            )[name] == header_values(*headers)[name],
        header_values(head.headers).dom().finite(),
        header_values(head.headers).dom().len() <= header_values(*headers).dom().len(),
{
    let strip: [&str; 0] = [];
    let headers = filtered(headers, strip.as_slice());
    assert(texts_set(strip@) =~= Set::empty());
    ResponseHead { status, headers }
}

/// What the client sent to authenticate or to route itself never reaches an upstream, nor does
/// what concerns its own connection only. The upstream sees a key exactly when it has one
/// configured, and then that one alone.
pub proof fn credentials_are_replaced(
    fields: Map<Seq<char>, Seq<Seq<u8>>>,
    length: nat,
    api_key: Option<Seq<char>>,
)
    ensures
        ({
            let sent = request_headers(fields, length, api_key);
            &&& values_in(sent, "x-api-key"@).len() == 0
            &&& values_in(sent, "x-model"@).len() == 0
            &&& values_in(sent, "host"@).len() == 0
            &&& values_in(sent, "expect"@).len() == 0
            &&& values_in(sent, "authorization"@) == (match api_key {
                Some(key) => seq![bearer(key)],
                None => Seq::empty(),
            })
            &&& values_in(sent, "content-length"@) == seq![encode_utf8(digits(length))]
            &&& forall|name: Seq<char>|
                hop_by_hop().contains(name) ==> (#[trigger] values_in(sent, name)).len() == 0
        }),
{
    reveal_strlit("x-api-key");
    reveal_strlit("x-model");
    reveal_strlit("host");
    reveal_strlit("expect");
    reveal_strlit("authorization");
    reveal_strlit("content-length");
    assert("x-api-key"@.len() == 9 && "x-model"@.len() == 7 && "host"@.len() == 4);
    assert("expect"@.len() == 6 && "authorization"@.len() == 13 && "content-length"@.len() == 14);
    hop_by_hop_names_differ();
}

/// The two headers that the gateway sets itself are no hop-by-hop headers.
proof fn hop_by_hop_names_differ()
    ensures
        !hop_by_hop().contains("authorization"@),
        !hop_by_hop().contains("content-length"@),
        !hop_by_hop().contains("x-request-id"@),
{
    reveal_strlit("authorization");
    reveal_strlit("content-length");
    reveal_strlit("x-request-id");
    reveal_strlit("connection");
    reveal_strlit("proxy-connection");
    reveal_strlit("keep-alive");
    reveal_strlit("proxy-authenticate");
    reveal_strlit("proxy-authorization");
    reveal_strlit("te");
    reveal_strlit("trailer");
    reveal_strlit("transfer-encoding");
    reveal_strlit("upgrade");
    assert("authorization"@.len() == 13);
    assert("content-length"@.len() == 14);
    assert("x-request-id"@.len() == 12);
    assert("connection"@.len() == 10 && "keep-alive"@.len() == 10);
    assert("proxy-connection"@.len() == 16 && "transfer-encoding"@.len() == 17);
    assert("proxy-authenticate"@.len() == 18 && "proxy-authorization"@.len() == 19);
    assert("te"@.len() == 2 && "trailer"@.len() == 7 && "upgrade"@.len() == 7);
}

/// Every other header of the client reaches the upstream as it came.
pub proof fn end_to_end_headers_are_kept(
    fields: Map<Seq<char>, Seq<Seq<u8>>>,
    length: nat,
    api_key: Option<Seq<char>>,
    name: Seq<char>,
)
    requires
        !stripped(fields, request_strip(), name),
    ensures
        values_in(request_headers(fields, length, api_key), name) == values_in(fields, name),
{
}

/// The request ID reaches the upstream, unless the client declares it to concern its own
/// connection only.
pub proof fn request_id_is_forwarded(
    fields: Map<Seq<char>, Seq<Seq<u8>>>,
    length: nat,
    api_key: Option<Seq<char>>,
)
    requires
        !connection_names(fields).contains("x-request-id"@),
    ensures
        values_in(request_headers(fields, length, api_key), "x-request-id"@) == values_in(
            fields,
            "x-request-id"@,
        ),
{
    hop_by_hop_names_differ();
    reveal_strlit("x-request-id");
    reveal_strlit("host");
    reveal_strlit("content-length");
    reveal_strlit("authorization");
    reveal_strlit("x-api-key");
    reveal_strlit("x-model");
    reveal_strlit("expect");
    assert("x-request-id"@.len() == 12);
    end_to_end_headers_are_kept(fields, length, api_key, "x-request-id"@);
}

/// A header of a response is passed on, with all its values as they came, unless `Connection` names
/// it or it is one of the nine that concern a connection only.
pub proof fn response_headers_pass_unless_hop_by_hop(
    fields: Map<Seq<char>, Seq<Seq<u8>>>,
    name: Seq<char>,
)
    ensures
        ({
            let passed = passed_on(fields, Set::empty());
            &&& passed.dom().contains(name) <==> {
                &&& fields.dom().contains(name)
                &&& !connection_names(fields).contains(name)
                &&& name != "connection"@
                &&& name != "proxy-connection"@
                &&& name != "keep-alive"@
                &&& name != "proxy-authenticate"@
                &&& name != "proxy-authorization"@
                &&& name != "te"@
                &&& name != "trailer"@
                &&& name != "transfer-encoding"@
                &&& name != "upgrade"@
            }
            &&& passed.dom().contains(name) ==> passed[name] == fields[name]
        }),
{
}

/// A header of a request reaches the upstream, with all its values as they came, unless
/// `Connection` names it, it is one of the nine that concern a connection only, or one of the six
/// that the gateway answers for itself.
pub proof fn request_headers_pass_unless_replaced(
    fields: Map<Seq<char>, Seq<Seq<u8>>>,
    length: nat,
    api_key: Option<Seq<char>>,
    name: Seq<char>,
)
    requires
        name != "content-length"@,
        name != "authorization"@,
    ensures
        ({
            let sent = request_headers(fields, length, api_key);
            &&& sent.dom().contains(name) <==> {
                &&& fields.dom().contains(name)
                &&& !connection_names(fields).contains(name)
                &&& name != "connection"@
                &&& name != "proxy-connection"@
                &&& name != "keep-alive"@
                &&& name != "proxy-authenticate"@
                &&& name != "proxy-authorization"@
                &&& name != "te"@
                &&& name != "trailer"@
                &&& name != "transfer-encoding"@
                &&& name != "upgrade"@
                &&& name != "host"@
                &&& name != "x-api-key"@
                &&& name != "x-model"@
                &&& name != "expect"@
            }
            &&& sent.dom().contains(name) ==> sent[name] == fields[name]
        }),
{
}

/// The key that an upstream is configured with is sent to it unchanged, as the only value of
/// `Authorization`: decoding the value gives the key back behind `Bearer `, and two different keys
/// are sent as different values.
pub proof fn configured_key_is_sent_unchanged(
    fields: Map<Seq<char>, Seq<Seq<u8>>>,
    length: nat,
    key: Seq<char>,
    other: Seq<char>,
)
    ensures
        ({
            let sent = request_headers(fields, length, Some(key));
            &&& sent.dom().contains("authorization"@)
            &&& sent["authorization"@] == seq![encode_utf8("Bearer "@ + key)]
            &&& decode_utf8(sent["authorization"@][0]) == "Bearer "@ + key
            &&& key != other ==> sent["authorization"@] != request_headers(
                fields,
                length,
                Some(other),
            )["authorization"@]
        }),
        !request_headers(fields, length, None).dom().contains("authorization"@),
        sendable(None),
        sendable(Some(key)) <==> field_value(encode_utf8("Bearer "@ + key)),
{
    reveal_strlit("authorization");
    reveal_strlit("content-length");
    assert("authorization"@.len() == 13 && "content-length"@.len() == 14);
    encode_utf8_decode_utf8("Bearer "@ + key);
    encode_utf8_decode_utf8("Bearer "@ + other);
    let sent = request_headers(fields, length, Some(key))["authorization"@];
    let others = request_headers(fields, length, Some(other))["authorization"@];
    assert(sent[0] == encode_utf8("Bearer "@ + key));
    assert(others[0] == encode_utf8("Bearer "@ + other));
    if key != other {
        let n = "Bearer "@.len() as int;
        assert(("Bearer "@ + key).skip(n) == key);
        assert(("Bearer "@ + other).skip(n) == other);
    }
}

/// The length that a request is sent with is that of the body that is sent, whatever the client
/// declared.
pub proof fn declared_length_is_that_of_the_body(
    fields: Map<Seq<char>, Seq<Seq<u8>>>,
    length: nat,
    api_key: Option<Seq<char>>,
)
    ensures
        request_headers(fields, length, api_key).dom().contains("content-length"@),
        request_headers(fields, length, api_key)["content-length"@] == seq![
            encode_utf8(digits(length)),
        ],
{
    reveal_strlit("authorization");
    reveal_strlit("content-length");
    assert("authorization"@.len() == 13 && "content-length"@.len() == 14);
}

/// A name that stands between the commas of a `Connection` value, in any case and with white space
/// around it, is taken for the name of a header that concerns the connection only.
pub proof fn connection_value_names_its_tokens(
    fields: Map<Seq<char>, Seq<Seq<u8>>>,
    i: int,
    text: Seq<char>,
    from: int,
    to: int,
    name: Seq<char>,
)
    requires
        fields.dom().contains("connection"@),
        0 <= i < fields["connection"@].len(),
        fields["connection"@][i] == encode_utf8(text),
        forall|k: int| 0 <= k < text.len() ==> ' ' <= #[trigger] text[k] <= '~' || text[k] == '\t',
        0 <= from <= to <= text.len(),
        from == 0 || text[from - 1] == ',',
        to == text.len() || text[to] == ',',
        forall|k: int| from <= k < to ==> #[trigger] text[k] != ',',
        lowered(trimmed(text.subrange(from, to))) == name,
        field_name(name),
    ensures
        connection_names(fields).contains(name),
{
    let values = fields["connection"@];
    first_value_is_read_as_written(map!["connection"@ => seq![values[i]]], "connection"@, text);
    assert(value_text(values[i]) == Some(text));
    let j = what_stands_between_separators_is_a_part(text, ',', from, to);
    assert(token_at(values, i, j, name));
}

/// Nothing else is taken for such a name: it stands between the commas of a `Connection` value.
pub proof fn connection_names_stand_in_a_value(
    fields: Map<Seq<char>, Seq<Seq<u8>>>,
    name: Seq<char>,
) -> (place: (int, Seq<char>, int, int))
    requires
        connection_names(fields).contains(name),
    ensures
        ({
            let (i, text, from, to) = place;
            &&& fields.dom().contains("connection"@)
            &&& 0 <= i < fields["connection"@].len()
            &&& fields["connection"@][i] == encode_utf8(text)
            &&& 0 <= from <= to <= text.len()
            &&& from == 0 || text[from - 1] == ','
            &&& to == text.len() || text[to] == ','
            &&& forall|k: int| from <= k < to ==> #[trigger] text[k] != ','
            &&& lowered(trimmed(text.subrange(from, to))) == name
        }),
{
    let values = values_in(fields, "connection"@);
    let (i, j) = choose|i: int, j: int| #[trigger] token_at(values, i, j, name);
    let text = value_text(values[i]).unwrap();
    text_stands_in_the_first_value(map!["connection"@ => seq![values[i]]], "connection"@);
    let (from, to) = parts_stand_between_separators(text, ',', j);
    (i, text, from, to)
}

/// The body that an upstream with a model of its own is sent differs from the client's in the model
/// alone, and names exactly that model unless it named it already.
pub proof fn upstream_model_replaces_the_model(
    target: Seq<char>,
    read: Option<Seq<char>>,
    body: Seq<u8>,
    fields: Seq<(Seq<char>, Tree)>,
    at: int,
)
    requires
        document_read(body) == Some(Tree::Object(fields)),
        ascending(fields),
        0 <= at < fields.len(),
        fields[at].0 == "model"@,
    ensures
        forwarded_body(Some(target), read, body) == (if read == Some(target) || fields[at].1
            == Tree::Text(target) {
            body
        } else {
            json_text(Tree::Object(fields.update(at, ("model"@, Tree::Text(target)))))
        }),
{
    every_other_model_is_rewritten(body, fields, at, target);
}

/// A body that is not read as an object with a model is sent as it came.
pub proof fn other_bodies_are_sent_as_they_came(
    upstream_model: Option<Seq<char>>,
    read: Option<Seq<char>>,
    body: Seq<u8>,
)
    requires
        !has_model(body) || upstream_model is None,
    ensures
        forwarded_body(upstream_model, read, body) == body,
{
    if let Some(target) = upstream_model {
        body_without_a_model_is_never_rewritten(body, target);
    }
}

/// A header is dropped exactly when it is one of the nine that concern a connection only, one of
/// those that are to be dropped in addition, or named in `Connection`.
pub proof fn dropped_headers_have_a_reason(
    fields: Map<Seq<char>, Seq<Seq<u8>>>,
    extra: Set<Seq<char>>,
    name: Seq<char>,
)
    ensures
        stripped(fields, extra, name) <==> {
            ||| name == "connection"@
            ||| name == "proxy-connection"@
            ||| name == "keep-alive"@
            ||| name == "proxy-authenticate"@
            ||| name == "proxy-authorization"@
            ||| name == "te"@
            ||| name == "trailer"@
            ||| name == "transfer-encoding"@
            ||| name == "upgrade"@
            ||| extra.contains(name)
            ||| connection_names(fields).contains(name)
        },
{
}

/// The headers of a request fit, with the two that the gateway sets, while they have fewer than 6553
/// names; those of two maps fit into one while they have no more than 6553 names together.
pub proof fn headers_fit_up_to_the_bound(
    fields: Map<Seq<char>, Seq<Seq<u8>>>,
    others: Map<Seq<char>, Seq<Seq<u8>>>,
)
    requires
        fields.dom().finite(),
        others.dom().finite(),
    ensures
        has_room_for_request(fields) <==> fields.dom().len() < 6553,
        have_room(fields, others) <==> fields.dom().len() + others.dom().len() <= 6553,
{
}

} // verus!
