//! Request orchestration: request ID -> auth -> read body -> resolve model -> match upstream
//! -> forward -> log.

use hyper::HeaderMap;
use std::time::Instant;
use vstd::prelude::*;
use vstd::string::*;
use vstd::utf8::*;

use crate::auth::{api_key_header_is_read_as_sent, authenticate, bearer_key_is_read_as_sent, key_in};
use crate::config::{
    config_error, only_path, resolved, resolved_names_are_configured, resolves_to, target_of,
    valid_config_resolves, Config, HealthConfig, Upstream,
};
use crate::error::{error_document, GatewayError, Reply, StartupError, StatusCode};
use crate::headers::{
    ascii_field_value, field_name, field_value, first_value_is_read_as_written, has_room,
    header_text, header_values, insert_field, is_field_value, no_headers, other_values_are_not_text,
    padded_value_is_trimmed, text_of, values_in,
};
use crate::health::{all_ready, healthz, json_headers, readyz, readyz_document, HealthState};
use crate::json::{
    array_printable, array_view, document_read, fields_of, items_of, json_text, object_printable,
    object_view, print, printable, printable_with_more, Json, Tree, MAX_LEVELS,
};
use crate::json_model::{extract_model, model_in};
use crate::observe::{
    failed, line_fields, log_fields, outcome_of, request_id, supplied_id, usable_id, uuid_shaped,
    Level, LogLine, Metered, MeteredBody, RequestLog, TokenUsage, REQUEST_ID_HEADER,
};
use crate::proxy::{
    configured_key_is_sent_unchanged, declared_length_is_that_of_the_body, forward_request,
    forward_response, forwarded_body, has_model, has_room_for_request, limit_message,
    model_replaced, names_model, new_model_is_read, passed_on, request_failed, request_headers,
    sendable, upstream_model_replaces_the_model, BodyReader, Parts, ResponseHead, UpstreamRequest,
};
use crate::table::{ascending, holds, NameTable};
use crate::text::{
    before, digits, lowered, same_text, starts_with, text_view, texts, trim, trimmed,
    trimming_leaves_nothing_of_white_space,
};
use crate::uri::UriParts;
use crate::usage::{
    effort_in, extract_effort, extract_request_usage, merge_effort, nothing_held, request_usage_in,
    scanned, RequestUsage, Scan, UsageScanner,
};

verus! {

/// Routing header, which takes precedence over the `model` field of the body.
pub const X_MODEL: &'static str = "x-model";

/// Reads the token counters out of a response on its way to the client.
///
/// One instance per response: a streamed answer reports its usage in the final chunk, so the
/// scanner has to remember the bytes of a partially received object between frames.
pub struct UsageObserver {
    scanner: UsageScanner,
    usage: Option<TokenUsage>,
}

impl UsageObserver {
    /// What waits for the next frame.
    pub closed spec fn pending(self) -> Scan {
        self.scanner@
    }

    /// The counters seen so far.
    pub closed spec fn counters(self) -> Option<TokenUsage> {
        self.usage
    }

    pub fn new() -> (observer: Self)
        ensures
            observer.pending() == nothing_held(),
            observer.counters() is None,
    {
        UsageObserver { scanner: UsageScanner::new(), usage: None }
    }

    /// Reads one frame of the response.
    pub fn observe(&mut self, frame: &[u8])
        ensures
            (final(self).pending(), final(self).counters()) == scanned(
                old(self).pending(),
                old(self).counters(),
                frame@,
            ),
    {
        self.scanner.push(frame, &mut self.usage);
    }

    /// The counters seen so far.
    pub fn sink(&self) -> (usage: Option<TokenUsage>)
        ensures
            usage == self.counters(),
    {
        self.usage
    }
}

/// Observability fields collected from the request body, for the log line only.
///
/// Nothing here is allowed to change routing or the forwarded bytes: parsing is best effort and
/// a body that does not look like JSON simply leaves the corresponding field empty.
#[derive(Debug)]
pub struct RequestProbe {
    /// Thinking effort the caller asked for.
    pub effort: Option<String>,
    /// Token budget and choice count of the request body.
    pub usage: RequestUsage,
}

impl Default for RequestProbe {
    fn default() -> (probe: RequestProbe)
        ensures
            probe.effort is None,
            probe.usage == (RequestUsage { max_tokens: None, choices: None }),
    {
        RequestProbe { effort: None, usage: RequestUsage { max_tokens: None, choices: None } }
    }
}

impl RequestProbe {
    /// Read the log fields out of a request body that had to be parsed anyway.
    pub fn record(&mut self, body: &[u8])
        ensures
            text_view(final(self).effort) == (match old(self).effort {
                Some(effort) => Some(effort@),
                None => effort_in(body@),
            }),
            final(self).usage == request_usage_in(body@),
    {
        merge_effort(&mut self.effort, extract_effort(body));
        self.usage = extract_request_usage(body);
    }

    /// Copy what was collected into the request log.
    pub fn apply(&self, log: &mut RequestLog)
        ensures
            text_view(final(log).effort) == text_view(self.effort),
            *final(log) == (RequestLog {
                effort: final(log).effort,
                max_tokens: self.usage.max_tokens,
                requested_choices: self.usage.choices,
                ..*old(log)
            }),
    {
        log.effort = match &self.effort {
            Some(effort) => Some(effort.clone()),
            None => None,
        };
        log.max_tokens = self.usage.max_tokens;
        log.requested_choices = self.usage.choices;
    }
}

/// Whether a response streams: the upstream answers with server-sent events.
pub open spec fn streams(fields: Map<Seq<char>, Seq<Seq<u8>>>) -> bool {
    text_of(fields, "content-type"@) matches Some(text) && starts_with(text, "text/event-stream"@)
}

/// A response streams when the upstream answers with server-sent events.
pub fn is_streaming(headers: &HeaderMap) -> (r: bool)
    ensures
        r == streams(header_values(*headers)),
{
    proof {
        reveal_strlit("content-type");
        assert(field_name("content-type"@));
    }
    match header_text(headers, "content-type") {
        Some(text) => {
            let expected = "text/event-stream";
            let length = expected.unicode_len();
            if text.as_str().unicode_len() < length {
                false
            } else {
                let head = text.as_str().substring_char(0, length);
                assert(head@ == text@.take(length as int));
                same_text(head, expected)
            }
        },
        None => false,
    }
}

/// The model that the `X-Model` header names.
pub open spec fn model_header(fields: Map<Seq<char>, Seq<Seq<u8>>>) -> Option<Seq<char>> {
    match text_of(fields, "x-model"@) {
        Some(text) if trimmed(text).len() > 0 => Some(trimmed(text)),
        _ => None,
    }
}

/// Read the `X-Model` header.
pub fn header_model(headers: &HeaderMap) -> (r: Option<String>)
    ensures
        text_view(r) == model_header(header_values(*headers)),
{
    proof {
        reveal_strlit("x-model");
        assert(field_name("x-model"@));
    }
    match header_text(headers, X_MODEL) {
        Some(text) => {
            let value = trim(text.as_str());
            if value.is_empty() {
                None
            } else {
                Some(value.to_string())
            }
        },
        None => None,
    }
}

/// The model whose details are asked for: `GET /v1/models/{model}` is routed by its path.
pub open spec fn model_of_path(method: Seq<char>, path: Seq<char>) -> Option<Seq<char>> {
    if method == "GET"@ && starts_with(path, "/v1/models/"@) && path.len() > "/v1/models/"@.len() {
        Some(path.skip("/v1/models/"@.len() as int))
    } else {
        None
    }
}

/// Read the model out of the path of `GET /v1/models/{model}`.
pub fn path_model(method: &str, path: &str) -> (r: Option<String>)
    ensures
        text_view(r) == model_of_path(method@, path@),
{
    let prefix = "/v1/models/";
    let from = prefix.unicode_len();
    let to = path.unicode_len();
    if !same_text(method, "GET") || to <= from {
        return None;
    }
    let head = path.substring_char(0, from);
    assert(head@ == path@.take(from as int));
    if !same_text(head, prefix) {
        return None;
    }
    let model = path.substring_char(from, to);
    assert(model@ == path@.skip(from as int));
    Some(model.to_string())
}

/// The model that the head of a request names: that of the `X-Model` header, or else that of the
/// path.
pub open spec fn requested_model(
    header: Option<Seq<char>>,
    method: Seq<char>,
    path: Seq<char>,
) -> Option<Seq<char>> {
    if header is Some {
        header
    } else {
        model_of_path(method, path)
    }
}

/// The model that the head of a request with these parts names.
pub open spec fn requested_by(parts: Parts) -> Option<Seq<char>> {
    requested_model(model_header(header_values(parts.headers)), parts.method@, parts.uri.path@)
}

/// The entry of the model list for the upstream `name`.
pub open spec fn model_document(name: Seq<char>, created: u64) -> Tree {
    Tree::Object(
        seq![
            ("created"@, Tree::Uint(created)),
            ("id"@, Tree::Text(name)),
            ("object"@, Tree::Text("model"@)),
            ("owned_by"@, Tree::Text("llm-conduit"@)),
        ],
    )
}

/// The list of models: one entry per upstream, which is exactly the set of values accepted as a
/// `model`.
pub open spec fn models_document(names: Seq<Seq<char>>, created: u64) -> Tree {
    Tree::Object(
        seq![
            ("data"@, Tree::Array(names.map_values(|name: Seq<char>| model_document(name, created)))),
            ("object"@, Tree::Text("list"@)),
        ],
    )
}

fn model_json(name: &str, created: u64) -> (json: Json)
    ensures
        json@ == model_document(name@, created),
        printable(json@, 1),
{
    let mut fields: Vec<(String, Json)> = Vec::new();
    fields.push(("created".to_string(), Json::Uint(created)));
    fields.push(("id".to_string(), Json::Text(name.to_string())));
    fields.push(("object".to_string(), Json::Text("model".to_string())));
    fields.push(("owned_by".to_string(), Json::Text("llm-conduit".to_string())));
    proof {
        reveal_strlit("created");
        reveal_strlit("id");
        reveal_strlit("object");
        reveal_strlit("owned_by");
        object_view(fields);
        assert(fields_of(fields@) == seq![
            ("created"@, Tree::Uint(created)),
            ("id"@, Tree::Text(name@)),
            ("object"@, Tree::Text("model"@)),
            ("owned_by"@, Tree::Text("llm-conduit"@)),
        ]);
        assert("object"@.skip(1)[0] == 'b' && "owned_by"@.skip(1)[0] == 'w');
        assert(before("object"@.skip(1), "owned_by"@.skip(1)));
        assert(before("created"@, "id"@) && before("created"@, "object"@) && before(
            "created"@,
            "owned_by"@,
        ));
        assert(before("id"@, "object"@) && before("id"@, "owned_by"@));
        assert(before("object"@, "owned_by"@));
        object_printable(fields_of(fields@), 1);
    }
    Json::Object(fields)
}

/// The `GET /v1/models` payload for `names` at the time `created`, in seconds since 1970.
pub fn models_body_at(names: &Vec<String>, created: u64) -> (body: Vec<u8>)
    ensures
        body@ == json_text(models_document(texts(names@), created)),
{
    let ghost listed = texts(names@).map_values(|name: Seq<char>| model_document(name, created));
    let mut data: Vec<Json> = Vec::new();
    let mut i: usize = 0;
    while i < names.len()
        invariant
            i <= names@.len(),
            listed == texts(names@).map_values(|name: Seq<char>| model_document(name, created)),
            items_of(data@) == listed.take(i as int),
            forall|k: int| 0 <= k < i ==> printable(#[trigger] listed[k], 1),
        decreases names@.len() - i,
    {
        let json = model_json(names[i].as_str(), created);
        assert(listed[i as int] == json@);
        let ghost was = data@;
        data.push(json);
        assert(items_of(data@) == items_of(was).push(json@));
        assert(listed.take(i + 1) == listed.take(i as int).push(listed[i as int]));
        i = i + 1;
    }
    assert(listed.take(i as int) == listed);
    proof {
        array_view(data);
        array_printable(listed, 2);
    }
    let mut fields: Vec<(String, Json)> = Vec::new();
    fields.push(("data".to_string(), Json::Array(data)));
    fields.push(("object".to_string(), Json::Text("list".to_string())));
    proof {
        reveal_strlit("data");
        reveal_strlit("object");
        object_view(fields);
        assert(fields_of(fields@) == seq![
            ("data"@, Tree::Array(listed)),
            ("object"@, Tree::Text("list"@)),
        ]);
        assert(before("data"@, "object"@));
        object_printable(fields_of(fields@), 3);
        printable_with_more(Tree::Object(fields_of(fields@)), 3, MAX_LEVELS as nat);
    }
    print(&Json::Object(fields))
}

/// `std::time::SystemTime::now` as seconds since 1970.
#[verifier::external_body]
fn unix_secs() -> u64 {
    std::time::SystemTime::now()
        .duration_since(std::time::UNIX_EPOCH)
        .map(|elapsed| elapsed.as_secs())
        .unwrap_or_default()
}

/// Build the OpenAI style `GET /v1/models` payload: one entry per configured upstream,
/// which is exactly the set of values accepted as a `model`.
pub fn models_body(names: &Vec<String>) -> (body: Vec<u8>)
    ensures
        exists|created: u64|
            body@ == json_text(
                #[trigger] models_document(texts(names@), created),
            ),
{
    models_body_at(names, unix_secs())
}

/// Routes requests to upstreams; fixed after startup.
#[derive(Debug)]
pub struct Gateway {
    config: Config,
    upstreams: NameTable<Upstream>,
    /// Pre-built `GET /v1/models` body; the routing names are fixed after startup.
    models: Vec<u8>,
}

/// The names of a table, in order.
pub open spec fn names_in<V>(entries: Seq<(Seq<char>, V)>) -> Seq<Seq<char>> {
    entries.map_values(|entry: (Seq<char>, V)| entry.0)
}

/// The names of `table`, in order.
fn names_of_table<V>(table: &NameTable<V>) -> (names: Vec<String>)
    ensures
        texts(names@) == names_in(table.entries()),
{
    let mut names: Vec<String> = Vec::new();
    let ghost all = names_in(table.entries());
    while names.len() < table.len()
        invariant
            names@.len() <= table.entries().len(),
            all == names_in(table.entries()),
            texts(names@) == all.take(names@.len() as int),
        decreases table.entries().len() - names@.len(),
    {
        let ghost was = names@;
        let name = table.name_at(names.len()).to_string();
        names.push(name);
        assert(all[was.len() as int] == name@);
        assert(texts(names@) == texts(was).push(name@));
        assert(all.take(names@.len() as int) == all.take(was.len() as int).push(name@));
    }
    assert(all.take(names@.len() as int) == all);
    names
}

/// The model that routes a request: that of the `X-Model` header, or else that of the path where
/// the details of a model are asked for, or else that of the body, or else the default upstream.
pub open spec fn chosen_model(
    header: Option<Seq<char>>,
    method: Seq<char>,
    path: Seq<char>,
    body: Seq<u8>,
    default: Option<Seq<char>>,
) -> Option<Seq<char>> {
    if requested_model(header, method, path) is Some {
        requested_model(header, method, path)
    } else if model_in(body) is Some {
        model_in(body)
    } else {
        default
    }
}

/// The model that a gateway routes a request with these parts and this body by.
pub open spec fn chosen_by(gateway: Gateway, parts: Parts, body: Seq<u8>) -> Option<Seq<char>> {
    chosen_model(
        model_header(header_values(parts.headers)),
        parts.method@,
        parts.uri.path@,
        body,
        text_view(gateway.config().server.default_upstream),
    )
}

/// The model that was read from the body; it is not read where the head of the request decides.
pub open spec fn body_model(requested: Option<Seq<char>>, body: Seq<u8>) -> Option<Seq<char>> {
    if requested is Some {
        None
    } else {
        model_in(body)
    }
}

/// What a request is answered that names no model.
pub open spec fn no_model_message() -> Seq<char> {
    "no model specified: provide an 'X-Model' header, a top-level 'model' field in the body, or configure server.default_upstream"@
}

/// What a request is answered that names an unknown model.
pub open spec fn unknown_model_message(model: Seq<char>) -> Seq<char> {
    "unknown model '"@ + model + "': no upstream with that name is configured"@
}

/// What the log and the probe hold after a body was looked at.
pub open spec fn body_noted(
    requested: Option<Seq<char>>,
    body: Seq<u8>,
    before: (RequestLog, RequestProbe),
    after: (RequestLog, RequestProbe),
) -> bool {
    &&& after.0 == (RequestLog {
        request_bytes: body.len() as u64,
        model: after.0.model,
        upstream: after.0.upstream,
        ..before.0
    })
    &&& if body_model(requested, body) is Some {
        &&& text_view(after.1.effort) == (match before.1.effort {
            Some(effort) => Some(effort@),
            None => effort_in(body),
        })
        &&& after.1.usage == request_usage_in(body)
    } else {
        after.1 == before.1
    }
}

/// Where a request goes.
pub struct Route<'a> {
    pub upstream: &'a Upstream,
    /// The model that was read from the body.
    pub body_model: Option<String>,
}

/// What is asked of the caller after authentication.
pub enum Admission {
    /// The gateway answers by itself.
    Answer(Reply),
    /// The request body is to be read, up to this many bytes.
    ReadBody(u64),
}

/// How far the handling of a request has come.
pub enum Stage {
    /// Nothing was done yet.
    Start,
    /// The request body is being read.
    Reading(BodyReader),
    /// The request was sent to the upstream with this name.
    Sent(String),
    /// The response is known.
    Done,
}

/// What happened.
pub enum Event {
    /// The request came in, with a body of this length if it declares one.
    Begin(Option<u64>),
    /// A chunk of the request body arrived.
    Chunk(Vec<u8>),
    /// The connection failed while the body was read.
    BodyFailed(String),
    /// The request body is complete.
    EndOfBody,
    /// The upstream answered.
    Head(StatusCode, HeaderMap),
    /// The upstream could not be reached.
    SendFailed(String),
}

/// What to do next.
pub enum Action {
    /// Read on.
    Read,
    /// Send this request; whether certificates are verified is up to the upstream.
    Send(UpstreamRequest, bool),
    /// Answer with this.
    Answer(Reply),
    /// Pass the upstream's response on under this head.
    Relay(ResponseHead),
    /// Answer with this error.
    Fail(GatewayError),
}

/// Whether an event can happen at a stage.
pub open spec fn expected(stage: Stage, event: Event) -> bool {
    match (stage, event) {
        (Stage::Start, Event::Begin(_)) => true,
        (Stage::Reading(_), Event::Chunk(_)) => true,
        (Stage::Reading(_), Event::BodyFailed(_)) => true,
        (Stage::Reading(_), Event::EndOfBody) => true,
        (Stage::Sent(_), Event::Head(_, headers)) => has_room(header_values(headers)),
        (Stage::Sent(_), Event::SendFailed(_)) => true,
        _ => false,
    }
}

impl Gateway {
    pub closed spec fn config(self) -> Config {
        self.config
    }

    /// The upstreams by name.
    pub closed spec fn upstreams(self) -> Map<Seq<char>, Upstream> {
        self.upstreams@
    }

    /// The names that requests are routed by, in order.
    pub closed spec fn names(self) -> Seq<Seq<char>> {
        names_in(self.upstreams.entries())
    }

    /// The `GET /v1/models` body.
    pub closed spec fn models(self) -> Seq<u8> {
        self.models@
    }

    /// The configuration is valid, and the upstreams are those it resolves to.
    #[verifier::type_invariant]
    spec fn wf(self) -> bool {
        &&& config_error(self.config) is None
        &&& resolves_to(self.config.upstreams.entries(), self.upstreams.entries())
    }

    /// Validates the configuration and resolves the upstreams.
    pub fn new(config: Config) -> (r: Result<Self, StartupError>)
        ensures
            match r {
                Ok(gateway) => {
                    &&& config_error(config) is None
                    &&& gateway.config() == config
                    &&& gateway.names() == names_in(config.upstreams.entries())
                    &&& forall|name: Seq<char>| #[trigger]
                        gateway.upstreams().dom().contains(name)
                            <==> config.upstreams@.dom().contains(name)
                    &&& forall|name: Seq<char>|
                        config.upstreams@.dom().contains(name) ==> (
                        #[trigger] gateway.upstreams()[name])@ == resolved(
                            name,
                            config.upstreams@[name],
                        )
                    &&& exists|created: u64|
                        gateway.models() == json_text(
                            #[trigger] models_document(gateway.names(), created),
                        )
                },
                Err(error) => config_error(config) == Some(error.0@),
            },
    {
        if let Err(error) = config.validate() {
            return Err(error);
        }
        proof {
            valid_config_resolves(config);
        }
        let upstreams = match config.resolve_upstreams() {
            Ok(upstreams) => upstreams,
            Err(error) => {
                return Err(error);
            },
        };
        let names = names_of_table(&upstreams);
        assert(names_in(upstreams.entries()) =~= names_in(config.upstreams.entries()));
        let models = models_body(&names);
        proof {
            use_type_invariant(&config.upstreams);
            use_type_invariant(&upstreams);
            assert forall|name: Seq<char>| #[trigger]
                upstreams@.dom().contains(name) <==> config.upstreams@.dom().contains(name) by {
                resolved_names_are_configured(config.upstreams.entries(), upstreams.entries(), name);
            }
            assert forall|name: Seq<char>|
                config.upstreams@.dom().contains(name) implies (#[trigger] upstreams@[name])@
                == resolved(name, config.upstreams@[name]) by {
                assert(upstreams@.dom().contains(name));
                let i = crate::table::position(upstreams.entries(), name);
                crate::table::assigned_at(upstreams.entries(), i);
                crate::table::assigned_at(config.upstreams.entries(), i);
            }
        }
        Ok(Gateway { config, upstreams, models })
    }

    /// The names that requests are routed by.
    pub fn upstream_names(&self) -> (names: Vec<String>)
        ensures
            texts(names@) == self.names(),
    {
        names_of_table(&self.upstreams)
    }

    /// The configuration.
    pub fn settings(&self) -> (config: &Config)
        ensures
            *config == self.config(),
    {
        &self.config
    }

    /// How the upstreams are probed; `None` when probing is disabled.
    pub fn probing(&self) -> (r: Option<HealthConfig>)
        ensures
            r == (if self.config().server.health.enabled {
                Some(self.config().server.health)
            } else {
                None
            }),
    {
        if self.config.server.health.enabled {
            Some(self.config.server.health)
        } else {
            None
        }
    }

    /// The upstream called `name`.
    pub fn upstream(&self, name: &str) -> (r: Option<&Upstream>)
        ensures
            match r {
                Some(upstream) => self.upstreams().dom().contains(name@) && *upstream
                    == self.upstreams()[name@] && upstream@.name == name@,
                None => !self.upstreams().dom().contains(name@),
            },
    {
        proof {
            use_type_invariant(self);
            if self.upstreams@.dom().contains(name@) {
                let entries = self.upstreams.entries();
                assert(holds(entries, name@));
                let i = crate::table::position(entries, name@);
                assert(entries[i].0 == name@);
                assert(entries[i].1@.name == name@);
            }
        }
        self.upstreams.get(name)
    }

    /// Whether some upstream is reached without verifying its certificate.
    pub fn needs_insecure(&self) -> (r: bool)
        ensures
            r == exists|name: Seq<char>| #[trigger]
                self.upstreams().dom().contains(name)
                    && self.upstreams()[name].insecure_skip_verify,
    {
        proof {
            use_type_invariant(&self.upstreams);
        }
        let ghost entries = self.upstreams.entries();
        let mut i: usize = 0;
        while i < self.upstreams.len()
            invariant
                entries == self.upstreams.entries(),
                self.upstreams.wf(),
                i <= entries.len(),
                forall|k: int| 0 <= k < i ==> !(#[trigger] entries[k]).1.insecure_skip_verify,
            decreases entries.len() - i,
        {
            if self.upstreams.value_at(i).insecure_skip_verify {
                proof {
                    crate::table::assigned_at(entries, i as int);
                    assert(self.upstreams().dom().contains(entries[i as int].0));
                }
                return true;
            }
            i = i + 1;
        }
        false
    }

    /// `/healthz` and `/readyz`, or `None` when this is a normal gateway request.
    pub fn health_response(&self, method: &str, path: &str, health: &HealthState) -> (r: Option<
        Reply,
    >)
        ensures
            ({
                let polled = method@ == "GET"@ || method@ == "HEAD"@;
                match r {
                    Some(reply) => {
                        &&& polled
                        &&& header_values(reply.headers) == json_headers()
                        &&& if path@ == "/healthz"@ {
                            reply.status.0 == 200 && reply.body@ == json_text(
                                Tree::Object(seq![("status"@, Tree::Text("ok"@))]),
                            )
                        } else {
                            &&& path@ == "/readyz"@
                            &&& reply.status.0 == (if all_ready(health.names(), health.known()) {
                                200u16
                            } else {
                                503u16
                            })
                            &&& exists|ages: Seq<u64>|
                                ages.len() == health.names().len() && reply.body@ == json_text(
                                    #[trigger] readyz_document(
                                        health.names(),
                                        health.known(),
                                        self.config().server.health.enabled,
                                        ages,
                                    ),
                                )
                        }
                    },
                    None => !polled || (path@ != "/healthz"@ && path@ != "/readyz"@),
                }
            }),
    {
        if !same_text(method, "GET") && !same_text(method, "HEAD") {
            return None;
        }
        if same_text(path, "/healthz") {
            Some(healthz())
        } else if same_text(path, "/readyz") {
            Some(readyz(health, self.config.server.health.enabled))
        } else {
            None
        }
    }

    /// `GET /v1/models`, answered from the configuration.
    pub fn models_response(&self) -> (reply: Reply)
        ensures
            reply.status.0 == 200,
            header_values(reply.headers) == json_headers(),
            reply.body@ == self.models(),
    {
        let mut headers = no_headers();
        proof {
            reveal_strlit("content-type");
            reveal_strlit("application/json");
            assert(field_name("content-type"@));
            ascii_field_value("application/json"@);
        }
        insert_field(&mut headers, "content-type", "application/json".as_bytes());
        let mut body: Vec<u8> = Vec::new();
        body.extend_from_slice(self.models.as_slice());
        assert(body@ == self.models@);
        Reply { status: StatusCode(200), headers, body }
    }

    /// Starts the handling of a request: its ID, supplied or generated, is set in its headers
    /// and in a new log record.
    pub fn open(&self, parts: &mut Parts, started: Instant) -> (log: RequestLog)
        requires
            has_room(header_values(old(parts).headers)),
        ensures
            usable_id(log.request_id@),
            match supplied_id(header_values(old(parts).headers)) {
                Some(id) => log.request_id@ == id,
                None => uuid_shaped(log.request_id@),
            },
            log == (RequestLog {
                request_id: log.request_id,
                method: log.method,
                path: log.path,
                started,
                caller: None,
                model: None,
                upstream: None,
                status: StatusCode(200),
                streaming: false,
                request_bytes: 0,
                effort: None,
                max_tokens: None,
                requested_choices: None,
                usage: None,
                error: None,
            }),
            log.method@ == old(parts).method@,
            log.path@ == old(parts).uri.path@,
            final(parts).method == old(parts).method,
            final(parts).uri == old(parts).uri,
            header_values(final(parts).headers) == header_values(old(parts).headers).insert(
                "x-request-id"@,
                seq![encode_utf8(log.request_id@)],
            ),
    {
        let id = request_id(&parts.headers);
        proof {
            reveal_strlit("x-request-id");
            assert(field_name("x-request-id"@));
            ascii_field_value(id@);
        }
        insert_field(&mut parts.headers, REQUEST_ID_HEADER, id.as_str().as_bytes());
        RequestLog::new(id, parts.method.clone(), parts.uri.path.clone(), started)
    }

    /// Authenticates a request, notes the caller, and answers `GET /v1/models` from the
    /// configuration, so that a client only sees names this gateway can actually route.
    pub fn authorize(&self, parts: &Parts, log: &mut RequestLog) -> (r: Result<Admission, GatewayError>)
        ensures
            *final(log) == (RequestLog { caller: final(log).caller, ..*old(log) }),
            match r {
                Ok(admission) => {
                    &&& if self.config().auth.enabled {
                        &&& key_in(header_values(parts.headers)) matches Some(key)
                        &&& self.config().auth.keys@.dom().contains(key)
                        &&& final(log).caller matches Some(caller)
                        &&& caller@ == self.config().auth.keys@[key]@
                    } else {
                        final(log).caller is None
                    }
                    &&& match admission {
                        Admission::Answer(reply) => {
                            &&& parts.method@ == "GET"@ && parts.uri.path@ == "/v1/models"@
                            &&& reply.status.0 == 200
                            &&& header_values(reply.headers) == json_headers()
                            &&& reply.body@ == self.models()
                        },
                        Admission::ReadBody(limit) => {
                            &&& parts.method@ != "GET"@ || parts.uri.path@ != "/v1/models"@
                            &&& limit == self.config().server.max_body_bytes
                        },
                    }
                },
                Err(error) => {
                    &&& self.config().auth.enabled
                    &&& error.status.0 == 401
                    &&& *final(log) == *old(log)
                    &&& match key_in(header_values(parts.headers)) {
                        Some(key) => !self.config().auth.keys@.dom().contains(key)
                            && error.message@ == "invalid API key"@,
                        None => error.message@
                            == "missing credentials: provide 'Authorization: Bearer <key>' or 'X-API-Key'"@,
                    }
                },
            },
    {
        let caller = match authenticate(&self.config.auth, &parts.headers) {
            Ok(Some(caller)) => Some(caller.to_string()),
            Ok(None) => None,
            Err(error) => {
                return Err(error);
            },
        };
        log.caller = caller;
        if same_text(parts.method.as_str(), "GET") && same_text(
            parts.uri.path.as_str(),
            "/v1/models",
        ) {
            Ok(Admission::Answer(self.models_response()))
        } else {
            Ok(Admission::ReadBody(self.config.server.max_body_bytes))
        }
    }

    /// Resolves the model of a request and matches the upstream; notes both, and what the body
    /// says about tokens where it had to be parsed anyway.
    pub fn route(
        &self,
        parts: &Parts,
        body: &Vec<u8>,
        log: &mut RequestLog,
        probe: &mut RequestProbe,
    ) -> (r: Result<Route<'_>, GatewayError>)
        ensures
            ({
                let requested = requested_by(*parts);
                let chosen = chosen_by(*self, *parts, body@);
                &&& body_noted(
                    requested,
                    body@,
                    (*old(log), *old(probe)),
                    (*final(log), *final(probe)),
                )
                &&& match r {
                    Ok(route) => {
                        &&& chosen matches Some(model)
                        &&& self.upstreams().dom().contains(model)
                        &&& *route.upstream == self.upstreams()[model]
                        &&& route.upstream@.name == model
                        &&& text_view(route.body_model) == body_model(requested, body@)
                        &&& text_view(final(log).model) == Some(model)
                        &&& text_view(final(log).upstream) == Some(model)
                    },
                    Err(error) => {
                        &&& final(log).model == old(log).model
                        &&& final(log).upstream == old(log).upstream
                        &&& match chosen {
                            None => error.status.0 == 400 && error.message@ == no_model_message(),
                            Some(model) => !self.upstreams().dom().contains(model)
                                && error.status.0 == 404 && error.message@
                                == unknown_model_message(model),
                        }
                    },
                }
            }),
    {
        log.request_bytes = body.len() as u64;
        let requested = match header_model(&parts.headers) {
            Some(model) => Some(model),
            None => path_model(parts.method.as_str(), parts.uri.path.as_str()),
        };
        // Routing is already decided by the header or the path, so the body needs no parsing at all.
        let seen = match &requested {
            Some(_) => None,
            None => extract_model(body.as_slice()),
        };
        if seen.is_some() {
            probe.record(body.as_slice());
        }
        let model = match requested {
            Some(model) => Some(model),
            None => match &seen {
                Some(model) => Some(model.clone()),
                None => match &self.config.server.default_upstream {
                    Some(model) => Some(model.clone()),
                    None => None,
                },
            },
        };
        let model = match model {
            Some(model) => model,
            None => {
                return Err(
                    GatewayError::bad_request(
                        "no model specified: provide an 'X-Model' header, a top-level 'model' field in the body, or configure server.default_upstream",
                    ),
                );
            },
        };
        match self.upstream(model.as_str()) {
            Some(upstream) => {
                log.model = Some(model);
                log.upstream = Some(upstream.name.clone());
                Ok(Route { upstream, body_model: seen })
            },
            None => {
                let mut message = "unknown model '".to_string();
                message.append(model.as_str());
                message.append("': no upstream with that name is configured");
                Err(GatewayError::not_found(message.as_str()))
            },
        }
    }
}

/// What becomes of a request that has just come in: it is rejected without a valid key, answered
/// where it asks for the models, rejected when its declared length is over the limit, and read
/// otherwise.
pub open spec fn begun(
    gateway: Gateway,
    parts: Parts,
    declared: Option<u64>,
    stage: Stage,
    action: Action,
) -> bool {
    let config = gateway.config();
    let key = key_in(header_values(parts.headers));
    let known = key matches Some(key) && config.auth.keys@.dom().contains(key);
    let limit = config.server.max_body_bytes;
    if config.auth.enabled && !known {
        &&& stage is Done
        &&& action matches Action::Fail(error)
        &&& error.status.0 == 401
        &&& error.message@ == (if key is Some {
            "invalid API key"@
        } else {
            "missing credentials: provide 'Authorization: Bearer <key>' or 'X-API-Key'"@
        })
    } else if parts.method@ == "GET"@ && parts.uri.path@ == "/v1/models"@ {
        &&& stage is Done
        &&& action matches Action::Answer(reply)
        &&& reply.status.0 == 200
        &&& header_values(reply.headers) == json_headers()
        &&& reply.body@ == gateway.models()
    } else if declared matches Some(length) && length > limit {
        stage is Done && over_limit(action, limit)
    } else {
        &&& action is Read
        &&& stage matches Stage::Reading(reader)
        &&& reader.limit() == limit
        &&& reader.read().len() == 0
    }
}

/// Whether a request is rejected because its body is over the limit.
pub open spec fn over_limit(action: Action, limit: u64) -> bool {
    action matches Action::Fail(error) && error.status.0 == 413 && error.message@
        == limit_message(limit)
}

/// What becomes of a request whose body is complete: it is rejected when it names no model or an
/// unknown one, and sent to the upstream of its model otherwise.
pub open spec fn sent(
    gateway: Gateway,
    parts: Parts,
    body: Seq<u8>,
    stage: Stage,
    action: Action,
) -> bool {
    let fields = header_values(parts.headers);
    match chosen_by(gateway, parts, body) {
        None => {
            &&& stage is Done
            &&& action matches Action::Fail(error)
            &&& error.status.0 == 400
            &&& error.message@ == no_model_message()
        },
        Some(model) => if !gateway.upstreams().dom().contains(model) {
            &&& stage is Done
            &&& action matches Action::Fail(error)
            &&& error.status.0 == 404
            &&& error.message@ == unknown_model_message(model)
        } else {
            let upstream = gateway.upstreams()[model];
            let forwarded = forwarded_body(
                upstream@.upstream_model,
                body_model(requested_by(parts), body),
                body,
            );
            match target_of(upstream@, parts.uri@) {
                Err(message) => {
                    &&& stage is Done
                    &&& action matches Action::Fail(error)
                    &&& error.status.0 == 500
                    &&& error.message@ == message
                },
                Ok(target) => if !sendable(upstream@.api_key) {
                    &&& stage is Done
                    &&& action matches Action::Fail(error)
                    &&& error.status.0 == 500
                    &&& error.message@ == "upstream api_key contains invalid characters"@
                } else {
                    &&& stage matches Stage::Sent(name)
                    &&& name@ == model
                    &&& action matches Action::Send(request, insecure)
                    &&& insecure == upstream.insecure_skip_verify
                    &&& request.method@ == parts.method@
                    &&& request.uri@ == target
                    &&& request.body@ == forwarded
                    &&& header_values(request.headers) == request_headers(
                        fields,
                        forwarded.len(),
                        upstream@.api_key,
                    )
                },
            }
        },
    }
}

impl Gateway {
    /// Takes a request from stage to stage: for what happened, what to do next.
    pub fn dispatch(
        &self,
        stage: Stage,
        event: Event,
        parts: &Parts,
        log: &mut RequestLog,
        probe: &mut RequestProbe,
    ) -> (r: (Stage, Action))
        requires
            expected(stage, event),
            has_room_for_request(header_values(parts.headers)),
        ensures
            match (stage, event) {
                (Stage::Start, Event::Begin(declared)) => {
                    &&& begun(*self, *parts, declared, r.0, r.1)
                    &&& *final(probe) == *old(probe)
                    &&& *final(log) == (RequestLog { caller: final(log).caller, ..*old(log) })
                    &&& text_view(final(log).caller) == (match key_in(
                        header_values(parts.headers),
                    ) {
                        Some(key) if self.config().auth.enabled
                            && self.config().auth.keys@.dom().contains(key) => Some(
                            self.config().auth.keys@[key]@,
                        ),
                        _ => if self.config().auth.enabled {
                            text_view(old(log).caller)
                        } else {
                            None
                        },
                    })
                },
                (Stage::Reading(reader), Event::Chunk(chunk)) => {
                    &&& *final(log) == *old(log)
                    &&& *final(probe) == *old(probe)
                    &&& if reader.read().len() + chunk@.len() > reader.limit() {
                        r.0 is Done && over_limit(r.1, reader.limit())
                    } else {
                        &&& r.1 is Read
                        &&& r.0 matches Stage::Reading(now)
                        &&& now.limit() == reader.limit()
                        &&& now.read() == reader.read() + chunk@
                    }
                },
                (Stage::Reading(_), Event::BodyFailed(error)) => {
                    &&& *final(log) == *old(log)
                    &&& *final(probe) == *old(probe)
                    &&& r.0 is Done
                    &&& r.1 matches Action::Fail(answer)
                    &&& answer.status.0 == 400
                    &&& answer.message@ == "failed to read request body: "@ + error@
                },
                (Stage::Reading(reader), Event::EndOfBody) => {
                    let body = reader.read();
                    let chosen = chosen_by(*self, *parts, body);
                    &&& sent(*self, *parts, body, r.0, r.1)
                    &&& body_noted(
                        requested_by(*parts),
                        body,
                        (*old(log), *old(probe)),
                        (*final(log), *final(probe)),
                    )
                    &&& match chosen {
                        Some(model) if self.upstreams().dom().contains(model) => text_view(
                            final(log).model,
                        ) == Some(model) && text_view(final(log).upstream) == Some(model),
                        _ => final(log).model == old(log).model && final(log).upstream == old(
                            log,
                        ).upstream,
                    }
                    &&& match (chosen, r.1) {
                        (Some(model), Action::Send(request, _)) => {
                            let upstream = self.upstreams()[model]@;
                            let prefixed = upstream.path_prefix + parts.uri@.path;
                            &&& new_model_is_read(
                                upstream.upstream_model,
                                body_model(requested_by(*parts), body),
                                body,
                                request.body@,
                            )
                            &&& match upstream.upstream_model {
                                Some(target) => {
                                    &&& request.body@ == body || model_replaced(
                                        body,
                                        target,
                                        request.body@,
                                    )
                                    &&& target.len() > 0 && has_model(body) ==> names_model(
                                        request.body@,
                                        target,
                                    )
                                },
                                None => request.body@ == body,
                            }
                            &&& request.uri@.authority == upstream.base.authority
                            &&& upstream.base.scheme is Some ==> request.uri@.scheme
                                == upstream.base.scheme
                            &&& only_path(prefixed) && (parts.uri@.query matches Some(query)
                                ==> !query.contains('#')) ==> request.uri@.query
                                == parts.uri@.query && request.uri@.path == (if prefixed.len()
                                == 0 {
                                seq!['/']
                            } else {
                                prefixed
                            })
                        },
                        _ => true,
                    }
                },
                (Stage::Sent(_), Event::Head(status, headers)) => {
                    &&& *final(log) == *old(log)
                    &&& *final(probe) == *old(probe)
                    &&& r.0 is Done
                    &&& r.1 matches Action::Relay(head)
                    &&& head.status == status
                    &&& header_values(head.headers) == passed_on(
                        header_values(headers),
                        Set::empty(),
                    )
                },
                (Stage::Sent(name), Event::SendFailed(error)) => {
                    &&& *final(log) == *old(log)
                    &&& *final(probe) == *old(probe)
                    &&& r.0 is Done
                    &&& r.1 matches Action::Fail(answer)
                    &&& answer.status.0 == 502
                    &&& answer.message@ == "upstream '"@ + name@ + "' request failed: "@ + error@
                },
                _ => false,
            },
    {
        match (stage, event) {
            (Stage::Start, Event::Begin(declared)) => match self.authorize(parts, log) {
                Err(error) => (Stage::Done, Action::Fail(error)),
                Ok(Admission::Answer(reply)) => (Stage::Done, Action::Answer(reply)),
                Ok(Admission::ReadBody(limit)) => match BodyReader::new(declared, limit) {
                    Ok(reader) => (Stage::Reading(reader), Action::Read),
                    Err(error) => (Stage::Done, Action::Fail(error)),
                },
            },
            (Stage::Reading(reader), Event::Chunk(chunk)) => {
                let mut reader = reader;
                match reader.push(chunk.as_slice()) {
                    Ok(_) => (Stage::Reading(reader), Action::Read),
                    Err(error) => (Stage::Done, Action::Fail(error)),
                }
            },
            (Stage::Reading(_), Event::BodyFailed(error)) => (
                Stage::Done,
                Action::Fail(BodyReader::failed(error.as_str())),
            ),
            (Stage::Reading(reader), Event::EndOfBody) => {
                let body = reader.finish();
                match self.route(parts, &body, log, probe) {
                    Err(error) => (Stage::Done, Action::Fail(error)),
                    Ok(route) => {
                        let body_model = match &route.body_model {
                            Some(model) => Some(model.as_str()),
                            None => None,
                        };
                        match forward_request(route.upstream, parts, body, body_model) {
                            Ok(request) => (
                                Stage::Sent(route.upstream.name.clone()),
                                Action::Send(request, route.upstream.insecure_skip_verify),
                            ),
                            Err(error) => (Stage::Done, Action::Fail(error)),
                        }
                    },
                }
            },
            (Stage::Sent(_), Event::Head(status, headers)) => (
                Stage::Done,
                Action::Relay(forward_response(status, &headers)),
            ),
            (Stage::Sent(name), Event::SendFailed(error)) => (
                Stage::Done,
                Action::Fail(request_failed(name.as_str(), error.as_str())),
            ),
            (stage, _) => (stage, Action::Read),
        }
    }
}

/// Whether the body of a response is worth scanning for token usage: an error response carries
/// no completion.
pub open spec fn worth_scanning(status: StatusCode) -> bool {
    !status.client_error() && !status.server_error() && status.0 != 204
}

impl Gateway {
    /// The response to a request that failed; the log tells why.
    pub fn fail(&self, error: GatewayError, log: &mut RequestLog) -> (reply: Reply)
        ensures
            reply.status == error.status,
            reply.body@ == json_text(error_document(error.message@)),
            header_values(reply.headers) == map![
                "content-type"@ => seq![encode_utf8("application/json"@)],
                "content-length"@ => seq![encode_utf8(digits(reply.body@.len()))],
            ],
            text_view(final(log).error) == Some(error.message@),
            *final(log) == (RequestLog { error: final(log).error, ..*old(log) }),
    {
        log.error = Some(error.message.clone());
        error.into_response()
    }

    /// Completes the head of a response and the log record: the request ID is echoed back, and
    /// what the request body and the response head contribute to the log is noted. Returns
    /// whether the response body is to be scanned for token usage.
    pub fn close(
        &self,
        status: StatusCode,
        headers: &mut HeaderMap,
        log: &mut RequestLog,
        probe: &RequestProbe,
    ) -> (observe_body: bool)
        requires
            has_room(header_values(*old(headers))),
        ensures
            observe_body == worth_scanning(status),
            header_values(*final(headers)) == (if field_value(encode_utf8(old(log).request_id@)) {
                header_values(*old(headers)).insert(
                    "x-request-id"@,
                    seq![encode_utf8(old(log).request_id@)],
                )
            } else {
                header_values(*old(headers))
            }),
            usable_id(old(log).request_id@) ==> values_in(
                header_values(*final(headers)),
                "x-request-id"@,
            ) == seq![encode_utf8(old(log).request_id@)],
            text_view(final(log).effort) == text_view(probe.effort),
            *final(log) == (RequestLog {
                status,
                streaming: streams(header_values(*final(headers))),
                effort: final(log).effort,
                max_tokens: probe.usage.max_tokens,
                requested_choices: probe.usage.choices,
                ..*old(log)
            }),
    {
        probe.apply(log);
        proof {
            reveal_strlit("x-request-id");
            assert(field_name("x-request-id"@));
            if usable_id(log.request_id@) {
                ascii_field_value(log.request_id@);
            }
        }
        if is_field_value(log.request_id.as_str().as_bytes()) {
            insert_field(headers, REQUEST_ID_HEADER, log.request_id.as_str().as_bytes());
        }
        log.status = status;
        log.streaming = is_streaming(headers);
        !status.is_client_error() && !status.is_server_error() && status.as_u16() != 204
    }

    /// The log line of a request whose response is done, with what its body was seen to say
    /// about tokens.
    pub fn finish(&self, log: RequestLog, body: &MeteredBody) -> (line: LogLine)
        ensures
            line.level == (if failed(log) || body@.aborted() {
                Level::Warn
            } else {
                Level::Info
            }),
            line.outcome@ == outcome_of(log, body@.aborted()),
            exists|elapsed_ms: u64|
                line_fields(line.fields@) == #[trigger] log_fields(
                    with_usage(log, seen_usage(body@)),
                    elapsed_ms,
                    body@.bytes,
                    body@.aborted(),
                ),
    {
        let ghost given = log;
        let mut log = log;
        let seen = body.usage();
        if seen.is_some() {
            log.usage = seen;
        }
        let (bytes, aborted) = body.report();
        assert(log == with_usage(given, seen_usage(body@)));
        log.finish(bytes, aborted)
    }
}

/// The token counters that were seen in a response body.
pub open spec fn seen_usage(body: Metered) -> Option<TokenUsage> {
    match body.observer {
        Some(observer) => observer.counters(),
        None => None,
    }
}

/// `log` with the token counters that were seen, if any were.
pub open spec fn with_usage(log: RequestLog, seen: Option<TokenUsage>) -> RequestLog {
    RequestLog {
        usage: if seen is Some {
            seen
        } else {
            log.usage
        },
        ..log
    }
}

/// A client that lists the models sees exactly the names that the gateway can route.
pub proof fn listed_models_are_routable(gateway: Gateway, name: Seq<char>)
    ensures
        gateway.names().contains(name) <==> gateway.upstreams().dom().contains(name),
{
    let entries = gateway.upstreams.entries();
    if gateway.names().contains(name) {
        let i = choose|i: int| 0 <= i < gateway.names().len() && gateway.names()[i] == name;
        assert(entries[i].0 == name);
    }
    if holds(entries, name) {
        let i = crate::table::position(entries, name);
        assert(gateway.names()[i] == name);
    }
}

/// The fallback of a gateway that started is routable: a request without a model is never
/// answered that its model is unknown.
pub proof fn default_upstream_is_routable(gateway: Gateway)
    requires
        config_error(gateway.config()) is None,
        forall|name: Seq<char>| #[trigger]
            gateway.upstreams().dom().contains(name)
                <==> gateway.config().upstreams@.dom().contains(name),
    ensures
        gateway.config().server.default_upstream matches Some(name)
            ==> gateway.upstreams().dom().contains(name@),
{
    valid_config_resolves(gateway.config());
}

/// The `X-Model` header decides, whatever the path, the body and the configuration say; without it
/// the path decides where it asks for the details of a model; otherwise the body decides, whatever
/// the configuration says.
pub proof fn routing_priority(
    header: Option<Seq<char>>,
    method: Seq<char>,
    path: Seq<char>,
    body: Seq<u8>,
    default: Option<Seq<char>>,
)
    ensures
        ({
            let asked = model_of_path(method, path);
            let chosen = chosen_model(header, method, path, body, default);
            &&& header is Some ==> chosen == header
            &&& header is None && asked is Some ==> chosen == asked
            &&& header is None && asked is None && model_in(body) is Some ==> chosen == model_in(body)
            &&& header is None && asked is None && model_in(body) is None ==> chosen == default
        }),
{
}

/// The details of a configured model can be asked for by its name alone: without an `X-Model`
/// header, `GET /v1/models/{model}` is routed to the upstream of that name, whatever the body and
/// the configuration say.
pub proof fn model_details_are_routed_by_path(
    gateway: Gateway,
    parts: Parts,
    name: Seq<char>,
    body: Seq<u8>,
)
    requires
        gateway.upstreams().dom().contains(name),
        name.len() > 0,
        parts.method@ == "GET"@,
        parts.uri.path@ == "/v1/models/"@ + name,
        model_header(header_values(parts.headers)) is None,
    ensures
        chosen_by(gateway, parts, body) == Some(name),
{
    assert(parts.uri.path@.take("/v1/models/"@.len() as int) == "/v1/models/"@);
    assert(parts.uri.path@.skip("/v1/models/"@.len() as int) == name);
}

/// With authentication enabled, a request without a known key is rejected before anything else
/// of it is looked at: nothing of it is read, routed or answered.
pub proof fn unknown_callers_are_rejected_first(
    gateway: Gateway,
    parts: Parts,
    declared: Option<u64>,
    stage: Stage,
    action: Action,
)
    requires
        begun(gateway, parts, declared, stage, action),
        gateway.config().auth.enabled,
        key_in(header_values(parts.headers)) matches Some(key)
            ==> !gateway.config().auth.keys@.dom().contains(key),
    ensures
        stage is Done,
        action matches Action::Fail(error) && error.status.0 == 401,
{
}

/// With authentication disabled, no request is rejected for its key.
pub proof fn open_gateway_never_asks_for_a_key(
    gateway: Gateway,
    parts: Parts,
    declared: Option<u64>,
    stage: Stage,
    action: Action,
)
    requires
        begun(gateway, parts, declared, stage, action),
        !gateway.config().auth.enabled,
    ensures
        action matches Action::Fail(error) ==> error.status.0 == 413,
{
}

/// A request that came in is only ever rejected with the statuses that are documented for it.
pub proof fn rejections_have_documented_statuses(
    gateway: Gateway,
    parts: Parts,
    declared: Option<u64>,
    body: Seq<u8>,
    stage: Stage,
    action: Action,
)
    requires
        begun(gateway, parts, declared, stage, action) || sent(gateway, parts, body, stage, action),
    ensures
        action matches Action::Fail(error) ==> error.status.0 == 400 || error.status.0 == 401
            || error.status.0 == 404 || error.status.0 == 413 || error.status.0 == 500,
{
}

/// Without an `upstream_model` the body is passed through untouched.
pub proof fn body_is_untouched_without_upstream_model(model: Option<Seq<char>>, body: Seq<u8>)
    ensures
        forwarded_body(None, model, body) == body,
{
}

/// The `X-Model` header names a model by its text, character for character, whatever white space
/// stands around it; that model routes the request, whatever the path, the body and the
/// configuration say.
pub proof fn header_names_the_model(
    gateway: Gateway,
    parts: Parts,
    body: Seq<u8>,
    left: Seq<char>,
    model: Seq<char>,
    right: Seq<char>,
)
    requires
        header_values(parts.headers).dom().contains("x-model"@),
        header_values(parts.headers)["x-model"@].len() > 0,
        header_values(parts.headers)["x-model"@][0] == encode_utf8(left + model + right),
        forall|i: int| 0 <= i < left.len() ==> #[trigger] left[i] == ' ' || left[i] == '\t',
        forall|i: int| 0 <= i < right.len() ==> #[trigger] right[i] == ' ' || right[i] == '\t',
        forall|i: int|
            0 <= i < model.len() ==> ' ' <= #[trigger] model[i] <= '~' || model[i] == '\t',
        model.len() > 0,
        '!' <= model[0] <= '~',
        '!' <= model.last() <= '~',
    ensures
        model_header(header_values(parts.headers)) == Some(model),
        requested_by(parts) == Some(model),
        chosen_by(gateway, parts, body) == Some(model),
{
    padded_value_is_trimmed(header_values(parts.headers), "x-model"@, left, model, right);
}

/// A request whose `X-Model` header is the name of an upstream is sent to that upstream, or not at
/// all when the upstream's URL or key cannot be used.
pub proof fn header_routes_to_the_upstream_it_names(
    gateway: Gateway,
    parts: Parts,
    body: Seq<u8>,
    stage: Stage,
    action: Action,
    left: Seq<char>,
    model: Seq<char>,
    right: Seq<char>,
)
    requires
        sent(gateway, parts, body, stage, action),
        gateway.upstreams().dom().contains(model),
        header_values(parts.headers).dom().contains("x-model"@),
        header_values(parts.headers)["x-model"@].len() > 0,
        header_values(parts.headers)["x-model"@][0] == encode_utf8(left + model + right),
        forall|i: int| 0 <= i < left.len() ==> #[trigger] left[i] == ' ' || left[i] == '\t',
        forall|i: int| 0 <= i < right.len() ==> #[trigger] right[i] == ' ' || right[i] == '\t',
        forall|i: int|
            0 <= i < model.len() ==> ' ' <= #[trigger] model[i] <= '~' || model[i] == '\t',
        model.len() > 0,
        '!' <= model[0] <= '~',
        '!' <= model.last() <= '~',
    ensures
        match action {
            Action::Send(_, insecure) => {
                &&& stage matches Stage::Sent(name)
                &&& name@ == model
                &&& insecure == gateway.upstreams()[model].insecure_skip_verify
            },
            Action::Fail(error) => {
                &&& stage is Done
                &&& error.status.0 == 500
                &&& target_of(gateway.upstreams()[model]@, parts.uri@) is Err || (
                gateway.upstreams()[model]@.api_key matches Some(key) && !field_value(
                    encode_utf8("Bearer "@ + key),
                ))
            },
            _ => false,
        },
{
    header_names_the_model(gateway, parts, body, left, model, right);
}

/// An `X-Model` header that is missing, that is not text, or that holds spaces and tabs alone, names
/// no model.
pub proof fn blank_header_names_no_model(parts: Parts, blank: Seq<char>)
    requires
        forall|i: int| 0 <= i < blank.len() ==> #[trigger] blank[i] == ' ' || blank[i] == '\t',
        ({
            let fields = header_values(parts.headers);
            ||| !fields.dom().contains("x-model"@)
            ||| fields["x-model"@].len() == 0
            ||| fields["x-model"@][0] == encode_utf8(blank)
            ||| exists|i: int|
                #![trigger fields["x-model"@][0][i]]
                0 <= i < fields["x-model"@][0].len() && fields["x-model"@][0][i] > 126
        }),
    ensures
        model_header(header_values(parts.headers)) is None,
{
    let fields = header_values(parts.headers);
    if fields.dom().contains("x-model"@) && fields["x-model"@].len() > 0
        && fields["x-model"@][0] != encode_utf8(blank) {
        other_values_are_not_text(fields, "x-model"@);
    } else if fields.dom().contains("x-model"@) && fields["x-model"@].len() > 0 {
        assert forall|i: int| 0 <= i < blank.len() implies ' ' <= #[trigger] blank[i] <= '~'
            || blank[i] == '\t' by {}
        first_value_is_read_as_written(fields, "x-model"@, blank);
        trimming_leaves_nothing_of_white_space(blank);
    }
}

/// Without an `X-Model` header, and unless the path asks for the details of a model, the model that
/// the body names decides, and without one the default upstream.
pub proof fn body_names_the_model(gateway: Gateway, parts: Parts, body: Seq<u8>)
    requires
        !header_values(parts.headers).dom().contains("x-model"@),
        parts.method@ != "GET"@ || parts.uri.path@.len() <= "/v1/models/"@.len()
            || parts.uri.path@.take("/v1/models/"@.len() as int) != "/v1/models/"@,
    ensures
        requested_by(parts) is None,
        chosen_by(gateway, parts, body) == (if model_in(body) is Some {
            model_in(body)
        } else {
            match gateway.config().server.default_upstream {
                Some(name) => Some(name@),
                None => None,
            }
        }),
{
}

/// A request with a model that no upstream is named after is answered 404, one without any model
/// 400, and neither is sent; every other request is sent to the upstream named exactly like its
/// model, with the client's method and the upstream's own key, or answered 500.
pub proof fn model_decides_where_a_request_goes(
    gateway: Gateway,
    parts: Parts,
    body: Seq<u8>,
    stage: Stage,
    action: Action,
)
    requires
        sent(gateway, parts, body, stage, action),
    ensures
        match action {
            Action::Send(request, insecure) => {
                &&& chosen_by(gateway, parts, body) matches Some(model)
                &&& gateway.upstreams().dom().contains(model)
                &&& stage matches Stage::Sent(name)
                &&& name@ == model
                &&& insecure == gateway.upstreams()[model].insecure_skip_verify
                &&& request.method@ == parts.method@
                &&& match gateway.upstreams()[model]@.api_key {
                    Some(key) => {
                        &&& header_values(request.headers).dom().contains("authorization"@)
                        &&& header_values(request.headers)["authorization"@] == seq![
                            encode_utf8("Bearer "@ + key),
                        ]
                    },
                    None => !header_values(request.headers).dom().contains("authorization"@),
                }
                &&& header_values(request.headers)["content-length"@] == seq![
                    encode_utf8(digits(request.body@.len())),
                ]
                &&& header_values(request.headers) == request_headers(
                    header_values(parts.headers),
                    request.body@.len(),
                    gateway.upstreams()[model]@.api_key,
                )
                &&& target_of(gateway.upstreams()[model]@, parts.uri@) == Ok::<UriParts, Seq<char>>(
                    request.uri@,
                )
                &&& request.body@ == forwarded_body(
                    gateway.upstreams()[model]@.upstream_model,
                    if requested_by(parts) is Some {
                        None
                    } else {
                        model_in(body)
                    },
                    body,
                )
            },
            Action::Fail(error) => {
                &&& stage is Done
                &&& error.status.0 == (match chosen_by(gateway, parts, body) {
                    None => 400u16,
                    Some(model) => if gateway.upstreams().dom().contains(model) {
                        500u16
                    } else {
                        404u16
                    },
                })
            },
            _ => false,
        },
        match chosen_by(gateway, parts, body) {
            Some(model) => if !gateway.upstreams().dom().contains(model) {
                &&& action matches Action::Fail(error)
                &&& error.message@ == "unknown model '"@ + model
                    + "': no upstream with that name is configured"@
            } else {
                let upstream = gateway.upstreams()[model]@;
                let usable = upstream.api_key is None || field_value(
                    encode_utf8("Bearer "@ + upstream.api_key.unwrap()),
                );
                match target_of(upstream, parts.uri@) {
                    Err(reason) => action matches Action::Fail(error) && error.message@ == reason,
                    Ok(_) => if usable {
                        action is Send
                    } else {
                        action matches Action::Fail(error) && error.message@
                            == "upstream api_key contains invalid characters"@
                    },
                }
            },
            None => action is Fail,
        },
{
    if let Action::Send(request, _) = action {
        let model = chosen_by(gateway, parts, body).unwrap();
        let fields = header_values(parts.headers);
        let length = request.body@.len();
        let api_key = gateway.upstreams()[model]@.api_key;
        match api_key {
            Some(key) => configured_key_is_sent_unchanged(fields, length, key, key),
            None => configured_key_is_sent_unchanged(fields, length, "-"@, "-"@),
        }
        declared_length_is_that_of_the_body(fields, length, api_key);
    }
}

/// What becomes of a request that has just come in, when it carries a key that is configured or no
/// key is asked for: the list of models is answered, a body that is declared longer than the limit
/// is rejected with the limit in the message, and every other body is read up to the limit.
pub proof fn known_callers_are_let_in(
    gateway: Gateway,
    parts: Parts,
    declared: Option<u64>,
    stage: Stage,
    action: Action,
)
    requires
        begun(gateway, parts, declared, stage, action),
        gateway.config().auth.enabled ==> (key_in(header_values(parts.headers)) matches Some(key)
            && gateway.config().auth.keys@.dom().contains(key)),
    ensures
        ({
            let listing = parts.method@ == "GET"@ && parts.uri.path@ == "/v1/models"@;
            let limit = gateway.config().server.max_body_bytes;
            let long = declared matches Some(length) && length > limit;
            match action {
                Action::Answer(reply) => {
                    &&& listing
                    &&& stage is Done
                    &&& reply.status.0 == 200
                    &&& reply.body@ == gateway.models()
                },
                Action::Fail(error) => {
                    &&& !listing && long
                    &&& stage is Done
                    &&& error.status.0 == 413
                    &&& error.message@ == "request body exceeds the "@ + digits(limit as nat)
                        + "-byte limit"@
                },
                Action::Read => {
                    &&& !listing && !long
                    &&& stage matches Stage::Reading(reader)
                    &&& reader.limit() == limit
                    &&& reader.read() == Seq::<u8>::empty()
                },
                _ => false,
            }
        }),
{
    if let Stage::Reading(reader) = stage {
        if reader.read().len() == 0 {
            assert(reader.read() =~= Seq::<u8>::empty());
        }
    }
}

/// A request is let in by its key exactly when that key is configured, character for character:
/// with a key in `X-API-Key` that no caller has, it is rejected, and with one that a caller has, it
/// is not.
pub proof fn configured_keys_alone_let_in(
    gateway: Gateway,
    parts: Parts,
    declared: Option<u64>,
    stage: Stage,
    action: Action,
    left: Seq<char>,
    key: Seq<char>,
    right: Seq<char>,
)
    requires
        begun(gateway, parts, declared, stage, action),
        gateway.config().auth.enabled,
        !header_values(parts.headers).dom().contains("authorization"@),
        header_values(parts.headers).dom().contains("x-api-key"@),
        header_values(parts.headers)["x-api-key"@].len() > 0,
        header_values(parts.headers)["x-api-key"@][0] == encode_utf8(left + key + right),
        forall|i: int| 0 <= i < left.len() ==> #[trigger] left[i] == ' ' || left[i] == '\t',
        forall|i: int| 0 <= i < right.len() ==> #[trigger] right[i] == ' ' || right[i] == '\t',
        forall|i: int|
            0 <= i < key.len() ==> ' ' <= #[trigger] key[i] <= '~' || key[i] == '\t',
        key.len() > 0,
        '!' <= key[0] <= '~',
        '!' <= key.last() <= '~',
    ensures
        (action matches Action::Fail(error) && error.status.0 == 401)
            <==> !gateway.config().auth.keys@.dom().contains(key),
{
    api_key_header_is_read_as_sent(header_values(parts.headers), left, key, right);
}

/// The same holds of a key behind `Bearer ` in `Authorization`.
pub proof fn configured_bearer_keys_alone_let_in(
    gateway: Gateway,
    parts: Parts,
    declared: Option<u64>,
    stage: Stage,
    action: Action,
    word: Seq<char>,
    left: Seq<char>,
    key: Seq<char>,
    right: Seq<char>,
)
    requires
        begun(gateway, parts, declared, stage, action),
        gateway.config().auth.enabled,
        header_values(parts.headers).dom().contains("authorization"@),
        header_values(parts.headers)["authorization"@].len() > 0,
        header_values(parts.headers)["authorization"@][0] == encode_utf8(word + left + key + right),
        lowered(word) == "bearer "@,
        forall|i: int| 0 <= i < left.len() ==> #[trigger] left[i] == ' ' || left[i] == '\t',
        forall|i: int| 0 <= i < right.len() ==> #[trigger] right[i] == ' ' || right[i] == '\t',
        forall|i: int|
            0 <= i < key.len() ==> ' ' <= #[trigger] key[i] <= '~' || key[i] == '\t',
        key.len() > 0,
        '!' <= key[0] <= '~',
        '!' <= key.last() <= '~',
    ensures
        (action matches Action::Fail(error) && error.status.0 == 401)
            <==> !gateway.config().auth.keys@.dom().contains(key),
{
    bearer_key_is_read_as_sent(header_values(parts.headers), word, left, key, right);
}

/// A response streams exactly when its first `Content-Type` starts with `text/event-stream`,
/// whatever follows.
pub proof fn event_streams_are_recognised(fields: Map<Seq<char>, Seq<Seq<u8>>>, text: Seq<char>)
    requires
        fields.dom().contains("content-type"@),
        fields["content-type"@].len() > 0,
        fields["content-type"@][0] == encode_utf8(text),
        forall|i: int| 0 <= i < text.len() ==> ' ' <= #[trigger] text[i] <= '~' || text[i] == '\t',
    ensures
        streams(fields) <==> exists|rest: Seq<char>| text == #[trigger] ("text/event-stream"@ + rest),
{
    first_value_is_read_as_written(fields, "content-type"@, text);
    let expected = "text/event-stream"@;
    if streams(fields) {
        assert(text == expected + text.skip(expected.len() as int));
    }
    if exists|rest: Seq<char>| text == #[trigger] (expected + rest) {
        let rest = choose|rest: Seq<char>| text == #[trigger] (expected + rest);
        assert(text.take(expected.len() as int) == expected);
    }
}

/// A response without a `Content-Type` does not stream.
pub proof fn untyped_responses_do_not_stream(fields: Map<Seq<char>, Seq<Seq<u8>>>)
    requires
        !fields.dom().contains("content-type"@),
    ensures
        !streams(fields),
{
}

/// Every response is scanned for token counters but one without content, 204, and an error, from 400
/// to 599.
pub proof fn answers_are_scanned(status: StatusCode)
    ensures
        worth_scanning(status) <==> status.0 != 204 && !(400 <= status.0 <= 599),
{
}

/// What is logged about tokens is what was seen in the response body, where anything was.
pub proof fn seen_counters_are_logged(log: RequestLog, body: Metered)
    ensures
        ({
            let logged = with_usage(log, seen_usage(body));
            &&& match body.observer {
                Some(observer) if observer.counters() is Some => logged.usage
                    == observer.counters(),
                _ => logged.usage == log.usage,
            }
            &&& logged == (RequestLog { usage: logged.usage, ..log })
        }),
{
}

/// The path of a request names a model exactly when the details of that model are asked for:
/// `GET /v1/models/` and the name, character for character.
pub proof fn path_names_the_model_behind_it(method: Seq<char>, path: Seq<char>, model: Seq<char>)
    ensures
        model_of_path(method, path) == Some(model) <==> method == "GET"@ && path == "/v1/models/"@
            + model && model.len() > 0,
{
    let prefix = "/v1/models/"@;
    if method == "GET"@ && path == prefix + model && model.len() > 0 {
        assert(path.take(prefix.len() as int) == prefix);
        assert(path.skip(prefix.len() as int) == model);
    }
    if model_of_path(method, path) == Some(model) {
        assert(path == prefix + path.skip(prefix.len() as int));
    }
}

/// The list of models has one entry for each name, in the order of the names, with that name as its
/// ID.
pub proof fn models_are_listed_by_name(names: Seq<Seq<char>>, created: u64, i: int)
    requires
        0 <= i < names.len(),
    ensures
        models_document(names, created) matches Tree::Object(fields) && {
            &&& fields.len() == 2
            &&& fields[1] == ("object"@, Tree::Text("list"@))
            &&& fields[0].0 == "data"@
            &&& fields[0].1 matches Tree::Array(entries) && {
                &&& entries.len() == names.len()
                &&& entries[i] == Tree::Object(
                    seq![
                        ("created"@, Tree::Uint(created)),
                        ("id"@, Tree::Text(names[i])),
                        ("object"@, Tree::Text("model"@)),
                        ("owned_by"@, Tree::Text("llm-conduit"@)),
                    ],
                )
            }
        },
{
}

/// A request that names no model is told how to name one.
pub proof fn missing_model_is_explained(
    gateway: Gateway,
    parts: Parts,
    body: Seq<u8>,
    stage: Stage,
    action: Action,
)
    requires
        sent(gateway, parts, body, stage, action),
        !header_values(parts.headers).dom().contains("x-model"@),
        parts.method@ != "GET"@ || parts.uri.path@.len() <= "/v1/models/"@.len()
            || parts.uri.path@.take("/v1/models/"@.len() as int) != "/v1/models/"@,
        model_in(body) is None,
        gateway.config().server.default_upstream is None,
    ensures
        stage is Done,
        action matches Action::Fail(error) && error.status.0 == 400 && error.message@
            == "no model specified: provide an 'X-Model' header, a top-level 'model' field in the body, or configure server.default_upstream"@,
{
    body_names_the_model(gateway, parts, body);
}

/// What a request body says is noted where the body decides the model, and only there: its effort,
/// unless one was noted before, and its budget. Its length is noted in any case, and nothing else
/// but the model and the upstream changes.
pub proof fn body_is_noted_where_it_decides(
    requested: Option<Seq<char>>,
    body: Seq<u8>,
    before: (RequestLog, RequestProbe),
    after: (RequestLog, RequestProbe),
)
    requires
        body_noted(requested, body, before, after),
    ensures
        after.0 == (RequestLog {
            request_bytes: body.len() as u64,
            model: after.0.model,
            upstream: after.0.upstream,
            ..before.0
        }),
        requested is Some || model_in(body) is None ==> after.1 == before.1,
        requested is None && model_in(body) is Some ==> {
            &&& after.1.usage == request_usage_in(body)
            &&& before.1.effort is None ==> text_view(after.1.effort) == effort_in(body)
            &&& before.1.effort matches Some(effort) ==> text_view(after.1.effort) == Some(effort@)
        },
{
}

/// An answer in JSON says so, and no more.
pub proof fn answers_are_declared_as_json()
    ensures
        json_headers() =~= map!["content-type"@ => seq![encode_utf8("application/json"@)]],
{
}

/// A body that grows over the limit is rejected with the limit in the message.
pub proof fn long_bodies_are_told_the_limit(action: Action, limit: u64)
    ensures
        over_limit(action, limit) <==> (action matches Action::Fail(error) && error.status.0 == 413
            && error.message@ == "request body exceeds the "@ + digits(limit as nat)
            + "-byte limit"@),
{
}

/// An upstream that serves under a model of its own is sent a body that names exactly that model,
/// wherever the client's body is an object with a model: either the client's body with that one field
/// replaced, or the client's body itself where it names that model already.
pub proof fn upstream_is_sent_its_own_model(
    gateway: Gateway,
    parts: Parts,
    body: Seq<u8>,
    stage: Stage,
    action: Action,
    target: Seq<char>,
    fields: Seq<(Seq<char>, Tree)>,
    at: int,
)
    requires
        sent(gateway, parts, body, stage, action),
        action is Send,
        chosen_by(gateway, parts, body) matches Some(model)
            && gateway.upstreams()[model]@.upstream_model == Some(target),
        document_read(body) == Some(Tree::Object(fields)),
        ascending(fields),
        0 <= at < fields.len(),
        fields[at].0 == "model"@,
    ensures
        action matches Action::Send(request, _) && {
            ||| request.body@ == json_text(
                Tree::Object(fields.update(at, ("model"@, Tree::Text(target)))),
            )
            ||| request.body@ == body && (fields[at].1 == Tree::Text(target) || model_in(body)
                == Some(target))
        },
{
    let read = body_model(requested_by(parts), body);
    upstream_model_replaces_the_model(target, read, body, fields, at);
}

} // verus!
