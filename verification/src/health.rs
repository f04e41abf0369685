//! Upstream health probing and the `/healthz` and `/readyz` endpoints.

use std::time::Instant;
use vstd::prelude::*;
use vstd::string::*;
use vstd::utf8::*;

use crate::config::{only_path, target_of, Upstream, UpstreamParts};
use crate::error::{Reply, StatusCode};
use crate::headers::{
    ascii_field_value, field_name, field_value, header_values, insert_field, is_field_value,
    no_fields, no_headers,
};
use crate::json::{
    fields_of, json_text, object_printable, object_view, print, printable, printable_with_more,
    Json, Tree, MAX_LEVELS,
};
use crate::observe::Level;
use crate::proxy::{bearer, sendable, UpstreamRequest};
use crate::table::{ascending, assignments, put, put_assigns, NameTable};
use crate::text::{before, decimal, digits, texts};
use crate::uri::{Uri, UriParts};

verus! {

/// Result of the most recent probe of a single upstream.
#[derive(Debug)]
pub struct UpstreamHealth {
    pub healthy: bool,
    /// Round trip of the probe, in milliseconds.
    pub latency_ms: u64,
    pub checked_at: Instant,
    pub error: Option<String>,
}

/// Health of every upstream, shared between the prober task and `/readyz`.
#[derive(Debug)]
pub struct HealthState {
    names: Vec<String>,
    upstreams: NameTable<UpstreamHealth>,
}

/// `std::time::Instant::elapsed`, in whole seconds.
#[verifier::external_body]
fn secs_since(time: &Instant) -> u64 {
    time.elapsed().as_secs()
}

/// The error of a failed probe as it is told.
pub open spec fn error_told(error: Option<String>) -> Seq<char> {
    match error {
        Some(error) => error@,
        None => "unknown error"@,
    }
}

/// What `/readyz` says about one upstream, `age` seconds after its last probe.
pub open spec fn upstream_document(health: Option<UpstreamHealth>, age: u64) -> Tree {
    match health {
        None => Tree::Object(seq![("status"@, Tree::Text("unchecked"@))]),
        Some(health) => if health.healthy {
            Tree::Object(
                seq![
                    ("checked_secs_ago"@, Tree::Uint(age)),
                    ("latency_ms"@, Tree::Uint(health.latency_ms)),
                    ("status"@, Tree::Text("up"@)),
                ],
            )
        } else {
            Tree::Object(
                seq![
                    ("checked_secs_ago"@, Tree::Uint(age)),
                    ("error"@, Tree::Text(error_told(health.error))),
                    ("status"@, Tree::Text("down"@)),
                ],
            )
        },
    }
}

/// The last known health of an upstream.
pub open spec fn known_health(known: Map<Seq<char>, UpstreamHealth>, name: Seq<char>) -> Option<
    UpstreamHealth,
> {
    if known.dom().contains(name) {
        Some(known[name])
    } else {
        None
    }
}

/// What `/readyz` says about every upstream.
pub open spec fn upstream_documents(
    names: Seq<Seq<char>>,
    known: Map<Seq<char>, UpstreamHealth>,
    ages: Seq<u64>,
) -> Seq<(Seq<char>, Tree)>
    decreases names.len(),
{
    if names.len() == 0 {
        Seq::empty()
    } else {
        put(
            upstream_documents(names.drop_last(), known, ages),
            names.last(),
            upstream_document(known_health(known, names.last()), ages[names.len() - 1]),
        )
    }
}

/// Whether no upstream is known to be down. An upstream that has not been probed counts as ready.
pub open spec fn all_ready(names: Seq<Seq<char>>, known: Map<Seq<char>, UpstreamHealth>) -> bool {
    forall|i: int|
        #![trigger names[i]]
        0 <= i < names.len() && known.dom().contains(names[i]) ==> known[names[i]].healthy
}

/// The body of `/readyz`.
pub open spec fn readyz_document(
    names: Seq<Seq<char>>,
    known: Map<Seq<char>, UpstreamHealth>,
    probing: bool,
    ages: Seq<u64>,
) -> Tree {
    Tree::Object(
        seq![
            ("probing"@, Tree::Text(if probing { "enabled"@ } else { "disabled"@ })),
            ("status"@, Tree::Text(if all_ready(names, known) { "ok"@ } else { "degraded"@ })),
            ("upstreams"@, Tree::Object(upstream_documents(names, known, ages))),
        ],
    )
}

/// The names of the headers of a JSON answer.
pub open spec fn json_headers() -> Map<Seq<char>, Seq<Seq<u8>>> {
    no_fields().insert("content-type"@, seq![encode_utf8("application/json"@)])
}

/// An answer with a JSON body.
pub(crate) fn json_response(status: StatusCode, document: &Json) -> (reply: Reply)
    requires
        printable(document@, MAX_LEVELS as nat),
    ensures
        reply.status == status,
        header_values(reply.headers) == json_headers(),
        reply.body@ == json_text(document@),
{
    let mut headers = no_headers();
    proof {
        reveal_strlit("content-type");
        reveal_strlit("application/json");
        assert(field_name("content-type"@));
        ascii_field_value("application/json"@);
    }
    insert_field(&mut headers, "content-type", "application/json".as_bytes());
    Reply { status, headers, body: print(document) }
}

/// `GET /healthz`: the process is alive and serving. Never depends on upstreams.
pub fn healthz() -> (reply: Reply)
    ensures
        reply.status.0 == 200,
        header_values(reply.headers) == json_headers(),
        reply.body@ == json_text(Tree::Object(seq![("status"@, Tree::Text("ok"@))])),
{
    let document = status_json("ok");
    proof {
        printable_with_more(document@, 1, MAX_LEVELS as nat);
    }
    json_response(StatusCode(200), &document)
}

/// An object that only tells a status.
fn status_json(status: &str) -> (json: Json)
    ensures
        json@ == Tree::Object(seq![("status"@, Tree::Text(status@))]),
        printable(json@, 1),
{
    let mut fields: Vec<(String, Json)> = Vec::new();
    fields.push(("status".to_string(), Json::Text(status.to_string())));
    proof {
        object_view(fields);
        assert(fields_of(fields@) == seq![("status"@, Tree::Text(status@))]);
        object_printable(fields_of(fields@), 1);
    }
    Json::Object(fields)
}

/// What `/readyz` says about one upstream.
fn upstream_json(health: Option<&UpstreamHealth>, age: u64) -> (json: Json)
    ensures
        json@ == upstream_document(
            match health {
                Some(health) => Some(*health),
                None => None,
            },
            age,
        ),
        printable(json@, 1),
{
    match health {
        None => status_json("unchecked"),
        Some(health) => {
            let mut fields: Vec<(String, Json)> = Vec::new();
            fields.push(("checked_secs_ago".to_string(), Json::Uint(age)));
            proof {
                reveal_strlit("checked_secs_ago");
                reveal_strlit("latency_ms");
                reveal_strlit("error");
                reveal_strlit("status");
            }
            if health.healthy {
                fields.push(("latency_ms".to_string(), Json::Uint(health.latency_ms)));
                fields.push(("status".to_string(), Json::Text("up".to_string())));
                assert(fields_of(fields@) == seq![
                    ("checked_secs_ago"@, Tree::Uint(age)),
                    ("latency_ms"@, Tree::Uint(health.latency_ms)),
                    ("status"@, Tree::Text("up"@)),
                ]);
                assert(before("checked_secs_ago"@, "latency_ms"@));
                assert(before("checked_secs_ago"@, "status"@));
                assert(before("latency_ms"@, "status"@));
                assert(upstream_document(Some(*health), age) == Tree::Object(fields_of(fields@)));
            } else {
                let error = match &health.error {
                    Some(error) => error.clone(),
                    None => "unknown error".to_string(),
                };
                assert(error@ == error_told(health.error));
                fields.push(("error".to_string(), Json::Text(error)));
                fields.push(("status".to_string(), Json::Text("down".to_string())));
                assert(fields_of(fields@) == seq![
                    ("checked_secs_ago"@, Tree::Uint(age)),
                    ("error"@, Tree::Text(error_told(health.error))),
                    ("status"@, Tree::Text("down"@)),
                ]);
                assert(before("checked_secs_ago"@, "error"@));
                assert(before("checked_secs_ago"@, "status"@));
                assert(before("error"@, "status"@));
                assert(upstream_document(Some(*health), age) == Tree::Object(fields_of(fields@)));
            }
            proof {
                object_view(fields);
                object_printable(fields_of(fields@), 1);
            }
            Json::Object(fields)
        },
    }
}

impl HealthState {
    /// The names of the configured upstreams.
    pub closed spec fn names(self) -> Seq<Seq<char>> {
        texts(self.names@)
    }

    /// The last known health of every upstream that has been probed at least once.
    pub closed spec fn known(self) -> Map<Seq<char>, UpstreamHealth> {
        self.upstreams@
    }

    /// `names` are the configured upstream names, reported by `/readyz` even before
    /// the first probe finished.
    pub fn new(names: Vec<String>) -> (state: Self)
        ensures
            state.names() == texts(names@),
            state.known() == Map::<Seq<char>, UpstreamHealth>::empty(),
    {
        HealthState { names, upstreams: NameTable::new() }
    }

    /// Notes the result of a probe.
    pub fn record(&mut self, name: &str, health: UpstreamHealth)
        ensures
            final(self).names() == old(self).names(),
            final(self).known() == old(self).known().insert(name@, health),
    {
        self.upstreams.insert(name.to_string(), health);
    }

    /// Last known health of every upstream that has been probed at least once.
    pub fn snapshot(&self) -> (known: &NameTable<UpstreamHealth>)
        ensures
            known@ == self.known(),
    {
        &self.upstreams
    }
}

/// The values of a table of JSON values.
spec fn trees_of(entries: Seq<(Seq<char>, Json)>) -> Seq<(Seq<char>, Tree)> {
    entries.map_values(|entry: (Seq<char>, Json)| (entry.0, entry.1@))
}

/// Putting a value in its place puts what it stands for in its place.
proof fn put_trees(entries: Seq<(Seq<char>, Json)>, name: Seq<char>, value: Json)
    ensures
        trees_of(put(entries, name, value)) == put(trees_of(entries), name, value@),
    decreases entries.len(),
{
    let trees = trees_of(entries);
    if entries.len() > 0 {
        put_trees(entries.skip(1), name, value);
        assert(trees_of(entries.skip(1)) == trees.skip(1));
        assert(trees[0] == (entries[0].0, entries[0].1@));
        if before(entries[0].0, name) {
            assert(trees_of(seq![entries[0]] + put(entries.skip(1), name, value)) == seq![trees[0]]
                + trees_of(put(entries.skip(1), name, value)));
        } else if entries[0].0 == name {
            assert(trees_of(seq![(name, value)] + entries.skip(1)) == seq![(name, value@)]
                + trees.skip(1));
        } else {
            assert(trees_of(seq![(name, value)] + entries) == seq![(name, value@)] + trees);
        }
    } else {
        assert(trees_of(seq![(name, value)]) == seq![(name, value@)]);
    }
}

/// Putting a printable value in its place keeps the values printable.
proof fn put_printable(fields: Seq<(Seq<char>, Tree)>, name: Seq<char>, value: Tree)
    requires
        forall|i: int| 0 <= i < fields.len() ==> printable((#[trigger] fields[i]).1, 1),
        printable(value, 1),
    ensures
        forall|i: int|
            0 <= i < put(fields, name, value).len() ==> printable(
                (#[trigger] put(fields, name, value)[i]).1,
                1,
            ),
    decreases fields.len(),
{
    let now = put(fields, name, value);
    if fields.len() > 0 {
        let rest = fields.skip(1);
        assert forall|i: int| 0 <= i < rest.len() implies printable((#[trigger] rest[i]).1, 1) by {
            assert(rest[i] == fields[i + 1]);
        }
        put_printable(rest, name, value);
        assert forall|i: int| 0 <= i < now.len() implies printable((#[trigger] now[i]).1, 1) by {
            if before(fields[0].0, name) {
                if i == 0 {
                    assert(now[0] == fields[0]);
                } else {
                    assert(now[i] == put(rest, name, value)[i - 1]);
                }
            } else if fields[0].0 == name {
                if i > 0 {
                    assert(now[i] == rest[i - 1]);
                }
            } else if i > 0 {
                assert(now[i] == fields[i - 1]);
            }
        }
    }
}

/// What `/readyz` says about every upstream, and whether none of them is down.
fn upstreams_json(state: &HealthState, ages: &Vec<u64>) -> (r: (Json, bool))
    requires
        ages@.len() == state.names().len(),
    ensures
        r.0@ == Tree::Object(upstream_documents(state.names(), state.known(), ages@)),
        printable(r.0@, 2),
        r.1 == all_ready(state.names(), state.known()),
{
    let ghost names = state.names();
    let ghost known = state.known();
    let mut table: NameTable<Json> = NameTable::new();
    let mut ready = true;
    let mut i: usize = 0;
    assert(trees_of(table.entries()) == upstream_documents(names.take(0), known, ages@));
    while i < state.names.len()
        invariant
            i <= state.names@.len() == names.len() == ages@.len(),
            names == state.names(),
            known == state.known(),
            trees_of(table.entries()) == upstream_documents(names.take(i as int), known, ages@),
            forall|k: int|
                0 <= k < trees_of(table.entries()).len() ==> printable(
                    (#[trigger] trees_of(table.entries())[k]).1,
                    1,
                ),
            ready == all_ready(names.take(i as int), known),
        decreases names.len() - i,
    {
        let name = state.names[i].as_str();
        assert(names[i as int] == name@);
        assert(names.take(i + 1).drop_last() == names.take(i as int));
        assert(names.take(i + 1).last() == name@);
        let health = state.upstreams.get(name);
        let json = upstream_json(health, ages[i]);
        let down = match health {
            Some(health) => !health.healthy,
            None => false,
        };
        proof {
            put_trees(table.entries(), name@, json);
            put_printable(trees_of(table.entries()), name@, json@);
            assert(all_ready(names.take(i + 1), known) == (all_ready(names.take(i as int), known)
                && !down)) by {
                assert(names.take(i + 1)[i as int] == name@);
                assert(forall|k: int|
                    0 <= k < i ==> names.take(i + 1)[k] == #[trigger] names.take(i as int)[k]);
            }
        }
        if down {
            ready = false;
        }
        table.insert(name.to_string(), json);
        i = i + 1;
    }
    assert(names.take(i as int) == names);
    let ghost trees = trees_of(table.entries());
    let fields = table.into_entries();
    proof {
        object_view(fields);
        assert(fields_of(fields@) == trees) by {
            assert(fields_of(fields@).len() == trees.len());
            assert forall|k: int| 0 <= k < trees.len() implies fields_of(fields@)[k]
                == trees[k] by {
                assert(table.entries()[k] == (fields@[k].0@, fields@[k].1));
            }
        }
        assert forall|a: int, b: int|
            #![trigger trees[a], trees[b]]
            0 <= a < b < trees.len() implies before(trees[a].0, trees[b].0) by {
            assert(table.entries()[a].0 == trees[a].0 && table.entries()[b].0 == trees[b].0);
        }
        object_printable(trees, 2);
    }
    (Json::Object(fields), ready)
}

/// The answer to `GET /readyz` when the upstream at position `i` was probed `ages[i]` seconds
/// ago: 200 only when every upstream passed its last probe, 503 otherwise.
pub fn readyz_at(state: &HealthState, probing: bool, ages: &Vec<u64>) -> (reply: Reply)
    requires
        ages@.len() == state.names().len(),
    ensures
        reply.status.0 == (if all_ready(state.names(), state.known()) {
            200u16
        } else {
            503u16
        }),
        header_values(reply.headers) == json_headers(),
        reply.body@ == json_text(
            readyz_document(state.names(), state.known(), probing, ages@),
        ),
{
    let (upstreams, ready) = upstreams_json(state, ages);
    let status = if ready {
        "ok"
    } else {
        "degraded"
    };
    let probing_text = if probing {
        "enabled"
    } else {
        "disabled"
    };
    let ghost told = upstreams@;
    let mut fields: Vec<(String, Json)> = Vec::new();
    fields.push(("probing".to_string(), Json::Text(probing_text.to_string())));
    fields.push(("status".to_string(), Json::Text(status.to_string())));
    fields.push(("upstreams".to_string(), upstreams));
    proof {
        reveal_strlit("probing");
        reveal_strlit("status");
        reveal_strlit("upstreams");
        object_view(fields);
        assert(fields_of(fields@) == seq![
            ("probing"@, Tree::Text(probing_text@)),
            ("status"@, Tree::Text(status@)),
            ("upstreams"@, told),
        ]);
        assert(before("probing"@, "status"@));
        assert(before("probing"@, "upstreams"@));
        assert(before("status"@, "upstreams"@));
        object_printable(fields_of(fields@), 3);
        printable_with_more(Tree::Object(fields_of(fields@)), 3, MAX_LEVELS as nat);
    }
    let document = Json::Object(fields);
    if ready {
        json_response(StatusCode(200), &document)
    } else {
        json_response(StatusCode(503), &document)
    }
}

/// `GET /readyz`: 200 only when every upstream passed its last probe, 503 otherwise.
///
/// Upstreams that have not been probed yet count as ready, so enabling probing does
/// not make the gateway unready for the first probe interval.
pub fn readyz(state: &HealthState, probing: bool) -> (reply: Reply)
    ensures
        reply.status.0 == (if all_ready(state.names(), state.known()) {
            200u16
        } else {
            503u16
        }),
        header_values(reply.headers) == json_headers(),
        exists|ages: Seq<u64>|
            ages.len() == state.names().len() && reply.body@ == json_text(
                #[trigger] readyz_document(state.names(), state.known(), probing, ages),
            ),
{
    let mut ages: Vec<u64> = Vec::new();
    while ages.len() < state.names.len()
        invariant
            ages@.len() <= state.names@.len(),
        decreases state.names@.len() - ages@.len(),
    {
        let age: u64 = match state.upstreams.get(state.names[ages.len()].as_str()) {
            Some(health) => secs_since(&health.checked_at),
            None => 0,
        };
        ages.push(age);
    }
    readyz_at(state, probing, &ages)
}

/// What is worth noting about a probe.
#[derive(Debug, Clone, Copy, PartialEq, Eq, Structural)]
pub enum ProbeNote {
    /// The upstream is healthy, as it was.
    StillHealthy,
    /// The upstream is healthy, and was not or was not known to be.
    Healthy,
    /// The upstream is unhealthy, as it was.
    StillUnhealthy,
    /// The upstream is unhealthy, and was not or was not known to be.
    Unhealthy,
}

impl ProbeNote {
    /// State changes are told, the steady state only when debugging, so that a long outage does
    /// not flood the log with one line per interval.
    pub open spec fn loudness(self) -> Level {
        match self {
            ProbeNote::StillHealthy => Level::Debug,
            ProbeNote::Healthy => Level::Info,
            ProbeNote::StillUnhealthy => Level::Debug,
            ProbeNote::Unhealthy => Level::Warn,
        }
    }

    pub fn level(&self) -> (level: Level)
        ensures
            level == self.loudness(),
    {
        match self {
            ProbeNote::StillHealthy => Level::Debug,
            ProbeNote::Healthy => Level::Info,
            ProbeNote::StillUnhealthy => Level::Debug,
            ProbeNote::Unhealthy => Level::Warn,
        }
    }

    /// The text of the note.
    pub fn message(&self) -> (message: &'static str)
        ensures
            message@ == (match self {
                ProbeNote::StillHealthy => "upstream is healthy"@,
                ProbeNote::Healthy => "upstream is healthy"@,
                ProbeNote::StillUnhealthy => "upstream is still unhealthy"@,
                ProbeNote::Unhealthy => "upstream is unhealthy"@,
            }),
    {
        match self {
            ProbeNote::StillHealthy => "upstream is healthy",
            ProbeNote::Healthy => "upstream is healthy",
            ProbeNote::StillUnhealthy => "upstream is still unhealthy",
            ProbeNote::Unhealthy => "upstream is unhealthy",
        }
    }
}

/// What a probe that ended at `now` found out: the latency in milliseconds, or an error.
pub open spec fn probed(outcome: Result<u64, String>, now: Instant) -> UpstreamHealth {
    match outcome {
        Ok(latency_ms) => UpstreamHealth {
            healthy: true,
            latency_ms,
            checked_at: now,
            error: None,
        },
        Err(error) => UpstreamHealth {
            healthy: false,
            latency_ms: 0,
            checked_at: now,
            error: Some(error),
        },
    }
}

/// What is worth noting when an upstream is found healthy or not.
pub open spec fn note_on(healthy: bool, was: Option<UpstreamHealth>) -> ProbeNote {
    if healthy {
        if was matches Some(was) && was.healthy {
            ProbeNote::StillHealthy
        } else {
            ProbeNote::Healthy
        }
    } else {
        if was matches Some(was) && !was.healthy {
            ProbeNote::StillUnhealthy
        } else {
            ProbeNote::Unhealthy
        }
    }
}

impl HealthState {
    /// Records what a probe of `name` that ended at `now` found out, and tells what is worth
    /// noting about it.
    pub fn observe(&mut self, name: &str, outcome: Result<u64, String>, now: Instant) -> (note:
        ProbeNote)
        ensures
            note == note_on(outcome is Ok, known_health(old(self).known(), name@)),
            final(self).names() == old(self).names(),
            final(self).known() == old(self).known().insert(name@, probed(outcome, now)),
    {
        let was_healthy: Option<bool> = match self.upstreams.get(name) {
            Some(known) => Some(known.healthy),
            None => None,
        };
        let health = match outcome {
            Ok(latency_ms) => UpstreamHealth {
                healthy: true,
                latency_ms,
                checked_at: now,
                error: None,
            },
            Err(error) => UpstreamHealth {
                healthy: false,
                latency_ms: 0,
                checked_at: now,
                error: Some(error),
            },
        };
        let healthy = health.healthy;
        self.record(name, health);
        match (healthy, was_healthy) {
            (true, Some(true)) => ProbeNote::StillHealthy,
            (true, _) => ProbeNote::Healthy,
            (false, Some(false)) => ProbeNote::StillUnhealthy,
            (false, _) => ProbeNote::Unhealthy,
        }
    }
}

/// Recording a probe changes what is known of that upstream alone; the gateway is ready
/// afterwards exactly when the probe succeeded and no other upstream is known to be down.
pub proof fn probe_concerns_one_upstream(
    names: Seq<Seq<char>>,
    known: Map<Seq<char>, UpstreamHealth>,
    name: Seq<char>,
    health: UpstreamHealth,
)
    requires
        names.contains(name),
    ensures
        forall|other: Seq<char>|
            other != name ==> #[trigger] known_health(known.insert(name, health), other)
                == known_health(known, other),
        all_ready(names, known.insert(name, health)) <==> health.healthy && forall|i: int|
            #![trigger names[i]]
            0 <= i < names.len() && names[i] != name && known.dom().contains(names[i])
                ==> known[names[i]].healthy,
{
    let i = choose|i: int| 0 <= i < names.len() && names[i] == name;
    let now = known.insert(name, health);
    if all_ready(names, now) {
        assert(now[names[i]].healthy);
        assert forall|k: int|
            #![trigger names[k]]
            0 <= k < names.len() && names[k] != name && known.dom().contains(
                names[k],
            ) implies known[names[k]].healthy by {
            assert(now[names[k]] == known[names[k]]);
        }
    }
}

/// As long as nothing was probed, and so always when probing is disabled, the gateway is ready.
pub proof fn unprobed_is_ready(names: Seq<Seq<char>>)
    ensures
        all_ready(names, Map::<Seq<char>, UpstreamHealth>::empty()),
{
}

/// The path that is probed when an upstream has to answer; any `base_url` path prefix is kept.
pub const MODELS_PATH: &'static str = "/v1/models";

/// A whole number of seconds as a duration is written.
pub open spec fn seconds_text(secs: u64) -> Seq<char> {
    if secs == 0 {
        "0ns"@
    } else {
        digits(secs as nat) + "s"@
    }
}

fn write_seconds(secs: u64) -> (text: String)
    ensures
        text@ == seconds_text(secs),
{
    if secs == 0 {
        "0ns".to_string()
    } else {
        let mut text = decimal(secs);
        text.append("s");
        text
    }
}

/// The port that an upstream is reached at.
pub open spec fn port_of(upstream: UpstreamParts) -> u16 {
    match upstream.base.port {
        Some(port) => port,
        None => if upstream.base.scheme == Some("https"@) {
            443
        } else {
            80
        },
    }
}

/// The address that a TCP probe of `upstream` connects to: its host, and its port or the
/// default of its scheme.
pub fn tcp_address(upstream: &Upstream) -> (r: Result<String, String>)
    ensures
        match r {
            Ok(address) => upstream@.base.authority is Some && address@ == (
            match upstream@.base.host {
                Some(host) => host,
                None => Seq::empty(),
            }) + ":"@ + digits(port_of(upstream@) as nat) && address@ == (
            match upstream@.base.host {
                Some(host) => host,
                None => Seq::empty(),
            }) + seq![':'] + digits(
                match upstream@.base.port {
                    Some(port) => port as nat,
                    None => if upstream@.base.scheme == Some("https"@) {
                        443
                    } else {
                        80
                    },
                },
            ),
            Err(error) => upstream@.base.authority is None && error@
                == "upstream base_url has no host"@,
        },
{
    if upstream.base.authority.is_none() {
        return Err("upstream base_url has no host".to_string());
    }
    let port: u16 = match upstream.base.port {
        Some(port) => port,
        None => if upstream.uses_tls() {
            443
        } else {
            80
        },
    };
    let mut address = String::new();
    if let Some(host) = &upstream.base.host {
        address.append(host.as_str());
    }
    address.append(":");
    address.append(decimal(port as u64).as_str());
    proof {
        reveal_strlit(":");
        assert(":"@ =~= seq![':']);
    }
    Ok(address)
}

/// How a TCP probe ended.
pub enum Connected {
    Yes,
    /// The connection failed for this reason.
    Failed(String),
    TimedOut,
}

/// What a TCP probe of `address` found out.
pub fn tcp_verdict(address: &str, timeout_secs: u64, connected: Connected) -> (r: Result<
    (),
    String,
>)
    ensures
        match connected {
            Connected::Yes => r is Ok,
            Connected::Failed(error) => r matches Err(text) && text@ == "tcp connect to "@
                + address@ + " failed: "@ + error@,
            Connected::TimedOut => r matches Err(text) && text@ == "tcp connect to "@ + address@
                + " timed out after "@ + seconds_text(timeout_secs),
        },
{
    let mut text = "tcp connect to ".to_string();
    text.append(address);
    match connected {
        Connected::Yes => Ok(()),
        Connected::Failed(error) => {
            text.append(" failed: ");
            text.append(error.as_str());
            Err(text)
        },
        Connected::TimedOut => {
            text.append(" timed out after ");
            text.append(write_seconds(timeout_secs).as_str());
            Err(text)
        },
    }
}

/// The request URI of a probe.
pub open spec fn models_uri() -> UriParts {
    UriParts {
        scheme: None,
        authority: None,
        host: None,
        port: None,
        path: "/v1/models"@,
        query: None,
    }
}

/// The request that probes whether `upstream` answers: `GET /v1/models` with its key.
pub fn models_request(upstream: &Upstream) -> (r: Result<UpstreamRequest, String>)
    ensures
        match r {
            Ok(request) => {
                &&& sendable(upstream@.api_key)
                &&& request.method@ == "GET"@
                &&& target_of(upstream@, models_uri()) == Ok::<UriParts, Seq<char>>(request.uri@)
                &&& request.body@.len() == 0
                &&& header_values(request.headers) == (match upstream@.api_key {
                    Some(key) => no_fields().insert("authorization"@, seq![bearer(key)]),
                    None => no_fields(),
                })
                &&& header_values(request.headers) == (match upstream@.api_key {
                    Some(key) => map!["authorization"@ => seq![encode_utf8("Bearer "@ + key)]],
                    None => Map::empty(),
                })
                &&& request.uri@.authority == upstream@.base.authority
                &&& upstream@.base.scheme is Some ==> request.uri@.scheme == upstream@.base.scheme
                &&& only_path(upstream@.path_prefix) ==> request.uri@.query is None
                    && request.uri@.path == upstream@.path_prefix + "/v1/models"@
            },
            Err(error) => match target_of(upstream@, models_uri()) {
                Err(message) => error@ == message,
                Ok(_) => {
                    &&& upstream@.api_key matches Some(key)
                    &&& !field_value(encode_utf8("Bearer "@ + key))
                    &&& !sendable(upstream@.api_key)
                    &&& error@ == "could not build the probe request: failed to parse header value"@
                },
            },
        },
{
    let models = Uri {
        scheme: None,
        authority: None,
        host: None,
        port: None,
        path: MODELS_PATH.to_string(),
        query: None,
    };
    proof {
        probe_path(upstream@.path_prefix);
    }
    let uri = match upstream.target_uri(&models) {
        Ok(uri) => uri,
        Err(error) => {
            return Err(error.message);
        },
    };
    let mut headers = no_headers();
    if let Some(api_key) = &upstream.api_key {
        let mut value = "Bearer ".to_string();
        value.append(api_key.as_str());
        if !is_field_value(value.as_str().as_bytes()) {
            return Err(
                "could not build the probe request: failed to parse header value".to_string(),
            );
        }
        proof {
            reveal_strlit("authorization");
            assert(field_name("authorization"@));
        }
        insert_field(&mut headers, "authorization", value.as_str().as_bytes());
    }
    Ok(UpstreamRequest { method: "GET".to_string(), uri, headers, body: Vec::new() })
}

/// The path that is probed is a path behind every path.
proof fn probe_path(prefix: Seq<char>)
    ensures
        only_path(prefix) ==> only_path(prefix + "/v1/models"@),
        (prefix + "/v1/models"@).len() > 0,
{
    reveal_strlit("/v1/models");
    let all = prefix + "/v1/models"@;
    assert forall|i: int| 0 <= i < all.len() && only_path(prefix) implies #[trigger] all[i] != '?'
        && all[i] != '#' by {
        if i < prefix.len() {
            assert(prefix.contains(prefix[i]));
        }
    }
}

/// How a `GET /v1/models` probe ended.
pub enum Answered {
    /// The upstream answered with this status.
    Status(StatusCode),
    /// The request failed for this reason.
    Failed(String),
    TimedOut,
}

/// What a `GET /v1/models` probe found out: only a success status counts as healthy.
pub fn models_verdict(timeout_secs: u64, answered: Answered) -> (r: Result<(), String>)
    ensures
        match answered {
            Answered::Status(status) => if 200 <= status.0 <= 299 {
                r is Ok && status.success()
            } else {
                r matches Err(text) && text@ == "GET /v1/models returned "@ + digits(
                    status.0 as nat,
                )
            },
            Answered::Failed(error) => r matches Err(text) && text@ == "GET /v1/models failed: "@
                + error@,
            Answered::TimedOut => r matches Err(text) && text@
                == "GET /v1/models timed out after "@ + seconds_text(timeout_secs),
        },
{
    match answered {
        Answered::Status(status) => {
            if status.is_success() {
                Ok(())
            } else {
                let mut text = "GET /v1/models returned ".to_string();
                text.append(decimal(status.0 as u64).as_str());
                Err(text)
            }
        },
        Answered::Failed(error) => {
            let mut text = "GET /v1/models failed: ".to_string();
            text.append(error.as_str());
            Err(text)
        },
        Answered::TimedOut => {
            let mut text = "GET /v1/models timed out after ".to_string();
            text.append(write_seconds(timeout_secs).as_str());
            Err(text)
        },
    }
}

/// The gateway is not ready exactly when some upstream that it reports is known to be down.
pub proof fn one_known_outage_is_enough(names: Seq<Seq<char>>, known: Map<Seq<char>, UpstreamHealth>)
    ensures
        !all_ready(names, known) <==> exists|i: int|
            #![trigger names[i]]
            0 <= i < names.len() && known.dom().contains(names[i]) && !known[names[i]].healthy,
{
}

/// What `/readyz` says of an upstream: that it was not checked, that it is up and how long the probe
/// took, or that it is down and why.
pub proof fn upstream_is_reported_as_found(health: UpstreamHealth, age: u64)
    ensures
        upstream_document(None, age) == Tree::Object(seq![("status"@, Tree::Text("unchecked"@))]),
        health.healthy ==> upstream_document(Some(health), age) == Tree::Object(
            seq![
                ("checked_secs_ago"@, Tree::Uint(age)),
                ("latency_ms"@, Tree::Uint(health.latency_ms)),
                ("status"@, Tree::Text("up"@)),
            ],
        ),
        !health.healthy ==> {
            &&& health.error matches Some(error) ==> upstream_document(Some(health), age)
                == Tree::Object(
                seq![
                    ("checked_secs_ago"@, Tree::Uint(age)),
                    ("error"@, Tree::Text(error@)),
                    ("status"@, Tree::Text("down"@)),
                ],
            )
            &&& health.error is None ==> upstream_document(Some(health), age) == Tree::Object(
                seq![
                    ("checked_secs_ago"@, Tree::Uint(age)),
                    ("error"@, Tree::Text("unknown error"@)),
                    ("status"@, Tree::Text("down"@)),
                ],
            )
        },
{
}

/// `/readyz` says whether the upstreams are probed, whether all of them are ready, and what is known
/// of each of them under its own name.
pub proof fn readyz_reports_every_upstream(
    names: Seq<Seq<char>>,
    known: Map<Seq<char>, UpstreamHealth>,
    probing: bool,
    ages: Seq<u64>,
)
    requires
        names.no_duplicates(),
    ensures
        ({
            let reports = upstream_documents(names, known, ages);
            let down = exists|i: int|
                #![trigger names[i]]
                0 <= i < names.len() && known.dom().contains(names[i]) && !known[names[i]].healthy;
            &&& readyz_document(names, known, probing, ages) == Tree::Object(
                seq![
                    ("probing"@, Tree::Text(if probing { "enabled"@ } else { "disabled"@ })),
                    ("status"@, Tree::Text(if down { "degraded"@ } else { "ok"@ })),
                    ("upstreams"@, Tree::Object(reports)),
                ],
            )
            &&& assignments(reports).dom() =~= names.to_set()
            &&& forall|i: int|
                #![trigger names[i]]
                0 <= i < names.len() ==> assignments(reports)[names[i]] == upstream_document(
                    if known.dom().contains(names[i]) {
                        Some(known[names[i]])
                    } else {
                        None
                    },
                    ages[i],
                )
        }),
{
    one_known_outage_is_enough(names, known);
    documents_by_name(names, known, ages);
}

proof fn documents_by_name(
    names: Seq<Seq<char>>,
    known: Map<Seq<char>, UpstreamHealth>,
    ages: Seq<u64>,
)
    requires
        names.no_duplicates(),
    ensures
        ascending(upstream_documents(names, known, ages)),
        assignments(upstream_documents(names, known, ages)).dom() =~= names.to_set(),
        forall|i: int|
            #![trigger names[i]]
            0 <= i < names.len() ==> assignments(upstream_documents(names, known, ages))[names[i]]
                == upstream_document(known_health(known, names[i]), ages[i]),
    decreases names.len(),
{
    if names.len() > 0 {
        let others = names.drop_last();
        let before = upstream_documents(others, known, ages);
        let n = names.len() - 1;
        documents_by_name(others, known, ages);
        put_assigns(
            before,
            names.last(),
            upstream_document(known_health(known, names.last()), ages[n]),
        );
        assert forall|name: Seq<char>| #[trigger]
            names.to_set().contains(name) <==> others.to_set().contains(name) || name
            == names.last() by {
            if names.contains(name) {
                let i = choose|i: int| 0 <= i < names.len() && names[i] == name;
                if i < n {
                    assert(others[i] == name);
                }
            }
            if others.contains(name) {
                let i = choose|i: int| 0 <= i < others.len() && others[i] == name;
                assert(names[i] == name);
            }
            assert(names[n] == names.last());
        }
        assert forall|i: int|
            #![trigger names[i]]
            0 <= i < names.len() implies assignments(upstream_documents(names, known, ages))[names[i]]
            == upstream_document(known_health(known, names[i]), ages[i]) by {
            if i < n {
                assert(others[i] == names[i]);
                assert(names[i] != names[n]);
            }
        }
    } else {
        assert(upstream_documents(names, known, ages) =~= Seq::empty());
        assert(assignments(upstream_documents(names, known, ages)).dom() =~= Set::empty());
        assert(names.to_set() =~= Set::empty());
    }
}

/// A change is told aloud, and louder when it is for the worse; that nothing changed is told only
/// when debugging. An upstream that was not probed yet has changed.
pub proof fn changes_are_told(healthy: bool, was: Option<UpstreamHealth>)
    ensures
        ({
            let steady = was matches Some(was) && was.healthy == healthy;
            note_on(healthy, was).loudness() == (if steady {
                Level::Debug
            } else if healthy {
                Level::Info
            } else {
                Level::Warn
            })
        }),
        match note_on(healthy, was) {
            ProbeNote::StillHealthy | ProbeNote::Healthy => healthy,
            ProbeNote::StillUnhealthy | ProbeNote::Unhealthy => !healthy,
        },
{
}

/// A probe that succeeded tells its latency, one that failed its error, and both when they ended.
pub proof fn probe_is_recorded_as_it_ended(latency_ms: u64, error: String, now: Instant)
    ensures
        ({
            let up = probed(Ok(latency_ms), now);
            let down = probed(Err(error), now);
            &&& up.healthy && up.latency_ms == latency_ms && up.error is None && up.checked_at == now
            &&& !down.healthy && down.error == Some(error) && down.checked_at == now
        }),
{
}

/// A number of seconds is written with its unit.
pub proof fn seconds_are_written_with_their_unit(secs: u64)
    ensures
        secs > 0 ==> seconds_text(secs) == digits(secs as nat) + seq!['s'],
        seconds_text(0) == seq!['0', 'n', 's'],
{
    reveal_strlit("s");
    reveal_strlit("0ns");
    assert("s"@ =~= seq!['s']);
    assert("0ns"@ =~= seq!['0', 'n', 's']);
}

} // verus!
