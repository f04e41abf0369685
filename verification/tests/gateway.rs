use std::time::Instant;

use hyper::header::{HeaderName, HeaderValue, CONTENT_TYPE};
use hyper::HeaderMap;
use llm_conduit::config::{AuthConfig, Config, HealthConfig, ServerConfig, UpstreamConfig};
use llm_conduit::error::StatusCode;
use llm_conduit::gateway::{
    header_model, is_streaming, models_body, models_body_at, path_model, Action, Event, Gateway,
    RequestProbe, Stage, UsageObserver,
};
use llm_conduit::health::{HealthState, UpstreamHealth};
use llm_conduit::observe::MeteredBody;
use llm_conduit::proxy::{Parts, UpstreamRequest};
use llm_conduit::table::NameTable;
use llm_conduit::uri::Uri;

#[test]
fn header_model_is_trimmed_and_validated() {
    let mut headers = HeaderMap::new();
    assert!(header_model(&headers).is_none());

    headers.insert("x-model", HeaderValue::from_static("  "));
    assert!(header_model(&headers).is_none());

    headers.insert(
        "x-model",
        HeaderValue::from_static(" llama-3.1-8b-instruct "),
    );
    assert_eq!(
        header_model(&headers).as_deref(),
        Some("llama-3.1-8b-instruct")
    );
}

#[test]
fn models_body_lists_every_configured_upstream() {
    // Production passes the names of a table, so the list is alphabetical.
    let names = vec!["a-model".to_string(), "b-model".to_string()];
    let body: serde_json::Value = serde_json::from_slice(&models_body(&names)).unwrap();

    assert_eq!(body["object"], "list");
    assert_eq!(body["data"].as_array().unwrap().len(), 2);
    assert_eq!(body["data"][0]["id"], "a-model");
    assert_eq!(body["data"][1]["id"], "b-model");
    assert_eq!(body["data"][0]["object"], "model");
    assert_eq!(body["data"][0]["owned_by"], "llm-conduit");
    assert!(body["data"][0]["created"].is_number());
    assert!(body["data"][0]["created"].as_u64().unwrap() > 1_700_000_000);
}

#[test]
fn streaming_is_detected_from_the_content_type() {
    let mut headers = HeaderMap::new();
    assert!(!is_streaming(&headers));

    headers.insert(CONTENT_TYPE, HeaderValue::from_static("application/json"));
    assert!(!is_streaming(&headers));

    headers.insert(CONTENT_TYPE, HeaderValue::from_static("text/event-stream"));
    assert!(is_streaming(&headers));
}

#[test]
fn streaming_only_looks_at_the_start() {
    let mut headers = HeaderMap::new();
    headers.insert(
        CONTENT_TYPE,
        HeaderValue::from_static("text/event-stream; charset=utf-8"),
    );
    assert!(is_streaming(&headers));
    headers.insert(CONTENT_TYPE, HeaderValue::from_static("text/event"));
    assert!(!is_streaming(&headers));
    headers.insert(CONTENT_TYPE, HeaderValue::from_static("Text/event-stream"));
    assert!(!is_streaming(&headers));
}

#[test]
fn the_list_of_models_is_exact() {
    let body = models_body_at(&vec!["m".to_string()], 1757940000);
    assert_eq!(
        String::from_utf8(body).unwrap(),
        r#"{"data":[{"created":1757940000,"id":"m","object":"model","owned_by":"llm-conduit"}],"object":"list"}"#
    );
    assert_eq!(models_body_at(&Vec::new(), 0), br#"{"data":[],"object":"list"}"#);
}

const UPSTREAM: &str = "127.0.0.1:8000";

fn config(default_upstream: Option<&str>) -> Config {
    let mut keys = NameTable::new();
    keys.insert("sk-gateway-0001".to_string(), "test-caller".to_string());
    let mut upstreams = NameTable::new();
    upstreams.insert(
        "mock".to_string(),
        UpstreamConfig {
            base_url: format!("http://{UPSTREAM}"),
            api_key: Some("upstream-secret".to_string()),
            upstream_model: Some("served-name".to_string()),
            insecure_skip_verify: false,
        },
    );
    Config {
        server: ServerConfig {
            listen: "127.0.0.1:0".to_string(),
            default_upstream: default_upstream.map(str::to_string),
            max_body_bytes: 4096,
            tls: None,
            health: HealthConfig::default(),
        },
        auth: AuthConfig {
            enabled: true,
            keys,
        },
        upstreams,
    }
}

/// What a fake upstream does with a request.
type Upstream<'a> = &'a dyn Fn(&UpstreamRequest) -> Result<(u16, Vec<(&'static str, String)>, Vec<String>), String>;

/// What came of a request.
struct Answer {
    status: StatusCode,
    headers: HeaderMap,
    body: String,
    line: String,
    sent: Option<UpstreamRequest>,
}

/// Answers with server-sent events, and with `extra` before the last one.
fn events(extra: &'static [&'static str]) -> impl Fn(&UpstreamRequest) -> Result<(u16, Vec<(&'static str, String)>, Vec<String>), String> {
    move |_| {
        let mut chunks: Vec<String> = extra.iter().map(|chunk| chunk.to_string()).collect();
        chunks.push("data: [DONE]\n\n".to_string());
        let headers = vec![("content-type", "text/event-stream".to_string())];
        Ok((200, headers, chunks))
    }
}

/// Takes one request through the gateway, with `upstream` in place of the network.
fn send(
    gateway: &Gateway,
    method: &str,
    uri: &str,
    headers: &[(&str, &str)],
    chunks: &[&str],
    upstream: Upstream,
) -> Answer {
    let mut map = HeaderMap::new();
    for (name, value) in headers {
        map.append(
            HeaderName::from_bytes(name.as_bytes()).unwrap(),
            HeaderValue::from_str(value).unwrap(),
        );
    }
    let mut parts = Parts {
        method: method.to_string(),
        uri: Uri::parse(uri).unwrap(),
        headers: map,
    };
    let mut log = gateway.open(&mut parts, Instant::now());
    let mut probe = RequestProbe::default();
    let mut pending: Vec<&str> = chunks.iter().rev().copied().collect();
    let mut sent = None;
    let mut body_chunks: Vec<String> = Vec::new();
    let mut stage = Stage::Start;
    let mut event = Event::Begin(None);
    let (status, mut headers) = loop {
        let (next, action) = gateway.dispatch(stage, event, &parts, &mut log, &mut probe);
        stage = next;
        event = match action {
            Action::Read => match pending.pop() {
                Some(chunk) => Event::Chunk(chunk.as_bytes().to_vec()),
                None => Event::EndOfBody,
            },
            Action::Send(request, insecure) => {
                assert!(!insecure);
                let answered = upstream(&request);
                sent = Some(request);
                match answered {
                    Ok((status, fields, chunks)) => {
                        let mut map = HeaderMap::new();
                        for (name, value) in fields {
                            map.append(name, HeaderValue::from_str(&value).unwrap());
                        }
                        body_chunks = chunks;
                        Event::Head(StatusCode(status), map)
                    }
                    Err(error) => Event::SendFailed(error),
                }
            }
            Action::Answer(reply) => {
                body_chunks = vec![String::from_utf8(reply.body).unwrap()];
                break (reply.status, reply.headers);
            }
            Action::Relay(head) => break (head.status, head.headers),
            Action::Fail(error) => {
                let reply = gateway.fail(error, &mut log);
                body_chunks = vec![String::from_utf8(reply.body).unwrap()];
                break (reply.status, reply.headers);
            }
        };
    };
    let observe_body = gateway.close(status, &mut headers, &mut log, &probe);
    let mut meter = MeteredBody::new(None);
    if observe_body {
        meter = meter.with_observer(UsageObserver::new());
    }
    for chunk in &body_chunks {
        meter.on_frame(chunk.as_bytes());
    }
    meter.on_end();
    Answer {
        status,
        headers,
        body: body_chunks.concat(),
        line: gateway.finish(log, &meter).text(),
        sent,
    }
}

fn text<'a>(headers: &'a HeaderMap, name: &str) -> Option<&'a str> {
    headers.get(name).map(|value| value.to_str().unwrap())
}

const KEY: (&str, &str) = ("authorization", "Bearer sk-gateway-0001");

#[test]
fn routes_rewrites_key_and_streams_response() {
    let gateway = Gateway::new(config(Some("mock"))).unwrap();
    let answer = send(
        &gateway,
        "POST",
        "/v1/chat/completions?trace=1",
        &[KEY, ("content-type", "application/json")],
        &[r#"{"model":"mock","messages":[{"role":"user","content":"hi"}],"stream":true}"#],
        &events(&[]),
    );

    assert_eq!(answer.status, StatusCode(200));
    assert_eq!(text(&answer.headers, "content-type"), Some("text/event-stream"));
    assert!(
        answer.body.ends_with("data: [DONE]\n\n"),
        "SSE chunks must be passed through intact: {}",
        answer.body
    );

    let sent = answer.sent.unwrap();
    assert_eq!(
        sent.uri.text(),
        format!("http://{UPSTREAM}/v1/chat/completions?trace=1")
    );
    assert_eq!(
        text(&sent.headers, "authorization"),
        Some("Bearer upstream-secret"),
        "should be replaced with the upstream key"
    );
    assert_eq!(
        text(&sent.headers, "x-model"),
        None,
        "the internal routing header must not be forwarded"
    );
    assert_eq!(
        sent.uri.authority.as_deref(),
        Some(UPSTREAM),
        "host should point at the upstream"
    );

    let forwarded: serde_json::Value = serde_json::from_slice(&sent.body).unwrap();
    assert_eq!(
        forwarded["model"], "served-name",
        "model should be rewritten"
    );
    assert_eq!(forwarded["messages"][0]["content"], "hi");
    assert_eq!(forwarded["stream"], true);
}

#[test]
fn x_model_header_routes_without_passing_through() {
    let gateway = Gateway::new(config(None)).unwrap();
    let answer = send(
        &gateway,
        "POST",
        "/v1/completions",
        &[KEY, ("x-model", "mock")],
        &[r#"{"prompt":"hello"}"#],
        &events(&[]),
    );

    assert_eq!(answer.status, StatusCode(200));
    let sent = answer.sent.unwrap();
    assert_eq!(sent.uri.path, "/v1/completions");
    assert_eq!(text(&sent.headers, "x-model"), None);
    // no model field in the body -> no rewrite, passed through as-is
    let forwarded: serde_json::Value = serde_json::from_slice(&sent.body).unwrap();
    assert_eq!(forwarded["prompt"], "hello");
    assert!(forwarded.get("model").is_none());
}

#[test]
fn rejects_oversized_request_body() {
    let mut limited = config(None);
    limited.server.max_body_bytes = 64;
    let gateway = Gateway::new(limited).unwrap();
    let oversized = format!(r#"{{"model":"mock","padding":"{}"}}"#, "x".repeat(4096));
    let answer = send(
        &gateway,
        "POST",
        "/v1/chat/completions",
        &[KEY],
        &[&oversized[..10], &oversized[10..]],
        &events(&[]),
    );
    assert_eq!(answer.status, StatusCode(413));
    assert!(answer.sent.is_none());
}

#[test]
fn rejects_bad_requests_with_openai_style_errors() {
    // This config has no default_upstream, so it exercises the "no model specified" branch
    let gateway = Gateway::new(config(None)).unwrap();
    let path = "/v1/chat/completions";

    // 401: missing unified key
    let answer = send(&gateway, "POST", path, &[], &[r#"{"model":"mock"}"#], &events(&[]));
    assert_eq!(answer.status, StatusCode(401));
    let error: serde_json::Value = serde_json::from_str(&answer.body).unwrap();
    assert_eq!(error["error"]["type"], "gateway_error");

    // 400: neither X-Model nor body.model, and no default_upstream
    let answer = send(&gateway, "POST", path, &[KEY], &[r#"{"messages":[]}"#], &events(&[]));
    assert_eq!(answer.status, StatusCode(400));

    // 404: unknown model
    let answer = send(&gateway, "POST", path, &[KEY], &[r#"{"model":"ghost"}"#], &events(&[]));
    assert_eq!(answer.status, StatusCode(404));
    assert_eq!(
        answer.body,
        r#"{"error":{"message":"unknown model 'ghost': no upstream with that name is configured","type":"gateway_error"}}"#
    );
}

fn healthy(healthy: bool) -> UpstreamHealth {
    UpstreamHealth {
        healthy,
        latency_ms: 1,
        checked_at: Instant::now(),
        error: (!healthy).then_some("GET /v1/models failed: refused".to_string()),
    }
}

#[test]
fn health_endpoints_are_not_proxied_and_report_upstream_state() {
    let gateway = Gateway::new(config(None)).unwrap();
    let mut health = HealthState::new(gateway.upstream_names());

    // /healthz is unauthenticated, always 200 and never touches an upstream.
    let reply = gateway.health_response("GET", "/healthz", &health).unwrap();
    assert_eq!(reply.status, StatusCode(200));
    assert_eq!(text(&reply.headers, "content-type"), Some("application/json"));
    let body: serde_json::Value = serde_json::from_slice(&reply.body).unwrap();
    assert_eq!(body["status"], "ok");

    health.record("mock", healthy(true));
    let reply = gateway.health_response("HEAD", "/readyz", &health).unwrap();
    let body: serde_json::Value = serde_json::from_slice(&reply.body).unwrap();
    assert_eq!(body["status"], "ok");
    assert_eq!(body["probing"], "enabled");
    assert_eq!(body["upstreams"]["mock"]["status"], "up");
    assert!(body["upstreams"]["mock"]["latency_ms"].is_number());
    assert_eq!(body["upstreams"].as_object().unwrap().len(), 1);

    assert!(gateway.health_response("POST", "/healthz", &health).is_none());
    assert!(gateway.health_response("GET", "/v1/models", &health).is_none());
}

#[test]
fn readyz_is_unavailable_when_an_upstream_is_unreachable() {
    let gateway = Gateway::new(config(None)).unwrap();
    let mut health = HealthState::new(gateway.upstream_names());
    health.record("mock", healthy(false));
    let reply = gateway.health_response("GET", "/readyz", &health).unwrap();
    assert_eq!(reply.status, StatusCode(503));
    let body: serde_json::Value = serde_json::from_slice(&reply.body).unwrap();
    assert_eq!(body["status"], "degraded");
    assert_eq!(body["upstreams"]["mock"]["status"], "down");
    assert!(
        body["upstreams"]["mock"]["error"]
            .as_str()
            .unwrap()
            .contains("GET /v1/models"),
        "{body}"
    );
}

#[test]
fn models_endpoint_aggregates_the_configured_upstreams() {
    let gateway = Gateway::new(config(None)).unwrap();

    // It is a regular /v1 endpoint, so auth applies.
    let answer = send(&gateway, "GET", "/v1/models", &[], &[], &events(&[]));
    assert_eq!(answer.status, StatusCode(401));

    let answer = send(&gateway, "GET", "/v1/models", &[KEY], &[], &events(&[]));
    assert_eq!(answer.status, StatusCode(200));
    assert_eq!(text(&answer.headers, "content-type"), Some("application/json"));

    let body: serde_json::Value = serde_json::from_str(&answer.body).unwrap();
    assert_eq!(body["object"], "list");
    assert_eq!(body["data"].as_array().unwrap().len(), 1);
    assert_eq!(body["data"][0]["id"], "mock");
    assert_eq!(body["data"][0]["object"], "model");
    assert_eq!(body["data"][0]["owned_by"], "llm-conduit");
}

#[test]
fn a_completed_request_logs_effort_and_token_usage() {
    let gateway = Gateway::new(config(Some("mock"))).unwrap();
    let answer = send(
        &gateway,
        "POST",
        "/v1/chat/completions",
        &[KEY],
        &[r#"{"model":"mock","messages":[],"reasoning_effort":"high","max_tokens":512,"n":3}"#],
        &events(&[
            "data: {\"choices\":[{\"delta\":{\"content\":\"hi\"}}]}\n\n",
            "data: {\"choices\":[],\"usage\":{\"prompt_tokens\":12,\"completion_tokens\":34,\"total_tokens\":46,\"completion_tokens_details\":{\"reasoning_tokens\":20}}}\n\n",
        ]),
    );
    assert_eq!(answer.status, StatusCode(200));
    let line = answer.line;
    for expected in [
        "effort=high",
        "max_tokens=512",
        "requested_choices=3",
        "prompt_tokens=12",
        "completion_tokens=34",
        "total_tokens=46",
        "reasoning_tokens=20",
        // Counters the upstream did not report stay in the line as `-`.
        "cached_tokens=-",
    ] {
        assert!(line.contains(expected), "missing {expected} in: {line}");
    }
}

#[test]
fn a_streamed_usage_split_over_two_writes_is_logged() {
    let gateway = Gateway::new(config(Some("mock"))).unwrap();
    let answer = send(
        &gateway,
        "POST",
        "/v1/chat/completions",
        &[KEY],
        &[r#"{"model":"mock","messages":[]}"#],
        &events(&[
            "data: {\"choices\":[],\"usage\":{\"prompt",
            "_tokens\":7,\"completion_tokens\":9}}\n\n",
        ]),
    );
    assert_eq!(answer.status, StatusCode(200));
    let line = answer.line;
    for expected in [
        "prompt_tokens=7",
        "completion_tokens=9",
        "total_tokens=16",
        // No effort was requested, so the field is present but empty.
        "effort=-",
    ] {
        assert!(line.contains(expected), "missing {expected} in: {line}");
    }
}

#[test]
fn request_ids_are_reused_forwarded_and_echoed_back() {
    let gateway = Gateway::new(config(Some("mock"))).unwrap();

    // A caller supplied ID is reused in the response and in the upstream request.
    let answer = send(
        &gateway,
        "POST",
        "/v1/chat/completions",
        &[KEY, ("x-request-id", "caller-supplied-id")],
        &[r#"{"model":"mock","messages":[]}"#],
        &events(&[]),
    );
    assert_eq!(answer.status, StatusCode(200));
    assert_eq!(text(&answer.headers, "x-request-id"), Some("caller-supplied-id"));
    let sent = answer.sent.unwrap();
    assert_eq!(text(&sent.headers, "x-request-id"), Some("caller-supplied-id"));

    // Without one, the gateway generates it and forwards that same value.
    let answer = send(
        &gateway,
        "POST",
        "/v1/chat/completions",
        &[KEY],
        &[r#"{"model":"mock","messages":[]}"#],
        &events(&[]),
    );
    assert_eq!(answer.status, StatusCode(200));
    let generated = text(&answer.headers, "x-request-id").unwrap();
    assert_eq!(generated.len(), 36, "generated IDs are UUID shaped");
    assert_eq!(text(&answer.sent.unwrap().headers, "x-request-id"), Some(generated));
}

#[test]
fn the_header_decides_before_the_body_and_the_body_before_the_default() {
    let mut two = config(Some("mock"));
    two.upstreams.insert(
        "other".to_string(),
        UpstreamConfig {
            base_url: "http://other".to_string(),
            api_key: None,
            upstream_model: None,
            insecure_skip_verify: false,
        },
    );
    let gateway = Gateway::new(two).unwrap();
    let host = |headers: &[(&str, &str)], body: &str| {
        let mut all = vec![KEY];
        all.extend_from_slice(headers);
        let answer = send(&gateway, "POST", "/v1/x", &all, &[body], &events(&[]));
        answer.sent.unwrap().uri.authority.unwrap()
    };
    assert_eq!(host(&[("x-model", "other")], r#"{"model":"mock"}"#), "other");
    assert_eq!(host(&[], r#"{"model":"other"}"#), "other");
    assert_eq!(host(&[], r#"{}"#), UPSTREAM);
    assert_eq!(host(&[], "not json"), UPSTREAM);
    assert_eq!(host(&[("x-model", " ")], r#"{"model":"other"}"#), "other");
}

#[test]
fn failures_upstream_are_bad_gateways() {
    let gateway = Gateway::new(config(Some("mock"))).unwrap();
    let answer = send(&gateway, "POST", "/v1/x", &[KEY], &["{}"], &|_| {
        Err("connection refused".to_string())
    });
    assert_eq!(answer.status, StatusCode(502));
    assert_eq!(
        answer.body,
        r#"{"error":{"message":"upstream 'mock' request failed: connection refused","type":"gateway_error"}}"#
    );
    assert_eq!(text(&answer.headers, "x-request-id").unwrap().len(), 36);
    assert!(answer.line.starts_with(" WARN request failed "), "{}", answer.line);
    assert!(answer.line.contains("caller=test-caller model=mock upstream=mock status=502"));
}

#[test]
fn errors_of_the_upstream_are_passed_on_and_not_scanned() {
    let gateway = Gateway::new(config(Some("mock"))).unwrap();
    let answer = send(&gateway, "POST", "/v1/x", &[KEY], &["{}"], &|_| {
        let body = r#"{"usage":{"total_tokens":5}}"#.to_string();
        Ok((500, vec![("connection", "close".to_string())], vec![body]))
    });
    assert_eq!(answer.status, StatusCode(500));
    assert_eq!(answer.headers.len(), 1);
    assert!(answer.line.contains("request completed"));
    assert!(answer.line.contains("total_tokens=- "), "{}", answer.line);
    assert!(answer.line.starts_with(" WARN "));
}

#[test]
fn an_open_gateway_asks_for_no_key() {
    let mut open = config(Some("mock"));
    open.auth = AuthConfig::default();
    let gateway = Gateway::new(open).unwrap();
    let answer = send(&gateway, "POST", "/v1/x", &[], &["{}"], &events(&[]));
    assert_eq!(answer.status, StatusCode(200));
    assert!(answer.line.contains(" caller=- "), "{}", answer.line);
}

#[test]
fn a_declared_length_over_the_limit_is_rejected_early() {
    let gateway = Gateway::new(config(Some("mock"))).unwrap();
    let mut parts = Parts {
        method: "POST".to_string(),
        uri: Uri::parse("/v1/x").unwrap(),
        headers: HeaderMap::new(),
    };
    parts.headers.insert("x-api-key", HeaderValue::from_static("sk-gateway-0001"));
    let mut log = gateway.open(&mut parts, Instant::now());
    let mut probe = RequestProbe::default();
    let mut begin = |length| {
        gateway.dispatch(Stage::Start, Event::Begin(length), &parts, &mut log, &mut probe).1
    };
    assert!(matches!(begin(Some(4096)), Action::Read));
    assert!(matches!(begin(Some(4097)), Action::Fail(error) if error.status == StatusCode(413)));
}

#[test]
fn a_body_that_breaks_off_is_a_bad_request() {
    let gateway = Gateway::new(config(Some("mock"))).unwrap();
    let mut parts = Parts {
        method: "POST".to_string(),
        uri: Uri::parse("/v1/x").unwrap(),
        headers: HeaderMap::new(),
    };
    parts.headers.insert("x-api-key", HeaderValue::from_static("sk-gateway-0001"));
    let mut log = gateway.open(&mut parts, Instant::now());
    let mut probe = RequestProbe::default();
    let (stage, _) =
        gateway.dispatch(Stage::Start, Event::Begin(None), &parts, &mut log, &mut probe);
    let event = Event::BodyFailed("reset".to_string());
    let (_, action) = gateway.dispatch(stage, event, &parts, &mut log, &mut probe);
    assert!(matches!(
        action,
        Action::Fail(error) if error.text() == "400 failed to read request body: reset"
    ));
}

#[test]
fn invalid_configurations_do_not_start() {
    let mut empty = config(None);
    empty.upstreams = NameTable::new();
    assert_eq!(
        Gateway::new(empty).unwrap_err().0,
        "at least one [upstreams.<name>] upstream must be configured"
    );
    let gateway = Gateway::new(config(None)).unwrap();
    assert_eq!(gateway.upstream_names(), ["mock"]);
    assert!(!gateway.needs_insecure());
    assert!(gateway.upstream("mock").is_some() && gateway.upstream("ghost").is_none());
    let mut insecure = config(None);
    insecure.upstreams.insert(
        "z".to_string(),
        UpstreamConfig {
            base_url: "https://z".to_string(),
            api_key: None,
            upstream_model: None,
            insecure_skip_verify: true,
        },
    );
    assert!(Gateway::new(insecure).unwrap().needs_insecure());
}

#[test]
fn unknown_callers_are_rejected_before_anything_else() {
    let gateway = Gateway::new(config(Some("mock"))).unwrap();
    for (method, path) in [("POST", "/v1/x"), ("GET", "/v1/models")] {
        let mut parts = Parts {
            method: method.to_string(),
            uri: Uri::parse(path).unwrap(),
            headers: HeaderMap::new(),
        };
        parts.headers.insert("x-api-key", HeaderValue::from_static("nobody"));
        let mut log = gateway.open(&mut parts, Instant::now());
        let mut probe = RequestProbe::default();
        let event = Event::Begin(Some(u64::MAX));
        let (stage, action) =
            gateway.dispatch(Stage::Start, event, &parts, &mut log, &mut probe);
        assert!(matches!(stage, Stage::Done));
        assert!(matches!(action, Action::Fail(error) if error.text() == "401 invalid API key"));
        assert!(log.caller.is_none());
    }
}

#[test]
fn every_listed_model_is_routed() {
    let mut many = config(None);
    for name in ["b", "a", "c d"] {
        many.upstreams.insert(
            name.to_string(),
            UpstreamConfig {
                base_url: "http://h".to_string(),
                api_key: None,
                upstream_model: None,
                insecure_skip_verify: false,
            },
        );
    }
    let gateway = Gateway::new(many).unwrap();
    let listed: serde_json::Value =
        serde_json::from_slice(&gateway.models_response().body).unwrap();
    let names: Vec<&str> = listed["data"]
        .as_array()
        .unwrap()
        .iter()
        .map(|entry| entry["id"].as_str().unwrap())
        .collect();
    assert_eq!(names, ["a", "b", "c d", "mock"]);
    for name in names {
        let body = format!(r#"{{"model":"{name}"}}"#);
        let answer = send(&gateway, "POST", "/v1/x", &[KEY], &[&body], &events(&[]));
        assert_eq!(answer.status, StatusCode(200), "{name}");
        assert!(answer.line.contains(&format!(" model={name} upstream={name} ")));
    }
}

#[test]
fn model_details_are_asked_of_the_upstream_in_the_path() {
    let gateway = Gateway::new(config(None)).unwrap();
    let ask = |method: &str, path: &str, headers: &[(&str, &str)], body: &str| {
        let mut all = vec![KEY];
        all.extend_from_slice(headers);
        send(&gateway, method, path, &all, &[body], &events(&[]))
    };
    let answer = ask("GET", "/v1/models/mock", &[], "");
    assert_eq!(answer.status, StatusCode(200));
    assert!(answer.line.contains(" model=mock upstream=mock "), "{}", answer.line);
    let sent = answer.sent.unwrap();
    assert_eq!(sent.method, "GET");
    assert_eq!(sent.uri.text(), "http://127.0.0.1:8000/v1/models/mock");
    assert_eq!(sent.body, b"");
    // The header decides before the path, and the path before the body.
    let answer = ask("GET", "/v1/models/mock", &[("x-model", "nobody")], "");
    assert_eq!(answer.status, StatusCode(404));
    let answer = ask("GET", "/v1/models/nobody", &[("x-model", "mock")], "");
    assert_eq!(answer.status, StatusCode(200));
    let answer = ask("GET", "/v1/models/mock", &[], r#"{"model":"nobody"}"#);
    assert_eq!(answer.status, StatusCode(200));
    let answer = ask("GET", "/v1/models/nobody", &[], r#"{"model":"mock"}"#);
    assert_eq!(answer.status, StatusCode(404));
    assert!(answer.body.contains("unknown model 'nobody'"), "{}", answer.body);
    // Other requests are not routed by their path.
    for (method, path) in [
        ("POST", "/v1/models/mock"),
        ("GET", "/v1/models/"),
        ("GET", "/v1/model/mock"),
        ("GET", "/x/v1/models/mock"),
    ] {
        assert_eq!(ask(method, path, &[], "").status, StatusCode(400), "{method} {path}");
    }
}

#[test]
fn the_model_in_a_path_is_what_follows_the_prefix() {
    assert_eq!(path_model("GET", "/v1/models/a").as_deref(), Some("a"));
    assert_eq!(path_model("GET", "/v1/models/meta/llama").as_deref(), Some("meta/llama"));
    assert_eq!(path_model("GET", "/v1/models/"), None);
    assert_eq!(path_model("GET", "/v1/models"), None);
    assert_eq!(path_model("HEAD", "/v1/models/a"), None);
}

#[test]
fn the_upstreams_are_those_of_the_configuration() {
    let gateway = Gateway::new(config(None)).unwrap();
    let upstream = gateway.upstream("mock").unwrap();
    assert_eq!(upstream.name, "mock");
    assert_eq!(upstream.base.text(), "http://127.0.0.1:8000/");
    assert_eq!(upstream.path_prefix, "");
    assert_eq!(upstream.api_key.as_deref(), Some("upstream-secret"));
    assert_eq!(upstream.upstream_model.as_deref(), Some("served-name"));
    assert!(gateway.upstream("nobody").is_none());
    assert_eq!(gateway.probing().map(|health| health.interval_secs), Some(10));
    let mut quiet = config(None);
    quiet.server.health.enabled = false;
    assert!(Gateway::new(quiet).unwrap().probing().is_none());
}
