use std::time::Instant;

use hyper::header::{HeaderName, HeaderValue};
use hyper::HeaderMap;
use llm_conduit::error::StatusCode;
use llm_conduit::gateway::UsageObserver;
use llm_conduit::observe::{
    generate_request_id, request_id, uuid_from_bytes, Level, MeteredBody, RequestLog, TokenUsage,
    MAX_REQUEST_ID_LEN,
};

fn headers(pairs: &[(&str, &str)]) -> HeaderMap {
    let mut map = HeaderMap::new();
    for (name, value) in pairs {
        map.insert(
            HeaderName::from_bytes(name.as_bytes()).unwrap(),
            HeaderValue::from_str(value).unwrap(),
        );
    }
    map
}

#[test]
fn reuses_a_usable_request_id() {
    let headers = headers(&[("x-request-id", "  trace-me-123  ")]);
    assert_eq!(request_id(&headers), "trace-me-123");
}

#[test]
fn replaces_unusable_request_ids() {
    // Missing, empty, too long and non ASCII values are all replaced.
    assert_ne!(request_id(&HeaderMap::new()).len(), 0);
    assert_eq!(request_id(&headers(&[("x-request-id", "   ")])).len(), 36);
    assert_eq!(
        request_id(&headers(&[("x-request-id", &"x".repeat(200))])).len(),
        36
    );
    assert_eq!(
        request_id(&headers(&[("x-request-id", "中文请求标识")])).len(),
        36
    );
}

#[test]
fn generated_request_ids_look_like_uuids_and_are_unique() {
    let first = generate_request_id();
    let second = generate_request_id();
    assert_ne!(first, second);
    assert_eq!(first.len(), 36);
    assert_eq!(first.matches('-').count(), 4);
    assert!(first.chars().all(|c| c.is_ascii_hexdigit() || c == '-'));
    // Version 4 and the RFC 4122 variant.
    assert_eq!(&first[14..15], "4");
    assert!(matches!(&first[19..20], "8" | "9" | "a" | "b"));
}

#[test]
fn the_longest_request_id_is_reused() {
    let longest = "x".repeat(MAX_REQUEST_ID_LEN);
    assert_eq!(request_id(&headers(&[("x-request-id", &longest)])), longest);
    let id = request_id(&headers(&[("x-request-id", &format!("{longest}x"))]));
    assert_eq!(id.len(), 36);
    // A tab is a control character.
    assert_eq!(request_id(&headers(&[("x-request-id", "a\tb")])).len(), 36);
}

#[test]
fn identifiers_are_written_from_their_bytes() {
    let bytes: Vec<u8> = (0u8..16).collect();
    assert_eq!(uuid_from_bytes(&bytes), "00010203-0405-4607-8809-0a0b0c0d0e0f");
    assert_eq!(uuid_from_bytes(&vec![0xff; 16]), "ffffffff-ffff-4fff-bfff-ffffffffffff");
}

#[test]
fn sized_bodies_count_as_complete_without_an_end_of_stream_frame() {
    // A body with a known length is written and not polled any further, so the end of the stream
    // is never seen: the byte count has to be enough to call it complete.
    let mut body = MeteredBody::new(Some(5));
    body.on_frame(b"hello");
    assert!(!body.is_finished(), "no end of stream frame was polled yet");
    assert_eq!(body.report(), (5, false));
}

#[test]
fn streamed_bodies_are_complete_after_the_end_of_stream() {
    let mut body = MeteredBody::new(None);
    body.on_frame(b"data: 1\n\n");
    body.on_frame(b"data: 2\n\n");
    body.on_end();
    assert!(body.is_finished());
    assert_eq!(body.bytes(), 18);
    assert_eq!(body.report(), (18, false));
}

#[test]
fn aborted_streams_are_reported_as_aborted() {
    let mut body = MeteredBody::new(None);
    // One frame went out, then the client disappeared before the second one.
    body.on_frame(b"data: 1\n\n");
    assert_eq!(body.report(), (9, true));
}

#[test]
fn sized_bodies_are_aborted_before_their_last_byte() {
    let mut body = MeteredBody::new(Some(5));
    body.on_frame(b"hell");
    assert_eq!(body.report(), (4, true));
    assert!(!body.is_complete());
    assert!(MeteredBody::new(Some(0)).is_complete());
}

#[test]
fn the_observer_sees_every_frame() {
    let mut body = MeteredBody::new(None).with_observer(UsageObserver::new());
    assert_eq!(body.usage(), None);
    body.on_frame(b"data: {\"usage\":{\"total_to");
    body.on_frame(b"kens\":5}}\n\n");
    assert_eq!(body.usage().unwrap().total_tokens, Some(5));
    assert_eq!(body.bytes(), 36);
    assert_eq!(MeteredBody::new(None).usage(), None);
}

fn record(id: &str) -> RequestLog {
    RequestLog::new(
        id.to_string(),
        "POST".to_string(),
        "/v1/chat/completions".to_string(),
        Instant::now(),
    )
}

#[test]
fn finish_emits_every_documented_field() {
    let mut log = record("trace-me-123");
    log.caller = Some("frontend".to_string());
    log.model = Some("llama-3.1-8b-instruct".to_string());
    log.upstream = Some("primary".to_string());
    log.status = StatusCode(200);
    log.streaming = true;
    log.request_bytes = 42;
    let line = log.finish(128, false).text();

    for expected in [
        "request_id=trace-me-123",
        "caller=frontend",
        "model=llama-3.1-8b-instruct",
        "upstream=primary",
        "status=200",
        "elapsed_ms=",
        "request_bytes=42",
        "response_bytes=128",
        "stream=true",
        "aborted=false",
        "method=POST",
        "path=/v1/chat/completions",
        "request completed",
    ] {
        assert!(line.contains(expected), "missing {expected} in: {line}");
    }
    assert!(
        line.contains(" INFO "),
        "successful requests log at INFO: {line}"
    );
}

#[test]
fn failures_are_logged_at_warn_with_the_error() {
    let mut log = record("id");
    log.error = Some("unknown model 'ghost'".to_string());
    log.status = StatusCode(404);
    let line = log.finish(94, false).text();

    assert!(line.contains(" WARN "), "failures log at WARN: {line}");
    assert!(line.contains("request failed"), "{line}");
    assert!(line.contains("error=unknown model 'ghost'"), "{line}");
}

#[test]
fn the_line_is_written_in_the_documented_order() {
    let mut log = record("5f8c1b2a");
    log.caller = Some("frontend".to_string());
    log.model = Some("llama-3.1-8b-instruct".to_string());
    log.upstream = Some("primary".to_string());
    log.streaming = true;
    log.request_bytes = 412;
    log.effort = Some("high".to_string());
    log.max_tokens = Some(1024);
    log.usage = Some(TokenUsage {
        prompt_tokens: Some(412),
        completion_tokens: Some(128),
        total_tokens: Some(540),
        reasoning_tokens: Some(64),
        cached_tokens: None,
    });
    assert_eq!(
        log.finish_after(1832, 20481, false).message(),
        "request completed request_id=5f8c1b2a caller=frontend model=llama-3.1-8b-instruct \
         upstream=primary status=200 elapsed_ms=1832 request_bytes=412 response_bytes=20481 \
         stream=true aborted=false effort=high max_tokens=1024 requested_choices=- \
         prompt_tokens=412 completion_tokens=128 total_tokens=540 reasoning_tokens=64 \
         cached_tokens=- method=POST path=/v1/chat/completions error=-"
    );
    let line = record("x").finish_after(0, 0, true);
    let empty: Vec<&str> = line
        .fields
        .iter()
        .filter(|(_, value)| value == "-")
        .map(|(name, _)| *name)
        .collect();
    assert_eq!(
        empty,
        [
            "caller",
            "model",
            "upstream",
            "effort",
            "max_tokens",
            "requested_choices",
            "prompt_tokens",
            "completion_tokens",
            "total_tokens",
            "reasoning_tokens",
            "cached_tokens",
            "error"
        ]
    );
    assert_eq!(line.fields.len(), 21);
}

#[test]
fn levels_follow_the_outcome() {
    let line = |status: u16, error: Option<&str>, aborted: bool| {
        let mut log = record("x");
        log.status = StatusCode(status);
        log.error = error.map(str::to_string);
        let line = log.finish_after(1, 2, aborted);
        (line.level, line.outcome)
    };
    assert_eq!(line(200, None, false), (Level::Info, "request completed"));
    assert_eq!(line(302, None, false), (Level::Info, "request completed"));
    assert_eq!(line(200, None, true), (Level::Warn, "request aborted"));
    assert_eq!(line(404, None, false), (Level::Warn, "request completed"));
    assert_eq!(line(500, None, true), (Level::Warn, "request aborted"));
    assert_eq!(line(200, Some("x"), true), (Level::Warn, "request failed"));
}

#[test]
fn every_byte_of_every_frame_is_reported() {
    let run = |expected: Option<u64>, frames: &[&str], ended: bool| {
        let mut body = MeteredBody::new(expected);
        for frame in frames {
            body.on_frame(frame.as_bytes());
        }
        if ended {
            body.on_end();
        }
        body.report()
    };
    assert_eq!(run(Some(5), &["hello"], false), (5, false));
    assert_eq!(run(Some(5), &["he", "", "llo"], false), (5, false));
    assert_eq!(run(Some(5), &["hell"], false), (4, true));
    assert_eq!(run(None, &["he", "llo"], false), (5, true));
    assert_eq!(run(None, &["he", "llo"], true), (5, false));
    assert_eq!(run(None, &[], true), (0, false));
    assert_eq!(run(Some(0), &[], false), (0, false));
}
