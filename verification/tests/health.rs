use std::time::Instant;

use llm_conduit::config::{HealthConfig, HealthMode, Upstream, UpstreamConfig};
use llm_conduit::error::{Reply, StatusCode};
use llm_conduit::health::{
    healthz, models_request, models_verdict, readyz, readyz_at, tcp_address, tcp_verdict, Answered,
    Connected, HealthState, ProbeNote, UpstreamHealth,
};
use llm_conduit::observe::Level;

fn upstream(base_url: &str, api_key: Option<&str>) -> Upstream {
    let cfg = UpstreamConfig {
        base_url: base_url.to_string(),
        api_key: api_key.map(str::to_string),
        upstream_model: None,
        insecure_skip_verify: false,
    };
    Upstream::from_config("probe", &cfg).unwrap()
}

fn config(enabled: bool, mode: HealthMode) -> HealthConfig {
    HealthConfig {
        enabled,
        interval_secs: 10,
        timeout_secs: 1,
        mode,
    }
}

fn state(names: &[&str]) -> HealthState {
    HealthState::new(names.iter().map(|name| name.to_string()).collect())
}

fn healthy(latency_ms: u64) -> UpstreamHealth {
    UpstreamHealth {
        healthy: true,
        latency_ms,
        checked_at: Instant::now(),
        error: None,
    }
}

fn unhealthy(error: &str) -> UpstreamHealth {
    UpstreamHealth {
        healthy: false,
        latency_ms: 0,
        checked_at: Instant::now(),
        error: Some(error.to_string()),
    }
}

fn document(reply: &Reply) -> serde_json::Value {
    serde_json::from_slice(&reply.body).unwrap()
}

#[test]
fn healthz_is_always_ok() {
    let response = healthz();
    assert_eq!(response.status, StatusCode(200));
    assert_eq!(response.headers[hyper::header::CONTENT_TYPE], "application/json");
    assert_eq!(response.body, br#"{"status":"ok"}"#);
}

#[test]
fn readyz_is_ok_until_an_upstream_is_known_to_be_down() {
    let mut state = state(&["a", "b"]);
    // Nothing probed yet: optimistic, so the gateway is not unready at boot.
    assert_eq!(readyz(&state, true).status, StatusCode(200));

    state.record("a", healthy(3));
    assert_eq!(readyz(&state, true).status, StatusCode(200));

    state.record("b", unhealthy("tcp connect failed"));
    let response = readyz(&state, true);
    assert_eq!(response.status, StatusCode(503));

    let body = document(&response);
    assert_eq!(body["status"], "degraded");
    assert_eq!(body["probing"], "enabled");
    assert_eq!(body["upstreams"]["a"]["status"], "up");
    assert_eq!(body["upstreams"]["a"]["latency_ms"], 3);
    assert_eq!(body["upstreams"]["b"]["status"], "down");
    assert_eq!(body["upstreams"]["b"]["error"], "tcp connect failed");
}

#[test]
fn readyz_reports_when_probing_is_disabled() {
    let state = state(&["a"]);
    let response = readyz(&state, false);
    assert_eq!(response.status, StatusCode(200));
    let body = document(&response);
    assert_eq!(body["probing"], "disabled");
    assert_eq!(body["upstreams"]["a"]["status"], "unchecked");
}

#[test]
fn tcp_probe_uses_scheme_default_ports() {
    let address = tcp_address(&upstream("http://127.0.0.1", None)).unwrap();
    assert_eq!(address, "127.0.0.1:80");
    let error = tcp_verdict(&address, 1, Connected::TimedOut).unwrap_err();
    assert!(error.contains("127.0.0.1:80"), "{error}");
}

#[test]
fn health_mode_names_are_stable() {
    assert_eq!(HealthMode::Models.as_str(), "models");
    assert_eq!(HealthMode::Tcp.as_str(), "tcp");
    assert!(config(true, HealthMode::Tcp).enabled);
}

#[test]
fn health_modes_are_found_by_their_names() {
    assert_eq!(HealthMode::from_name("models"), Some(HealthMode::Models));
    assert_eq!(HealthMode::from_name("tcp"), Some(HealthMode::Tcp));
    assert_eq!(HealthMode::from_name("ping"), None);
    assert_eq!(HealthMode::from_name("TCP"), None);
}

#[test]
fn readyz_names_every_upstream() {
    let mut state = state(&["b", "a", "c", "a"]);
    state.record("a", healthy(3));
    state.record(
        "b",
        UpstreamHealth {
            error: None,
            ..unhealthy("")
        },
    );
    // An upstream that is not configured does not matter.
    state.record("z", unhealthy("gone"));
    let reply = readyz_at(&state, true, &vec![2, 5, 0, 7]);
    assert_eq!(reply.status, StatusCode(503));
    assert_eq!(
        String::from_utf8(reply.body).unwrap(),
        concat_lines(&[
            r#"{"probing":"enabled","status":"degraded","upstreams":{"#,
            r#""a":{"checked_secs_ago":7,"latency_ms":3,"status":"up"},"#,
            r#""b":{"checked_secs_ago":2,"error":"unknown error","status":"down"},"#,
            r#""c":{"status":"unchecked"}}}"#,
        ])
    );
    state.record("b", healthy(1));
    assert_eq!(readyz_at(&state, false, &vec![0, 0, 0, 0]).status, StatusCode(200));
    assert_eq!(state.snapshot().len(), 3);
}

fn concat_lines(parts: &[&str]) -> String {
    parts.iter().copied().collect()
}

#[test]
fn probes_are_recorded_and_changes_are_noted() {
    let mut state = state(&["a"]);
    let now = Instant::now();
    assert_eq!(state.observe("a", Ok(4), now), ProbeNote::Healthy);
    assert_eq!(state.observe("a", Ok(5), now), ProbeNote::StillHealthy);
    assert_eq!(state.snapshot().get("a").unwrap().latency_ms, 5);
    let failed = |text: &str| Err(text.to_string());
    assert_eq!(state.observe("a", failed("x"), now), ProbeNote::Unhealthy);
    assert_eq!(readyz(&state, true).status, StatusCode(503));
    assert_eq!(state.observe("a", failed("y"), now), ProbeNote::StillUnhealthy);
    let known = state.snapshot().get("a").unwrap();
    assert_eq!(known.error.as_deref(), Some("y"));
    assert_eq!(known.latency_ms, 0);
    assert_eq!(state.observe("b", failed("z"), now), ProbeNote::Unhealthy);
    assert_eq!(state.observe("a", Ok(1), now), ProbeNote::Healthy);
    assert_eq!(readyz(&state, true).status, StatusCode(200));
}

#[test]
fn notes_have_a_level_and_a_text() {
    for (note, level, text) in [
        (ProbeNote::StillHealthy, Level::Debug, "upstream is healthy"),
        (ProbeNote::Healthy, Level::Info, "upstream is healthy"),
        (ProbeNote::StillUnhealthy, Level::Debug, "upstream is still unhealthy"),
        (ProbeNote::Unhealthy, Level::Warn, "upstream is unhealthy"),
    ] {
        assert_eq!(note.level(), level);
        assert_eq!(note.message(), text);
    }
}

#[test]
fn tcp_probes_have_an_address_and_a_verdict() {
    let address = |url: &str| tcp_address(&upstream(url, None)).unwrap();
    assert_eq!(address("https://host/prefix"), "host:443");
    assert_eq!(address("https://user@host:8443"), "host:8443");
    assert_eq!(address("http://[::1]"), "[::1]:80");
    assert!(tcp_verdict("h:1", 2, Connected::Yes).is_ok());
    assert_eq!(
        tcp_verdict("h:1", 2, Connected::TimedOut).unwrap_err(),
        "tcp connect to h:1 timed out after 2s"
    );
    assert_eq!(
        tcp_verdict("h:1", 2, Connected::Failed("refused".to_string())).unwrap_err(),
        "tcp connect to h:1 failed: refused"
    );
    let mut broken = upstream("http://h", None);
    broken.base.authority = None;
    assert_eq!(
        tcp_address(&broken).unwrap_err(),
        "upstream base_url has no host"
    );
}

#[test]
fn models_probes_have_a_request_and_a_verdict() {
    let request = models_request(&upstream("http://h:1/p", Some("secret"))).unwrap();
    assert_eq!(request.method, "GET");
    assert_eq!(request.uri.text(), "http://h:1/p/v1/models");
    assert_eq!(request.headers["authorization"], "Bearer secret");
    assert_eq!(request.headers.len(), 1);
    assert!(request.body.is_empty());
    assert!(models_request(&upstream("http://h", None)).unwrap().headers.is_empty());
    assert_eq!(
        models_request(&upstream("http://h", Some("a\u{7f}"))).unwrap_err(),
        "could not build the probe request: failed to parse header value"
    );
    let mut broken = upstream("http://h", None);
    broken.base.authority = None;
    assert_eq!(
        models_request(&broken).unwrap_err(),
        "upstream base_url has no host"
    );

    assert!(models_verdict(2, Answered::Status(StatusCode(204))).is_ok());
    assert_eq!(
        models_verdict(2, Answered::Status(StatusCode(503))).unwrap_err(),
        "GET /v1/models returned 503"
    );
    assert_eq!(
        models_verdict(2, Answered::Failed("reset".to_string())).unwrap_err(),
        "GET /v1/models failed: reset"
    );
    assert_eq!(
        models_verdict(10, Answered::TimedOut).unwrap_err(),
        "GET /v1/models timed out after 10s"
    );
}

#[test]
fn seconds_are_written_as_durations_are() {
    for secs in [0u64, 1, 90, 3600] {
        let error = models_verdict(secs, Answered::TimedOut).unwrap_err();
        let written = format!("{:?}", std::time::Duration::from_secs(secs));
        assert!(error.ends_with(&format!(" {written}")), "{error}");
    }
}
