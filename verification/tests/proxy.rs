use hyper::header::{
    HeaderName, HeaderValue, AUTHORIZATION, CONTENT_LENGTH, CONTENT_TYPE,
};
use hyper::HeaderMap;
use llm_conduit::config::{Upstream, UpstreamConfig};
use llm_conduit::error::StatusCode;
use llm_conduit::headers::{fits, is_field_value, name_from, text_from, MAX_HEADER_NAMES};
use llm_conduit::proxy::{
    build_request, connection_tokens, copy_headers, fits_beside, fits_request, forward_request,
    forward_response, payload_too_large, request_failed, BodyReader, Parts,
};
use llm_conduit::uri::Uri;

fn upstream_with(base_url: &str, api_key: Option<&str>, model: Option<&str>) -> Upstream {
    let cfg = UpstreamConfig {
        base_url: base_url.to_string(),
        api_key: api_key.map(str::to_string),
        upstream_model: model.map(str::to_string),
        insecure_skip_verify: false,
    };
    Upstream::from_config("a", &cfg).unwrap()
}

fn upstream(base_url: &str) -> Upstream {
    upstream_with(base_url, Some("upstream-secret"), None)
}

fn parts(headers: &[(&str, &str)]) -> Parts {
    let mut map = HeaderMap::new();
    for (k, v) in headers {
        map.append(
            HeaderName::from_bytes(k.as_bytes()).unwrap(),
            HeaderValue::from_str(v).unwrap(),
        );
    }
    Parts {
        method: "POST".to_string(),
        uri: Uri::parse("/v1/chat/completions").unwrap(),
        headers: map,
    }
}

#[test]
fn strips_hop_by_hop_and_rewrites_key() {
    let up = upstream("http://127.0.0.1:8000");
    let p = parts(&[
        ("authorization", "Bearer sk-gateway-0001"),
        ("x-api-key", "sk-gateway-0001"),
        ("x-model", "llama-3.1-8b-instruct"),
        ("host", "gateway:4000"),
        ("content-length", "999"),
        ("connection", "keep-alive, x-custom"),
        ("x-custom", "drop-me"),
        ("content-type", "application/json"),
        ("accept", "text/event-stream"),
    ]);
    let target = Uri::parse("http://127.0.0.1:8000/v1/chat/completions").unwrap();
    let request = build_request(&up, &p, target, b"{}".to_vec()).unwrap();

    let headers = &request.headers;
    assert_eq!(
        headers.get(AUTHORIZATION).unwrap(),
        "Bearer upstream-secret"
    );
    assert!(headers.get("x-api-key").is_none());
    assert!(headers.get("x-model").is_none());
    assert!(
        headers.get("host").is_none(),
        "host must be regenerated from the upstream URI"
    );
    assert!(
        headers.get("x-custom").is_none(),
        "headers named in Connection must be stripped"
    );
    assert!(headers.get("keep-alive").is_none());
    assert_eq!(headers.get(CONTENT_LENGTH).unwrap(), "2");
    assert_eq!(headers.get(CONTENT_TYPE).unwrap(), "application/json");
    assert_eq!(headers.get("accept").unwrap(), "text/event-stream");
}

#[test]
fn omits_authorization_when_upstream_has_no_key() {
    let up = upstream_with("http://127.0.0.1:8000", None, None);
    let p = parts(&[("authorization", "Bearer sk-gateway-0001")]);
    let target = Uri::parse("http://127.0.0.1:8000/v1/models").unwrap();
    let request = build_request(&up, &p, target, Vec::new()).unwrap();
    assert!(request.headers.get(AUTHORIZATION).is_none());
}

#[test]
fn keeps_content_headers_of_upstream_response() {
    let mut source = HeaderMap::new();
    source.insert(CONTENT_TYPE, HeaderValue::from_static("text/event-stream"));
    source.insert(CONTENT_LENGTH, HeaderValue::from_static("128"));
    source.insert("transfer-encoding", HeaderValue::from_static("chunked"));
    source.insert("x-request-id", HeaderValue::from_static("abc"));
    let mut target = HeaderMap::new();
    copy_headers(&source, &mut target, &[]);
    assert_eq!(target.get(CONTENT_TYPE).unwrap(), "text/event-stream");
    assert_eq!(target.get("x-request-id").unwrap(), "abc");
    assert!(target.get("transfer-encoding").is_none());
    assert_eq!(
        target.get(CONTENT_LENGTH).unwrap(),
        "128",
        "the response side must keep the upstream content-length instead of chunking"
    );
}

#[test]
fn oversized_body_maps_to_413() {
    assert_eq!(payload_too_large(10).status.as_u16(), 413);
}

#[test]
fn the_limit_is_told() {
    assert_eq!(
        payload_too_large(200_000_000).message,
        "request body exceeds the 200000000-byte limit"
    );
}

#[test]
fn all_values_of_a_header_are_copied_in_order() {
    let p = parts(&[
        ("x-a", "1"),
        ("x-b", "2"),
        ("x-a", "3"),
        ("te", "trailers"),
        ("Connection", "close,  X-B ,,not a token,\u{e9}"),
        ("connection", "X-C"),
        ("x-c", "4"),
    ]);
    let mut target = HeaderMap::new();
    target.insert("x-a", HeaderValue::from_static("0"));
    copy_headers(&p.headers, &mut target, &["x-d"]);
    let values: Vec<&str> = target
        .get_all("x-a")
        .iter()
        .map(|value| value.to_str().unwrap())
        .collect();
    assert_eq!(values, ["0", "1", "3"]);
    assert_eq!(target.get("x-c"), None);
    assert_eq!(target.keys_len(), 2, "{target:?}");
    assert_eq!(target.get("x-b").unwrap(), "2");
}

#[test]
fn connection_names_are_read_in_lower_case() {
    let p = parts(&[("connection", "Keep-Alive , X-Custom,, b@d,"), ("connection", "te")]);
    let mut tokens = connection_tokens(&p.headers);
    tokens.sort();
    assert_eq!(tokens, ["keep-alive", "te", "x-custom"]);
    assert!(connection_tokens(&HeaderMap::new()).is_empty());
}

#[test]
fn a_key_that_cannot_be_sent_is_an_internal_error() {
    let up = upstream_with("http://127.0.0.1:8000", Some("a\nb"), None);
    let error = forward_request(&up, &parts(&[]), Vec::new(), None).unwrap_err();
    assert_eq!(error.text(), "500 upstream api_key contains invalid characters");
}

#[test]
fn the_body_is_rewritten_only_where_it_must_be() {
    let body = br#"{"model": "a"}"#.to_vec();
    let sent = |model: Option<&str>, body_model: Option<&str>| {
        let up = upstream_with("http://127.0.0.1:8000/p", None, model);
        let request = forward_request(&up, &parts(&[]), body.clone(), body_model).unwrap();
        assert_eq!(request.uri.text(), "http://127.0.0.1:8000/p/v1/chat/completions");
        assert_eq!(request.method, "POST");
        assert_eq!(
            request.headers.get(CONTENT_LENGTH).unwrap(),
            request.body.len().to_string().as_str()
        );
        String::from_utf8(request.body).unwrap()
    };
    assert_eq!(sent(None, Some("a")), r#"{"model": "a"}"#);
    assert_eq!(sent(Some("a"), Some("a")), r#"{"model": "a"}"#);
    assert_eq!(sent(Some("a"), None), r#"{"model": "a"}"#);
    assert_eq!(sent(Some("b"), Some("a")), r#"{"model":"b"}"#);
    assert_eq!(sent(Some("b"), None), r#"{"model":"b"}"#);
}

#[test]
fn the_status_of_the_upstream_is_passed_on() {
    let p = parts(&[("connection", "x-hop"), ("x-hop", "1"), ("content-length", "3")]);
    let head = forward_response(StatusCode(503), &p.headers);
    assert_eq!(head.status, StatusCode(503));
    assert_eq!(head.headers.len(), 1);
    assert_eq!(head.headers.get(CONTENT_LENGTH).unwrap(), "3");
    assert_eq!(
        request_failed("a", "refused").text(),
        "502 upstream 'a' request failed: refused"
    );
}

#[test]
fn a_body_is_read_up_to_the_limit() {
    assert_eq!(BodyReader::new(Some(6), 5).err().unwrap().status.as_u16(), 413);
    for chunks in [vec!["hello"], vec!["he", "", "llo"], vec!["h", "e", "l", "l", "o"]] {
        let mut reader = BodyReader::new(Some(5), 5).unwrap();
        for chunk in &chunks {
            reader.push(chunk.as_bytes()).unwrap();
        }
        assert_eq!(reader.push(b"!").unwrap_err().status.as_u16(), 413);
        assert_eq!(reader.finish(), b"hello");
    }
    let mut reader = BodyReader::new(None, 4).unwrap();
    reader.push(b"he").unwrap();
    assert_eq!(
        reader.push(b"llo").unwrap_err().message,
        "request body exceeds the 4-byte limit"
    );
    assert_eq!(
        BodyReader::failed("reset").text(),
        "400 failed to read request body: reset"
    );
}

#[test]
fn header_names_are_tokens() {
    assert_eq!(name_from("X-Custom").as_deref(), Some("x-custom"));
    assert_eq!(name_from("a!#$%&'*+-.^_`|~0Z").as_deref(), Some("a!#$%&'*+-.^_`|~0z"));
    assert_eq!(name_from("x".repeat(65535).as_str()).unwrap().len(), 65535);
    for text in ["", "a b", "a,b", "a:b", "(a)", "\u{212a}", "é", "a\"", "a/b", "a{b"] {
        assert_eq!(name_from(text), None, "{text}");
        assert!(HeaderName::from_bytes(text.as_bytes()).is_err(), "{text}");
    }
    for c in 0u8..128 {
        let text = (c as char).to_string();
        let known = HeaderName::from_bytes(text.as_bytes()).ok();
        assert_eq!(name_from(&text).as_deref(), known.as_ref().map(|n| n.as_str()));
    }
    assert_eq!(name_from("x".repeat(65536).as_str()), None);
}

#[test]
fn header_values_are_text_when_they_are_visible() {
    for b in 0u8..=255 {
        let value = HeaderValue::from_bytes(&[b'a', b]).ok();
        assert_eq!(is_field_value(&[b'a', b]), value.is_some(), "{b}");
        let text = value.as_ref().and_then(|value| value.to_str().ok());
        assert_eq!(text_from(&[b'a', b]).as_deref(), text, "{b}");
    }
}

#[test]
fn many_headers_fit() {
    let mut source = HeaderMap::new();
    for i in 0..MAX_HEADER_NAMES {
        let name = HeaderName::from_bytes(format!("x-{i}").as_bytes()).unwrap();
        source.insert(name, HeaderValue::from_static("v"));
    }
    let mut target = HeaderMap::new();
    copy_headers(&source, &mut target, &[]);
    assert_eq!(target.keys_len(), MAX_HEADER_NAMES);
    assert!(fits(&target) && !fits_request(&target));
    assert!(fits_beside(&source, &HeaderMap::new()));
    let mut one = HeaderMap::new();
    one.insert("x", HeaderValue::from_static("v"));
    assert!(!fits_beside(&source, &one) && !fits_beside(&one, &source));
    target.insert("y", HeaderValue::from_static("v"));
    assert!(!fits(&target));
    assert!(fits(&HeaderMap::new()) && fits_request(&HeaderMap::new()));
}

#[test]
fn quoted_header_names_are_passed_on() {
    let name = HeaderName::from_lowercase(b"x-\"quoted\"").unwrap();
    let mut source = HeaderMap::new();
    source.append(name.clone(), HeaderValue::from_static("one"));
    source.append(name.clone(), HeaderValue::from_static("two"));
    source.insert("connection", HeaderValue::from_static("x-\"quoted\""));
    let mut target = HeaderMap::new();
    copy_headers(&source, &mut target, &[]);
    let values: Vec<&HeaderValue> = target.get_all(&name).iter().collect();
    assert_eq!(values, ["one", "two"]);
    assert_eq!(target.keys_len(), 1);
}
