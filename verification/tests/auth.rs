use hyper::header::{HeaderName, HeaderValue};
use hyper::HeaderMap;
use llm_conduit::auth::{authenticate, extract_key, strip_bearer};
use llm_conduit::config::AuthConfig;
use llm_conduit::table::NameTable;

fn auth_config(enabled: bool) -> AuthConfig {
    let mut keys = NameTable::new();
    keys.insert("sk-gateway-0001".to_string(), "frontend".to_string());
    AuthConfig { enabled, keys }
}

fn headers(pairs: &[(&str, &str)]) -> HeaderMap {
    let mut map = HeaderMap::new();
    for (k, v) in pairs {
        map.insert(
            HeaderName::from_bytes(k.as_bytes()).unwrap(),
            HeaderValue::from_str(v).unwrap(),
        );
    }
    map
}

#[test]
fn disabled_auth_skips_validation() {
    let cfg = auth_config(false);
    assert!(authenticate(&cfg, &HeaderMap::new()).unwrap().is_none());
}

#[test]
fn bearer_token_is_accepted_case_insensitively() {
    let cfg = auth_config(true);
    let h = headers(&[("authorization", "bearer sk-gateway-0001")]);
    assert_eq!(authenticate(&cfg, &h).unwrap(), Some("frontend"));
}

#[test]
fn x_api_key_is_accepted() {
    let cfg = auth_config(true);
    let h = headers(&[("x-api-key", "sk-gateway-0001")]);
    assert_eq!(authenticate(&cfg, &h).unwrap(), Some("frontend"));
}

#[test]
fn missing_and_invalid_key_are_rejected() {
    let cfg = auth_config(true);
    assert_eq!(
        authenticate(&cfg, &HeaderMap::new())
            .unwrap_err()
            .status
            .as_u16(),
        401
    );
    let h = headers(&[("authorization", "Bearer sk-wrong")]);
    assert_eq!(authenticate(&cfg, &h).unwrap_err().status.as_u16(), 401);
}

#[test]
fn strip_bearer_handles_edge_cases() {
    assert_eq!(strip_bearer("  Bearer  abc "), "abc");
    assert_eq!(strip_bearer("abc"), "abc");
    assert_eq!(strip_bearer(""), "");
    assert_eq!(strip_bearer("ключ-тест"), "ключ-тест");
}

#[test]
fn bearer_is_stripped_in_any_case() {
    for prefix in ["Bearer ", "BEARER ", "bEaReR "] {
        assert_eq!(strip_bearer(&format!("{prefix}key")), "key");
        assert_eq!(strip_bearer(&format!("{prefix}  a key\t ")), "a key");
    }
    assert_eq!(strip_bearer("Basic key"), "Basic key");
    assert_eq!(strip_bearer("Bearer"), "Bearer");
}

#[test]
fn authorization_is_tried_before_the_api_key() {
    let h = headers(&[("authorization", "Bearer first"), ("x-api-key", "second")]);
    assert_eq!(extract_key(&h).as_deref(), Some("first"));
    let h = headers(&[("authorization", "Bearer "), ("x-api-key", " second ")]);
    assert_eq!(extract_key(&h).as_deref(), Some("Bearer"));
    let h = headers(&[("authorization", "  "), ("x-api-key", " second ")]);
    assert_eq!(extract_key(&h).as_deref(), Some("second"));
    assert_eq!(extract_key(&headers(&[("x-api-key", "  ")])), None);
}

#[test]
fn rejections_name_the_reason() {
    let cfg = auth_config(true);
    assert_eq!(
        authenticate(&cfg, &HeaderMap::new()).unwrap_err().message,
        "missing credentials: provide 'Authorization: Bearer <key>' or 'X-API-Key'"
    );
    let h = headers(&[("x-api-key", "nobody")]);
    assert_eq!(authenticate(&cfg, &h).unwrap_err().message, "invalid API key");
}

#[test]
fn a_key_that_is_not_text_is_no_key() {
    let mut h = HeaderMap::new();
    h.insert("x-api-key", HeaderValue::from_bytes(&[0xff, 0xfe]).unwrap());
    assert_eq!(extract_key(&h), None);
}
