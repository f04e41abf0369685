use llm_conduit::error::{GatewayError, StartupError, StatusCode};

#[test]
fn error_response_has_openai_shape() {
    let resp = GatewayError::not_found("unknown model 'x'").into_response();
    assert_eq!(resp.status, StatusCode(404));
    assert_eq!(
        resp.headers.get(hyper::header::CONTENT_TYPE).unwrap(),
        "application/json"
    );
    let value: serde_json::Value = serde_json::from_slice(&resp.body).unwrap();
    assert_eq!(value["error"]["message"], "unknown model 'x'");
    assert_eq!(value["error"]["type"], "gateway_error");
}

#[test]
fn error_constructors_map_to_expected_status() {
    assert_eq!(GatewayError::unauthorized("").status.as_u16(), 401);
    assert_eq!(GatewayError::bad_request("").status.as_u16(), 400);
    assert_eq!(GatewayError::not_found("").status.as_u16(), 404);
    assert_eq!(GatewayError::payload_too_large("").status.as_u16(), 413);
    assert_eq!(GatewayError::bad_gateway("").status.as_u16(), 502);
    assert_eq!(GatewayError::internal("").status.as_u16(), 500);
}

#[test]
fn error_body_is_exact() {
    let resp = GatewayError::new(StatusCode(418), "say \"hi\"").into_response();
    assert_eq!(
        String::from_utf8(resp.body.clone()).unwrap(),
        r#"{"error":{"message":"say \"hi\"","type":"gateway_error"}}"#
    );
    assert_eq!(
        resp.headers.get("content-length").unwrap(),
        resp.body.len().to_string().as_str()
    );
    assert_eq!(resp.headers.len(), 2);
}

#[test]
fn errors_have_a_text() {
    assert_eq!(GatewayError::bad_gateway("no route").text(), "502 no route");
    assert_eq!(StartupError::from("a").message(), "a");
    assert_eq!(StartupError::from("b".to_string()).message(), "b");
}

#[test]
fn status_classes_have_their_bounds() {
    for (code, success, client, server) in [
        (199, false, false, false),
        (200, true, false, false),
        (299, true, false, false),
        (300, false, false, false),
        (399, false, false, false),
        (400, false, true, false),
        (499, false, true, false),
        (500, false, false, true),
        (599, false, false, true),
        (600, false, false, false),
    ] {
        let status = StatusCode(code);
        assert_eq!(status.is_success(), success, "{code}");
        assert_eq!(status.is_client_error(), client, "{code}");
        assert_eq!(status.is_server_error(), server, "{code}");
    }
}
