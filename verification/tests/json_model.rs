use llm_conduit::json_model::{extract_model, try_rewrite_model};

const CHAT_BODY: &str = r#"{
        "model": "llama-3.1-8b-instruct",
        "messages": [{"role": "user", "content": "Hello!"}, {"role": "assistant", "content": "Hi!"}],
        "temperature": 0.7,
        "stream": true
    }"#;

#[test]
fn extracts_model_from_standard_body() {
    assert_eq!(
        extract_model(CHAT_BODY.as_bytes()).as_deref(),
        Some("llama-3.1-8b-instruct")
    );
}

#[test]
fn extraction_is_order_independent() {
    let body = br#"{"messages":[{"role":"user","content":"hi"}],"model":"mistral-7b-instruct","stream":false}"#;
    assert_eq!(extract_model(body).as_deref(), Some("mistral-7b-instruct"));
}

#[test]
fn returns_none_for_unusable_bodies() {
    assert!(extract_model(b"").is_none());
    assert!(extract_model(b"not json").is_none());
    assert!(extract_model(b"[1,2,3]").is_none());
    assert!(extract_model(br#"{"messages":[]}"#).is_none());
    assert!(extract_model(br#"{"model":""}"#).is_none());
    assert!(extract_model(br#"{"model":123}"#).is_none());
}

#[test]
fn skips_large_nested_fields() {
    let big = "x".repeat(2_000_000);
    let body = format!(r#"{{"messages":[{{"role":"user","content":"{big}"}}],"model":"m1"}}"#);
    assert_eq!(extract_model(body.as_bytes()).as_deref(), Some("m1"));
}

#[test]
fn rewrites_model_when_different() {
    let rewritten =
        try_rewrite_model(CHAT_BODY.as_bytes(), "meta-llama/Llama-3.1-8B-Instruct").unwrap();
    let value: serde_json::Value = serde_json::from_slice(&rewritten).unwrap();
    assert_eq!(value["model"], "meta-llama/Llama-3.1-8B-Instruct");
    // Other fields must be preserved as-is
    assert_eq!(value["messages"][0]["content"], "Hello!");
    assert_eq!(value["stream"], true);
    assert_eq!(
        extract_model(&rewritten).as_deref(),
        Some("meta-llama/Llama-3.1-8B-Instruct")
    );
}

#[test]
fn skips_rewrite_when_already_equal_or_unusable() {
    assert!(try_rewrite_model(CHAT_BODY.as_bytes(), "llama-3.1-8b-instruct").is_none());
    assert!(try_rewrite_model(b"not json", "m").is_none());
    assert!(try_rewrite_model(br#"{"messages":[]}"#, "m").is_none());
    assert!(try_rewrite_model(b"[]", "m").is_none());
}

#[test]
fn the_last_usable_model_counts() {
    assert_eq!(
        extract_model(br#"{"model":"a","model":"b"}"#).as_deref(),
        Some("b")
    );
    assert_eq!(
        extract_model(br#"{"model":"a","model":7}"#).as_deref(),
        Some("a")
    );
    assert_eq!(
        extract_model(br#"{"model":"a","model":""}"#).as_deref(),
        Some("a")
    );
}

#[test]
fn a_nested_model_does_not_count() {
    assert!(extract_model(br#"{"inner":{"model":"a"}}"#).is_none());
}

#[test]
fn malformed_objects_name_no_model() {
    for body in [
        r#"{"model":"a""#,
        r#"{"model":"a",}"#,
        r#"{"model" "a"}"#,
        r#"{"model":"a"} x"#,
        r#"{model:"a"}"#,
        r#"{"model":"a" "b":1}"#,
        r#"{,"model":"a"}"#,
        r#"{"model":"a","b":tru}"#,
        r#"{"model":"a","b":01}"#,
        r#"null"#,
        r#""model""#,
    ] {
        assert!(extract_model(body.as_bytes()).is_none(), "{body}");
    }
}

#[test]
fn blanks_and_escapes_are_read() {
    let body = b" \t\r\n{ \"mo\\u0064el\" : \"a\\nb\" } \n";
    assert_eq!(extract_model(body).as_deref(), Some("a\nb"));
}

#[test]
fn rewriting_writes_compact_text_in_name_order() {
    let body = br#"{ "z": [1, -2, 0.5, null, true], "model": 3, "a": {"d": "q\"", "c": {}} }"#;
    let rewritten = try_rewrite_model(body, "x\"y").unwrap();
    assert_eq!(
        String::from_utf8(rewritten).unwrap(),
        r#"{"a":{"c":{},"d":"q\""},"model":"x\"y","z":[1,-2,0.5,null,true]}"#
    );
}

#[test]
fn a_rewritten_body_names_the_new_model() {
    for model in ["m", "ü/ñ 漢", "\"quoted\\\" \u{1}"] {
        let rewritten = try_rewrite_model(br#"{"model":"old","n":2}"#, model).unwrap();
        assert_eq!(extract_model(&rewritten).as_deref(), Some(model));
        assert!(try_rewrite_model(&rewritten, model).is_none());
    }
    let rewritten = try_rewrite_model(br#"{"x":0.1,"model":[]}"#, "").unwrap();
    assert_eq!(rewritten, br#"{"model":"","x":0.1}"#);
    assert!(try_rewrite_model(&rewritten, "").is_none());
}

#[test]
fn values_are_read_up_to_the_nesting_limit() {
    let body = |levels: usize| {
        let value = format!("{}{}", "[".repeat(levels), "]".repeat(levels));
        format!(r#"{{"model":"a","model":{value}}}"#)
    };
    assert_eq!(extract_model(body(126).as_bytes()).as_deref(), Some("a"));
    assert_eq!(extract_model(body(127).as_bytes()), None);
    assert_eq!(extract_model(body(128).as_bytes()), None);
    // The same limit holds for a document as a whole.
    assert!(try_rewrite_model(body(126).as_bytes(), "b").is_some());
    assert!(try_rewrite_model(body(127).as_bytes(), "b").is_none());
    // Fields that nobody asks for are skipped at any depth.
    let skipped = format!(r#"{{"x":{}{},"model":"a"}}"#, "[".repeat(5000), "]".repeat(5000));
    assert_eq!(extract_model(skipped.as_bytes()).as_deref(), Some("a"));
}

#[test]
fn strings_are_written_with_escapes() {
    let model = "\u{0}\u{1}\u{8}\t\n\u{b}\u{c}\r\u{1f} \"\\/\u{7f}é漢\u{1f600}";
    let rewritten = try_rewrite_model(br#"{"model":null}"#, model).unwrap();
    assert_eq!(
        String::from_utf8(rewritten).unwrap(),
        format!(
            "{{\"model\":\"{}\"}}",
            "\\u0000\\u0001\\b\\t\\n\\u000b\\f\\r\\u001f \\\"\\\\/\u{7f}é漢\u{1f600}"
        )
    );
}
