use llm_conduit::address::parse_address;
use llm_conduit::config::{
    default_health_interval_secs, default_health_timeout_secs, default_max_body_bytes, default_true,
    parse_base_url, AuthConfig, Config, HealthConfig, HealthMode, ServerConfig, Upstream,
    UpstreamConfig, DEFAULT_MAX_BODY_BYTES,
};
use llm_conduit::table::NameTable;
use llm_conduit::uri::Uri;

const SAMPLE: &str = r#"
[server]
listen = "0.0.0.0:4000"
default_upstream = "llama-3.1-8b-instruct"
max_body_bytes = 1000

[auth]
enabled = true
keys = { "sk-gateway-0001" = "frontend", "sk-gateway-0002" = "backend" }

[upstreams."llama-3.1-8b-instruct"]
base_url = "http://127.0.0.1:8000"
api_key = "upstream-key-0001"
upstream_model = "meta-llama/Llama-3.1-8B-Instruct"

[upstreams.mistral-7b-instruct]
base_url = "https://127.0.0.1:8001/"
insecure_skip_verify = true
"#;

fn text(table: &toml::Table, key: &str) -> Option<String> {
    table.get(key).map(|value| value.as_str().unwrap().to_string())
}

fn number(table: &toml::Table, key: &str) -> Option<u64> {
    table.get(key).map(|value| value.as_integer().unwrap() as u64)
}

fn flag(table: &toml::Table, key: &str) -> Option<bool> {
    table.get(key).map(|value| value.as_bool().unwrap())
}

/// Reads the settings of a config text and validates them.
fn parse(source: &str) -> Result<Config, String> {
    let root: toml::Table = source.parse::<toml::Table>().map_err(|e| e.to_string())?;
    let server = root["server"].as_table().unwrap();
    let health = match server.get("health") {
        Some(section) => {
            let section = section.as_table().unwrap();
            HealthConfig {
                enabled: flag(section, "enabled").unwrap_or_else(default_true),
                interval_secs: number(section, "interval_secs")
                    .unwrap_or_else(default_health_interval_secs),
                timeout_secs: number(section, "timeout_secs")
                    .unwrap_or_else(default_health_timeout_secs),
                mode: match text(section, "mode") {
                    Some(name) => {
                        HealthMode::from_name(&name).ok_or("unknown mode".to_string())?
                    }
                    None => HealthMode::default(),
                },
            }
        }
        None => HealthConfig::default(),
    };
    let mut auth = AuthConfig::default();
    if let Some(section) = root.get("auth") {
        let section = section.as_table().unwrap();
        auth.enabled = flag(section, "enabled").unwrap_or(false);
        if let Some(keys) = section.get("keys") {
            for (key, caller) in keys.as_table().unwrap() {
                auth.keys.insert(key.clone(), caller.as_str().unwrap().to_string());
            }
        }
    }
    let mut upstreams = NameTable::new();
    for (name, section) in root["upstreams"].as_table().unwrap() {
        let section = section.as_table().unwrap();
        upstreams.insert(
            name.clone(),
            UpstreamConfig {
                base_url: text(section, "base_url").unwrap(),
                api_key: text(section, "api_key"),
                upstream_model: text(section, "upstream_model"),
                insecure_skip_verify: flag(section, "insecure_skip_verify").unwrap_or(false),
            },
        );
    }
    let config = Config {
        server: ServerConfig {
            listen: text(server, "listen").unwrap(),
            default_upstream: text(server, "default_upstream"),
            max_body_bytes: number(server, "max_body_bytes").unwrap_or_else(default_max_body_bytes),
            tls: None,
            health,
        },
        auth,
        upstreams,
    };
    config.validate().map_err(|error| error.0)?;
    Ok(config)
}

fn resolve(source: &str) -> NameTable<Upstream> {
    parse(source).unwrap().resolve_upstreams().unwrap()
}

fn upstream(base_url: &str) -> Upstream {
    resolve(&format!(
        "[server]\nlisten = \"0.0.0.0:4000\"\n[upstreams.a]\nbase_url = \"{base_url}\"\n"
    ))
    .get("a")
    .unwrap()
    .clone()
}

#[test]
fn parses_and_resolves_upstreams() {
    let cfg = parse(SAMPLE).unwrap();
    assert_eq!(cfg.server.max_body_bytes, 1000);
    assert_eq!(cfg.socket_addr().unwrap().port, 4000);
    assert_eq!(cfg.auth.keys.get("sk-gateway-0001").unwrap(), "frontend");

    let upstreams = cfg.resolve_upstreams().unwrap();
    let primary = upstreams.get("llama-3.1-8b-instruct").unwrap();
    assert_eq!(primary.path_prefix, "");
    assert_eq!(primary.api_key.as_deref(), Some("upstream-key-0001"));
    assert_eq!(
        primary.upstream_model.as_deref(),
        Some("meta-llama/Llama-3.1-8B-Instruct")
    );

    let secondary = upstreams.get("mistral-7b-instruct").unwrap();
    assert_eq!(secondary.path_prefix, "");
    assert!(secondary.insecure_skip_verify);
}

#[test]
fn max_body_bytes_defaults_to_200mb() {
    let text = r#"
[server]
listen = "0.0.0.0:4000"
[upstreams.a]
base_url = "http://127.0.0.1:8000"
"#;
    let cfg = parse(text).unwrap();
    assert_eq!(cfg.server.max_body_bytes, DEFAULT_MAX_BODY_BYTES);
    assert!(!cfg.auth.enabled);
}

#[test]
fn rejects_bad_configs() {
    let cases = [
        // no upstreams at all
        r#"[server]
listen = "0.0.0.0:4000"
[upstreams]"#,
        // invalid listen address
        r#"[server]
listen = "not-an-address"
[upstreams.a]
base_url = "http://127.0.0.1:8000""#,
        // invalid scheme
        r#"[server]
listen = "0.0.0.0:4000"
[upstreams.a]
base_url = "ftp://127.0.0.1:8000""#,
        // default_upstream does not exist
        r#"[server]
listen = "0.0.0.0:4000"
default_upstream = "ghost"
[upstreams.a]
base_url = "http://127.0.0.1:8000""#,
        // auth enabled but keys empty
        r#"[server]
listen = "0.0.0.0:4000"
[auth]
enabled = true
[upstreams.a]
base_url = "http://127.0.0.1:8000""#,
    ];
    for text in cases {
        assert!(
            parse(text).is_err(),
            "this config should be rejected:\n{text}"
        );
    }
}

#[test]
fn target_uri_keeps_path_query_and_prefix() {
    let upstreams = resolve(
        r#"
[server]
listen = "0.0.0.0:4000"
[upstreams.a]
base_url = "http://127.0.0.1:8000/vllm/"
"#,
    );
    let upstream = upstreams.get("a").unwrap();
    assert_eq!(upstream.path_prefix, "/vllm");

    let req = Uri::parse("/v1/chat/completions?x=1").unwrap();
    let target = upstream.target_uri(&req).unwrap();
    assert_eq!(
        target.text(),
        "http://127.0.0.1:8000/vllm/v1/chat/completions?x=1"
    );
}

#[test]
fn health_defaults_are_enabled_models_with_ten_second_interval() {
    let text = r#"
[server]
listen = "0.0.0.0:4000"
[upstreams.a]
base_url = "http://127.0.0.1:8000"
"#;
    let cfg = parse(text).unwrap();
    assert!(cfg.server.health.enabled);
    assert_eq!(cfg.server.health.interval_secs, 10);
    assert_eq!(cfg.server.health.timeout_secs, 2);
    assert_eq!(cfg.server.health.mode, HealthMode::Models);
}

#[test]
fn health_section_is_configurable() {
    let text = r#"
[server]
listen = "0.0.0.0:4000"
[server.health]
enabled = false
interval_secs = 30
timeout_secs = 5
mode = "tcp"
[upstreams.a]
base_url = "https://127.0.0.1:8000"
"#;
    let cfg = parse(text).unwrap();
    assert!(!cfg.server.health.enabled);
    assert_eq!(cfg.server.health.interval_secs, 30);
    assert_eq!(cfg.server.health.timeout_secs, 5);
    assert_eq!(cfg.server.health.mode, HealthMode::Tcp);
    assert!(cfg.resolve_upstreams().unwrap().get("a").unwrap().uses_tls());
}

#[test]
fn rejects_bad_health_settings() {
    for override_line in ["interval_secs = 0", "timeout_secs = 0", "mode = \"ping\""] {
        let text = format!(
            r#"
[server]
listen = "0.0.0.0:4000"
[server.health]
{override_line}
[upstreams.a]
base_url = "http://127.0.0.1:8000"
"#
        );
        assert!(
            parse(&text).is_err(),
            "{override_line} should be rejected"
        );
    }
}

fn error_of(change: impl Fn(&mut Config)) -> Option<String> {
    let mut config = parse(SAMPLE).unwrap();
    change(&mut config);
    config.validate().err().map(|error| error.0)
}

fn with_upstream(name: &str, change: impl Fn(&mut UpstreamConfig)) -> Option<String> {
    error_of(|config| {
        let mut upstream = UpstreamConfig {
            base_url: "http://127.0.0.1:8000".to_string(),
            api_key: None,
            upstream_model: None,
            insecure_skip_verify: false,
        };
        change(&mut upstream);
        config.upstreams.insert(name.to_string(), upstream);
    })
}

#[test]
fn every_broken_rule_has_its_message() {
    let is = |message: &str| Some(message.to_string());
    assert_eq!(error_of(|_| {}), None);
    assert_eq!(
        error_of(|c| c.server.listen = " ".to_string()),
        is("server.listen must not be empty")
    );
    assert_eq!(
        error_of(|c| c.server.listen = "localhost:1".to_string()),
        is("server.listen = \"localhost:1\" is not a valid <IP>:<port>")
    );
    assert_eq!(
        error_of(|c| c.server.max_body_bytes = 0),
        is("server.max_body_bytes must be greater than 0")
    );
    assert_eq!(
        error_of(|c| c.server.health.interval_secs = 0),
        is("server.health.interval_secs must be greater than 0")
    );
    assert_eq!(
        error_of(|c| c.server.health.timeout_secs = 0),
        is("server.health.timeout_secs must be greater than 0")
    );
    assert_eq!(
        error_of(|c| {
            c.server.health.enabled = false;
            c.server.health.interval_secs = 0;
            c.server.health.timeout_secs = 0;
        }),
        None
    );
    assert_eq!(
        error_of(|c| c.upstreams = NameTable::new()),
        is("at least one [upstreams.<name>] upstream must be configured")
    );
    assert_eq!(
        error_of(|c| c.auth.keys = NameTable::new()),
        is("auth.enabled = true but auth.keys is empty: every request would be rejected")
    );
    assert_eq!(
        error_of(|c| c.server.default_upstream = Some("ghost".to_string())),
        is("server.default_upstream = \"ghost\" is not defined in [upstreams]")
    );
    assert_eq!(
        with_upstream(" ", |_| {}),
        is("upstream name must not be empty")
    );
    assert_eq!(
        with_upstream("a", |u| u.api_key = Some(" ".to_string())),
        is("upstream 'a': api_key must not be an empty string")
    );
    assert_eq!(
        with_upstream("a", |u| u.upstream_model = Some("".to_string())),
        is("upstream 'a': upstream_model must not be an empty string")
    );
}

#[test]
fn every_base_url_error_has_its_message() {
    let error = |url: &str| parse_base_url("a", url).unwrap_err().0;
    assert_eq!(
        error("ftp://host"),
        "upstream 'a': base_url must use http:// or https:// (current scheme: ftp)"
    );
    assert_eq!(
        error("/only/a/path"),
        "upstream 'a': base_url must use http:// or https:// (current scheme: none)"
    );
    assert_eq!(
        error("http://host/?q=1"),
        "upstream 'a': base_url must not contain a query (put the path prefix in the path)"
    );
    assert_eq!(
        error("http://ho st"),
        "upstream 'a': base_url \"http://ho st\" is not a valid URI: invalid uri character"
    );
    let (uri, prefix) = parse_base_url("a", "https://host:81/x/y//").unwrap();
    assert_eq!(prefix, "/x/y");
    assert_eq!(uri.scheme.as_deref(), Some("https"));
    assert_eq!(uri.authority.as_deref(), Some("host:81"));
    assert_eq!(uri.host.as_deref(), Some("host"));
    assert_eq!(uri.port, Some(81));
    assert_eq!(uri.path, "/");
    assert_eq!(uri.query, None);
}

#[test]
fn the_base_is_the_root_address() {
    let (base, prefix) = parse_base_url("a", "http://127.0.0.1:8000/vllm/").unwrap();
    assert_eq!(prefix, "/vllm");
    assert_eq!(base.scheme.as_deref(), Some("http"));
    assert_eq!(base.authority.as_deref(), Some("127.0.0.1:8000"));
    assert_eq!(base.path, "/");
    assert_eq!(base.text(), "http://127.0.0.1:8000/");
}

#[test]
fn the_first_bad_upstream_is_named() {
    let mut config = parse(SAMPLE).unwrap();
    for name in ["zz", "bb"] {
        config.upstreams.insert(
            name.to_string(),
            UpstreamConfig {
                base_url: "gopher://x".to_string(),
                api_key: None,
                upstream_model: None,
                insecure_skip_verify: false,
            },
        );
    }
    let expected = "upstream 'bb': base_url must use http:// or https:// (current scheme: gopher)";
    assert_eq!(config.validate().unwrap_err().0, expected);
    assert_eq!(config.resolve_upstreams().unwrap_err().0, expected);
}

#[test]
fn target_uris_are_built_from_every_part() {
    let target = |base: &str, request: &str| {
        upstream(base)
            .target_uri(&Uri::parse(request).unwrap())
            .unwrap()
            .text()
    };
    assert_eq!(target("https://h:1", "/a"), "https://h:1/a");
    assert_eq!(target("https://h:1/p", "/a?b=c?d"), "https://h:1/p/a?b=c?d");
    assert_eq!(target("http://h", "http://client/a/b?"), "http://h/a/b?");
    assert_eq!(target("http://h", "client:1"), "http://h/");
}

#[test]
fn an_upstream_without_a_host_has_no_target() {
    let mut broken = upstream("http://h");
    broken.base.authority = None;
    let error = broken.target_uri(&Uri::parse("/a").unwrap()).unwrap_err();
    assert_eq!(error.text(), "500 upstream base_url has no host");

    let mut broken = upstream("http://h");
    broken.path_prefix = "no-slash".to_string();
    let error = broken.target_uri(&Uri::parse("/a").unwrap()).unwrap_err();
    assert_eq!(error.status.as_u16(), 500);
    assert!(error.message.starts_with("failed to build upstream URL: "));
}

#[test]
fn listen_addresses_are_read() {
    for (text, host, port) in [
        ("0.0.0.0:4000", "0.0.0.0", 4000),
        ("255.1.20.9:0", "255.1.20.9", 0),
        ("127.0.0.1:00080", "127.0.0.1", 80),
        ("1.2.3.4:65535", "1.2.3.4", 65535),
        ("[::]:1", "[::]", 1),
        ("[::1]:8080", "[::1]", 8080),
        ("[1:2:3:4:5:6:7:8]:1", "[1:2:3:4:5:6:7:8]", 1),
        ("[fe80::ABCD%7]:1", "[fe80::ABCD%7]", 1),
        ("[::ffff:1.2.3.4]:1", "[::ffff:1.2.3.4]", 1),
        ("[1:2:3:4:5:6:1.2.3.4]:1", "[1:2:3:4:5:6:1.2.3.4]", 1),
        ("[1:2:3:4:5:6:7::]:1", "[1:2:3:4:5:6:7::]", 1),
    ] {
        let address = parse_address(text).unwrap();
        assert_eq!(address.host, host);
        assert_eq!(address.port, port);
    }
}

#[test]
fn other_texts_are_no_listen_addresses() {
    for text in [
        "",
        ":",
        "0.0.0.0",
        "0.0.0.0:",
        "0.0.0.0:65536",
        "0.0.0.0:1x",
        "0.0.0.0:-1",
        " 0.0.0.0:1",
        "0.0.0.0:1 ",
        "256.0.0.1:1",
        "01.0.0.1:1",
        "1.2.3:1",
        "1.2.3.4.5:1",
        "1..2.3:1",
        "localhost:1",
        "::1:80",
        "[::1]",
        "[::1]80",
        "[]:1",
        "[:::]:1",
        "[1:2:3:4:5:6:7]:1",
        "[1:2:3:4:5:6:7:8:9]:1",
        "[1:2:3:4:5:6:7:8::]:1",
        "[1::2::3]:1",
        "[12345::]:1",
        "[g::]:1",
        "[1.2.3.4::]:1",
        "[1:2:3:4:5:6:7:1.2.3.4]:1",
        "[1:2:3:4:5:6::1.2.3.4]:1",
        "[::1%]:1",
        "[::1%4294967296]:1",
    ] {
        assert!(parse_address(text).is_none(), "{text}");
    }
}

#[test]
fn tables_are_in_alphabetical_order() {
    let mut table: NameTable<u64> = NameTable::new();
    for (name, value) in [("b", 1), ("a", 2), ("ä", 3), ("b", 4), ("ab", 5), ("", 6)] {
        table.insert(name.to_string(), value);
    }
    assert_eq!(table.len(), 5);
    assert_eq!(table.get("b"), Some(&4));
    assert_eq!(table.get("c"), None);
    assert!(table.contains_key("") && !table.is_empty());
    let names: Vec<&str> = (0..table.len()).map(|i| table.name_at(i)).collect();
    assert_eq!(names, ["", "a", "ab", "b", "ä"]);
    assert_eq!(*table.value_at(2), 5);
}
