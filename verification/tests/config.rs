use compactor::config::{
    configured_setting, parse_bool_value, parse_nonzero_u64_value, parse_nonzero_usize_value, parse_static_headers,
    parse_trusted_proxies, parse_u64, token_file_contents,
};
use compactor::{Config, RedirectEventSinkConfig, RedirectSourceConfig};

fn config(values: &[(&str, &str)]) -> Result<Config, String> {
    let values: Vec<(String, String)> = values
        .iter()
        .map(|(name, value)| ((*name).to_owned(), (*value).to_owned()))
        .collect();
    Config::from_lookup(&values, &[])
}

#[test]
fn defaults_to_file_adapters_and_ignores_inactive_http_settings() {
    let parsed = config(&[
        ("COMPACTOR_HTTP_SOURCE_URL", "not a URL"),
        ("COMPACTOR_HTTP_EVENT_SINK_URL", "also not a URL"),
        ("COMPACTOR_HTTP_CONNECT_TIMEOUT_MS", "0"),
        ("COMPACTOR_HTTP_SOURCE_MAX_RESPONSE_BYTES", "0"),
    ])
    .unwrap();
    assert!(matches!(parsed.source, RedirectSourceConfig::Json { .. }));
    assert!(matches!(parsed.event_sink, RedirectEventSinkConfig::Jsonl { .. }));
    assert!(parsed.http_transport.is_none());
}

#[test]
fn supports_every_adapter_combination() {
    for (source, sink) in [("json", "jsonl"), ("http", "jsonl"), ("json", "http"), ("http", "http")] {
        let parsed = config(&[
            ("COMPACTOR_SOURCE_TYPE", source),
            ("COMPACTOR_EVENT_SINK_TYPE", sink),
            ("COMPACTOR_HTTP_SOURCE_URL", "https://source.example/resolve"),
            ("COMPACTOR_HTTP_EVENT_SINK_URL", "https://sink.example/events"),
        ])
        .unwrap();
        assert_eq!(parsed.http_transport.is_some(), source == "http" || sink == "http");
    }
}

#[test]
fn rejects_selected_adapter_errors_without_exposing_token() {
    let secret = "top-secret";
    let error = config(&[
        ("COMPACTOR_SOURCE_TYPE", "http"),
        ("COMPACTOR_HTTP_SOURCE_URL", "https://source.example/resolve"),
        ("COMPACTOR_HTTP_SOURCE_BEARER_TOKEN", secret),
        ("COMPACTOR_HTTP_SOURCE_BEARER_TOKEN_FILE", "/unused"),
    ])
    .err().unwrap();
    assert!(error.contains("mutually exclusive"));
    assert!(!error.contains(secret));

    let empty = config(&[
        ("COMPACTOR_SOURCE_TYPE", "http"),
        ("COMPACTOR_HTTP_SOURCE_URL", "https://source.example/resolve"),
        ("COMPACTOR_HTTP_SOURCE_BEARER_TOKEN", ""),
    ])
    .err().unwrap();
    assert!(empty.contains("must not be empty"));
}

#[test]
fn validates_proxy_and_positive_limits() {
    assert!(config(&[("COMPACTOR_TRUSTED_PROXIES", "10.0.0.0/33")]).is_err());
    assert!(config(&[("COMPACTOR_REDIRECT_CACHE_MAX_ENTRIES", "0")]).is_err());
    assert!(config(&[("COMPACTOR_REDIRECT_CACHE_TTL_SECONDS", "0")]).is_err());
}

#[test]
fn defaults_fill_every_setting() {
    let parsed = config(&[]).unwrap();
    assert_eq!(parsed.bind_address.port, 8080);
    assert_eq!(parsed.bind_address.ip, compactor::ip::IpAddress::v4(0));
    match &parsed.source {
        RedirectSourceConfig::Json { path } => assert_eq!(path, "./redirects.json"),
        _ => panic!("expected a JSON source"),
    }
    match &parsed.event_sink {
        RedirectEventSinkConfig::Jsonl { path } => assert_eq!(path, "./events.jsonl"),
        _ => panic!("expected a JSONL sink"),
    }
    assert!(parsed.trusted_proxies.is_empty());
    assert!(parsed.record_client_addresses);
    assert_eq!(parsed.max_captured_header_value_bytes, 1024);
    assert_eq!(parsed.max_captured_header_total_bytes, 4096);
    assert_eq!(parsed.redirect_cache_ttl_seconds, 300);
    assert_eq!(parsed.redirect_cache_max_entries, 10000);
}

#[test]
fn setting_errors_name_the_setting() {
    assert_eq!(
        config(&[("COMPACTOR_BIND_ADDRESS", "nowhere")]).err().unwrap(),
        "invalid COMPACTOR_BIND_ADDRESS: invalid socket address syntax"
    );
    assert_eq!(
        config(&[("COMPACTOR_SOURCE_TYPE", "yaml")]).err().unwrap(),
        "COMPACTOR_SOURCE_TYPE must be json or http"
    );
    assert_eq!(
        config(&[("COMPACTOR_EVENT_SINK_TYPE", "kafka")]).err().unwrap(),
        "COMPACTOR_EVENT_SINK_TYPE must be jsonl or http"
    );
    assert_eq!(
        config(&[("COMPACTOR_SOURCE_TYPE", "http")]).err().unwrap(),
        "COMPACTOR_HTTP_SOURCE_URL is required for the selected adapter"
    );
    assert_eq!(
        config(&[("COMPACTOR_RECORD_CLIENT_ADDRESSES", "yes")]).err().unwrap(),
        "COMPACTOR_RECORD_CLIENT_ADDRESSES must be true or false"
    );
    assert_eq!(
        config(&[("COMPACTOR_TRUSTED_PROXIES", "10.0.0.0/33")]).err().unwrap(),
        "invalid trusted proxy IP or CIDR \"10.0.0.0/33\""
    );
    assert_eq!(
        config(&[
            ("COMPACTOR_EVENT_SINK_TYPE", "http"),
            ("COMPACTOR_HTTP_EVENT_SINK_URL", "ftp://sink.example/"),
        ])
        .err().unwrap(),
        "invalid EVENT_SINK HTTP configuration: HTTP endpoint URL scheme must be http or https"
    );
    assert_eq!(
        config(&[
            ("COMPACTOR_EVENT_SINK_TYPE", "http"),
            ("COMPACTOR_HTTP_EVENT_SINK_URL", "https://sink.example/"),
            ("COMPACTOR_HTTP_EVENT_SINK_STATIC_HEADERS_JSON", "[1]"),
        ])
        .err().unwrap(),
        "COMPACTOR_HTTP_EVENT_SINK_STATIC_HEADERS_JSON must be a JSON object with string values"
    );
}

#[test]
fn http_settings_build_endpoints() {
    let parsed = config(&[
        ("COMPACTOR_SOURCE_TYPE", "http"),
        ("COMPACTOR_HTTP_SOURCE_URL", "https://source.example:8443/resolve?scope=published"),
        ("COMPACTOR_HTTP_SOURCE_REQUEST_TIMEOUT_MS", "250"),
        ("COMPACTOR_HTTP_SOURCE_BEARER_TOKEN", "secret"),
        ("COMPACTOR_HTTP_SOURCE_STATIC_HEADERS_JSON", r#"{"X-Tenant":"acme"}"#),
        ("COMPACTOR_HTTP_SOURCE_MAX_RESPONSE_BYTES", "+2048"),
        ("COMPACTOR_HTTP_CONNECT_TIMEOUT_MS", "750"),
    ])
    .unwrap();
    assert_eq!(parsed.http_transport.unwrap().connect_timeout_ms, 750);
    match &parsed.source {
        RedirectSourceConfig::Http { endpoint, max_response_bytes } => {
            assert_eq!(*max_response_bytes, 2048);
            assert_eq!(endpoint.request_timeout_ms(), 250);
            assert_eq!(endpoint.authorization(), Some("Bearer secret"));
            assert_eq!(endpoint.static_headers().to_vec(), vec![("x-tenant".to_owned(), "acme".to_owned())]);
            assert_eq!(endpoint.endpoint_origin(), "https://source.example:8443");
            assert!(!endpoint.uses_plaintext_http());
        },
        _ => panic!("expected an HTTP source"),
    }
}

#[test]
fn token_files_give_the_token_without_one_line_ending() {
    let values = vec![
        ("COMPACTOR_EVENT_SINK_TYPE".to_owned(), "http".to_owned()),
        ("COMPACTOR_HTTP_EVENT_SINK_URL".to_owned(), "https://sink.example/events".to_owned()),
        ("COMPACTOR_HTTP_EVENT_SINK_BEARER_TOKEN_FILE".to_owned(), "/run/token".to_owned()),
    ];
    let files = vec![("/run/token".to_owned(), Ok("secret\r\n".to_owned()))];
    let parsed = Config::from_lookup(&values, &files).unwrap();
    match &parsed.event_sink {
        RedirectEventSinkConfig::Http { endpoint } => assert_eq!(endpoint.authorization(), Some("Bearer secret")),
        _ => panic!("expected an HTTP sink"),
    }
    let unreadable = vec![("/run/token".to_owned(), Err("permission denied".to_owned()))];
    assert_eq!(
        Config::from_lookup(&values, &unreadable).err().unwrap(),
        "could not read COMPACTOR_HTTP_EVENT_SINK_BEARER_TOKEN_FILE: permission denied"
    );
    let blank = vec![("/run/token".to_owned(), Ok("\n".to_owned()))];
    assert_eq!(
        Config::from_lookup(&values, &blank).err().unwrap(),
        "COMPACTOR_HTTP_EVENT_SINK_BEARER_TOKEN_FILE must not contain an empty token"
    );
}

#[test]
fn token_file_contents_drop_exactly_one_line_ending() {
    assert_eq!(token_file_contents("secret\r\n", "T").unwrap(), "secret");
    assert_eq!(token_file_contents("secret\n\n", "T").unwrap(), "secret\n");
    assert_eq!(token_file_contents("secret", "T").unwrap(), "secret");
    assert_eq!(token_file_contents("\r\n", "T").err().unwrap(), "T must not contain an empty token");
}

#[test]
fn numbers_parse_like_the_standard_library() {
    assert_eq!(parse_u64("42"), Some(42));
    assert_eq!(parse_u64("+7"), Some(7));
    assert_eq!(parse_u64("007"), Some(7));
    assert_eq!(parse_u64("18446744073709551615"), Some(u64::MAX));
    assert_eq!(parse_u64("18446744073709551616"), None);
    assert_eq!(parse_u64(""), None);
    assert_eq!(parse_u64("+"), None);
    assert_eq!(parse_u64("-1"), None);
    assert_eq!(parse_u64(" 1"), None);
    assert_eq!(parse_u64("1x"), None);
    assert_eq!(parse_nonzero_u64_value("N", "0").err().unwrap(), "N must be greater than zero");
    assert_eq!(parse_nonzero_u64_value("N", "x").err().unwrap(), "N must be a positive integer");
    assert_eq!(parse_nonzero_usize_value("N", "12").unwrap(), 12);
    assert_eq!(parse_nonzero_usize_value("N", "0").err().unwrap(), "N must be greater than zero");
}

#[test]
fn simple_settings_parse() {
    assert!(parse_bool_value("B", "true").unwrap());
    assert!(!parse_bool_value("B", "false").unwrap());
    assert_eq!(parse_bool_value("B", "True").err().unwrap(), "B must be true or false");
    assert_eq!(configured_setting("\0".to_owned()), None);
    assert_eq!(configured_setting("x".to_owned()), Some("x".to_owned()));
    assert_eq!(
        parse_static_headers("H", r#"{"b":"2","a":"1"}"#).unwrap(),
        vec![("a".to_owned(), "1".to_owned()), ("b".to_owned(), "2".to_owned())]
    );
    assert_eq!(
        parse_static_headers("H", r#"{"a":1}"#).err().unwrap(),
        "H must be a JSON object with string values"
    );
    let proxies = parse_trusted_proxies(" 10.0.0.0/8 , ,192.0.2.1").unwrap();
    assert_eq!(proxies.len(), 2);
    assert_eq!(proxies[1].prefix_len, 32);
    assert_eq!(proxies[0].prefix_len, 8);
    assert!(parse_trusted_proxies("").unwrap().is_empty());
}

#[test]
fn token_files_trim_exactly_one_line_ending() {
    let path = "/run/secrets/token";
    let values: Vec<(String, String)> = [
        ("COMPACTOR_EVENT_SINK_TYPE", "http"),
        ("COMPACTOR_HTTP_EVENT_SINK_URL", "https://sink.example/events"),
        ("COMPACTOR_HTTP_EVENT_SINK_BEARER_TOKEN_FILE", path),
    ]
    .iter()
    .map(|(name, value)| ((*name).to_owned(), (*value).to_owned()))
    .collect();
    let files = vec![(path.to_owned(), Ok("secret\r\n".to_owned()))];
    let parsed = Config::from_lookup(&values, &files).unwrap();
    let RedirectEventSinkConfig::Http { endpoint } = parsed.event_sink else {
        panic!("expected HTTP sink")
    };
    assert!(endpoint.describe().contains("[redacted]"));
    assert!(!endpoint.describe().contains("secret"));
    assert_eq!(endpoint.authorization(), Some("Bearer secret"));
}
