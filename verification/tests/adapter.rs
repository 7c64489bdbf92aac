use compactor::adapter::{
    definition_from_response, millis_debug, sink_status_outcome, sink_transport_error, source_status_outcome,
    source_transport_error, validate_content_headers, validate_reserved_headers,
};
use compactor::headers::HeaderList;
use compactor::source::RawRedirect;
use compactor::{CanonicalUrl, HttpEndpointConfig, HttpRedirectEventSink, HttpRedirectSource, HttpTransportConfig};

fn pairs(values: &[(&str, &str)]) -> Vec<(String, String)> {
    values
        .iter()
        .map(|(name, value)| ((*name).to_owned(), (*value).to_owned()))
        .collect()
}

fn endpoint(url: &str, headers: &[(&str, &str)], token: Option<&str>) -> Result<HttpEndpointConfig, String> {
    HttpEndpointConfig::new(url, 100, pairs(headers), token.map(str::to_owned)).map_err(|e| e.message().to_owned())
}

fn content(values: &[(&str, &str)]) -> HeaderList {
    let mut headers = HeaderList::new();
    for (name, value) in values {
        headers.append(name, value.as_bytes().to_vec());
    }
    headers
}

#[test]
fn endpoint_validation_rejects_unsafe_urls() {
    assert_eq!(endpoint("ftp://example.com", &[], None).err().unwrap(), "HTTP endpoint URL scheme must be http or https");
    assert_eq!(
        endpoint("https://user@example.com", &[], None).err().unwrap(),
        "HTTP endpoint URL must not contain user information"
    );
    assert_eq!(
        endpoint("https://example.com/#fragment", &[], None).err().unwrap(),
        "HTTP endpoint URL must not contain a fragment"
    );
    assert_eq!(endpoint("not a url", &[], None).err().unwrap(), "HTTP endpoint URL is invalid");
    assert_eq!(
        HttpEndpointConfig::new("https://example.com", 0, Vec::new(), None).err().unwrap().message(),
        "HTTP request timeout must be greater than zero"
    );
}

#[test]
fn endpoint_validation_checks_headers_and_tokens() {
    assert_eq!(
        endpoint("https://example.com", &[("bad name", "x")], None).err().unwrap(),
        "HTTP static header name is invalid"
    );
    assert_eq!(
        endpoint("https://example.com", &[("X-A", "a\nb")], None).err().unwrap(),
        "value for HTTP static header x-a is invalid"
    );
    assert_eq!(
        endpoint("https://example.com", &[], Some("")).err().unwrap(),
        "HTTP bearer token must not be empty"
    );
    assert_eq!(
        endpoint("https://example.com", &[], Some("bad\ntoken")).err().unwrap(),
        "HTTP bearer token contains invalid characters"
    );
    assert_eq!(
        endpoint("https://example.com", &[("Authorization", "custom")], Some("secret")).err().unwrap(),
        "HTTP static Authorization header conflicts with bearer authentication"
    );
    let config = endpoint("http://example.com/events", &[("X-A", "1"), ("x-a", "2"), ("X-B", "3")], Some("secret")).unwrap();
    assert_eq!(config.static_headers().to_vec(), pairs(&[("x-a", "2"), ("x-b", "3")]));
    assert_eq!(config.authorization(), Some("Bearer secret"));
    assert!(config.uses_plaintext_http());
    assert_eq!(config.endpoint_origin(), "http://example.com");
    assert_eq!(config.url().as_str(), "http://example.com/events");
}

#[test]
fn transport_requires_a_positive_connect_timeout() {
    assert_eq!(
        HttpTransportConfig::new(0).unwrap_err().message(),
        "HTTP connect timeout must be greater than zero"
    );
    assert_eq!(HttpTransportConfig::new(500).unwrap().connect_timeout_ms, 500);
}

#[test]
fn reserved_headers_are_refused_in_order() {
    let headers = pairs(&[("accept", "x"), ("te", "trailers")]);
    assert_eq!(
        validate_reserved_headers(&headers, &["accept"]).unwrap_err().message(),
        "HTTP static header te is controlled by Compactor"
    );
    assert_eq!(
        validate_reserved_headers(&pairs(&[("accept", "x")]), &["user-agent", "accept"]).unwrap_err().message(),
        "HTTP static header accept is controlled by Compactor"
    );
    assert!(validate_reserved_headers(&pairs(&[("x-tenant", "acme")]), &["accept"]).is_ok());
}

#[test]
fn source_adapter_refuses_owned_headers_and_url_parameters() {
    let ok = endpoint("https://example.com/resolve?url=one&url=two", &[], None).unwrap();
    assert_eq!(
        HttpRedirectSource::new(ok, 100).err().unwrap().message(),
        "HTTP source endpoint must not contain a url query parameter"
    );
    let accept = endpoint("https://example.com", &[("Accept", "text/plain")], None).unwrap();
    assert_eq!(
        HttpRedirectSource::new(accept, 100).err().unwrap().message(),
        "HTTP static header accept is controlled by Compactor"
    );
    let zero = endpoint("https://example.com", &[], None).unwrap();
    assert_eq!(
        HttpRedirectSource::new(zero, 0).err().unwrap().message(),
        "HTTP source response limit must be greater than zero"
    );
    let sink = endpoint("https://example.com", &[("Content-Type", "text/plain")], None).unwrap();
    assert_eq!(
        HttpRedirectEventSink::new(sink).err().unwrap().message(),
        "HTTP static header content-type is controlled by Compactor"
    );
}

#[test]
fn source_requests_carry_the_canonical_url_after_fixed_parameters() {
    let config = endpoint("https://source.example/resolve?scope=published", &[("X-Tenant", "acme")], Some("secret")).unwrap();
    let source = HttpRedirectSource::new(config, 65536).unwrap();
    let key = CanonicalUrl::parse("https://go.example/a%20b").unwrap();
    assert_eq!(
        source.request_url(&key).as_str(),
        "https://source.example/resolve?scope=published&url=https%3A%2F%2Fgo.example%2Fa%2520b"
    );
    assert_eq!(source.max_response_bytes(), 65536);
    assert_eq!(source.endpoint_config().endpoint_origin(), "https://source.example");
}

#[test]
fn source_responses_are_classified() {
    assert_eq!(source_status_outcome(200).unwrap(), true);
    assert_eq!(source_status_outcome(404).unwrap(), false);
    assert_eq!(
        source_status_outcome(503).unwrap_err().message(),
        "HTTP source returned unsupported status 503"
    );
    assert_eq!(source_transport_error(true).message(), "HTTP source timeout error");
    assert_eq!(source_transport_error(false).message(), "HTTP source transport error");
    let source = HttpRedirectSource::new(endpoint("https://example.com", &[], None).unwrap(), 32).unwrap();
    assert_eq!(source.accept_chunk(20, 12).unwrap(), 32);
    assert_eq!(
        source.accept_chunk(20, 13).unwrap_err().message(),
        "HTTP source response exceeded the configured size limit"
    );
    assert!(source.accept_chunk(usize::MAX, 1).is_err());
}

#[test]
fn source_content_headers_must_be_plain_json() {
    assert!(validate_content_headers(&content(&[("content-type", "application/json")])).is_ok());
    assert!(validate_content_headers(&content(&[("content-type", " Application/JSON ; charset=utf-8")])).is_ok());
    assert!(validate_content_headers(&content(&[("content-type", "application/vnd.compactor+json; charset=utf-8")])).is_ok());
    assert!(validate_content_headers(&content(&[
        ("content-encoding", "IDENTITY"),
        ("content-type", "application/json")
    ]))
    .is_ok());
    assert_eq!(
        validate_content_headers(&content(&[("content-type", "text/plain")])).unwrap_err().message(),
        "HTTP source response has an unsupported content type"
    );
    assert_eq!(
        validate_content_headers(&HeaderList::new()).unwrap_err().message(),
        "HTTP source response has an unsupported content type"
    );
    assert_eq!(
        validate_content_headers(&content(&[("content-encoding", "gzip"), ("content-type", "application/json")]))
            .unwrap_err()
            .message(),
        "HTTP source response uses an unsupported content encoding"
    );
}

#[test]
fn source_records_must_match_the_lookup() {
    let raw = |canonical: &str| RawRedirect {
        id: "one".to_owned(),
        canonical_url: canonical.to_owned(),
        redirect_url: "https://destination.example/".to_owned(),
        status_code: 301,
        response_headers: Vec::new(),
    };
    let key = CanonicalUrl::parse("https://go.example/").unwrap();
    let found = definition_from_response(raw("https://GO.example:443/"), &key).unwrap().unwrap();
    assert_eq!(found.id.as_str(), "one");
    assert_eq!(
        definition_from_response(raw("https://wrong.example/"), &key).unwrap_err().message(),
        "HTTP source response canonical URL does not match the requested key"
    );
}

#[test]
fn sink_accepts_only_success_statuses() {
    assert!(sink_status_outcome(200).is_ok());
    assert!(sink_status_outcome(204).is_ok());
    assert!(sink_status_outcome(299).is_ok());
    assert_eq!(
        sink_status_outcome(300).unwrap_err().message(),
        "HTTP event sink returned unsuccessful status 300"
    );
    assert_eq!(
        sink_status_outcome(500).unwrap_err().message(),
        "HTTP event sink returned unsuccessful status 500"
    );
    assert_eq!(sink_transport_error(true).message(), "HTTP event sink timeout error");
    assert_eq!(sink_transport_error(false).message(), "HTTP event sink transport error");
}

#[test]
fn endpoint_description_writes_the_timeout_as_a_duration() {
    for (ms, text) in [(1500, "1.5s"), (250, "250ms"), (2000, "2s"), (1050, "1.05s"), (1001, "1.001s")] {
        let endpoint = HttpEndpointConfig::new("https://sink.example/events", ms, Vec::new(), None).unwrap();
        assert_eq!(
            endpoint.describe(),
            format!(
                "HttpEndpointConfig {{ scheme: \"https\", host: Some(\"sink.example\"), request_timeout: {text}, static_header_count: 0, bearer_token: None }}"
            )
        );
    }
}

#[test]
fn millisecond_durations_read_as_duration_debug_does() {
    for ms in [0u64, 1, 9, 10, 100, 999, 1000, 1001, 1010, 1100, 1234, 60_000, 61_500, 3_600_001, u64::MAX] {
        assert_eq!(millis_debug(ms), format!("{:?}", std::time::Duration::from_millis(ms)));
    }
}
