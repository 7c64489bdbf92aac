use compactor::config::parse_trusted_proxies;
use compactor::headers::HeaderList;
use compactor::ip::IpAddress;
use compactor::service::{
    append_query, describe_request, plan_request, protocol_name, query_combination, response_plan,
    result_for_resolution, HttpVersion, IncomingRequest, RequestPlan, RequestResult,
};
use compactor::source::RawRedirect;
use compactor::{EventId, HeaderCaptureLimits, ProxyConfig, RedirectDefinition, RedirectOutcome, RedirectSourceError};

fn definition(redirect_url: &str, headers: &[(&str, &str)]) -> RedirectDefinition {
    RawRedirect {
        id: "docs".to_owned(),
        canonical_url: "https://go.example/docs".to_owned(),
        redirect_url: redirect_url.to_owned(),
        status_code: 308,
        response_headers: headers
            .iter()
            .map(|(name, value)| ((*name).to_owned(), (*value).to_owned()))
            .collect(),
    }
    .into_definition()
    .unwrap()
}

fn request(method: &str, path: &str, query: Option<&str>, headers: &[(&str, &str)], peer: IpAddress) -> IncomingRequest {
    let mut list = HeaderList::new();
    for (name, value) in headers {
        list.append(name, value.as_bytes().to_vec());
    }
    IncomingRequest {
        method: method.to_owned(),
        uri_scheme: None,
        uri_authority: None,
        path: path.to_owned(),
        query: query.map(str::to_owned),
        version: HttpVersion::Http11,
        headers: list,
        peer: Some(peer),
    }
}

fn limits() -> HeaderCaptureLimits {
    HeaderCaptureLimits {
        value_bytes: 1024,
        total_bytes: 4096,
    }
}

fn v4(a: u8, b: u8, c: u8, d: u8) -> IpAddress {
    IpAddress::v4(u32::from_be_bytes([a, b, c, d]))
}

#[test]
fn query_append_preserves_order_and_duplicates() {
    let mut url = definition("https://example.com/path?fixed=1", &[]).redirect_url;
    append_query(&mut url, Some("tag=a&tag=b"));
    assert_eq!(url.as_str(), "https://example.com/path?fixed=1&tag=a&tag=b");
}

#[test]
fn query_combination_covers_empty_sides() {
    assert_eq!(query_combination(Some("lang=en"), "ref=email&lang=fr"), "lang=en&ref=email&lang=fr");
    assert_eq!(query_combination(Some("lang=en"), ""), "lang=en");
    assert_eq!(query_combination(Some(""), "a=1"), "a=1");
    assert_eq!(query_combination(None, "a=1"), "a=1");
    assert_eq!(query_combination(None, ""), "");
    let mut url = definition("https://new.example/docs", &[]).redirect_url;
    append_query(&mut url, None);
    assert_eq!(url.as_str(), "https://new.example/docs");
    append_query(&mut url, Some("ref=email"));
    assert_eq!(url.as_str(), "https://new.example/docs?ref=email");
}

#[test]
fn protocol_names_follow_the_version() {
    assert_eq!(protocol_name(HttpVersion::Http09), "HTTP/0.9");
    assert_eq!(protocol_name(HttpVersion::Http10), "HTTP/1.0");
    assert_eq!(protocol_name(HttpVersion::Http11), "HTTP/1.1");
    assert_eq!(protocol_name(HttpVersion::Http2), "HTTP/2");
    assert_eq!(protocol_name(HttpVersion::Http3), "HTTP/3");
    assert_eq!(protocol_name(HttpVersion::Other), "UNKNOWN");
}

#[test]
fn event_ids_are_ulids() {
    let id = EventId::generate();
    assert_eq!(id.as_str().len(), 26);
    assert!(id.as_str().chars().all(|c| "0123456789ABCDEFGHJKMNPQRSTVWXYZ".contains(c)));
    assert_ne!(EventId::generate().as_str(), id.as_str());
}

#[test]
fn trusted_requests_are_described_by_their_public_identity() {
    let proxy = ProxyConfig {
        trusted_proxies: parse_trusted_proxies("127.0.0.0/8").unwrap(),
        record_client_addresses: true,
    };
    let incoming = request(
        "GET",
        "/docs",
        Some("source=home&source=nav"),
        &[
            ("host", "internal:8080"),
            ("forwarded", "for=203.0.113.8;proto=https;host=go.example"),
            ("accept", "text/html"),
            ("authorization", "Bearer secret"),
            ("user-agent", "curl/8"),
        ],
        v4(127, 0, 0, 1),
    );
    let record = describe_request(&incoming, &proxy, limits());
    assert!(record.metadata_valid);
    assert_eq!(record.request.method, "GET");
    assert_eq!(record.request.scheme, "https");
    assert_eq!(record.request.host, "go.example");
    assert_eq!(record.request.path, "/docs");
    assert_eq!(record.request.query.as_deref(), Some("source=home&source=nav"));
    assert_eq!(record.request.protocol, "HTTP/1.1");
    assert_eq!(record.request.headers, vec![("accept".to_owned(), "text/html".to_owned())]);
    assert_eq!(record.client.address.as_deref(), Some("203.0.113.8"));
    assert_eq!(record.client.user_agent.as_deref(), Some("curl/8"));
    match plan_request(&record) {
        RequestPlan::Lookup(key) => assert_eq!(key.as_str(), "https://go.example/docs"),
        RequestPlan::Respond(_) => panic!("expected a lookup"),
    }
}

#[test]
fn malformed_trusted_forwarding_is_invalid_and_address_can_be_omitted() {
    let proxy = ProxyConfig {
        trusted_proxies: parse_trusted_proxies("127.0.0.0/8").unwrap(),
        record_client_addresses: false,
    };
    let incoming = request(
        "GET",
        "/docs",
        None,
        &[("host", "go.example"), ("forwarded", "for=not-an-ip;proto=https;host=go.example")],
        v4(127, 0, 0, 1),
    );
    let record = describe_request(&incoming, &proxy, limits());
    assert!(!record.metadata_valid);
    assert_eq!(record.request.scheme, "http");
    assert_eq!(record.request.host, "go.example");
    assert!(record.client.address.is_none());
    match plan_request(&record) {
        RequestPlan::Respond(result) => {
            assert_eq!(result.status, 400);
            assert_eq!(result.outcome, RedirectOutcome::InvalidRequest);
        },
        RequestPlan::Lookup(_) => panic!("expected an answer"),
    }
}

#[test]
fn unsupported_methods_and_missing_hosts_are_answered_at_once() {
    let proxy = ProxyConfig {
        trusted_proxies: Vec::new(),
        record_client_addresses: true,
    };
    let post = describe_request(
        &request("POST", "/docs", None, &[("host", "go.example")], v4(192, 0, 2, 4)),
        &proxy,
        limits(),
    );
    assert_eq!(post.client.address.as_deref(), Some("192.0.2.4"));
    match plan_request(&post) {
        RequestPlan::Respond(result) => {
            assert_eq!(result.status, 405);
            assert!(result.allow);
            let plan = response_plan(&result);
            assert_eq!(plan.status, 405);
            assert_eq!(plan.headers, vec![("allow".to_owned(), "GET, HEAD".to_owned())]);
        },
        RequestPlan::Lookup(_) => panic!("expected an answer"),
    }
    let hostless = describe_request(&request("HEAD", "/docs", None, &[], v4(192, 0, 2, 4)), &proxy, limits());
    assert_eq!(hostless.request.host, "");
    match plan_request(&hostless) {
        RequestPlan::Respond(result) => {
            assert_eq!(result.status, 400);
            assert_eq!(result.outcome, RedirectOutcome::InvalidRequest);
        },
        RequestPlan::Lookup(_) => panic!("expected an answer"),
    }
}

#[test]
fn lookup_uses_the_public_host_and_preserves_path_identity() {
    let proxy = ProxyConfig {
        trusted_proxies: Vec::new(),
        record_client_addresses: true,
    };
    for (host, path, key) in [
        ("one.example", "/a/../b", "http://one.example/a/../b"),
        ("two.example", "/a/../b", "http://two.example/a/../b"),
        ("one.example", "/%2e%2e/b", "http://one.example/%2e%2e/b"),
    ] {
        let record = describe_request(&request("GET", path, None, &[("host", host)], v4(192, 0, 2, 4)), &proxy, limits());
        match plan_request(&record) {
            RequestPlan::Lookup(found) => assert_eq!(found.as_str(), key),
            RequestPlan::Respond(_) => panic!("expected a lookup"),
        }
    }
}

#[test]
fn redirects_carry_destination_query_and_configured_headers() {
    let result = result_for_resolution(
        Ok(Some(definition(
            "https://docs.example/current?fixed=1",
            &[("Cache-Control", "public, max-age=300")],
        ))),
        Some("source=home&source=nav"),
    );
    assert_eq!(result.status, 308);
    assert_eq!(result.outcome, RedirectOutcome::Redirected);
    assert_eq!(result.redirect_id.as_ref().unwrap().as_str(), "docs");
    assert_eq!(
        result.location.as_ref().unwrap().as_str(),
        "https://docs.example/current?fixed=1&source=home&source=nav"
    );
    let plan = response_plan(&result);
    assert_eq!(plan.status, 308);
    assert_eq!(
        plan.headers,
        vec![
            ("cache-control".to_owned(), "public, max-age=300".to_owned()),
            (
                "location".to_owned(),
                "https://docs.example/current?fixed=1&source=home&source=nav".to_owned()
            ),
        ]
    );
}

#[test]
fn misses_and_failures_are_kept_apart() {
    let missing = result_for_resolution(Ok(None), None);
    assert_eq!(missing.status, 404);
    assert_eq!(missing.outcome, RedirectOutcome::NotFound);
    assert!(missing.redirect_id.is_none() && missing.location.is_none());
    let failed = result_for_resolution(Err(RedirectSourceError::new("offline".to_owned())), Some("a=1"));
    assert_eq!(failed.status, 500);
    assert_eq!(failed.outcome, RedirectOutcome::SourceError);
    assert!(failed.redirect_id.is_none() && failed.location.is_none());
    let plan = response_plan(&failed);
    assert_eq!(plan.status, 500);
    assert!(plan.headers.is_empty());
}

#[test]
fn request_results_have_fixed_shapes() {
    let error = RequestResult::error(404, RedirectOutcome::NotFound);
    assert!(!error.allow && error.response_headers.is_empty() && error.location.is_none());
    let not_allowed = RequestResult::method_not_allowed();
    assert_eq!(not_allowed.status, 405);
    assert_eq!(not_allowed.outcome, RedirectOutcome::InvalidRequest);
    assert!(not_allowed.allow);
}

#[test]
fn scheme_and_authority_are_checked_before_the_method() {
    let proxy = ProxyConfig {
        trusted_proxies: Vec::new(),
        record_client_addresses: true,
    };
    for (method, headers) in [("POST", vec![]), ("DELETE", vec![("host", "bad host")]), ("PUT", vec![("host", "")])] {
        let record = describe_request(&request(method, "/docs", None, &headers, v4(192, 0, 2, 4)), &proxy, limits());
        match plan_request(&record) {
            RequestPlan::Respond(result) => {
                assert_eq!(result.status, 400);
                assert_eq!(result.outcome, RedirectOutcome::InvalidRequest);
                assert!(!result.allow);
                assert!(response_plan(&result).headers.is_empty());
            },
            RequestPlan::Lookup(_) => panic!("expected an answer"),
        }
    }
}
