use compactor::config::parse_trusted_proxies;
use compactor::forwarding::{
    comma_header_first, parse_forwarded, parse_forwarded_ip, parse_forwarded_value, parse_x_forwarded_for,
    resolve_request_metadata, ProxyConfig,
};
use compactor::headers::HeaderList;
use compactor::ip::IpAddress;

fn v4(a: u8, b: u8, c: u8, d: u8) -> IpAddress {
    IpAddress::v4(u32::from_be_bytes([a, b, c, d]))
}

fn list(pairs: &[(&str, &str)]) -> HeaderList {
    let mut headers = HeaderList::new();
    for (name, value) in pairs {
        headers.append(name, value.as_bytes().to_vec());
    }
    headers
}

fn raw(name: &str, value: &[u8]) -> HeaderList {
    let mut headers = HeaderList::new();
    headers.append(name, value.to_vec());
    headers
}

fn trusted(cidrs: &str) -> ProxyConfig {
    ProxyConfig {
        trusted_proxies: parse_trusted_proxies(cidrs).unwrap(),
        record_client_addresses: true,
    }
}

#[test]
fn trusted_proxy_uses_forwarded_values_and_walks_chain() {
    let headers = list(&[(
        "forwarded",
        "for=203.0.113.9;proto=https;host=GO.example, for=10.0.0.2",
    )]);
    let config = trusted("10.0.0.0/8");
    let resolved =
        resolve_request_metadata("http", "internal:8080", &headers, Some(v4(10, 0, 0, 3)), &config).unwrap();
    assert_eq!(resolved.scheme, "https");
    assert_eq!(resolved.host, "GO.example");
    assert_eq!(resolved.client_address, Some(v4(203, 0, 113, 9)));
}

#[test]
fn untrusted_peer_ignores_forwarding_headers() {
    let headers = list(&[("forwarded", "for=203.0.113.9;proto=https;host=go.example")]);
    let config = ProxyConfig {
        trusted_proxies: Vec::new(),
        record_client_addresses: true,
    };
    let peer = v4(192, 0, 2, 4);
    let resolved = resolve_request_metadata("http", "direct.example", &headers, Some(peer), &config).unwrap();
    assert_eq!(resolved.scheme, "http");
    assert_eq!(resolved.host, "direct.example");
    assert_eq!(resolved.client_address, Some(peer));
}

#[test]
fn trusted_proxy_falls_back_to_x_forwarded_headers() {
    let headers = list(&[
        ("x-forwarded-for", "203.0.113.4, 10.0.0.2"),
        ("x-forwarded-proto", "HTTPS"),
        ("x-forwarded-host", "go.example:443"),
    ]);
    let config = trusted("10.0.0.0/8");
    let resolved =
        resolve_request_metadata("http", "internal:8080", &headers, Some(v4(10, 0, 0, 3)), &config).unwrap();
    assert_eq!(resolved.scheme, "https");
    assert_eq!(resolved.host, "go.example:443");
    assert_eq!(resolved.client_address, Some(v4(203, 0, 113, 4)));
}

#[test]
fn trusted_proxy_rejects_malformed_fallback_and_forwarded_quotes() {
    let config = trusted("10.0.0.0/8");
    let peer = Some(v4(10, 0, 0, 3));

    let invalid_fallback = raw("x-forwarded-host", &[0xff]);
    assert!(resolve_request_metadata("http", "internal:8080", &invalid_fallback, peer, &config).is_err());

    let invalid_forwarded = list(&[("forwarded", "for=\"203.0.113.4;proto=https")]);
    assert!(resolve_request_metadata("http", "internal:8080", &invalid_forwarded, peer, &config).is_err());
}

#[test]
fn forwarded_values_are_unquoted_and_checked() {
    assert_eq!(parse_forwarded_value(" \"a.example\" ").unwrap(), "a.example");
    assert_eq!(parse_forwarded_value("plain").unwrap(), "plain");
    assert_eq!(
        parse_forwarded_value("\"open").unwrap_err(),
        "malformed quoted Forwarded value"
    );
    assert_eq!(parse_forwarded_value("\"").unwrap_err(), "malformed quoted Forwarded value");
    assert_eq!(parse_forwarded_value("a\"").unwrap_err(), "malformed quoted Forwarded value");
    assert_eq!(parse_forwarded_value("\"\"").unwrap_err(), "unsupported quoted Forwarded value");
    assert_eq!(parse_forwarded_value("\"a\\b\"").unwrap_err(), "unsupported quoted Forwarded value");
    assert_eq!(parse_forwarded_value("  ").unwrap_err(), "unsupported quoted Forwarded value");
}

#[test]
fn forwarded_identifiers_accept_addresses_and_refuse_obfuscation() {
    assert_eq!(parse_forwarded_ip("192.0.2.60").unwrap(), v4(192, 0, 2, 60));
    assert_eq!(parse_forwarded_ip("\"192.0.2.60:8080\"").unwrap(), v4(192, 0, 2, 60));
    assert_eq!(
        parse_forwarded_ip("[2001:db8::1]").unwrap(),
        IpAddress::v6(0x2001_0db8_0000_0000_0000_0000_0000_0001)
    );
    assert_eq!(
        parse_forwarded_ip("[2001:db8::1]:443").unwrap(),
        IpAddress::v6(0x2001_0db8_0000_0000_0000_0000_0000_0001)
    );
    assert_eq!(
        parse_forwarded_ip("UNKNOWN").unwrap_err(),
        "unsupported forwarded client identifier \"UNKNOWN\""
    );
    assert_eq!(
        parse_forwarded_ip("_hidden").unwrap_err(),
        "unsupported forwarded client identifier \"_hidden\""
    );
    assert_eq!(
        parse_forwarded_ip("not-an-ip").unwrap_err(),
        "invalid forwarded client address \"not-an-ip\""
    );
}

#[test]
fn forwarded_header_keeps_first_proto_and_host_and_every_address() {
    let headers = list(&[(
        "forwarded",
        "for=192.0.2.1;proto=http;host=a.example, for=\"[2001:db8::2]\";proto=https;host=b.example;by=x",
    )]);
    let parsed = parse_forwarded(&headers).unwrap().unwrap();
    assert_eq!(parsed.scheme.as_deref(), Some("http"));
    assert_eq!(parsed.host.as_deref(), Some("a.example"));
    assert_eq!(
        parsed.addresses,
        vec![v4(192, 0, 2, 1), IpAddress::v6(0x2001_0db8_0000_0000_0000_0000_0000_0002)]
    );
    assert!(parse_forwarded(&HeaderList::new()).unwrap().is_none());
    assert_eq!(
        parse_forwarded(&list(&[("forwarded", "  ")])).unwrap_err(),
        "Forwarded header must not be empty"
    );
    assert_eq!(
        parse_forwarded(&raw("forwarded", &[0xc3, 0xa9])).unwrap_err(),
        "Forwarded header is not valid text"
    );
    assert_eq!(
        parse_forwarded(&list(&[("forwarded", "for")])).unwrap_err(),
        "malformed Forwarded parameter"
    );
}

#[test]
fn comma_headers_give_their_first_item() {
    let headers = list(&[("x-forwarded-proto", " https , http"), ("x-forwarded-host", " , a")]);
    assert_eq!(
        comma_header_first(&headers, "x-forwarded-proto").unwrap().as_deref(),
        Some("https")
    );
    assert_eq!(
        comma_header_first(&headers, "x-forwarded-host").unwrap_err(),
        "x-forwarded-host header must not be empty"
    );
    assert!(comma_header_first(&headers, "x-other").unwrap().is_none());
    assert_eq!(
        comma_header_first(&raw("x-forwarded-proto", &[0x80]), "x-forwarded-proto").unwrap_err(),
        "x-forwarded-proto header is not valid text"
    );
}

#[test]
fn x_forwarded_for_reads_every_address() {
    let headers = list(&[("x-forwarded-for", "203.0.113.4, 10.0.0.2")]);
    assert_eq!(
        parse_x_forwarded_for(&headers).unwrap(),
        vec![v4(203, 0, 113, 4), v4(10, 0, 0, 2)]
    );
    assert!(parse_x_forwarded_for(&HeaderList::new()).unwrap().is_empty());
    assert!(parse_x_forwarded_for(&list(&[("x-forwarded-for", "1.2.3.4, nope")])).is_err());
}

#[test]
fn trusted_proxy_rejects_other_schemes_and_bad_hosts() {
    let config = trusted("10.0.0.0/8");
    let peer = Some(v4(10, 0, 0, 3));
    let ftp = list(&[("x-forwarded-proto", "ftp")]);
    assert_eq!(
        resolve_request_metadata("http", "internal", &ftp, peer, &config).unwrap_err(),
        "forwarded scheme \"ftp\" is not http or https"
    );
    let bad_host = list(&[("x-forwarded-host", "bad host")]);
    assert!(resolve_request_metadata("http", "internal", &bad_host, peer, &config)
        .unwrap_err()
        .starts_with("invalid forwarded host: "));
}

#[test]
fn chain_of_only_trusted_proxies_gives_the_peer() {
    let config = trusted("10.0.0.0/8");
    let headers = list(&[("x-forwarded-for", "10.1.1.1")]);
    let resolved =
        resolve_request_metadata("https", "go.example", &headers, Some(v4(10, 0, 0, 3)), &config).unwrap();
    assert_eq!(resolved.client_address, Some(v4(10, 0, 0, 3)));
    assert_eq!(resolved.scheme, "https");
    assert_eq!(resolved.host, "go.example");
}

#[test]
fn proxy_config_matches_networks() {
    let config = trusted("10.0.0.0/8, 192.0.2.7 ,,2001:db8::/32");
    assert_eq!(config.trusted_proxies.len(), 3);
    assert!(config.is_trusted(&v4(10, 200, 1, 1)));
    assert!(!config.is_trusted(&v4(11, 0, 0, 1)));
    assert!(config.is_trusted(&v4(192, 0, 2, 7)));
    assert!(!config.is_trusted(&v4(192, 0, 2, 8)));
    assert!(config.is_trusted(&IpAddress::v6(0x2001_0db8_ffff_0000_0000_0000_0000_0001)));
    assert!(!config.is_trusted(&IpAddress::v6(0x2001_0db9_0000_0000_0000_0000_0000_0001)));
}
