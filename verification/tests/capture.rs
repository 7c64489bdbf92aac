use compactor::headers::{capture_headers, header_text, truncate_utf8, HeaderCaptureLimits, HeaderList};

fn get<'a>(captured: &'a [(String, String)], name: &str) -> Option<&'a str> {
    captured
        .iter()
        .find(|(n, _)| n == name)
        .map(|(_, v)| v.as_str())
}

#[test]
fn captured_headers_are_allowlisted_and_bounded() {
    let mut headers = HeaderList::new();
    headers.append("accept", b"123456".to_vec());
    headers.append("cookie", b"secret".to_vec());
    headers.append("x-request-id", b"abcdef".to_vec());
    let captured = capture_headers(
        &headers,
        HeaderCaptureLimits {
            value_bytes: 4,
            total_bytes: 6,
        },
    );
    assert_eq!(get(&captured, "accept").unwrap(), "1234");
    assert!(get(&captured, "cookie").is_none());
    assert!(get(&captured, "x-request-id").is_none());
}

#[test]
fn captured_headers_truncate_on_utf8_boundaries_and_skip_invalid_text() {
    let mut headers = HeaderList::new();
    headers.append("accept", vec![0xff]);
    let captured = capture_headers(
        &headers,
        HeaderCaptureLimits {
            value_bytes: 3,
            total_bytes: 8,
        },
    );
    assert!(get(&captured, "accept").is_none());
    assert_eq!(truncate_utf8("éclair", 2), "é");
}

#[test]
fn capture_keeps_every_allowlisted_header_within_limits() {
    let mut headers = HeaderList::new();
    headers.append("Referer", b"https://a.example/".to_vec());
    headers.append("accept-language", b"en".to_vec());
    headers.append("authorization", b"Bearer secret".to_vec());
    headers.append("x-request-id", b"r1".to_vec());
    let captured = capture_headers(
        &headers,
        HeaderCaptureLimits {
            value_bytes: 1024,
            total_bytes: 4096,
        },
    );
    assert_eq!(
        captured,
        vec![
            ("accept-language".to_owned(), "en".to_owned()),
            ("referer".to_owned(), "https://a.example/".to_owned()),
            ("x-request-id".to_owned(), "r1".to_owned()),
        ]
    );
}

#[test]
fn truncation_never_splits_a_character() {
    assert_eq!(truncate_utf8("éclair", 1), "");
    assert_eq!(truncate_utf8("éclair", 3), "éc");
    assert_eq!(truncate_utf8("short", 10), "short");
    assert_eq!(truncate_utf8("exact", 5), "exact");
    assert_eq!(truncate_utf8("a€b", 3), "a");
}

#[test]
fn header_text_reads_the_first_visible_value() {
    let mut headers = HeaderList::new();
    headers.append("User-Agent", b"first".to_vec());
    headers.append("user-agent", b"second".to_vec());
    headers.append("x-bin", vec![0x01]);
    assert_eq!(header_text(&headers, "user-agent").as_deref(), Some("first"));
    assert!(header_text(&headers, "x-bin").is_none());
    assert!(header_text(&headers, "missing").is_none());
}

#[test]
fn capture_order_decides_the_budget_and_names_order_the_result() {
    let mut headers = HeaderList::new();
    headers.append("x-request-id", b"id".to_vec());
    headers.append("accept", b"text/html".to_vec());
    headers.append("referer", b"https://r.example/".to_vec());
    let captured = capture_headers(
        &headers,
        HeaderCaptureLimits {
            value_bytes: 1024,
            total_bytes: 20,
        },
    );
    assert_eq!(
        captured,
        vec![
            ("referer".to_owned(), "https://r.example/".to_owned()),
            ("x-request-id".to_owned(), "id".to_owned()),
        ]
    );
}
