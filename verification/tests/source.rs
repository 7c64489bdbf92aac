use compactor::source::RawRedirect;
use compactor::{CanonicalUrl, JsonRedirectSource, RedirectSourceError};

fn records(contents: &str) -> Vec<RawRedirect> {
    let document: serde_json::Value = serde_json::from_str(contents).unwrap();
    document["redirects"]
        .as_array()
        .unwrap()
        .iter()
        .map(|item| RawRedirect {
            id: item["id"].as_str().unwrap().to_owned(),
            canonical_url: item["canonical_url"].as_str().unwrap().to_owned(),
            redirect_url: item["redirect_url"].as_str().unwrap().to_owned(),
            status_code: item["status_code"].as_u64().unwrap() as u16,
            response_headers: item["response_headers"]
                .as_object()
                .map(|headers| {
                    headers
                        .iter()
                        .map(|(name, value)| (name.clone(), value.as_str().unwrap().to_owned()))
                        .collect()
                })
                .unwrap_or_default(),
        })
        .collect()
}

fn from_json(contents: &str) -> Result<JsonRedirectSource, RedirectSourceError> {
    JsonRedirectSource::from_records(records(contents))
}

fn document(items: &str) -> String {
    format!(r#"{{"redirects":[{items}]}}"#)
}

fn valid(id: &str, canonical: &str) -> String {
    format!(
        r#"{{"id":"{id}","canonical_url":"{canonical}","redirect_url":"https://destination.example/path","status_code":308,"response_headers":{{}}}}"#
    )
}

#[test]
fn loads_and_resolves_distinct_hosts() {
    let source = from_json(&document(&format!(
        "{},{}",
        valid("one", "https://one.example/help"),
        valid("two", "https://two.example/help")
    )))
    .unwrap();
    assert_eq!(source.len(), 2);
    let found = source
        .resolve(&CanonicalUrl::parse("https://TWO.example/help?q=1").unwrap())
        .unwrap()
        .unwrap();
    assert_eq!(found.id.as_str(), "two");
}

#[test]
fn rejects_duplicate_ids() {
    let error = from_json(&document(&format!(
        "{},{}",
        valid("same", "https://one.example/"),
        valid("same", "https://two.example/")
    )))
    .unwrap_err();
    assert!(error.message().contains("duplicate redirect ID"));
}

#[test]
fn rejects_duplicate_normalized_urls() {
    let error = from_json(&document(&format!(
        "{},{}",
        valid("one", "https://EXAMPLE.com:443/path?q=1"),
        valid("two", "https://example.com/path")
    )))
    .unwrap_err();
    assert!(error.message().contains("duplicate normalized canonical"));
}

#[test]
fn rejects_relative_destination_status_and_headers() {
    let relative = valid("one", "https://example.com/").replace("https://destination.example/path", "/relative");
    assert!(from_json(&document(&relative)).is_err());

    let status = valid("one", "https://example.com/").replace("308", "304");
    assert!(from_json(&document(&status)).is_err());

    let header = valid("one", "https://example.com/").replace(
        r#""response_headers":{}"#,
        r#""response_headers":{"Location":"https://evil.example"}"#,
    );
    assert!(from_json(&document(&header)).is_err());

    let malformed_header = valid("one", "https://example.com/").replace(
        r#""response_headers":{}"#,
        r#""response_headers":{"bad header":"value"}"#,
    );
    assert!(from_json(&document(&malformed_header)).is_err());

    let malformed_value = valid("one", "https://example.com/").replace(
        r#""response_headers":{}"#,
        r#""response_headers":{"X-Test":"line\u000Abreak"}"#,
    );
    assert!(from_json(&document(&malformed_value)).is_err());
}

#[test]
fn preserves_distinct_dot_segments_and_percent_encodings() {
    let source = from_json(&document(&format!(
        "{},{},{}",
        valid("literal-dot", "https://example.com/a/../b"),
        valid("encoded-dot", "https://example.com/%2e%2e/b"),
        valid("tilde", "https://example.com/%7Euser")
    )))
    .unwrap();
    for (url, id) in [
        ("https://example.com/a/../b", "literal-dot"),
        ("https://example.com/%2e%2e/b", "encoded-dot"),
        ("https://example.com/%7Euser", "tilde"),
    ] {
        assert_eq!(
            source
                .resolve(&CanonicalUrl::parse(url).unwrap())
                .unwrap()
                .unwrap()
                .id
                .as_str(),
            id
        );
    }
    assert!(source
        .resolve(&CanonicalUrl::parse("https://example.com/~user").unwrap())
        .unwrap()
        .is_none());
}

#[test]
fn document_errors_name_the_redirect() {
    let relative = valid("one", "https://example.com/").replace("https://destination.example/path", "/relative");
    assert_eq!(
        from_json(&document(&relative)).unwrap_err().message(),
        "invalid destination URL for redirect one: relative URL without a base"
    );
    let status = valid("one", "https://example.com/").replace("308", "304");
    assert_eq!(
        from_json(&document(&status)).unwrap_err().message(),
        "unsupported redirect status code 304 for redirect one"
    );
    let blank = valid(" ", "https://example.com/");
    assert_eq!(
        from_json(&document(&blank)).unwrap_err().message(),
        "invalid redirect ID: redirect ID must not be empty"
    );
    let canonical = valid("one", "ftp://example.com/");
    assert_eq!(
        from_json(&document(&canonical)).unwrap_err().message(),
        "invalid canonical URL for redirect one: canonical URL scheme must be http or https"
    );
    let header = valid("one", "https://example.com/").replace(
        r#""response_headers":{}"#,
        r#""response_headers":{"Server":"x"}"#,
    );
    assert_eq!(
        from_json(&document(&header)).unwrap_err().message(),
        "invalid response headers for redirect one: response header server is controlled by Compactor"
    );
    let duplicate = from_json(&document(&format!(
        "{},{}",
        valid("one", "https://example.com/a?x=1"),
        valid("two", "https://EXAMPLE.com/a")
    )))
    .unwrap_err();
    assert_eq!(
        duplicate.message(),
        "duplicate normalized canonical URL https://example.com/a"
    );
}

#[test]
fn empty_documents_hold_nothing() {
    let source = from_json(&document("")).unwrap();
    assert!(source.is_empty());
    assert_eq!(source.len(), 0);
    assert!(source
        .resolve(&CanonicalUrl::parse("https://example.com/").unwrap())
        .unwrap()
        .is_none());
}

#[test]
fn records_become_definitions_with_normalized_parts() {
    let definition = RawRedirect {
        id: "docs".to_owned(),
        canonical_url: "HTTPS://Go.Example:443/docs?x=1".to_owned(),
        redirect_url: "https://docs.example/current?fixed=1".to_owned(),
        status_code: 302,
        response_headers: vec![("Cache-Control".to_owned(), "no-store".to_owned())],
    }
    .into_definition()
    .unwrap();
    assert_eq!(definition.id.as_str(), "docs");
    assert_eq!(definition.canonical_url.as_str(), "https://go.example/docs");
    assert_eq!(definition.redirect_url.as_str(), "https://docs.example/current?fixed=1");
    assert_eq!(definition.status_code.as_u16(), 302);
    assert_eq!(
        definition.response_headers.iter().to_vec(),
        vec![("cache-control".to_owned(), "no-store".to_owned())]
    );
}
