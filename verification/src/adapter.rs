use vstd::prelude::*;

use crate::errors::{HttpAdapterConfigError, RedirectEventSinkError, RedirectSourceError};
use crate::headers::{ascii_chars, first_value, header_text, header_text_of, header_value, visible_ascii, visible_text, HeaderList};
use crate::fields::{header_name_of, parse_header_name, parse_header_value, valid_header_value};
use crate::redirect::{pairs_view, CanonicalUrl, DefinitionView, RedirectDefinition};
use crate::source::{record_definition, RawRedirect};
use crate::string_map::map_entries;
use crate::text::{
    ascii_lowercase, decimal_text, join2, join3, owned, split_text, text_eq, text_has_prefix, text_has_suffix,
    trim_text, u16_text, u64_text, char_string, digit_char,
};
use crate::web_url::{
    url_fragment, url_host, url_parsed, url_password, url_port, url_query_names, url_scheme,
    url_username, url_with_pair, WebUrl,
};

verus! {

/// Settings of the shared HTTP client.
#[derive(Debug, Clone, Copy)]
pub struct HttpTransportConfig {
    /// The connect timeout, in milliseconds; never zero.
    pub connect_timeout_ms: u64,
}

impl HttpTransportConfig {
    /// Accepts any connect timeout but zero.
    pub fn new(connect_timeout_ms: u64) -> (result: Result<HttpTransportConfig, HttpAdapterConfigError>)
        ensures
            match result {
                Ok(c) => connect_timeout_ms != 0 && c.connect_timeout_ms == connect_timeout_ms,
                Err(e) => connect_timeout_ms == 0 && e.spec_message() == "HTTP connect timeout must be greater than zero"@,
            },
    {
        if connect_timeout_ms == 0 {
            return Err(HttpAdapterConfigError::new(owned("HTTP connect timeout must be greater than zero")));
        }
        Ok(HttpTransportConfig { connect_timeout_ms })
    }
}

/// Why a parsed endpoint URL with these parts cannot address an adapter:
/// its scheme must be http or https, it must have a host, and it must carry
/// neither user information nor a fragment.
pub open spec fn endpoint_rejection(
    scheme: Seq<char>,
    has_host: bool,
    username: Seq<char>,
    has_password: bool,
    has_fragment: bool,
) -> Option<Seq<char>> {
    if scheme != "http"@ && scheme != "https"@ {
        Some("HTTP endpoint URL scheme must be http or https"@)
    } else if !has_host {
        Some("HTTP endpoint URL must include a host"@)
    } else if username.len() != 0 || has_password {
        Some("HTTP endpoint URL must not contain user information"@)
    } else if has_fragment {
        Some("HTTP endpoint URL must not contain a fragment"@)
    } else {
        None
    }
}

/// Checks the parts of a parsed endpoint URL.
pub fn check_endpoint_parts(
    scheme: &str,
    has_host: bool,
    username: &str,
    has_password: bool,
    has_fragment: bool,
) -> (rejection: Option<String>)
    ensures
        crate::text::opt_text(rejection) == endpoint_rejection(scheme@, has_host, username@, has_password, has_fragment),
{
    proof {
        reveal_strlit("http");
        reveal_strlit("https");
    }
    if !text_eq(scheme, "http") && !text_eq(scheme, "https") {
        return Some(owned("HTTP endpoint URL scheme must be http or https"));
    }
    if !has_host {
        return Some(owned("HTTP endpoint URL must include a host"));
    }
    if username.unicode_len() != 0 || has_password {
        return Some(owned("HTTP endpoint URL must not contain user information"));
    }
    if has_fragment {
        return Some(owned("HTTP endpoint URL must not contain a fragment"));
    }
    None
}

/// Whether a header list holds a name.
pub open spec fn has_name(headers: Seq<(Seq<char>, Seq<char>)>, name: Seq<char>) -> bool {
    exists|i: int| 0 <= i < headers.len() && #[trigger] headers[i].0 == name
}

/// No name occurs twice in a header list.
pub open spec fn unique_names(headers: Seq<(Seq<char>, Seq<char>)>) -> bool {
    forall|i: int, j: int|
        0 <= i < headers.len() && 0 <= j < headers.len() && #[trigger] headers[i].0 == #[trigger] headers[j].0 ==> i == j
}

/// A header set after storing a value under a name (`HeaderMap::insert`):
/// a present name has its value replaced in place; a new one is added last.
pub open spec fn upsert(headers: Seq<(Seq<char>, Seq<char>)>, name: Seq<char>, value: Seq<char>) -> Seq<(Seq<char>, Seq<char>)> {
    if has_name(headers, name) {
        headers.update(choose|i: int| 0 <= i < headers.len() && #[trigger] headers[i].0 == name, (name, value))
    } else {
        headers.push((name, value))
    }
}

/// Static headers checked and stored in order; the first invalid name or
/// value stops.
pub open spec fn static_headers_of(pairs: Seq<(Seq<char>, Seq<char>)>) -> Result<Seq<(Seq<char>, Seq<char>)>, Seq<char>>
    decreases pairs.len(),
{
    if pairs.len() == 0 {
        Ok(Seq::empty())
    } else {
        match static_headers_of(pairs.drop_last()) {
            Err(e) => Err(e),
            Ok(done) => match header_name_of(pairs.last().0) {
                None => Err("HTTP static header name is invalid"@),
                Some(name) => if !valid_header_value(pairs.last().1) {
                    Err("value for HTTP static header "@ + name + " is invalid"@)
                } else {
                    Ok(upsert(done, name, pairs.last().1))
                },
            },
        }
    }
}

/// The `Authorization` value for an optional bearer token: an empty token,
/// or one that does not make a valid header value, is refused.
pub open spec fn bearer_value(token: Option<Seq<char>>) -> Result<Option<Seq<char>>, Seq<char>> {
    match token {
        None => Ok(None),
        Some(t) => if t.len() == 0 {
            Err("HTTP bearer token must not be empty"@)
        } else if !valid_header_value("Bearer "@ + t) {
            Err("HTTP bearer token contains invalid characters"@)
        } else {
            Ok(Some("Bearer "@ + t))
        },
    }
}

/// An endpoint configuration as plain values.
pub struct EndpointView {
    pub url: Seq<char>,
    pub request_timeout_ms: u64,
    pub static_headers: Seq<(Seq<char>, Seq<char>)>,
    pub authorization: Option<Seq<char>>,
}

/// The endpoint configuration that the settings give, or the first reason
/// they are refused.
pub open spec fn endpoint_config(
    url: Seq<char>,
    request_timeout_ms: u64,
    headers: Seq<(Seq<char>, Seq<char>)>,
    token: Option<Seq<char>>,
) -> Result<EndpointView, Seq<char>> {
    match url_parsed(url) {
        Err(_) => Err("HTTP endpoint URL is invalid"@),
        Ok(u) => match endpoint_rejection(
            url_scheme(u),
            url_host(u) is Some,
            url_username(u),
            url_password(u) is Some,
            url_fragment(u) is Some,
        ) {
            Some(e) => Err(e),
            None => if request_timeout_ms == 0 {
                Err("HTTP request timeout must be greater than zero"@)
            } else {
                match static_headers_of(headers) {
                    Err(e) => Err(e),
                    Ok(stored) => match bearer_value(token) {
                        Err(e) => Err(e),
                        Ok(authorization) => if authorization is Some && has_name(stored, "authorization"@) {
                            Err("HTTP static Authorization header conflicts with bearer authentication"@)
                        } else {
                            Ok(
                                EndpointView {
                                    url: u,
                                    request_timeout_ms,
                                    static_headers: stored,
                                    authorization,
                                },
                            )
                        },
                    },
                }
            },
        },
    }
}

/// Where and how an HTTP adapter calls its endpoint.
pub struct HttpEndpointConfig {
    url: WebUrl,
    request_timeout_ms: u64,
    static_headers: Vec<(String, String)>,
    authorization: Option<String>,
}

impl View for HttpEndpointConfig {
    type V = EndpointView;

    closed spec fn view(&self) -> EndpointView {
        EndpointView {
            url: self.url@,
            request_timeout_ms: self.request_timeout_ms,
            static_headers: pairs_view(self.static_headers@),
            authorization: crate::text::opt_text(self.authorization),
        }
    }
}

impl Clone for HttpEndpointConfig {
    fn clone(&self) -> (copy: Self)
        ensures
            copy@ == self@,
    {
        let authorization = match &self.authorization {
            Some(a) => Some(owned(a.as_str())),
            None => None,
        };
        HttpEndpointConfig {
            url: self.url.clone(),
            request_timeout_ms: self.request_timeout_ms,
            static_headers: crate::redirect::copy_pairs(self.static_headers.as_slice()),
            authorization,
        }
    }
}

/// Finds a header name in a list.
fn find_name(headers: &Vec<(String, String)>, name: &str) -> (found: Option<usize>)
    ensures
        match found {
            Some(i) => i < headers@.len() && headers@[i as int].0@ == name@,
            None => !has_name(pairs_view(headers@), name@),
        },
{
    for i in 0..headers.len()
        invariant
            forall|j: int| 0 <= j < i ==> (#[trigger] headers@[j]).0@ != name@,
    {
        if text_eq(headers[i].0.as_str(), name) {
            return Some(i);
        }
    }
    proof {
        let v = pairs_view(headers@);
        if has_name(v, name@) {
            let j = choose|j: int| 0 <= j < v.len() && #[trigger] v[j].0 == name@;
            assert(v[j].0 == headers@[j].0@);
        }
    }
    None
}

proof fn lemma_upsert_at(headers: Seq<(Seq<char>, Seq<char>)>, name: Seq<char>, value: Seq<char>, i: int)
    requires
        unique_names(headers),
        0 <= i < headers.len(),
        headers[i].0 == name,
    ensures
        upsert(headers, name, value) == headers.update(i, (name, value)),
        unique_names(upsert(headers, name, value)),
{
    assert(has_name(headers, name));
    let k = choose|k: int| 0 <= k < headers.len() && #[trigger] headers[k].0 == name;
    assert(k == i);
    let updated = headers.update(i, (name, value));
    assert forall|a: int, b: int|
        0 <= a < updated.len() && 0 <= b < updated.len() && #[trigger] updated[a].0 == #[trigger] updated[b].0 implies a
        == b by {
        assert(updated[a].0 == headers[a].0);
        assert(updated[b].0 == headers[b].0);
    }
}

proof fn lemma_upsert_new(headers: Seq<(Seq<char>, Seq<char>)>, name: Seq<char>, value: Seq<char>)
    requires
        unique_names(headers),
        !has_name(headers, name),
    ensures
        upsert(headers, name, value) == headers.push((name, value)),
        unique_names(upsert(headers, name, value)),
{
    let pushed = headers.push((name, value));
    assert forall|a: int, b: int|
        0 <= a < pushed.len() && 0 <= b < pushed.len() && #[trigger] pushed[a].0 == #[trigger] pushed[b].0 implies a
        == b by {
        if a < headers.len() && b == headers.len() {
            assert(headers[a].0 == name);
        }
        if b < headers.len() && a == headers.len() {
            assert(headers[b].0 == name);
        }
    }
}

proof fn lemma_static_error_sticks(pairs: Seq<(Seq<char>, Seq<char>)>, i: int)
    requires
        0 <= i <= pairs.len(),
        static_headers_of(pairs.take(i)) is Err,
    ensures
        static_headers_of(pairs) == static_headers_of(pairs.take(i)),
    decreases pairs.len() - i,
{
    if i < pairs.len() {
        assert(pairs.take(i + 1).drop_last() =~= pairs.take(i));
        lemma_static_error_sticks(pairs, i + 1);
    } else {
        assert(pairs.take(i) =~= pairs);
    }
}

/// Stores a header value under its name (`HeaderMap::insert`): an earlier
/// value of the name is replaced in place, a new name goes last.
pub fn store_header(headers: &mut Vec<(String, String)>, name: String, value: String)
    requires
        unique_names(pairs_view(old(headers)@)),
    ensures
        unique_names(pairs_view(final(headers)@)),
        pairs_view(final(headers)@) == upsert(pairs_view(old(headers)@), name@, value@),
{
    let ghost before = pairs_view(headers@);
    let ghost entry = (name@, value@);
    match find_name(headers, name.as_str()) {
        Some(k) => {
            proof {
                lemma_upsert_at(before, name@, value@, k as int);
            }
            headers.set(k, (name, value));
            proof {
                assert(pairs_view(headers@) =~= before.update(k as int, entry));
            }
        },
        None => {
            proof {
                lemma_upsert_new(before, name@, value@);
            }
            headers.push((name, value));
            proof {
                assert(pairs_view(headers@) =~= before.push(entry));
            }
        },
    }
}

/// Storing a header keeps names unique, holds the stored pair, and leaves
/// every header of another name where it was.
pub proof fn lemma_upsert_contents(headers: Seq<(Seq<char>, Seq<char>)>, name: Seq<char>, value: Seq<char>)
    requires
        unique_names(headers),
    ensures
        unique_names(upsert(headers, name, value)),
        upsert(headers, name, value).len() >= headers.len(),
        exists|i: int| 0 <= i < upsert(headers, name, value).len() && upsert(headers, name, value)[i] == (name, value),
        forall|i: int| 0 <= i < headers.len() && headers[i].0 != name ==> #[trigger] upsert(headers, name, value)[i] == headers[i],
{
    if has_name(headers, name) {
        let k = choose|k: int| 0 <= k < headers.len() && #[trigger] headers[k].0 == name;
        lemma_upsert_at(headers, name, value, k);
        assert(upsert(headers, name, value)[k] == (name, value));
    } else {
        lemma_upsert_new(headers, name, value);
        assert(upsert(headers, name, value)[headers.len() as int] == (name, value));
    }
}

/// Checks static headers in order and stores them by normalized name.
fn store_static_headers(pairs: &Vec<(String, String)>) -> (result: Result<Vec<(String, String)>, HttpAdapterConfigError>)
    ensures
        match result {
            Ok(stored) => static_headers_of(pairs_view(pairs@)) == Ok::<Seq<(Seq<char>, Seq<char>)>, Seq<char>>(
                pairs_view(stored@),
            ) && unique_names(pairs_view(stored@)),
            Err(e) => static_headers_of(pairs_view(pairs@)) == Err::<Seq<(Seq<char>, Seq<char>)>, Seq<char>>(
                e.spec_message(),
            ),
        },
{
    let ghost input = pairs_view(pairs@);
    let mut stored: Vec<(String, String)> = Vec::new();
    assert(input.take(0) =~= Seq::<(Seq<char>, Seq<char>)>::empty());
    assert(pairs_view(stored@) =~= Seq::<(Seq<char>, Seq<char>)>::empty());
    for i in 0..pairs.len()
        invariant
            input == pairs_view(pairs@),
            unique_names(pairs_view(stored@)),
            static_headers_of(input.take(i as int)) == Ok::<Seq<(Seq<char>, Seq<char>)>, Seq<char>>(pairs_view(stored@)),
    {
        proof {
            assert(input.take(i + 1).drop_last() =~= input.take(i as int));
            assert(input.take(i + 1).last() == (pairs@[i as int].0@, pairs@[i as int].1@));
        }
        let name = match parse_header_name(pairs[i].0.as_str()) {
            Ok(n) => n,
            Err(_) => {
                proof {
                    lemma_static_error_sticks(input, i + 1);
                }
                return Err(HttpAdapterConfigError::new(owned("HTTP static header name is invalid")));
            },
        };
        let value = match parse_header_value(pairs[i].1.as_str()) {
            Ok(v) => v,
            Err(_) => {
                proof {
                    lemma_static_error_sticks(input, i + 1);
                }
                return Err(HttpAdapterConfigError::new(join3("value for HTTP static header ", name.as_str(), " is invalid")));
            },
        };
        store_header(&mut stored, name, value);
    }
    assert(input.take(pairs@.len() as int) =~= input);
    Ok(stored)
}

/// The decimal fraction of a number of thousandths below a thousand: a
/// `.` and its digits without trailing zeros, or nothing for zero.
pub open spec fn thousandths_fraction(r: nat) -> Seq<char> {
    if r == 0 {
        Seq::empty()
    } else if r % 100 == 0 {
        seq!['.', digit_char(r / 100)]
    } else if r % 10 == 0 {
        seq!['.', digit_char(r / 100), digit_char((r / 10) % 10)]
    } else {
        seq!['.', digit_char(r / 100), digit_char((r / 10) % 10), digit_char(r % 10)]
    }
}

/// A whole number of milliseconds as `Duration`'s `Debug` writes it:
/// `0ns` for zero, `<n>ms` below a second, and otherwise the seconds with
/// the remaining milliseconds as a fraction without trailing zeros,
/// followed by `s` (`1.5s`, `2s`).
pub open spec fn millis_debug_text(ms: nat) -> Seq<char> {
    if ms == 0 {
        "0ns"@
    } else if ms < 1000 {
        decimal_text(ms) + "ms"@
    } else {
        decimal_text(ms / 1000) + thousandths_fraction(ms % 1000) + "s"@
    }
}

fn fraction_digit(d: u64) -> (c: char)
    requires
        d < 10,
    ensures
        c == digit_char(d as nat),
{
    let v: u8 = 48 + d as u8;
    v as char
}

/// Writes a whole number of milliseconds as `Duration`'s `Debug` does.
pub fn millis_debug(ms: u64) -> (text: String)
    ensures
        text@ == millis_debug_text(ms as nat),
{
    proof {
        reveal_strlit("0ns");
        reveal_strlit("ms");
        reveal_strlit("s");
        reveal_strlit(".");
    }
    if ms == 0 {
        return owned("0ns");
    }
    if ms < 1000 {
        return join2(u64_text(ms).as_str(), "ms");
    }
    let mut text = u64_text(ms / 1000);
    let ghost whole = text@;
    let r = ms % 1000;
    if r != 0 {
        text.append(".");
        text.append(char_string(fraction_digit(r / 100)).as_str());
        if r % 100 != 0 {
            text.append(char_string(fraction_digit((r / 10) % 10)).as_str());
            if r % 10 != 0 {
                text.append(char_string(fraction_digit(r % 10)).as_str());
            }
        }
    }
    assert(text@ =~= whole + thousandths_fraction(r as nat));
    text.append("s");
    text
}

impl HttpEndpointConfig {
    /// Validates an adapter endpoint: an http(s) URL with a host and without
    /// user information or fragment, a positive request timeout, valid
    /// static headers (the pairs taken as the string map they make, checked
    /// in name order), and an optional non-empty bearer token that no static
    /// `Authorization` header contradicts.
    pub fn new(
        url: &str,
        request_timeout_ms: u64,
        static_headers: Vec<(String, String)>,
        bearer_token: Option<String>,
    ) -> (result: Result<HttpEndpointConfig, HttpAdapterConfigError>)
        ensures
            match result {
                Ok(c) => endpoint_config(
                    url@,
                    request_timeout_ms,
                    map_entries(pairs_view(static_headers@)),
                    crate::text::opt_text(bearer_token),
                ) == Ok::<EndpointView, Seq<char>>(c@) && c.wf(),
                Err(e) => endpoint_config(
                    url@,
                    request_timeout_ms,
                    map_entries(pairs_view(static_headers@)),
                    crate::text::opt_text(bearer_token),
                ) == Err::<EndpointView, Seq<char>>(e.spec_message()),
            },
    {
        let parsed = match WebUrl::parse(url) {
            Ok(u) => u,
            Err(_) => {
                return Err(HttpAdapterConfigError::new(owned("HTTP endpoint URL is invalid")));
            },
        };
        let scheme = parsed.scheme();
        let has_host = parsed.host_str().is_some();
        let username = parsed.username();
        let has_password = parsed.password().is_some();
        let has_fragment = parsed.fragment().is_some();
        if let Some(rejection) = check_endpoint_parts(scheme.as_str(), has_host, username.as_str(), has_password, has_fragment) {
            return Err(HttpAdapterConfigError::new(rejection));
        }
        if request_timeout_ms == 0 {
            return Err(HttpAdapterConfigError::new(owned("HTTP request timeout must be greater than zero")));
        }
        let stored = store_static_headers(&crate::string_map::map_entries_of(&static_headers))?;
        let authorization = match bearer_token {
            None => None,
            Some(token) => {
                if token.as_str().unicode_len() == 0 {
                    return Err(HttpAdapterConfigError::new(owned("HTTP bearer token must not be empty")));
                }
                let value = join2("Bearer ", token.as_str());
                match parse_header_value(value.as_str()) {
                    Ok(v) => Some(v),
                    Err(_) => {
                        return Err(HttpAdapterConfigError::new(owned("HTTP bearer token contains invalid characters")));
                    },
                }
            },
        };
        proof {
            reveal_strlit("authorization");
        }
        if authorization.is_some() {
            if let Some(i) = find_name(&stored, "authorization") {
                proof {
                    assert(pairs_view(stored@)[i as int].0 == "authorization"@);
                }
                return Err(HttpAdapterConfigError::new(
                    owned("HTTP static Authorization header conflicts with bearer authentication"),
                ));
            }
        }
        Ok(HttpEndpointConfig { url: parsed, request_timeout_ms, static_headers: stored, authorization })
    }

    /// Static header names are unique.
    pub closed spec fn wf(&self) -> bool {
        unique_names(pairs_view(self.static_headers@))
    }

    /// Whether requests go out without TLS.
    pub fn uses_plaintext_http(&self) -> (plaintext: bool)
        ensures
            plaintext == (url_scheme(self@.url) == "http"@),
    {
        proof {
            reveal_strlit("http");
        }
        text_eq(self.url.scheme().as_str(), "http")
    }

    /// The scheme, host and explicit port of the endpoint, without path or
    /// query: what may be logged about it.
    pub fn endpoint_origin(&self) -> (origin: String)
        ensures
            origin@ == url_scheme(self@.url) + "://"@ + match url_host(self@.url) {
                Some(h) => h,
                None => Seq::<char>::empty(),
            } + match url_port(self@.url) {
                Some(p) => ":"@ + decimal_text(p as nat),
                None => Seq::<char>::empty(),
            },
    {
        let host = match self.url.host_str() {
            Some(h) => h,
            None => owned(""),
        };
        let mut origin = join3(self.url.scheme().as_str(), "://", host.as_str());
        proof {
            reveal_strlit("");
            reveal_strlit(":");
        }
        match self.url.port() {
            Some(port) => {
                origin.append(":");
                origin.append(u16_text(port).as_str());
            },
            None => {},
        }
        origin
    }

    /// A description for diagnostics that names scheme, host, timeout and
    /// the number of static headers, and only says whether a bearer token
    /// is configured, never what it is.
    pub fn describe(&self) -> (text: String)
        ensures
            text@ == "HttpEndpointConfig { scheme: "@ + crate::text::debug_text(url_scheme(self@.url)) + ", host: "@
                + match url_host(self@.url) {
                Some(h) => "Some("@ + crate::text::debug_text(h) + ")"@,
                None => "None"@,
            } + ", request_timeout: "@ + millis_debug_text(self@.request_timeout_ms as nat) + ", static_header_count: "@
                + decimal_text(self@.static_headers.len()) + ", bearer_token: "@ + if self@.authorization is Some {
                "Some(\"[redacted]\")"@
            } else {
                "None"@
            } + " }"@,
    {
        let mut text = owned("HttpEndpointConfig { scheme: ");
        text.append(crate::text::debug_quoted(self.url.scheme().as_str()).as_str());
        text.append(", host: ");
        match self.url.host_str() {
            Some(h) => {
                text.append("Some(");
                text.append(crate::text::debug_quoted(h.as_str()).as_str());
                text.append(")");
            },
            None => {
                text.append("None");
            },
        }
        text.append(", request_timeout: ");
        text.append(millis_debug(self.request_timeout_ms).as_str());
        text.append(", static_header_count: ");
        text.append(crate::text::u64_text(self.static_headers.len() as u64).as_str());
        text.append(", bearer_token: ");
        if self.authorization.is_some() {
            text.append("Some(\"[redacted]\")");
        } else {
            text.append("None");
        }
        text.append(" }");
        text
    }

    /// The endpoint URL.
    pub fn url(&self) -> (url: &WebUrl)
        ensures
            url@ == self@.url,
    {
        &self.url
    }

    /// The timeout of one request, in milliseconds.
    pub fn request_timeout_ms(&self) -> (ms: u64)
        ensures
            ms == self@.request_timeout_ms,
    {
        self.request_timeout_ms
    }

    /// The static headers, by normalized name.
    pub fn static_headers(&self) -> (headers: &[(String, String)])
        ensures
            pairs_view(headers@) == self@.static_headers,
    {
        self.static_headers.as_slice()
    }

    /// The `Authorization` value that bearer authentication sends.
    pub fn authorization(&self) -> (value: Option<&str>)
        ensures
            match value {
                Some(v) => self@.authorization == Some(v@),
                None => self@.authorization is None,
            },
    {
        match &self.authorization {
            Some(a) => Some(a.as_str()),
            None => None,
        }
    }
}

/// The headers that the HTTP client itself controls on every request.
pub open spec fn connection_headers() -> Seq<Seq<char>> {
    seq![
        "host"@,
        "content-length"@,
        "connection"@,
        "transfer-encoding"@,
        "te"@,
        "trailer"@,
        "upgrade"@,
        "proxy-authorization"@,
    ]
}

/// The texts of a list of names.
pub open spec fn str_views(names: Seq<&str>) -> Seq<Seq<char>> {
    names.map_values(|n: &str| n@)
}

/// The first of the names that a header list holds.
pub open spec fn first_held(names: Seq<Seq<char>>, headers: Seq<(Seq<char>, Seq<char>)>) -> Option<Seq<char>>
    decreases names.len(),
{
    if names.len() == 0 {
        None
    } else if has_name(headers, names[0]) {
        Some(names[0])
    } else {
        first_held(names.drop_first(), headers)
    }
}

/// Refuses static headers that the client or the adapter controls: the
/// connection headers, then the adapter's own reserved names.
pub fn validate_reserved_headers(headers: &[(String, String)], reserved: &[&str]) -> (result: Result<(), HttpAdapterConfigError>)
    ensures
        match first_held(connection_headers() + str_views(reserved@), pairs_view(headers@)) {
            None => result is Ok,
            Some(name) => result matches Err(e) && e.spec_message() == "HTTP static header "@ + name
                + " is controlled by Compactor"@,
        },
{
    let mut names: Vec<&str> = Vec::new();
    names.push("host");
    names.push("content-length");
    names.push("connection");
    names.push("transfer-encoding");
    names.push("te");
    names.push("trailer");
    names.push("upgrade");
    names.push("proxy-authorization");
    for j in 0..reserved.len()
        invariant
            names@.len() == 8 + j,
            forall|k: int| 0 <= k < 8 ==> (#[trigger] names@[k])@ == connection_headers()[k],
            forall|k: int| 0 <= k < j ==> (#[trigger] names@[8 + k])@ == reserved@[k]@,
    {
        names.push(reserved[j]);
    }
    let ghost all = connection_headers() + str_views(reserved@);
    let ghost view = pairs_view(headers@);
    proof {
        reveal_strlit("host");
        reveal_strlit("content-length");
        reveal_strlit("connection");
        reveal_strlit("transfer-encoding");
        reveal_strlit("te");
        reveal_strlit("trailer");
        reveal_strlit("upgrade");
        reveal_strlit("proxy-authorization");
        assert forall|k: int| 0 <= k < all.len() implies (#[trigger] names@[k])@ == all[k] by {
            if k >= 8 {
                assert(names@[8 + (k - 8)]@ == reserved@[k - 8]@);
            }
        }
        assert(all.skip(0) =~= all);
    }
    for k in 0..names.len()
        invariant
            all == connection_headers() + str_views(reserved@),
            all.len() == names@.len(),
            forall|m: int| 0 <= m < all.len() ==> (#[trigger] names@[m])@ == all[m],
            view == pairs_view(headers@),
            first_held(all, view) == first_held(all.skip(k as int), view),
    {
        let present = slice_has_name(headers, names[k]);
        proof {
            assert(all.skip(k as int)[0] == all[k as int]);
            assert(all.skip(k as int).drop_first() =~= all.skip(k + 1));
        }
        if present {
            let name = names[k];
            proof {
                assert(first_held(all.skip(k as int), view) == Some(all[k as int]));
            }
            return Err(HttpAdapterConfigError::new(join3("HTTP static header ", name, " is controlled by Compactor")));
        }
    }
    proof {
        assert(all.skip(all.len() as int) =~= Seq::<Seq<char>>::empty());
    }
    Ok(())
}

/// Whether a slice of headers holds a name.
fn slice_has_name(headers: &[(String, String)], name: &str) -> (found: bool)
    ensures
        found == has_name(pairs_view(headers@), name@),
{
    for i in 0..headers.len()
        invariant
            forall|j: int| 0 <= j < i ==> (#[trigger] headers@[j]).0@ != name@,
    {
        if text_eq(headers[i].0.as_str(), name) {
            proof {
                assert(pairs_view(headers@)[i as int].0 == name@);
            }
            return true;
        }
    }
    proof {
        let v = pairs_view(headers@);
        if has_name(v, name@) {
            let j = choose|j: int| 0 <= j < v.len() && #[trigger] v[j].0 == name@;
            assert(v[j].0 == headers@[j].0@);
        }
    }
    false
}

/// Why an endpoint cannot serve as a redirect source: the response limit
/// must be positive, the static headers must leave the client's and the
/// source's own headers alone, and the URL must not already carry a `url`
/// query parameter.
pub open spec fn source_rejection(endpoint: EndpointView, max_response_bytes: usize) -> Option<Seq<char>> {
    if max_response_bytes == 0 {
        Some("HTTP source response limit must be greater than zero"@)
    } else if first_held(connection_headers() + seq!["accept"@, "user-agent"@], endpoint.static_headers) is Some {
        Some(
            "HTTP static header "@ + first_held(connection_headers() + seq!["accept"@, "user-agent"@], endpoint.static_headers).unwrap()
                + " is controlled by Compactor"@,
        )
    } else if url_query_names(endpoint.url).contains("url"@) {
        Some("HTTP source endpoint must not contain a url query parameter"@)
    } else {
        None
    }
}

/// The request side of a redirect source that answers over HTTP: the
/// endpoint and the response size limit.
pub struct HttpRedirectSource {
    endpoint: HttpEndpointConfig,
    max_response_bytes: usize,
}

/// Whether any text of a list is `url`.
fn names_url(names: &Vec<String>) -> (found: bool)
    ensures
        found == crate::text::texts(names@).contains("url"@),
{
    proof {
        reveal_strlit("url");
    }
    for i in 0..names.len()
        invariant
            forall|j: int| 0 <= j < i ==> (#[trigger] names@[j])@ != "url"@,
    {
        if text_eq(names[i].as_str(), "url") {
            proof {
                assert(crate::text::texts(names@)[i as int] == "url"@);
            }
            return true;
        }
    }
    proof {
        let t = crate::text::texts(names@);
        if t.contains("url"@) {
            let j = choose|j: int| 0 <= j < t.len() && t[j] == "url"@;
            assert(t[j] == names@[j]@);
        }
    }
    false
}

impl HttpRedirectSource {
    /// The endpoint, as plain values.
    pub closed spec fn endpoint_view(&self) -> EndpointView {
        self.endpoint@
    }

    /// The response size limit.
    pub closed spec fn limit(&self) -> usize {
        self.max_response_bytes
    }

    /// Checks an endpoint and a response size limit for a redirect source.
    pub fn new(endpoint: HttpEndpointConfig, max_response_bytes: usize) -> (result: Result<HttpRedirectSource, HttpAdapterConfigError>)
        ensures
            match result {
                Ok(s) => source_rejection(endpoint@, max_response_bytes) is None && s.endpoint_view() == endpoint@
                    && s.limit() == max_response_bytes,
                Err(e) => source_rejection(endpoint@, max_response_bytes) == Some(e.spec_message()),
            },
    {
        if max_response_bytes == 0 {
            return Err(HttpAdapterConfigError::new(owned("HTTP source response limit must be greater than zero")));
        }
        let reserved: Vec<&str> = vec!["accept", "user-agent"];
        proof {
            reveal_strlit("accept");
            reveal_strlit("user-agent");
            assert(str_views(reserved@) =~= seq!["accept"@, "user-agent"@]);
        }
        validate_reserved_headers(endpoint.static_headers(), reserved.as_slice())?;
        let names = endpoint.url().query_pair_names();
        if names_url(&names) {
            return Err(HttpAdapterConfigError::new(owned("HTTP source endpoint must not contain a url query parameter")));
        }
        Ok(HttpRedirectSource { endpoint, max_response_bytes })
    }

    /// The endpoint that lookups are sent to.
    pub fn endpoint_config(&self) -> (endpoint: &HttpEndpointConfig)
        ensures
            endpoint@ == self.endpoint_view(),
    {
        &self.endpoint
    }

    /// The largest response body accepted, in bytes.
    pub fn max_response_bytes(&self) -> (limit: usize)
        ensures
            limit == self.limit(),
    {
        self.max_response_bytes
    }

    /// The lookup URL for a canonical URL: the endpoint with the canonical
    /// URL appended as the `url` query parameter, after any fixed ones.
    pub fn request_url(&self, canonical_url: &CanonicalUrl) -> (url: WebUrl)
        ensures
            url@ == url_with_pair(self.endpoint_view().url, "url"@, canonical_url@),
    {
        let mut url = self.endpoint.url().clone();
        proof {
            reveal_strlit("url");
        }
        url.append_pair("url", canonical_url.as_str());
        url
    }

    /// Adds a received chunk to the body size, refusing a body that would
    /// grow past the limit.
    pub fn accept_chunk(&self, received: usize, chunk_len: usize) -> (total: Result<usize, RedirectSourceError>)
        ensures
            match total {
                Ok(t) => received + chunk_len <= self.limit() && t == received + chunk_len,
                Err(e) => received + chunk_len > self.limit() && e.spec_message()
                    == "HTTP source response exceeded the configured size limit"@,
            },
    {
        if chunk_len > self.max_response_bytes || received > self.max_response_bytes - chunk_len {
            return Err(RedirectSourceError::new(owned("HTTP source response exceeded the configured size limit")));
        }
        Ok(received + chunk_len)
    }
}

/// What a redirect source does with an HTTP status: 404 is a miss, 200
/// carries a definition, and any other status is a failure.
pub open spec fn source_status(status: u16) -> Result<bool, Seq<char>> {
    if status == 404 {
        Ok(false)
    } else if status == 200 {
        Ok(true)
    } else {
        Err("HTTP source returned unsupported status "@ + decimal_text(status as nat))
    }
}

/// Classifies the status of a source response: `Ok(false)` for an
/// authoritative miss, `Ok(true)` when a body with a definition follows.
pub fn source_status_outcome(status: u16) -> (outcome: Result<bool, RedirectSourceError>)
    ensures
        match outcome {
            Ok(found) => source_status(status) == Ok::<bool, Seq<char>>(found),
            Err(e) => source_status(status) == Err::<bool, Seq<char>>(e.spec_message()),
        },
{
    if status == 404 {
        return Ok(false);
    }
    if status != 200 {
        let mut message = owned("HTTP source returned unsupported status ");
        message.append(u16_text(status).as_str());
        return Err(RedirectSourceError::new(message));
    }
    Ok(true)
}

/// The content type a source response must declare: JSON, or an
/// `application/...+json` type; parameters and case do not matter.
pub open spec fn json_media_type(value: Seq<char>) -> bool {
    let media = crate::text::ascii_lower(crate::text::trim(crate::text::split(value, ';')[0]));
    ||| media == "application/json"@
    ||| crate::text::has_prefix(media, "application/"@) && crate::text::has_suffix(media, "+json"@)
}

/// Why the headers of a source response cannot carry a definition: any
/// content encoding but `identity` is refused, and the content type must
/// be JSON.
pub open spec fn content_rejection(fields: Seq<(Seq<char>, Seq<u8>)>) -> Option<Seq<char>> {
    if first_value(fields, "content-encoding"@) matches Some(bytes) && !(visible_ascii(bytes)
        && crate::text::ascii_lower(ascii_chars(bytes)) == "identity"@) {
        Some("HTTP source response uses an unsupported content encoding"@)
    } else if !(header_text_of(fields, "content-type"@) matches Some(t) && json_media_type(t)) {
        Some("HTTP source response has an unsupported content type"@)
    } else {
        None
    }
}

/// Checks the encoding and type of a source response.
pub fn validate_content_headers(headers: &HeaderList) -> (result: Result<(), RedirectSourceError>)
    ensures
        match result {
            Ok(()) => content_rejection(headers@) is None,
            Err(e) => content_rejection(headers@) == Some(e.spec_message()),
        },
{
    proof {
        reveal_strlit("identity");
        reveal_strlit("application/json");
    }
    match header_value(headers, "content-encoding") {
        Some(raw) => {
            let acceptable = match visible_text(raw) {
                Some(text) => text_eq(ascii_lowercase(text.as_str()).as_str(), "identity"),
                None => false,
            };
            if !acceptable {
                return Err(RedirectSourceError::new(owned("HTTP source response uses an unsupported content encoding")));
            }
        },
        None => {},
    }
    let supported = match header_text(headers, "content-type") {
        Some(text) => {
            let pieces = split_text(text.as_str(), ';');
            proof {
                crate::text::lemma_split_nonempty(text@, ';');
                assert(crate::text::texts(pieces@)[0] == pieces@[0]@);
            }
            let media = ascii_lowercase(trim_text(pieces[0].as_str()).as_str());
            text_eq(media.as_str(), "application/json") || (text_has_prefix(media.as_str(), "application/")
                && text_has_suffix(media.as_str(), "+json"))
        },
        None => false,
    };
    if !supported {
        return Err(RedirectSourceError::new(owned("HTTP source response has an unsupported content type")));
    }
    Ok(())
}

/// The definition that a source's 200 response gives for a lookup: the
/// record must validate and belong to the canonical URL looked up.
pub open spec fn response_definition(raw: crate::source::RawView, key: Seq<char>) -> Result<DefinitionView, Seq<char>> {
    match record_definition(raw) {
        Err(e) => Err(e),
        Ok(d) => if d.canonical_url != key {
            Err("HTTP source response canonical URL does not match the requested key"@)
        } else {
            Ok(d)
        },
    }
}

/// Validates the record of a source response for the canonical URL looked
/// up.
pub fn definition_from_response(raw: RawRedirect, canonical_url: &CanonicalUrl) -> (result: Result<Option<RedirectDefinition>, RedirectSourceError>)
    ensures
        match result {
            Ok(Some(d)) => response_definition(raw@, canonical_url@) == Ok::<DefinitionView, Seq<char>>(d@),
            Ok(None) => false,
            Err(e) => response_definition(raw@, canonical_url@) == Err::<DefinitionView, Seq<char>>(e.spec_message()),
        },
{
    let definition = raw.into_definition()?;
    if !definition.canonical_url.same_key(canonical_url) {
        return Err(RedirectSourceError::new(owned("HTTP source response canonical URL does not match the requested key")));
    }
    Ok(Some(definition))
}

/// The failure of a source request that got no response: a timeout or
/// another transport failure.
pub fn source_transport_error(is_timeout: bool) -> (error: RedirectSourceError)
    ensures
        error.spec_message() == if is_timeout {
            "HTTP source timeout error"@
        } else {
            "HTTP source transport error"@
        },
{
    if is_timeout {
        RedirectSourceError::new(owned("HTTP source timeout error"))
    } else {
        RedirectSourceError::new(owned("HTTP source transport error"))
    }
}

/// The posting side of an event sink that delivers over HTTP.
pub struct HttpRedirectEventSink {
    endpoint: HttpEndpointConfig,
}

impl HttpRedirectEventSink {
    /// The endpoint, as plain values.
    pub closed spec fn endpoint_view(&self) -> EndpointView {
        self.endpoint@
    }

    /// Checks an endpoint for an event sink: its static headers must leave
    /// the client's headers, `content-type` and `user-agent` alone.
    pub fn new(endpoint: HttpEndpointConfig) -> (result: Result<HttpRedirectEventSink, HttpAdapterConfigError>)
        ensures
            match first_held(connection_headers() + seq!["content-type"@, "user-agent"@], endpoint@.static_headers) {
                None => result matches Ok(s) && s.endpoint_view() == endpoint@,
                Some(name) => result matches Err(e) && e.spec_message() == "HTTP static header "@ + name
                    + " is controlled by Compactor"@,
            },
    {
        let reserved: Vec<&str> = vec!["content-type", "user-agent"];
        proof {
            reveal_strlit("content-type");
            reveal_strlit("user-agent");
            assert(str_views(reserved@) =~= seq!["content-type"@, "user-agent"@]);
        }
        validate_reserved_headers(endpoint.static_headers(), reserved.as_slice())?;
        Ok(HttpRedirectEventSink { endpoint })
    }

    /// The endpoint that events are posted to.
    pub fn endpoint_config(&self) -> (endpoint: &HttpEndpointConfig)
        ensures
            endpoint@ == self.endpoint_view(),
    {
        &self.endpoint
    }
}

/// Accepts any 2xx status of an event delivery; anything else is a
/// failure, which is never retried.
pub fn sink_status_outcome(status: u16) -> (outcome: Result<(), RedirectEventSinkError>)
    ensures
        match outcome {
            Ok(()) => 200 <= status <= 299,
            Err(e) => !(200 <= status <= 299) && e.spec_message() == "HTTP event sink returned unsuccessful status "@
                + decimal_text(status as nat),
        },
{
    if 200 <= status && status <= 299 {
        return Ok(());
    }
    let mut message = owned("HTTP event sink returned unsuccessful status ");
    message.append(u16_text(status).as_str());
    Err(RedirectEventSinkError::new(message))
}

/// The failure of an event delivery that got no response.
pub fn sink_transport_error(is_timeout: bool) -> (error: RedirectEventSinkError)
    ensures
        error.spec_message() == if is_timeout {
            "HTTP event sink timeout error"@
        } else {
            "HTTP event sink transport error"@
        },
{
    if is_timeout {
        RedirectEventSinkError::new(owned("HTTP event sink timeout error"))
    } else {
        RedirectEventSinkError::new(owned("HTTP event sink transport error"))
    }
}

} // verus!
