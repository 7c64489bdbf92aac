use vstd::prelude::*;

use crate::adapter::{lemma_upsert_contents, store_header, unique_names, upsert};
use crate::cache::{resolution_view, Resolution};
use crate::fields::{parse_header_value, valid_header_value};
use crate::forwarding::{authority_rejection, check_authority, request_metadata, resolve_request_metadata, ProxyConfig};
use crate::headers::{
    captured_headers, capture_headers, header_text, header_text_of, take_at_most, truncate_ascii,
    HeaderCaptureLimits, HeaderList,
};
use vstd::utf8::is_ascii_chars;
use crate::ip::{ip_address_display, ip_address_text, IpAddress};
use crate::redirect::{canonical_form, pairs_view, status_code_of, CanonicalUrl, DefinitionView, RedirectId};
use crate::text::{ascii_lower, ascii_lowercase, join3, opt_text, owned, text_eq};
use crate::web_url::{url_query, url_with_query, WebUrl};

verus! {

/// How a request ended, as its event records it.
#[derive(Debug, Clone, Copy, PartialEq, Eq, Structural)]
pub enum RedirectOutcome {
    Redirected,
    NotFound,
    InvalidRequest,
    SourceError,
}

/// The characters of a ULID text (Crockford's base 32).
pub open spec fn is_ulid_char(c: char) -> bool {
    ||| ('0' <= c && c <= '9')
    ||| ('A' <= c && c <= 'Z' && c != 'I' && c != 'L' && c != 'O' && c != 'U')
}

/// A unique, time-ordered event identity.
#[derive(Debug)]
pub struct EventId {
    value: String,
}

impl View for EventId {
    type V = Seq<char>;

    closed spec fn view(&self) -> Seq<char> {
        self.value@
    }
}

impl EventId {
    /// A fresh ULID (`ulid::Ulid::new`, then `to_string`): 26 characters
    /// of Crockford's base 32, as the crate's encoder writes them. Which
    /// ULID comes out depends on the clock and on chance.
    #[verifier::external_body]
    pub fn generate() -> (id: EventId)
        ensures
            id@.len() == 26,
            forall|i: int| 0 <= i < 26 ==> is_ulid_char(#[trigger] id@[i]),
    {
        EventId { value: ulid::Ulid::new().to_string() }
    }

    /// The identity's text.
    pub fn as_str(&self) -> (text: &str)
        ensures
            text@ == self@,
    {
        self.value.as_str()
    }
}

/// Who made a request.
#[derive(Debug)]
pub struct ClientInfo {
    pub address: Option<String>,
    pub user_agent: Option<String>,
}

/// What was requested.
#[derive(Debug)]
pub struct RequestInfo {
    pub method: String,
    pub scheme: String,
    pub host: String,
    pub path: String,
    pub query: Option<String>,
    pub protocol: String,
    /// Captured headers, in the order they are considered.
    pub headers: Vec<(String, String)>,
}

/// What was answered.
#[derive(Debug)]
pub struct ResponseInfo {
    pub status_code: u16,
    pub location: Option<String>,
}

/// The HTTP versions a request may use.
#[derive(Debug, Clone, Copy, PartialEq, Eq, Structural)]
pub enum HttpVersion {
    Http09,
    Http10,
    Http11,
    Http2,
    Http3,
    Other,
}

/// The protocol name an event records for an HTTP version.
pub open spec fn protocol_of(version: HttpVersion) -> Seq<char> {
    match version {
        HttpVersion::Http09 => "HTTP/0.9"@,
        HttpVersion::Http10 => "HTTP/1.0"@,
        HttpVersion::Http11 => "HTTP/1.1"@,
        HttpVersion::Http2 => "HTTP/2"@,
        HttpVersion::Http3 => "HTTP/3"@,
        HttpVersion::Other => "UNKNOWN"@,
    }
}

/// The protocol name of an HTTP version.
pub fn protocol_name(version: HttpVersion) -> (name: &'static str)
    ensures
        name@ == protocol_of(version),
{
    match version {
        HttpVersion::Http09 => "HTTP/0.9",
        HttpVersion::Http10 => "HTTP/1.0",
        HttpVersion::Http11 => "HTTP/1.1",
        HttpVersion::Http2 => "HTTP/2",
        HttpVersion::Http3 => "HTTP/3",
        HttpVersion::Other => "UNKNOWN",
    }
}

/// A request as it arrives: the request line's parts, the header fields
/// and the peer's address.
#[derive(Debug)]
pub struct IncomingRequest {
    pub method: String,
    /// The scheme of an absolute request target, if any.
    pub uri_scheme: Option<String>,
    /// The authority of an absolute request target, if any.
    pub uri_authority: Option<String>,
    pub path: String,
    pub query: Option<String>,
    pub version: HttpVersion,
    pub headers: HeaderList,
    pub peer: Option<IpAddress>,
}

/// The scheme a request reached the service with: the request target's,
/// lowercased, or `http`.
pub open spec fn direct_scheme_of(uri_scheme: Option<Seq<char>>) -> Seq<char> {
    ascii_lower(
        match uri_scheme {
            Some(s) => s,
            None => "http"@,
        },
    )
}

/// The host a request reached the service with: the request target's
/// authority, else the `Host` header, else nothing.
pub open spec fn direct_host_of(uri_authority: Option<Seq<char>>, fields: Seq<(Seq<char>, Seq<u8>)>) -> Seq<char> {
    match uri_authority {
        Some(a) => a,
        None => match header_text_of(fields, "host"@) {
            Some(h) => h,
            None => Seq::empty(),
        },
    }
}

/// The public scheme, host and client address of a request, and whether
/// its forwarding metadata was acceptable. Unacceptable metadata leaves the
/// direct values and the peer.
pub open spec fn public_identity(
    uri_scheme: Option<Seq<char>>,
    uri_authority: Option<Seq<char>>,
    fields: Seq<(Seq<char>, Seq<u8>)>,
    peer: Option<IpAddress>,
    proxies: Seq<crate::ip::IpNetwork>,
) -> (Seq<char>, Seq<char>, Option<IpAddress>, bool) {
    let scheme = direct_scheme_of(uri_scheme);
    let host = direct_host_of(uri_authority, fields);
    match request_metadata(scheme, host, fields, peer, proxies) {
        Ok((s, h, c)) => (s, h, c, true),
        Err(_) => (scheme, host, peer, false),
    }
}

/// The public identity of an incoming request under a proxy configuration.
pub open spec fn identity_of(incoming: &IncomingRequest, proxy: &ProxyConfig) -> (Seq<char>, Seq<char>, Option<IpAddress>, bool) {
    public_identity(
        opt_text(incoming.uri_scheme),
        opt_text(incoming.uri_authority),
        incoming.headers@,
        incoming.peer,
        proxy.trusted_proxies@,
    )
}

/// What an event records of a request, and whether its metadata was valid.
#[derive(Debug)]
pub struct RequestRecord {
    pub request: RequestInfo,
    pub client: ClientInfo,
    pub metadata_valid: bool,
}

/// Describes a request for its event: its public identity, its captured
/// headers, its user agent cut to the value limit, and its client address
/// when addresses are recorded.
pub fn describe_request(incoming: &IncomingRequest, proxy: &ProxyConfig, limits: HeaderCaptureLimits) -> (record: RequestRecord)
    requires
        proxy.valid(),
        incoming.peer matches Some(p) ==> p.valid(),
    ensures
        record.metadata_valid == identity_of(incoming, proxy).3,
        record.request.method@ == incoming.method@,
        record.request.scheme@ == identity_of(incoming, proxy).0,
        record.request.host@ == identity_of(incoming, proxy).1,
        record.request.path@ == incoming.path@,
        opt_text(record.request.query) == opt_text(incoming.query),
        record.request.protocol@ == protocol_of(incoming.version),
        pairs_view(record.request.headers@) == crate::string_map::map_entries(captured_headers(incoming.headers@, limits)),
        opt_text(record.client.user_agent) == match header_text_of(incoming.headers@, "user-agent"@) {
            Some(t) => Some(take_at_most(t, limits.value_bytes as nat)),
            None => None,
        },
        opt_text(record.client.address) == if proxy.record_client_addresses {
            match identity_of(incoming, proxy).2 {
                Some(a) => Some(ip_address_display(a)),
                None => None,
            }
        } else {
            None
        },
{
    let direct_scheme = match &incoming.uri_scheme {
        Some(s) => ascii_lowercase(s.as_str()),
        None => {
            proof {
                reveal_strlit("http");
            }
            ascii_lowercase("http")
        },
    };
    assert(direct_scheme@ == direct_scheme_of(opt_text(incoming.uri_scheme)));
    let direct_host = match &incoming.uri_authority {
        Some(a) => owned(a.as_str()),
        None => match header_text(&incoming.headers, "host") {
            Some(h) => h,
            None => {
                proof {
                    reveal_strlit("");
                }
                owned("")
            },
        },
    };
    let (scheme, host, client_address, metadata_valid) = match resolve_request_metadata(
        direct_scheme.as_str(),
        direct_host.as_str(),
        &incoming.headers,
        incoming.peer,
        proxy,
    ) {
        Ok(m) => {
            assert(request_metadata(direct_scheme@, direct_host@, incoming.headers@, incoming.peer, proxy.trusted_proxies@) is Ok);
            assert(direct_host@ == direct_host_of(opt_text(incoming.uri_authority), incoming.headers@));
            assert(identity_of(incoming, proxy).3);
            (m.scheme, m.host, m.client_address, true)
        },
        Err(_) => {
            assert(request_metadata(direct_scheme@, direct_host@, incoming.headers@, incoming.peer, proxy.trusted_proxies@) is Err);
            assert(direct_host@ == direct_host_of(opt_text(incoming.uri_authority), incoming.headers@));
            (direct_scheme, direct_host, incoming.peer, false)
        },
    };
    let address = if proxy.record_client_addresses {
        match client_address {
            Some(a) => Some(ip_address_text(&a)),
            None => None,
        }
    } else {
        None
    };
    let user_agent = match header_text(&incoming.headers, "user-agent") {
        Some(text) => {
            proof {
                assert(is_ascii_chars(text@));
            }
            Some(truncate_ascii(text.as_str(), limits.value_bytes))
        },
        None => None,
    };
    let query = match &incoming.query {
        Some(q) => Some(owned(q.as_str())),
        None => None,
    };
    let request = RequestInfo {
        method: owned(incoming.method.as_str()),
        scheme,
        host,
        path: owned(incoming.path.as_str()),
        query,
        protocol: owned(protocol_name(incoming.version)),
        headers: capture_headers(&incoming.headers, limits),
    };
    RequestRecord { request, client: ClientInfo { address, user_agent }, metadata_valid }
}

/// The outcome of a request before it becomes a response.
#[derive(Debug)]
pub struct RequestResult {
    pub status: u16,
    pub outcome: RedirectOutcome,
    pub redirect_id: Option<RedirectId>,
    pub location: Option<WebUrl>,
    pub response_headers: Vec<(String, String)>,
    /// Whether the response lists the allowed methods.
    pub allow: bool,
}

/// A request result as plain values.
pub struct ResultView {
    pub status: u16,
    pub outcome: RedirectOutcome,
    pub redirect_id: Option<Seq<char>>,
    pub location: Option<Seq<char>>,
    pub response_headers: Seq<(Seq<char>, Seq<char>)>,
    pub allow: bool,
}

impl View for RequestResult {
    type V = ResultView;

    open spec fn view(&self) -> ResultView {
        ResultView {
            status: self.status,
            outcome: self.outcome,
            redirect_id: match self.redirect_id {
                Some(id) => Some(id@),
                None => None,
            },
            location: match self.location {
                Some(u) => Some(u@),
                None => None,
            },
            response_headers: pairs_view(self.response_headers@),
            allow: self.allow,
        }
    }
}

/// A result that redirects nowhere.
pub open spec fn error_result(status: u16, outcome: RedirectOutcome) -> ResultView {
    ResultView {
        status,
        outcome,
        redirect_id: None,
        location: None,
        response_headers: Seq::empty(),
        allow: false,
    }
}

/// The result for a method other than GET or HEAD.
pub open spec fn not_allowed_result() -> ResultView {
    ResultView { allow: true, ..error_result(405, RedirectOutcome::InvalidRequest) }
}

impl RequestResult {
    /// A result with a status and an outcome, and nothing else.
    pub fn error(status: u16, outcome: RedirectOutcome) -> (result: RequestResult)
        ensures
            result@ == error_result(status, outcome),
    {
        let result = RequestResult {
            status,
            outcome,
            redirect_id: None,
            location: None,
            response_headers: Vec::new(),
            allow: false,
        };
        assert(result@.response_headers =~= Seq::<(Seq<char>, Seq<char>)>::empty());
        result
    }

    /// The answer to a method other than GET or HEAD: 405, with the allowed
    /// methods listed.
    pub fn method_not_allowed() -> (result: RequestResult)
        ensures
            result@ == not_allowed_result(),
    {
        let mut result = RequestResult::error(405, RedirectOutcome::InvalidRequest);
        result.allow = true;
        result
    }
}

/// The query of a destination after a request's query is appended: both
/// joined by `&` when both are non-empty, else whichever is not empty (the
/// destination's when the request's is empty).
pub open spec fn combined_query(existing: Option<Seq<char>>, incoming: Seq<char>) -> Seq<char> {
    match existing {
        Some(e) => if e.len() > 0 && incoming.len() > 0 {
            e + "&"@ + incoming
        } else if incoming.len() == 0 {
            e
        } else {
            incoming
        },
        None => incoming,
    }
}

/// Combines a destination's query with a request's query.
pub fn query_combination(existing: Option<&str>, incoming: &str) -> (combined: String)
    ensures
        combined@ == combined_query(
            match existing {
                Some(e) => Some(e@),
                None => None,
            },
            incoming@,
        ),
{
    match existing {
        Some(e) => {
            if e.unicode_len() > 0 && incoming.unicode_len() > 0 {
                join3(e, "&", incoming)
            } else if incoming.unicode_len() == 0 {
                owned(e)
            } else {
                owned(incoming)
            }
        },
        None => owned(incoming),
    }
}

/// A destination with a request's query appended, if the request had one.
pub open spec fn appended(destination: Seq<char>, query: Option<Seq<char>>) -> Seq<char> {
    match query {
        None => destination,
        Some(q) => url_with_query(destination, Some(combined_query(url_query(destination), q))),
    }
}

/// Appends a request's query to a destination, keeping the destination's
/// own query first and every pair in order, duplicates included.
pub fn append_query(destination: &mut WebUrl, incoming: Option<&str>)
    ensures
        final(destination)@ == appended(
            old(destination)@,
            match incoming {
                Some(q) => Some(q@),
                None => None,
            },
        ),
{
    let incoming = match incoming {
        Some(q) => q,
        None => {
            return;
        },
    };
    let existing = destination.query();
    let combined = match &existing {
        Some(e) => query_combination(Some(e.as_str()), incoming),
        None => query_combination(None, incoming),
    };
    destination.set_query(Some(combined.as_str()));
}

/// The canonical URL a request looks up: none when its public scheme is
/// not http or https, its host is not a valid authority, or the URL they
/// make with its path does not parse.
pub open spec fn lookup_key(scheme: Seq<char>, host: Seq<char>, path: Seq<char>) -> Option<Seq<char>> {
    if (scheme != "http"@ && scheme != "https"@) || authority_rejection(host) is Some {
        None
    } else {
        match canonical_form(scheme + "://"@ + host + path) {
            Ok(c) => Some(c),
            Err(_) => None,
        }
    }
}

/// What to do with a described request.
#[derive(Debug)]
pub enum RequestPlan {
    /// Answer at once.
    Respond(RequestResult),
    /// Resolve a canonical URL, then answer with what it resolves to.
    Lookup(CanonicalUrl),
}

/// Whether a request's public scheme is http or https and its host is a
/// valid authority.
pub open spec fn origin_valid(scheme: Seq<char>, host: Seq<char>) -> bool {
    (scheme == "http"@ || scheme == "https"@) && authority_rejection(host) is None
}

/// The plan for a request: invalid metadata, or a scheme or authority
/// that does not validate, is a bad request; then a method other than GET
/// or HEAD is not allowed; then a request whose URL does not parse is a
/// bad request; any other looks its key up.
pub open spec fn plan_of(metadata_valid: bool, method: Seq<char>, scheme: Seq<char>, host: Seq<char>, path: Seq<char>) -> Result<
    Seq<char>,
    ResultView,
> {
    if !metadata_valid || !origin_valid(scheme, host) {
        Err(error_result(400, RedirectOutcome::InvalidRequest))
    } else if method != "GET"@ && method != "HEAD"@ {
        Err(not_allowed_result())
    } else {
        match lookup_key(scheme, host, path) {
            None => Err(error_result(400, RedirectOutcome::InvalidRequest)),
            Some(k) => Ok(k),
        }
    }
}

/// Decides what a described request needs.
pub fn plan_request(record: &RequestRecord) -> (plan: RequestPlan)
    ensures
        match plan_of(
            record.metadata_valid,
            record.request.method@,
            record.request.scheme@,
            record.request.host@,
            record.request.path@,
        ) {
            Ok(k) => plan matches RequestPlan::Lookup(c) && c@ == k,
            Err(r) => plan matches RequestPlan::Respond(result) && result@ == r,
        },
{
    if !record.metadata_valid {
        return RequestPlan::Respond(RequestResult::error(400, RedirectOutcome::InvalidRequest));
    }
    proof {
        reveal_strlit("GET");
        reveal_strlit("HEAD");
        reveal_strlit("http");
        reveal_strlit("https");
    }
    let scheme = record.request.scheme.as_str();
    let host = record.request.host.as_str();
    if (!text_eq(scheme, "http") && !text_eq(scheme, "https")) || check_authority(host).is_some() {
        return RequestPlan::Respond(RequestResult::error(400, RedirectOutcome::InvalidRequest));
    }
    let method = record.request.method.as_str();
    if !text_eq(method, "GET") && !text_eq(method, "HEAD") {
        return RequestPlan::Respond(RequestResult::method_not_allowed());
    }
    let mut text = join3(scheme, "://", host);
    text.append(record.request.path.as_str());
    match CanonicalUrl::parse(text.as_str()) {
        Ok(c) => RequestPlan::Lookup(c),
        Err(_) => RequestPlan::Respond(RequestResult::error(400, RedirectOutcome::InvalidRequest)),
    }
}

/// The result of a lookup: a found definition redirects with its status,
/// ID, headers and destination (the request's query appended); a miss is
/// 404; a source failure is 500.
pub open spec fn resolution_result(resolution: Result<Option<DefinitionView>, Seq<char>>, query: Option<Seq<char>>) -> ResultView {
    match resolution {
        Ok(Some(d)) => ResultView {
            status: status_code_of(d.status_code),
            outcome: RedirectOutcome::Redirected,
            redirect_id: Some(d.id),
            location: Some(appended(d.redirect_url, query)),
            response_headers: d.response_headers,
            allow: false,
        },
        Ok(None) => error_result(404, RedirectOutcome::NotFound),
        Err(_) => error_result(500, RedirectOutcome::SourceError),
    }
}

/// Turns what a lookup resolved to into the request's result.
pub fn result_for_resolution(resolution: Resolution, query: Option<&str>) -> (result: RequestResult)
    ensures
        result@ == resolution_result(resolution_view(resolution), opt_text_ref(query)),
{
    match resolution {
        Ok(Some(definition)) => {
            let mut destination = definition.redirect_url;
            append_query(&mut destination, query);
            RequestResult {
                status: definition.status_code.as_u16(),
                outcome: RedirectOutcome::Redirected,
                redirect_id: Some(definition.id),
                location: Some(destination),
                response_headers: crate::redirect::copy_pairs(definition.response_headers.iter()),
                allow: false,
            }
        },
        Ok(None) => RequestResult::error(404, RedirectOutcome::NotFound),
        Err(_) => RequestResult::error(500, RedirectOutcome::SourceError),
    }
}

/// The text of an optional text reference.
pub open spec fn opt_text_ref(o: Option<&str>) -> Option<Seq<char>> {
    match o {
        Some(s) => Some(s@),
        None => None,
    }
}

/// The status and headers of the response to a result.
#[derive(Debug)]
pub struct ResponsePlan {
    pub status: u16,
    pub headers: Vec<(String, String)>,
}

/// Headers stored one after the other, each replacing an earlier value of
/// its name.
pub open spec fn stored_all(headers: Seq<(Seq<char>, Seq<char>)>) -> Seq<(Seq<char>, Seq<char>)>
    decreases headers.len(),
{
    if headers.len() == 0 {
        Seq::empty()
    } else {
        upsert(stored_all(headers.drop_last()), headers.last().0, headers.last().1)
    }
}

/// The response to a result: its configured headers; a `Location` when
/// the destination is a valid header value, else status 500 instead; and
/// `Allow: GET, HEAD` when methods are listed.
pub open spec fn response_of(result: ResultView) -> (u16, Seq<(Seq<char>, Seq<char>)>) {
    let base = stored_all(result.response_headers);
    let (status, with_location) = match result.location {
        Some(l) => if valid_header_value(l) {
            (result.status, upsert(base, "location"@, l))
        } else {
            (500u16, base)
        },
        None => (result.status, base),
    };
    if result.allow {
        (status, upsert(with_location, "allow"@, "GET, HEAD"@))
    } else {
        (status, with_location)
    }
}

/// Plans the response to a result.
pub fn response_plan(result: &RequestResult) -> (plan: ResponsePlan)
    ensures
        (plan.status, pairs_view(plan.headers@)) == response_of(result@),
{
    let ghost configured = pairs_view(result.response_headers@);
    let mut headers: Vec<(String, String)> = Vec::new();
    proof {
        assert(configured.take(0) =~= Seq::<(Seq<char>, Seq<char>)>::empty());
        assert(pairs_view(headers@) =~= Seq::<(Seq<char>, Seq<char>)>::empty());
    }
    for i in 0..result.response_headers.len()
        invariant
            configured == pairs_view(result.response_headers@),
            unique_names(pairs_view(headers@)),
            pairs_view(headers@) == stored_all(configured.take(i as int)),
    {
        proof {
            assert(configured.take(i + 1).drop_last() =~= configured.take(i as int));
            assert(configured.take(i + 1).last() == configured[i as int]);
        }
        let name = owned(result.response_headers[i].0.as_str());
        let value = owned(result.response_headers[i].1.as_str());
        store_header(&mut headers, name, value);
    }
    proof {
        assert(configured.take(configured.len() as int) =~= configured);
        reveal_strlit("location");
        reveal_strlit("allow");
        reveal_strlit("GET, HEAD");
    }
    let mut status = result.status;
    match &result.location {
        Some(location) => match parse_header_value(location.as_str()) {
            Ok(value) => {
                store_header(&mut headers, owned("location"), value);
            },
            Err(_) => {
                status = 500;
            },
        },
        None => {},
    }
    if result.allow {
        store_header(&mut headers, owned("allow"), owned("GET, HEAD"));
    }
    ResponsePlan { status, headers }
}

proof fn lemma_stored_all_unique(headers: Seq<(Seq<char>, Seq<char>)>)
    ensures
        unique_names(stored_all(headers)),
    decreases headers.len(),
{
    if headers.len() == 0 {
        assert(stored_all(headers) =~= Seq::<(Seq<char>, Seq<char>)>::empty());
    } else {
        lemma_stored_all_unique(headers.drop_last());
        lemma_upsert_contents(stored_all(headers.drop_last()), headers.last().0, headers.last().1);
    }
}

/// Configured response headers never replace the `Location` of a
/// redirect: when the destination is a valid header value, the response
/// keeps the result's status and carries exactly one `location` field,
/// whose value is the destination.
pub proof fn law_location_is_the_destination(result: ResultView)
    requires
        result.location matches Some(l) && valid_header_value(l),
    ensures
        response_of(result).0 == result.status,
        unique_names(response_of(result).1),
        exists|i: int| 0 <= i < response_of(result).1.len() && response_of(result).1[i] == ("location"@, result.location->Some_0),
{
    let l = result.location->Some_0;
    let base = stored_all(result.response_headers);
    lemma_stored_all_unique(result.response_headers);
    let with_location = upsert(base, "location"@, l);
    lemma_upsert_contents(base, "location"@, l);
    if result.allow {
        reveal_strlit("allow");
        reveal_strlit("location");
        lemma_upsert_contents(with_location, "allow"@, "GET, HEAD"@);
        let i = choose|i: int| 0 <= i < with_location.len() && with_location[i] == ("location"@, l);
        assert("location"@ != "allow"@) by {
            assert("location"@[0] != "allow"@[0]);
        }
        assert(upsert(with_location, "allow"@, "GET, HEAD"@)[i] == with_location[i]);
    }
}

/// A lookup's result keeps failures apart from misses: only a found
/// definition redirects, with its status (one of 301, 302, 303, 307, 308),
/// its ID and a destination; a miss is a 404 and a source failure a 500,
/// both without redirect ID or destination.
pub proof fn law_lookup_outcomes(resolution: Result<Option<DefinitionView>, Seq<char>>, query: Option<Seq<char>>)
    ensures
        ({
            let r = resolution_result(resolution, query);
            &&& (r.outcome == RedirectOutcome::Redirected) <==> resolution is Ok && resolution->Ok_0 is Some
            &&& (r.redirect_id is Some) <==> (r.outcome == RedirectOutcome::Redirected)
            &&& (r.location is Some) <==> (r.outcome == RedirectOutcome::Redirected)
            &&& r.outcome == RedirectOutcome::Redirected ==> (r.status == 301 || r.status == 302 || r.status == 303
                || r.status == 307 || r.status == 308)
            &&& resolution == Ok::<Option<DefinitionView>, Seq<char>>(None) ==> r.status == 404 && r.outcome
                == RedirectOutcome::NotFound
            &&& resolution is Err ==> r.status == 500 && r.outcome == RedirectOutcome::SourceError
            &&& !r.allow
        }),
{
}

/// A request answered without a lookup redirects nowhere: it carries no
/// redirect ID, no destination and no configured headers, and it is a 400
/// or, for a method other than GET and HEAD, a 405 that lists the allowed
/// methods. Metadata, scheme and authority are checked before the method:
/// a request that fails them is a 400 whatever its method, and a 405 is
/// given only to a request that passes them.
pub proof fn law_immediate_answers_redirect_nowhere(
    metadata_valid: bool,
    method: Seq<char>,
    scheme: Seq<char>,
    host: Seq<char>,
    path: Seq<char>,
)
    ensures
        plan_of(metadata_valid, method, scheme, host, path) matches Err(r) ==> {
            &&& r.redirect_id is None
            &&& r.location is None
            &&& r.response_headers.len() == 0
            &&& r.outcome == RedirectOutcome::InvalidRequest
            &&& (r.status == 400 && !r.allow) || (r.status == 405 && r.allow)
        },
        !metadata_valid || !origin_valid(scheme, host) ==> plan_of(metadata_valid, method, scheme, host, path)
            == Err::<Seq<char>, ResultView>(error_result(400, RedirectOutcome::InvalidRequest)),
        plan_of(metadata_valid, method, scheme, host, path) == Err::<Seq<char>, ResultView>(not_allowed_result())
            ==> metadata_valid && origin_valid(scheme, host) && method != "GET"@ && method != "HEAD"@,
{
}

/// Only GET and HEAD are ever looked up: a request whose metadata, scheme
/// and authority are valid but whose method is anything else is answered
/// 405 with `Allow: GET, HEAD`, and a lookup is planned only for GET or
/// HEAD.
pub proof fn law_only_get_and_head_are_looked_up(
    metadata_valid: bool,
    method: Seq<char>,
    scheme: Seq<char>,
    host: Seq<char>,
    path: Seq<char>,
)
    ensures
        plan_of(metadata_valid, method, scheme, host, path) is Ok ==> method == "GET"@ || method == "HEAD"@,
        metadata_valid && origin_valid(scheme, host) && method != "GET"@ && method != "HEAD"@ ==> plan_of(
            metadata_valid,
            method,
            scheme,
            host,
            path,
        ) == Err::<Seq<char>, ResultView>(not_allowed_result()),
        not_allowed_result().status == 405 && not_allowed_result().allow && not_allowed_result().outcome
            == RedirectOutcome::InvalidRequest && not_allowed_result().location is None,
{
}

/// A found definition redirects with its own status and to its own
/// destination: 301, 302, 303, 307 or 308 exactly as the definition says,
/// and, without a request query, to the destination as configured.
pub proof fn law_redirect_keeps_the_definitions_status(definition: DefinitionView, query: Option<Seq<char>>)
    ensures
        resolution_result(Ok(Some(definition)), query).status == match definition.status_code {
            crate::redirect::RedirectStatus::MovedPermanently => 301u16,
            crate::redirect::RedirectStatus::Found => 302u16,
            crate::redirect::RedirectStatus::SeeOther => 303u16,
            crate::redirect::RedirectStatus::TemporaryRedirect => 307u16,
            crate::redirect::RedirectStatus::PermanentRedirect => 308u16,
        },
        resolution_result(Ok(Some(definition)), query).outcome == RedirectOutcome::Redirected,
        resolution_result(Ok(Some(definition)), query).redirect_id == Some(definition.id),
        query is None ==> resolution_result(Ok(Some(definition)), query).location == Some(definition.redirect_url),
        resolution_result(Ok(Some(definition)), query).response_headers == definition.response_headers,
        !resolution_result(Ok(Some(definition)), query).allow,
{
}

} // verus!
