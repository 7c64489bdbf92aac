use vstd::prelude::*;

use crate::fields::{header_name_of, parse_header_name, parse_header_value, valid_header_value};
use crate::text::{ascii_lower, debug_quoted, debug_text, is_blank, join2, join3, opt_text, text_eq};
use crate::string_map::map_entries;
use crate::spelling::{free_of_query_marks, path_encoded, spelled_path, url_input};
use crate::web_url::{url_host, url_parsed, url_password, url_port, url_scheme, url_username, web_host, WebUrl};

verus! {

/// The query-free normalized lookup identity of a public URL.
///
/// Two values are equal exactly when their text is equal.
#[derive(Debug, Hash)]
pub struct CanonicalUrl {
    value: String,
}

/// The text of a lookup key made of its parts.
pub open spec fn key_text(scheme: Seq<char>, host: Seq<char>, port: Option<u16>, path: Seq<char>) -> Seq<char> {
    scheme + "://"@ + host + port_suffix(port) + path
}

/// The shape of every lookup key: `http://` or `https://`; a host that is
/// not empty, lowercase ASCII and free of `/`, `?`, `#` and `@` (so no
/// user information); a port only when it is not the scheme's default
/// (80 for http, 443 for https); and a path that begins with `/` and holds
/// neither `?` nor `#` (no query, no fragment).
pub open spec fn canonical_shape(c: Seq<char>) -> bool {
    exists|scheme: Seq<char>, host: Seq<char>, port: Option<u16>, path: Seq<char>|
        #[trigger] key_text(scheme, host, port, path) == c && {
            &&& (scheme == "http"@ && port != Some(80u16)) || (scheme == "https"@ && port != Some(443u16))
            &&& web_host(host)
            &&& path.len() > 0
            &&& path[0] == '/'
            &&& free_of_query_marks(path)
        }
}

impl CanonicalUrl {
    /// Every canonical URL has the shape of a lookup key.
    #[verifier::type_invariant]
    spec fn shaped(self) -> bool {
        canonical_shape(self.value@)
    }
}

impl View for CanonicalUrl {
    type V = Seq<char>;

    closed spec fn view(&self) -> Seq<char> {
        self.value@
    }
}

impl Clone for CanonicalUrl {
    fn clone(&self) -> (copy: Self)
        ensures
            copy@ == self@,
    {
        proof {
            use_type_invariant(self);
        }
        CanonicalUrl { value: self.value.clone() }
    }
}

impl PartialEq for CanonicalUrl {
    fn eq(&self, other: &Self) -> (same: bool) {
        self.value == other.value
    }
}

impl Eq for CanonicalUrl {
}

impl vstd::std_specs::cmp::PartialEqSpecImpl for CanonicalUrl {
    open spec fn obeys_eq_spec() -> bool {
        true
    }

    open spec fn eq_spec(&self, other: &Self) -> bool {
        self@ == other@
    }
}

/// Why a parsed URL with these parts cannot be a canonical URL: its scheme
/// must be http or https, it must have a host, and it must not carry user
/// information.
pub open spec fn canonical_rejection(
    scheme: Seq<char>,
    has_host: bool,
    username: Seq<char>,
    has_password: bool,
) -> Option<Seq<char>> {
    if scheme != "http"@ && scheme != "https"@ {
        Some("canonical URL scheme must be http or https"@)
    } else if !has_host {
        Some("canonical URL must include a host"@)
    } else if username.len() != 0 || has_password {
        Some("canonical URL must not contain user information"@)
    } else {
        None
    }
}

/// Checks the parts of a parsed URL against the canonical URL rules.
pub fn check_canonical_parts(scheme: &str, has_host: bool, username: &str, has_password: bool) -> (rejection: Option<String>)
    ensures
        opt_text(rejection) == canonical_rejection(scheme@, has_host, username@, has_password),
{
    proof {
        reveal_strlit("http");
        reveal_strlit("https");
    }
    if !text_eq(scheme, "http") && !text_eq(scheme, "https") {
        return Some("canonical URL scheme must be http or https".to_string());
    }
    if !has_host {
        return Some("canonical URL must include a host".to_string());
    }
    if username.unicode_len() != 0 || has_password {
        return Some("canonical URL must not contain user information".to_string());
    }
    None
}

/// The `:port` suffix of an explicit, non-default port.
pub open spec fn port_suffix(port: Option<u16>) -> Seq<char> {
    match port {
        Some(p) => ":"@ + crate::text::decimal_text(p as nat),
        None => Seq::empty(),
    }
}

/// The canonical text of an input URL. The URL parser supplies scheme and
/// host in lowercase and drops a default port; the path is the input's own
/// spelling, up to query or fragment, percent-encoded as URL parsing
/// encodes a path, with an empty path written as `/`. Case, trailing
/// slashes, repeated separators, dot segments and existing percent-escapes
/// of the path are kept as written; a backslash, whose reading is
/// ambiguous, is refused.
pub open spec fn canonical_form(input: Seq<char>) -> Result<Seq<char>, Seq<char>> {
    if crate::text::has_char(input, '\\') {
        Err("canonical URL must not contain a backslash"@)
    } else {
        match url_parsed(input) {
            Err(e) => Err("invalid canonical URL: "@ + e),
            Ok(u) => match canonical_rejection(url_scheme(u), url_host(u) is Some, url_username(u), url_password(u) is Some) {
                Some(e) => Err(e),
                None => {
                    let path = path_encoded(spelled_path(url_input(input)));
                    Ok(
                        url_scheme(u) + "://"@ + url_host(u)->Some_0 + port_suffix(url_port(u)) + if path.len() == 0 {
                            "/"@
                        } else {
                            path
                        },
                    )
                },
            },
        }
    }
}

impl CanonicalUrl {
    /// Parses and normalizes a public URL into its lookup identity.
    pub fn parse(input: &str) -> (parsed: Result<CanonicalUrl, String>)
        ensures
            match parsed {
                Ok(c) => canonical_form(input@) == Ok::<Seq<char>, Seq<char>>(c@) && canonical_shape(c@),
                Err(e) => canonical_form(input@) == Err::<Seq<char>, Seq<char>>(e@),
            },
    {
        if crate::text::text_has_char(input, '\\') {
            return Err(crate::text::owned("canonical URL must not contain a backslash"));
        }
        let url = match WebUrl::parse(input) {
            Ok(url) => url,
            Err(error) => {
                return Err(join2("invalid canonical URL: ", error.as_str()));
            },
        };
        let scheme = url.scheme();
        let host = url.host_str();
        let username = url.username();
        let has_password = url.password().is_some();
        if let Some(rejection) = check_canonical_parts(scheme.as_str(), host.is_some(), username.as_str(), has_password) {
            return Err(rejection);
        }
        let host = match host {
            Some(h) => h,
            None => {
                return Err(crate::text::owned("canonical URL must include a host"));
            },
        };
        let mut text = join3(scheme.as_str(), "://", host.as_str());
        proof {
            reveal_strlit(":");
            reveal_strlit("/");
            reveal_strlit("");
        }
        let ghost prefix = text@;
        match url.port() {
            Some(port) => {
                text.append(":");
                text.append(crate::text::u16_text(port).as_str());
            },
            None => {
                assert(prefix + port_suffix(None) =~= prefix);
            },
        }
        assert(text@ =~= prefix + port_suffix(url_port(url@)));
        let ghost with_port = text@;
        let spelled = crate::spelling::path_encoded_text(
            crate::spelling::spelled_path_text(crate::spelling::url_input_text(input).as_str()).as_str(),
        );
        if spelled.as_str().unicode_len() == 0 {
            text.append("/");
        } else {
            text.append(spelled.as_str());
        }
        assert(text@ =~= with_port + if spelled@.len() == 0 {
            "/"@
        } else {
            spelled@
        });
        proof {
            let raw = spelled_path(url_input(input@));
            crate::spelling::law_path_encoding_keeps_path_shape(raw);
            crate::spelling::law_spelled_path_starts_with_slash(url_input(input@));
            let path = if spelled@.len() == 0 {
                "/"@
            } else {
                spelled@
            };
            assert(free_of_query_marks("/"@));
            assert(key_text(scheme@, host@, url_port(url@), path) =~= text@);
        }
        Ok(CanonicalUrl { value: text })
    }

    /// The canonical text, such as `https://example.com/docs`.
    pub fn as_str(&self) -> (text: &str)
        ensures
            text@ == self@,
            canonical_shape(text@),
    {
        proof {
            use_type_invariant(self);
        }
        self.value.as_str()
    }

    /// Whether two canonical URLs denote the same lookup key.
    pub fn same_key(&self, other: &CanonicalUrl) -> (same: bool)
        ensures
            same == (self@ == other@),
    {
        self.value == other.value
    }
}

/// A stable, opaque, source-owned redirect identity; never blank.
#[derive(Debug, Hash)]
pub struct RedirectId {
    value: String,
}

impl View for RedirectId {
    type V = Seq<char>;

    closed spec fn view(&self) -> Seq<char> {
        self.value@
    }
}

impl Clone for RedirectId {
    fn clone(&self) -> (copy: Self)
        ensures
            copy@ == self@,
    {
        RedirectId { value: self.value.clone() }
    }
}

impl PartialEq for RedirectId {
    fn eq(&self, other: &Self) -> (same: bool) {
        self.value == other.value
    }
}

impl Eq for RedirectId {
}

impl vstd::std_specs::cmp::PartialEqSpecImpl for RedirectId {
    open spec fn obeys_eq_spec() -> bool {
        true
    }

    open spec fn eq_spec(&self, other: &Self) -> bool {
        self@ == other@
    }
}

impl RedirectId {
    /// Accepts any text that is not empty after trimming white space; the
    /// text is kept as given.
    pub fn new(value: String) -> (result: Result<RedirectId, String>)
        ensures
            is_blank(value@) <==> result is Err,
            result matches Ok(id) ==> id@ == value@,
            result matches Err(message) ==> message@ == "redirect ID must not be empty"@,
    {
        if crate::text::str_is_blank(value.as_str()) {
            return Err("redirect ID must not be empty".to_string());
        }
        Ok(RedirectId { value })
    }

    /// The identity's text.
    pub fn as_str(&self) -> (text: &str)
        ensures
            text@ == self@,
    {
        self.value.as_str()
    }
}

/// The redirect statuses that a definition may configure.
#[derive(Debug, Clone, Copy, PartialEq, Eq, Structural)]
pub enum RedirectStatus {
    MovedPermanently,
    Found,
    SeeOther,
    TemporaryRedirect,
    PermanentRedirect,
}

/// The numeric HTTP status of each redirect status.
pub open spec fn status_code_of(status: RedirectStatus) -> u16 {
    match status {
        RedirectStatus::MovedPermanently => 301,
        RedirectStatus::Found => 302,
        RedirectStatus::SeeOther => 303,
        RedirectStatus::TemporaryRedirect => 307,
        RedirectStatus::PermanentRedirect => 308,
    }
}

/// The redirect status with a given numeric code, if it is supported.
pub open spec fn status_from_code(code: u16) -> Option<RedirectStatus> {
    if code == 301 {
        Some(RedirectStatus::MovedPermanently)
    } else if code == 302 {
        Some(RedirectStatus::Found)
    } else if code == 303 {
        Some(RedirectStatus::SeeOther)
    } else if code == 307 {
        Some(RedirectStatus::TemporaryRedirect)
    } else if code == 308 {
        Some(RedirectStatus::PermanentRedirect)
    } else {
        None
    }
}

impl RedirectStatus {
    /// The numeric HTTP status.
    pub fn as_u16(self) -> (code: u16)
        ensures
            code == status_code_of(self),
    {
        match self {
            RedirectStatus::MovedPermanently => 301,
            RedirectStatus::Found => 302,
            RedirectStatus::SeeOther => 303,
            RedirectStatus::TemporaryRedirect => 307,
            RedirectStatus::PermanentRedirect => 308,
        }
    }

    /// The status for a numeric code; any code but 301, 302, 303, 307 and 308
    /// is refused.
    pub fn try_from(value: u16) -> (result: Result<RedirectStatus, String>)
        ensures
            status_from_code(value) matches Some(s) ==> result == Ok::<RedirectStatus, String>(s),
            status_from_code(value) is None ==> (result matches Err(e) && e@
                == "unsupported redirect status code "@ + crate::text::decimal_text(value as nat)),
    {
        match value {
            301 => Ok(RedirectStatus::MovedPermanently),
            302 => Ok(RedirectStatus::Found),
            303 => Ok(RedirectStatus::SeeOther),
            307 => Ok(RedirectStatus::TemporaryRedirect),
            308 => Ok(RedirectStatus::PermanentRedirect),
            _ => {
                let mut message = crate::text::owned("unsupported redirect status code ");
                message.append(crate::text::u16_text(value).as_str());
                Err(message)
            },
        }
    }
}

/// Response headers that a definition configures: valid HTTP names (in
/// their lowercase normal form) and values, none of them protocol-owned.
#[derive(Debug)]
pub struct ResponseHeaders {
    entries: Vec<(String, String)>,
}

/// The text of a list of name/value pairs.
pub open spec fn pairs_view(pairs: Seq<(String, String)>) -> Seq<(Seq<char>, Seq<char>)> {
    pairs.map_values(|p: (String, String)| (p.0@, p.1@))
}

impl View for ResponseHeaders {
    type V = Seq<(Seq<char>, Seq<char>)>;

    closed spec fn view(&self) -> Seq<(Seq<char>, Seq<char>)> {
        pairs_view(self.entries@)
    }
}

/// A copy of a list of text pairs.
pub fn copy_pairs(pairs: &[(String, String)]) -> (copy: Vec<(String, String)>)
    ensures
        pairs_view(copy@) == pairs_view(pairs@),
{
    let mut copy: Vec<(String, String)> = Vec::new();
    for i in 0..pairs.len()
        invariant
            copy@.len() == i,
            forall|j: int|
                0 <= j < i ==> (#[trigger] copy@[j]).0@ == pairs@[j].0@ && copy@[j].1@ == pairs@[j].1@,
    {
        let name = pairs[i].0.clone();
        let value = pairs[i].1.clone();
        copy.push((name, value));
    }
    assert(pairs_view(copy@) =~= pairs_view(pairs@));
    copy
}

impl Clone for ResponseHeaders {
    fn clone(&self) -> (copy: Self)
        ensures
            copy@ == self@,
    {
        ResponseHeaders { entries: copy_pairs(self.entries.as_slice()) }
    }
}

/// The header names that the service itself controls on a redirect.
pub open spec fn prohibited_name(name: Seq<char>) -> bool {
    ||| name == "location"@
    ||| name == "content-length"@
    ||| name == "connection"@
    ||| name == "transfer-encoding"@
    ||| name == "date"@
    ||| name == "server"@
}

/// Whether a normalized header name is controlled by the service.
pub fn is_prohibited(name: &str) -> (prohibited: bool)
    ensures
        prohibited == prohibited_name(name@),
{
    proof {
        reveal_strlit("location");
        reveal_strlit("content-length");
        reveal_strlit("connection");
        reveal_strlit("transfer-encoding");
        reveal_strlit("date");
        reveal_strlit("server");
    }
    text_eq(name, "location") || text_eq(name, "content-length") || text_eq(name, "connection")
        || text_eq(name, "transfer-encoding") || text_eq(name, "date") || text_eq(name, "server")
}

/// One configured header checked: its name normalized, not controlled by
/// the service, and its value valid.
pub open spec fn checked_header(name: Seq<char>, value: Seq<char>) -> Result<(Seq<char>, Seq<char>), Seq<char>> {
    match header_name_of(name) {
        None => Err("malformed response header name "@ + debug_text(name) + ": invalid HTTP header name"@),
        Some(n) => if prohibited_name(n) {
            Err("response header "@ + n + " is controlled by Compactor"@)
        } else if !valid_header_value(value) {
            Err("malformed value for response header "@ + n + ": failed to parse header value"@)
        } else {
            Ok((n, value))
        },
    }
}

/// The configured headers checked in order; the first failure stops.
pub open spec fn checked_headers(pairs: Seq<(Seq<char>, Seq<char>)>) -> Result<Seq<(Seq<char>, Seq<char>)>, Seq<char>>
    decreases pairs.len(),
{
    if pairs.len() == 0 {
        Ok(Seq::empty())
    } else {
        match checked_headers(pairs.drop_last()) {
            Err(e) => Err(e),
            Ok(done) => match checked_header(pairs.last().0, pairs.last().1) {
                Err(e) => Err(e),
                Ok(p) => Ok(done.push(p)),
            },
        }
    }
}

proof fn lemma_checked_error_sticks(pairs: Seq<(Seq<char>, Seq<char>)>, i: int)
    requires
        0 <= i <= pairs.len(),
        checked_headers(pairs.take(i)) is Err,
    ensures
        checked_headers(pairs) == checked_headers(pairs.take(i)),
    decreases pairs.len() - i,
{
    if i < pairs.len() {
        assert(pairs.take(i + 1).drop_last() =~= pairs.take(i));
        lemma_checked_error_sticks(pairs, i + 1);
    } else {
        assert(pairs.take(i) =~= pairs);
    }
}

/// Every kept header has a normalized name that the service does not
/// control, and a valid value.
pub open spec fn acceptable_headers(headers: Seq<(Seq<char>, Seq<char>)>) -> bool {
    forall|i: int|
        0 <= i < headers.len() ==> {
            &&& header_name_of((#[trigger] headers[i]).0) == Some(headers[i].0)
            &&& !prohibited_name(headers[i].0)
            &&& valid_header_value(headers[i].1)
        }
}

impl ResponseHeaders {
    /// Validates configured response headers. The pairs are taken as the
    /// string map they make (a later value of a name wins), and its entries
    /// are checked and kept in name order.
    pub fn try_from_strings(pairs: Vec<(String, String)>) -> (result: Result<ResponseHeaders, String>)
        ensures
            match result {
                Ok(h) => checked_headers(map_entries(pairs_view(pairs@))) == Ok::<Seq<(Seq<char>, Seq<char>)>, Seq<char>>(
                    h@,
                ),
                Err(e) => checked_headers(map_entries(pairs_view(pairs@))) == Err::<Seq<(Seq<char>, Seq<char>)>, Seq<char>>(
                    e@,
                ),
            },
    {
        let headers = crate::string_map::map_entries_of(&pairs);
        let ghost input = pairs_view(headers@);
        let mut validated: Vec<(String, String)> = Vec::new();
        assert(input.take(0) =~= Seq::<(Seq<char>, Seq<char>)>::empty());
        assert(pairs_view(validated@) =~= Seq::<(Seq<char>, Seq<char>)>::empty());
        for i in 0..headers.len()
            invariant
                input == pairs_view(headers@),
                input == map_entries(pairs_view(pairs@)),
                checked_headers(input.take(i as int)) == Ok::<Seq<(Seq<char>, Seq<char>)>, Seq<char>>(pairs_view(validated@)),
        {
            proof {
                assert(input.take(i + 1).drop_last() =~= input.take(i as int));
                assert(input.take(i + 1).last() == (headers@[i as int].0@, headers@[i as int].1@));
            }
            let name = &headers[i].0;
            let value = &headers[i].1;
            let normalized = match parse_header_name(name.as_str()) {
                Ok(n) => n,
                Err(error) => {
                    let quoted = debug_quoted(name.as_str());
                    let mut message = join3("malformed response header name ", quoted.as_str(), ": ");
                    message.append(error.as_str());
                    proof {
                        reveal_strlit("invalid HTTP header name");
                        reveal_strlit(": invalid HTTP header name");
                        reveal_strlit(": ");
                        assert(message@ == "malformed response header name "@ + debug_text(name@) + ": invalid HTTP header name"@);
                        lemma_checked_error_sticks(input, i + 1);
                    }
                    return Err(message);
                },
            };
            if is_prohibited(normalized.as_str()) {
                proof {
                    lemma_checked_error_sticks(input, i + 1);
                }
                return Err(join3("response header ", normalized.as_str(), " is controlled by Compactor"));
            }
            let checked = match parse_header_value(value.as_str()) {
                Ok(v) => v,
                Err(error) => {
                    let mut message = join3("malformed value for response header ", normalized.as_str(), ": ");
                    message.append(error.as_str());
                    proof {
                        reveal_strlit("failed to parse header value");
                        reveal_strlit(": failed to parse header value");
                        reveal_strlit(": ");
                        assert(message@ == "malformed value for response header "@ + normalized@ + ": failed to parse header value"@);
                        lemma_checked_error_sticks(input, i + 1);
                    }
                    return Err(message);
                },
            };
            let ghost before = validated@;
            validated.push((normalized, checked));
            proof {
                assert(pairs_view(validated@) =~= pairs_view(before).push((normalized@, checked@)));
            }
        }
        assert(input.take(headers@.len() as int) =~= input);
        Ok(ResponseHeaders { entries: validated })
    }

    /// No configured headers.
    pub fn empty() -> (headers: Self)
        ensures
            headers@ == Seq::<(Seq<char>, Seq<char>)>::empty(),
    {
        let headers = ResponseHeaders { entries: Vec::new() };
        assert(headers@ =~= Seq::<(Seq<char>, Seq<char>)>::empty());
        headers
    }

    /// The configured headers as (lowercase name, value) pairs, in order.
    pub fn iter(&self) -> (pairs: &[(String, String)])
        ensures
            pairs_view(pairs@) == self@,
    {
        self.entries.as_slice()
    }
}

/// A validated redirect definition, as a source hands it out.
#[derive(Debug)]
pub struct RedirectDefinition {
    pub id: RedirectId,
    pub canonical_url: CanonicalUrl,
    /// The absolute destination.
    pub redirect_url: WebUrl,
    pub status_code: RedirectStatus,
    pub response_headers: ResponseHeaders,
}

/// What a redirect definition holds, as plain values.
pub struct DefinitionView {
    pub id: Seq<char>,
    pub canonical_url: Seq<char>,
    pub redirect_url: Seq<char>,
    pub status_code: RedirectStatus,
    pub response_headers: Seq<(Seq<char>, Seq<char>)>,
}

impl View for RedirectDefinition {
    type V = DefinitionView;

    open spec fn view(&self) -> DefinitionView {
        DefinitionView {
            id: self.id@,
            canonical_url: self.canonical_url@,
            redirect_url: self.redirect_url@,
            status_code: self.status_code,
            response_headers: self.response_headers@,
        }
    }
}

impl Clone for RedirectDefinition {
    fn clone(&self) -> (copy: Self)
        ensures
            copy@ == self@,
    {
        RedirectDefinition {
            id: self.id.clone(),
            canonical_url: self.canonical_url.clone(),
            redirect_url: self.redirect_url.clone(),
            status_code: self.status_code,
            response_headers: self.response_headers.clone(),
        }
    }
}

/// Every supported status survives the trip through its numeric code, and
/// every accepted code is the code of the status it gives.
pub proof fn status_code_round_trip(status: RedirectStatus, code: u16)
    ensures
        status_from_code(status_code_of(status)) == Some(status),
        status_from_code(code) matches Some(s) ==> status_code_of(s) == code,
{
}

/// Validated response headers never hold a name that the service
/// controls: every kept header has a normalized, valid name outside
/// `location`, `content-length`, `connection`, `transfer-encoding`, `date`
/// and `server`, and a valid value.
pub proof fn law_validated_headers_are_acceptable(pairs: Seq<(Seq<char>, Seq<char>)>)
    ensures
        checked_headers(pairs) matches Ok(h) ==> acceptable_headers(h),
    decreases pairs.len(),
{
    if pairs.len() > 0 {
        law_validated_headers_are_acceptable(pairs.drop_last());
        if let Ok(h) = checked_headers(pairs) {
            let done = checked_headers(pairs.drop_last())->Ok_0;
            let name = pairs.last().0;
            let n = header_name_of(name)->Some_0;
            assert(h == done.push((n, pairs.last().1)));
            assert(ascii_lower(n) == n) by {
                crate::text::lemma_ascii_lower_idempotent(name);
            }
            assert forall|i: int| 0 <= i < h.len() implies {
                &&& header_name_of((#[trigger] h[i]).0) == Some(h[i].0)
                &&& !prohibited_name(h[i].0)
                &&& valid_header_value(h[i].1)
            } by {
                if i < done.len() {
                    assert(h[i] == done[i]);
                } else {
                    lemma_normalized_name_is_fixed(name);
                }
            }
        }
    }
}

/// A normalized header name normalizes to itself.
proof fn lemma_normalized_name_is_fixed(name: Seq<char>)
    requires
        header_name_of(name) is Some,
    ensures
        header_name_of(header_name_of(name)->Some_0) == header_name_of(name),
{
    let n = ascii_lower(name);
    crate::text::lemma_ascii_lower_idempotent(name);
    assert(n.len() == name.len());
    assert forall|i: int| 0 <= i < n.len() implies crate::fields::is_token_char(#[trigger] n[i]) by {
        assert(crate::fields::is_token_char(name[i]));
        crate::text::lemma_ascii_lower_char(name[i]);
    }
}

/// Every canonical URL names an http or https resource: its text begins
/// with `http://` or `https://`, and what follows the host is a path
/// without query or fragment (at least `/`).
pub proof fn law_canonical_urls_are_web_paths(input: Seq<char>)
    ensures
        canonical_form(input) matches Ok(c) ==> (crate::text::has_prefix(c, "http://"@) || crate::text::has_prefix(
            c,
            "https://"@,
        )),
        free_of_query_marks(path_encoded(spelled_path(url_input(input)))),
{
    crate::spelling::law_path_encoding_keeps_path_shape(spelled_path(url_input(input)));
    if let Ok(c) = canonical_form(input) {
        let u = url_parsed(input)->Ok_0;
        let scheme = url_scheme(u);
        reveal_strlit("http");
        reveal_strlit("https");
        reveal_strlit("://");
        reveal_strlit("http://");
        reveal_strlit("https://");
        let head = scheme + "://"@;
        assert(c.subrange(0, head.len() as int) =~= head);
        if scheme == "http"@ {
            assert(head =~= "http://"@);
        } else {
            assert(head =~= "https://"@);
        }
    }
}

impl core::str::FromStr for CanonicalUrl {
    type Err = String;

    fn from_str(value: &str) -> (parsed: Result<CanonicalUrl, String>)
        ensures
            match parsed {
                Ok(c) => canonical_form(value@) == Ok::<Seq<char>, Seq<char>>(c@) && canonical_shape(c@),
                Err(e) => canonical_form(value@) == Err::<Seq<char>, Seq<char>>(e@),
            },
    {
        CanonicalUrl::parse(value)
    }
}

} // verus!
