use vstd::prelude::*;

use crate::headers::{first_value, header_value, visible_ascii, ascii_chars, visible_text, HeaderList};
use crate::ip::{
    any_contains, ip_address_from_text, networks_contain, parse_ip_address,
    parse_socket_address, socket_address_from_text, IpAddress, IpNetwork,
};
use crate::text::{
    opt_text,
    ascii_lower, ascii_lowercase, debug_quoted, debug_text, ends_with_char, has_char, join2, join3,
    owned, split, split_once, split_once_text, split_text, starts_with_char, strip_char,
    strip_char_text, text_eq, text_ends_with, text_has_char, text_starts_with, texts, trim,
    trim_text,
};

verus! {

/// Which peers may supply forwarding metadata, and whether client addresses
/// are recorded.
#[derive(Debug, Clone)]
pub struct ProxyConfig {
    pub trusted_proxies: Vec<IpNetwork>,
    pub record_client_addresses: bool,
}

impl ProxyConfig {
    /// Every trusted network is well formed.
    pub open spec fn valid(&self) -> bool {
        forall|i: int| 0 <= i < self.trusted_proxies@.len() ==> (#[trigger] self.trusted_proxies@[i]).valid()
    }

    /// Whether every trusted network is well formed, as parsed networks are.
    pub fn networks_valid(&self) -> (valid: bool)
        ensures
            valid == self.valid(),
    {
        for i in 0..self.trusted_proxies.len()
            invariant
                forall|j: int| 0 <= j < i ==> (#[trigger] self.trusted_proxies@[j]).valid(),
        {
            let network = self.trusted_proxies[i];
            let in_range = match network.address.family {
                crate::ip::IpFamily::V4 => network.address.bits < 0x1_0000_0000 && network.prefix_len <= 32,
                crate::ip::IpFamily::V6 => network.prefix_len <= 128,
            };
            if !in_range {
                return false;
            }
        }
        true
    }

    /// Whether an address belongs to a trusted proxy network.
    pub fn is_trusted(&self, address: &IpAddress) -> (trusted: bool)
        requires
            self.valid(),
        ensures
            trusted == any_contains(self.trusted_proxies@, *address),
    {
        networks_contain(&self.trusted_proxies, address)
    }
}

/// The text of a `Forwarded` parameter value: trimmed, and unquoted when
/// quoted. Quotes must pair up, and the value must be non-empty without
/// quotes or backslashes inside.
pub open spec fn forwarded_value(raw: Seq<char>) -> Result<Seq<char>, Seq<char>> {
    let v = trim(raw);
    let starts = starts_with_char(v, '"');
    let ends = ends_with_char(v, '"');
    if starts != ends || (!starts && has_char(v, '"')) {
        Err("malformed quoted Forwarded value"@)
    } else if starts && v.len() < 2 {
        Err("malformed quoted Forwarded value"@)
    } else {
        let inner = if starts {
            v.subrange(1, v.len() - 1)
        } else {
            v
        };
        if inner.len() == 0 || has_char(inner, '"') || has_char(inner, '\\') {
            Err("unsupported quoted Forwarded value"@)
        } else {
            Ok(inner)
        }
    }
}

/// Reads one `Forwarded` parameter value.
pub fn parse_forwarded_value(raw_value: &str) -> (value: Result<String, String>)
    ensures
        match value {
            Ok(v) => forwarded_value(raw_value@) == Ok::<Seq<char>, Seq<char>>(v@),
            Err(e) => forwarded_value(raw_value@) == Err::<Seq<char>, Seq<char>>(e@),
        },
{
    let value = trim_text(raw_value);
    let starts_quote = text_starts_with(value.as_str(), '"');
    let ends_quote = text_ends_with(value.as_str(), '"');
    if starts_quote != ends_quote || (!starts_quote && text_has_char(value.as_str(), '"')) {
        return Err(owned("malformed quoted Forwarded value"));
    }
    let n = value.as_str().unicode_len();
    if starts_quote && n < 2 {
        return Err(owned("malformed quoted Forwarded value"));
    }
    let inner = if starts_quote {
        owned(value.as_str().substring_char(1, n - 1))
    } else {
        value
    };
    if inner.as_str().unicode_len() == 0 || text_has_char(inner.as_str(), '"') || text_has_char(
        inner.as_str(),
        '\\',
    ) {
        return Err(owned("unsupported quoted Forwarded value"));
    }
    Ok(inner)
}

/// The client address that a forwarded identifier names: quotes around it
/// are dropped; `unknown` and obfuscated `_` identifiers are refused; an
/// IP address, a socket address or a bracketed IPv6 address is accepted.
pub open spec fn forwarded_ip(value: Seq<char>) -> Result<IpAddress, Seq<char>> {
    let v = strip_char(value, '"');
    if ascii_lower(v) == "unknown"@ || starts_with_char(v, '_') {
        Err("unsupported forwarded client identifier "@ + debug_text(v))
    } else if ip_address_from_text(v) is Some {
        Ok(ip_address_from_text(v).unwrap())
    } else if socket_address_from_text(v) is Ok {
        Ok(socket_address_from_text(v)->Ok_0.0)
    } else if starts_with_char(v, '[') && ends_with_char(v, ']') && ip_address_from_text(
        v.subrange(1, v.len() - 1),
    ) is Some {
        Ok(ip_address_from_text(v.subrange(1, v.len() - 1)).unwrap())
    } else {
        Err("invalid forwarded client address "@ + debug_text(v))
    }
}

/// Reads the client address of a forwarded identifier.
pub fn parse_forwarded_ip(value: &str) -> (address: Result<IpAddress, String>)
    ensures
        match address {
            Ok(a) => forwarded_ip(value@) == Ok::<IpAddress, Seq<char>>(a) && a.valid(),
            Err(e) => forwarded_ip(value@) == Err::<IpAddress, Seq<char>>(e@),
        },
{
    let v = strip_char_text(value, '"');
    let lowered = ascii_lowercase(v.as_str());
    proof {
        reveal_strlit("unknown");
    }
    if text_eq(lowered.as_str(), "unknown") || text_starts_with(v.as_str(), '_') {
        let quoted = debug_quoted(v.as_str());
        return Err(join2("unsupported forwarded client identifier ", quoted.as_str()));
    }
    if let Some(address) = parse_ip_address(v.as_str()) {
        return Ok(address);
    }
    if let Ok(socket) = parse_socket_address(v.as_str()) {
        return Ok(socket.ip);
    }
    if text_starts_with(v.as_str(), '[') && text_ends_with(v.as_str(), ']') {
        let n = v.as_str().unicode_len();
        let inner = v.as_str().substring_char(1, n - 1);
        if let Some(address) = parse_ip_address(inner) {
            return Ok(address);
        }
    }
    let quoted = debug_quoted(v.as_str());
    Err(join2("invalid forwarded client address ", quoted.as_str()))
}

/// What a `Forwarded` header supplies.
#[derive(Debug)]
pub struct ForwardedValues {
    pub scheme: Option<String>,
    pub host: Option<String>,
    pub addresses: Vec<IpAddress>,
}

/// What a `Forwarded` header supplies, as plain values.
pub struct ForwardedView {
    pub scheme: Option<Seq<char>>,
    pub host: Option<Seq<char>>,
    pub addresses: Seq<IpAddress>,
}

impl View for ForwardedValues {
    type V = ForwardedView;

    open spec fn view(&self) -> ForwardedView {
        ForwardedView {
            scheme: opt_text(self.scheme),
            host: opt_text(self.host),
            addresses: self.addresses@,
        }
    }
}

/// One `name=value` parameter applied to what was read so far: every
/// `for` adds an address; the first `proto` and the first `host` are kept;
/// other names are ignored.
pub open spec fn forwarded_step(acc: ForwardedView, parameter: Seq<char>) -> Result<ForwardedView, Seq<char>> {
    match split_once(trim(parameter), '=') {
        None => Err("malformed Forwarded parameter"@),
        Some((name, raw)) => match forwarded_value(raw) {
            Err(e) => Err(e),
            Ok(value) => {
                let key = ascii_lower(trim(name));
                if key == "for"@ {
                    match forwarded_ip(value) {
                        Err(e) => Err(e),
                        Ok(a) => Ok(ForwardedView { addresses: acc.addresses.push(a), ..acc }),
                    }
                } else if key == "proto"@ && acc.scheme is None {
                    Ok(ForwardedView { scheme: Some(value), ..acc })
                } else if key == "host"@ && acc.host is None {
                    Ok(ForwardedView { host: Some(value), ..acc })
                } else {
                    Ok(acc)
                }
            },
        },
    }
}

/// The parameters applied left to right; the first failure stops.
pub open spec fn forwarded_fold(parameters: Seq<Seq<char>>) -> Result<ForwardedView, Seq<char>>
    decreases parameters.len(),
{
    if parameters.len() == 0 {
        Ok(ForwardedView { scheme: None, host: None, addresses: Seq::empty() })
    } else {
        match forwarded_fold(parameters.drop_last()) {
            Err(e) => Err(e),
            Ok(acc) => forwarded_step(acc, parameters.last()),
        }
    }
}

proof fn lemma_fold_error_sticks(parameters: Seq<Seq<char>>, i: int)
    requires
        0 <= i <= parameters.len(),
        forwarded_fold(parameters.take(i)) is Err,
    ensures
        forwarded_fold(parameters) == forwarded_fold(parameters.take(i)),
    decreases parameters.len() - i,
{
    if i < parameters.len() {
        assert(parameters.take(i + 1).drop_last() =~= parameters.take(i));
        lemma_fold_error_sticks(parameters, i + 1);
    } else {
        assert(parameters.take(i) =~= parameters);
    }
}

/// The parameters of a `Forwarded` value: its comma-separated elements,
/// each split at semicolons.
pub open spec fn forwarded_parameters(text: Seq<char>) -> Seq<Seq<char>> {
    split(text, ',').map_values(|e: Seq<char>| split(e, ';')).flatten()
}

fn collect_parameters(text: &str) -> (parameters: Vec<String>)
    ensures
        texts(parameters@) == forwarded_parameters(text@),
{
    let elements = split_text(text, ',');
    let ghost es = texts(elements@);
    let mut parameters: Vec<String> = Vec::new();
    assert(es.take(0).map_values(|e: Seq<char>| split(e, ';')) =~= Seq::<Seq<Seq<char>>>::empty());
    assert(texts(parameters@) =~= Seq::<Seq<char>>::empty());
    for k in 0..elements.len()
        invariant
            es == texts(elements@),
            texts(parameters@) == es.take(k as int).map_values(|e: Seq<char>| split(e, ';')).flatten(),
    {
        let mut pieces = split_text(elements[k].as_str(), ';');
        let ghost before = texts(parameters@);
        let ghost added = texts(pieces@);
        parameters.append(&mut pieces);
        proof {
            assert(texts(parameters@) =~= before + added);
            let m = es.take(k as int).map_values(|e: Seq<char>| split(e, ';'));
            assert(es.take(k + 1).map_values(|e: Seq<char>| split(e, ';')) =~= m.push(split(es[k as int], ';')));
            m.lemma_flatten_push(split(es[k as int], ';'));
        }
    }
    assert(es.take(elements@.len() as int) =~= es);
    parameters
}

fn apply_parameter(acc: ForwardedValues, parameter: &str) -> (next: Result<ForwardedValues, String>)
    ensures
        match next {
            Ok(v) => forwarded_step(acc@, parameter@) == Ok::<ForwardedView, Seq<char>>(v@),
            Err(e) => forwarded_step(acc@, parameter@) == Err::<ForwardedView, Seq<char>>(e@),
        },
{
    let trimmed = trim_text(parameter);
    let (name, raw) = match split_once_text(trimmed.as_str(), '=') {
        None => {
            return Err(owned("malformed Forwarded parameter"));
        },
        Some(parts) => parts,
    };
    let value = parse_forwarded_value(raw.as_str())?;
    let key = ascii_lowercase(trim_text(name.as_str()).as_str());
    let mut acc = acc;
    proof {
        reveal_strlit("for");
        reveal_strlit("proto");
        reveal_strlit("host");
    }
    if text_eq(key.as_str(), "for") {
        let address = parse_forwarded_ip(value.as_str())?;
        acc.addresses.push(address);
        Ok(acc)
    } else if text_eq(key.as_str(), "proto") && acc.scheme.is_none() {
        acc.scheme = Some(value);
        Ok(acc)
    } else if text_eq(key.as_str(), "host") && acc.host.is_none() {
        acc.host = Some(value);
        Ok(acc)
    } else {
        Ok(acc)
    }
}

/// What the `Forwarded` header of a request supplies: nothing when it is
/// absent; a failure when it is not text, is blank, or holds a malformed
/// parameter.
pub open spec fn forwarded_of(fields: Seq<(Seq<char>, Seq<u8>)>) -> Result<Option<ForwardedView>, Seq<char>> {
    match first_value(fields, "forwarded"@) {
        None => Ok(None),
        Some(bytes) => if !visible_ascii(bytes) {
            Err("Forwarded header is not valid text"@)
        } else if trim(ascii_chars(bytes)).len() == 0 {
            Err("Forwarded header must not be empty"@)
        } else {
            match forwarded_fold(forwarded_parameters(ascii_chars(bytes))) {
                Ok(v) => Ok(Some(v)),
                Err(e) => Err(e),
            }
        },
    }
}

/// Reads the `Forwarded` header of a request.
pub fn parse_forwarded(headers: &HeaderList) -> (parsed: Result<Option<ForwardedValues>, String>)
    ensures
        match parsed {
            Ok(Some(v)) => forwarded_of(headers@) == Ok::<Option<ForwardedView>, Seq<char>>(Some(v@)),
            Ok(None) => forwarded_of(headers@) == Ok::<Option<ForwardedView>, Seq<char>>(None),
            Err(e) => forwarded_of(headers@) == Err::<Option<ForwardedView>, Seq<char>>(e@),
        },
{
    let raw = match header_value(headers, "forwarded") {
        None => {
            return Ok(None);
        },
        Some(v) => v,
    };
    let text = match visible_text(raw) {
        None => {
            return Err(owned("Forwarded header is not valid text"));
        },
        Some(t) => t,
    };
    if trim_text(text.as_str()).as_str().unicode_len() == 0 {
        return Err(owned("Forwarded header must not be empty"));
    }
    let parameters = collect_parameters(text.as_str());
    let ghost ps = texts(parameters@);
    let mut parsed = ForwardedValues { scheme: None, host: None, addresses: Vec::new() };
    proof {
        assert(ps.take(0) =~= Seq::<Seq<char>>::empty());
        assert(parsed@ == ForwardedView { scheme: None, host: None, addresses: Seq::empty() });
    }
    for i in 0..parameters.len()
        invariant
            ps == texts(parameters@),
            ps == forwarded_parameters(text@),
            first_value(headers@, "forwarded"@) == Some(raw@),
            visible_ascii(raw@),
            text@ == ascii_chars(raw@),
            trim(text@).len() != 0,
            forwarded_fold(ps.take(i as int)) == Ok::<ForwardedView, Seq<char>>(parsed@),
    {
        proof {
            assert(ps.take(i + 1).drop_last() =~= ps.take(i as int));
        }
        assert(ps.take(i + 1).last() == parameters@[i as int]@);
        match apply_parameter(parsed, parameters[i].as_str()) {
            Ok(next) => {
                parsed = next;
            },
            Err(e) => {
                proof {
                    assert(ps.take(i + 1).last() == parameters@[i as int]@);
                    lemma_fold_error_sticks(ps, i + 1);
                }
                return Err(e);
            },
        }
    }
    proof {
        assert(ps.take(ps.len() as int) =~= ps);
    }
    Ok(Some(parsed))
}

} // verus!

verus! {

/// Why `http::uri::Authority::from_str` refuses a text, or nothing when it
/// accepts it.
pub uninterp spec fn authority_rejection(text: Seq<char>) -> Option<Seq<char>>;

/// Checks a host and optional port as a URI authority
/// (`http::uri::Authority::from_str`); the result is the displayed error.
#[verifier::external_body]
pub(crate) fn check_authority(text: &str) -> (rejection: Option<String>)
    ensures
        opt_text(rejection) == authority_rejection(text@),
{
    match text.parse::<http::uri::Authority>() {
        Ok(_) => None,
        Err(error) => Some(error.to_string()),
    }
}

/// The first comma-separated item of a header, trimmed: nothing when the
/// header is absent; a failure when it is not text or the item is blank.
pub open spec fn comma_first_of(fields: Seq<(Seq<char>, Seq<u8>)>, name: Seq<char>) -> Result<Option<Seq<char>>, Seq<char>> {
    match first_value(fields, name) {
        None => Ok(None),
        Some(bytes) => if !visible_ascii(bytes) {
            Err(name + " header is not valid text"@)
        } else {
            let first = trim(split(ascii_chars(bytes), ',')[0]);
            if first.len() == 0 {
                Err(name + " header must not be empty"@)
            } else {
                Ok(Some(first))
            }
        },
    }
}

/// Reads the first comma-separated item of a header.
pub fn comma_header_first(headers: &HeaderList, name: &str) -> (first: Result<Option<String>, String>)
    ensures
        match first {
            Ok(o) => comma_first_of(headers@, name@) == Ok::<Option<Seq<char>>, Seq<char>>(opt_text(o)),
            Err(e) => comma_first_of(headers@, name@) == Err::<Option<Seq<char>>, Seq<char>>(e@),
        },
{
    let raw = match header_value(headers, name) {
        None => {
            return Ok(None);
        },
        Some(v) => v,
    };
    let text = match visible_text(raw) {
        None => {
            return Err(join2(name, " header is not valid text"));
        },
        Some(t) => t,
    };
    let pieces = split_text(text.as_str(), ',');
    proof {
        crate::text::lemma_split_nonempty(text@, ',');
        assert(texts(pieces@)[0] == pieces@[0]@);
    }
    let value = trim_text(pieces[0].as_str());
    if value.as_str().unicode_len() == 0 {
        return Err(join2(name, " header must not be empty"));
    }
    Ok(Some(value))
}

/// The addresses of comma-separated forwarded identifiers, left to right;
/// the first failure stops.
pub open spec fn address_fold(pieces: Seq<Seq<char>>) -> Result<Seq<IpAddress>, Seq<char>>
    decreases pieces.len(),
{
    if pieces.len() == 0 {
        Ok(Seq::empty())
    } else {
        match address_fold(pieces.drop_last()) {
            Err(e) => Err(e),
            Ok(acc) => match forwarded_ip(trim(pieces.last())) {
                Err(e) => Err(e),
                Ok(a) => Ok(acc.push(a)),
            },
        }
    }
}

proof fn lemma_address_error_sticks(pieces: Seq<Seq<char>>, i: int)
    requires
        0 <= i <= pieces.len(),
        address_fold(pieces.take(i)) is Err,
    ensures
        address_fold(pieces) == address_fold(pieces.take(i)),
    decreases pieces.len() - i,
{
    if i < pieces.len() {
        assert(pieces.take(i + 1).drop_last() =~= pieces.take(i));
        lemma_address_error_sticks(pieces, i + 1);
    } else {
        assert(pieces.take(i) =~= pieces);
    }
}

/// The addresses of the `X-Forwarded-For` header: none when it is absent.
pub open spec fn x_forwarded_for_of(fields: Seq<(Seq<char>, Seq<u8>)>) -> Result<Seq<IpAddress>, Seq<char>> {
    match first_value(fields, "x-forwarded-for"@) {
        None => Ok(Seq::empty()),
        Some(bytes) => if !visible_ascii(bytes) {
            Err("X-Forwarded-For header is not valid text"@)
        } else {
            address_fold(split(ascii_chars(bytes), ','))
        },
    }
}

/// Reads the addresses of the `X-Forwarded-For` header.
pub fn parse_x_forwarded_for(headers: &HeaderList) -> (addresses: Result<Vec<IpAddress>, String>)
    ensures
        match addresses {
            Ok(v) => x_forwarded_for_of(headers@) == Ok::<Seq<IpAddress>, Seq<char>>(v@) && forall|i: int| 0 <= i < v@.len() ==> (#[trigger] v@[i]).valid(),
            Err(e) => x_forwarded_for_of(headers@) == Err::<Seq<IpAddress>, Seq<char>>(e@),
        },
{
    let raw = match header_value(headers, "x-forwarded-for") {
        None => {
            let empty: Vec<IpAddress> = Vec::new();
            assert(empty@ =~= Seq::<IpAddress>::empty());
            return Ok(empty);
        },
        Some(v) => v,
    };
    let text = match visible_text(raw) {
        None => {
            return Err(owned("X-Forwarded-For header is not valid text"));
        },
        Some(t) => t,
    };
    let pieces = split_text(text.as_str(), ',');
    let ghost ps = texts(pieces@);
    let mut addresses: Vec<IpAddress> = Vec::new();
    assert(ps.take(0) =~= Seq::<Seq<char>>::empty());
    assert(addresses@ =~= Seq::<IpAddress>::empty());
    for i in 0..pieces.len()
        invariant
            ps == texts(pieces@),
            ps == split(text@, ','),
            first_value(headers@, "x-forwarded-for"@) == Some(raw@),
            visible_ascii(raw@),
            text@ == ascii_chars(raw@),
            address_fold(ps.take(i as int)) == Ok::<Seq<IpAddress>, Seq<char>>(addresses@),
            forall|j: int| 0 <= j < addresses@.len() ==> (#[trigger] addresses@[j]).valid(),
    {
        assert(ps.take(i + 1).drop_last() =~= ps.take(i as int));
        assert(ps.take(i + 1).last() == pieces@[i as int]@);
        let entry = trim_text(pieces[i].as_str());
        match parse_forwarded_ip(entry.as_str()) {
            Ok(a) => {
                addresses.push(a);
            },
            Err(e) => {
                proof {
                    lemma_address_error_sticks(ps, i + 1);
                }
                return Err(e);
            },
        }
    }
    assert(ps.take(ps.len() as int) =~= ps);
    Ok(addresses)
}

/// The address chain with trusted proxies removed from its end.
pub open spec fn strip_trusted(chain: Seq<IpAddress>, proxies: Seq<IpNetwork>) -> Seq<IpAddress>
    decreases chain.len(),
{
    if chain.len() > 0 && any_contains(proxies, chain.last()) {
        strip_trusted(chain.drop_last(), proxies)
    } else {
        chain
    }
}

/// The scheme, host and client address of a request as the public sees it.
#[derive(Debug)]
pub struct ResolvedMetadata {
    pub scheme: String,
    pub host: String,
    pub client_address: Option<IpAddress>,
}

/// The first value that is present.
pub open spec fn first_present(a: Option<Seq<char>>, b: Option<Seq<char>>, c: Seq<char>) -> Seq<char> {
    match a {
        Some(x) => x,
        None => match b {
            Some(y) => y,
            None => c,
        },
    }
}

/// The public request identity. An untrusted peer's request keeps its
/// direct scheme, host and peer address. For a trusted peer, `Forwarded`
/// values take precedence over `X-Forwarded-Proto`, `X-Forwarded-Host` and
/// `X-Forwarded-For`, which take precedence over the direct values; the
/// scheme must be http or https and the host a valid authority; the client
/// is the nearest address of the chain, peer appended, that is not a
/// trusted proxy.
pub open spec fn request_metadata(
    direct_scheme: Seq<char>,
    direct_host: Seq<char>,
    fields: Seq<(Seq<char>, Seq<u8>)>,
    peer: Option<IpAddress>,
    proxies: Seq<IpNetwork>,
) -> Result<(Seq<char>, Seq<char>, Option<IpAddress>), Seq<char>> {
    if !(peer matches Some(p) && any_contains(proxies, p)) {
        Ok((direct_scheme, direct_host, peer))
    } else {
        match forwarded_of(fields) {
            Err(e) => Err(e),
            Ok(forwarded) => match comma_first_of(fields, "x-forwarded-proto"@) {
                Err(e) => Err(e),
                Ok(fallback_scheme) => {
                    let forwarded_scheme = match forwarded {
                        Some(v) => v.scheme,
                        None => None,
                    };
                    let scheme = ascii_lower(first_present(forwarded_scheme, fallback_scheme, direct_scheme));
                    if scheme != "http"@ && scheme != "https"@ {
                        Err("forwarded scheme "@ + debug_text(scheme) + " is not http or https"@)
                    } else {
                        match comma_first_of(fields, "x-forwarded-host"@) {
                            Err(e) => Err(e),
                            Ok(fallback_host) => {
                                let forwarded_host = match forwarded {
                                    Some(v) => v.host,
                                    None => None,
                                };
                                let host = first_present(forwarded_host, fallback_host, direct_host);
                                match authority_rejection(host) {
                                    Some(e) => Err("invalid forwarded host: "@ + e),
                                    None => {
                                        let addresses = match forwarded {
                                            Some(v) => if v.addresses.len() > 0 {
                                                Ok(v.addresses)
                                            } else {
                                                x_forwarded_for_of(fields)
                                            },
                                            None => x_forwarded_for_of(fields),
                                        };
                                        match addresses {
                                            Err(e) => Err(e),
                                            Ok(list) => {
                                                let chain = strip_trusted(list.push(peer.unwrap()), proxies);
                                                Ok((
                                                    scheme,
                                                    host,
                                                    if chain.len() > 0 {
                                                        Some(chain.last())
                                                    } else {
                                                        peer
                                                    },
                                                ))
                                            },
                                        }
                                    },
                                }
                            },
                        }
                    }
                },
            },
        }
    }
}

fn take_first(a: Option<String>, b: Option<String>, c: &str) -> (chosen: String)
    ensures
        chosen@ == first_present(opt_text(a), opt_text(b), c@),
{
    match a {
        Some(x) => x,
        None => match b {
            Some(y) => y,
            None => owned(c),
        },
    }
}

/// Resolves the public scheme, host and client address of a request.
pub fn resolve_request_metadata(
    direct_scheme: &str,
    direct_host: &str,
    headers: &HeaderList,
    peer: Option<IpAddress>,
    config: &ProxyConfig,
) -> (resolved: Result<ResolvedMetadata, String>)
    requires
        config.valid(),
        peer matches Some(p) ==> p.valid(),
    ensures
        match resolved {
            Ok(m) => request_metadata(direct_scheme@, direct_host@, headers@, peer, config.trusted_proxies@)
                == Ok::<(Seq<char>, Seq<char>, Option<IpAddress>), Seq<char>>((m.scheme@, m.host@, m.client_address)),
            Err(e) => request_metadata(direct_scheme@, direct_host@, headers@, peer, config.trusted_proxies@)
                == Err::<(Seq<char>, Seq<char>, Option<IpAddress>), Seq<char>>(e@),
        },
{
    let trusted_peer = match &peer {
        Some(address) => config.is_trusted(address),
        None => false,
    };
    if !trusted_peer {
        return Ok(ResolvedMetadata { scheme: owned(direct_scheme), host: owned(direct_host), client_address: peer });
    }
    let peer_address = peer.unwrap();
    let forwarded = parse_forwarded(headers)?;
    let fallback_scheme = comma_header_first(headers, "x-forwarded-proto")?;
    let (forwarded_scheme, forwarded_host, forwarded_addresses) = match forwarded {
        Some(v) => (v.scheme, v.host, Some(v.addresses)),
        None => (None, None, None),
    };
    let chosen = take_first(forwarded_scheme, fallback_scheme, direct_scheme);
    let scheme = ascii_lowercase(chosen.as_str());
    proof {
        reveal_strlit("http");
        reveal_strlit("https");
    }
    if !text_eq(scheme.as_str(), "http") && !text_eq(scheme.as_str(), "https") {
        let quoted = debug_quoted(scheme.as_str());
        return Err(join3("forwarded scheme ", quoted.as_str(), " is not http or https"));
    }
    let fallback_host = comma_header_first(headers, "x-forwarded-host")?;
    let host = take_first(forwarded_host, fallback_host, direct_host);
    match check_authority(host.as_str()) {
        Some(error) => {
            return Err(join2("invalid forwarded host: ", error.as_str()));
        },
        None => {},
    }
    let mut chain = match forwarded_addresses {
        Some(list) => if list.len() > 0 {
            list
        } else {
            parse_x_forwarded_for(headers)?
        },
        None => parse_x_forwarded_for(headers)?,
    };
    chain.push(peer_address);
    let ghost pushed = chain@;
    while chain.len() > 0 && config.is_trusted(&chain[chain.len() - 1])
        invariant
            config.valid(),
            strip_trusted(chain@, config.trusted_proxies@) == strip_trusted(pushed, config.trusted_proxies@),
        decreases chain@.len(),
    {
        chain.pop();
    }
    let client_address = if chain.len() > 0 {
        Some(chain[chain.len() - 1])
    } else {
        Some(peer_address)
    };
    Ok(ResolvedMetadata { scheme, host, client_address })
}

proof fn lemma_strip_trusted(chain: Seq<IpAddress>, proxies: Seq<IpNetwork>)
    ensures
        strip_trusted(chain, proxies).len() > 0 ==> !any_contains(proxies, strip_trusted(chain, proxies).last()),
    decreases chain.len(),
{
    if chain.len() > 0 && any_contains(proxies, chain.last()) {
        lemma_strip_trusted(chain.drop_last(), proxies);
    }
}

/// Forwarding headers from a peer that is not a trusted proxy never change
/// the request's identity: its direct scheme, host and peer address stand,
/// whatever the headers say.
pub proof fn law_untrusted_peer_keeps_direct_identity(
    direct_scheme: Seq<char>,
    direct_host: Seq<char>,
    fields: Seq<(Seq<char>, Seq<u8>)>,
    peer: Option<IpAddress>,
    proxies: Seq<IpNetwork>,
)
    requires
        !(peer matches Some(p) && any_contains(proxies, p)),
    ensures
        request_metadata(direct_scheme, direct_host, fields, peer, proxies) == Ok::<
            (Seq<char>, Seq<char>, Option<IpAddress>),
            Seq<char>,
        >((direct_scheme, direct_host, peer)),
{
}

/// Whether `c` occurs in `list` at a place after which every address is a
/// trusted proxy.
pub open spec fn followed_only_by_proxies(list: Seq<IpAddress>, c: IpAddress, proxies: Seq<IpNetwork>) -> bool {
    exists|i: int|
        0 <= i < list.len() && list[i] == c && forall|j: int|
            i < j < list.len() ==> any_contains(proxies, #[trigger] list[j])
}

proof fn lemma_strip_trusted_prefix(chain: Seq<IpAddress>, proxies: Seq<IpNetwork>)
    ensures
        strip_trusted(chain, proxies).len() <= chain.len(),
        strip_trusted(chain, proxies) == chain.take(strip_trusted(chain, proxies).len() as int),
        forall|j: int|
            strip_trusted(chain, proxies).len() <= j < chain.len() ==> any_contains(proxies, #[trigger] chain[j]),
    decreases chain.len(),
{
    if chain.len() > 0 && any_contains(proxies, chain.last()) {
        let init = chain.drop_last();
        lemma_strip_trusted_prefix(init, proxies);
        let n = strip_trusted(init, proxies).len() as int;
        assert(init.take(n) =~= chain.take(n));
        assert forall|j: int| n <= j < chain.len() implies any_contains(proxies, #[trigger] chain[j]) by {
            if j < init.len() {
                assert(init[j] == chain[j]);
            }
        }
    } else {
        assert(chain.take(chain.len() as int) =~= chain);
    }
}

/// Behind trusted proxies the client is the nearest address that is not a
/// trusted proxy: the peer itself, or an address of the chain, taken from
/// the `Forwarded` `for` list when it gives any and from
/// `X-Forwarded-For` otherwise, after which every address is a trusted
/// proxy.
pub proof fn law_client_is_nearest_untrusted_address(
    direct_scheme: Seq<char>,
    direct_host: Seq<char>,
    fields: Seq<(Seq<char>, Seq<u8>)>,
    peer: Option<IpAddress>,
    proxies: Seq<IpNetwork>,
)
    requires
        peer matches Some(p) && any_contains(proxies, p),
    ensures
        request_metadata(direct_scheme, direct_host, fields, peer, proxies) matches Ok((_, _, client)) ==> {
            &&& client is Some
            &&& client->Some_0 == peer->Some_0 || followed_only_by_proxies(
                if (forwarded_of(fields) matches Ok(Some(v)) && v.addresses.len() > 0) {
                    forwarded_of(fields)->Ok_0->Some_0.addresses
                } else {
                    x_forwarded_for_of(fields)->Ok_0
                },
                client->Some_0,
                proxies,
            )
        },
{
    if let Ok((_, _, client)) = request_metadata(direct_scheme, direct_host, fields, peer, proxies) {
        let list = if (forwarded_of(fields) matches Ok(Some(v)) && v.addresses.len() > 0) {
            forwarded_of(fields)->Ok_0->Some_0.addresses
        } else {
            x_forwarded_for_of(fields)->Ok_0
        };
        let chain = list.push(peer->Some_0);
        lemma_strip_trusted_prefix(chain, proxies);
        let stripped = strip_trusted(chain, proxies);
        let n = stripped.len() as int;
        assert(client == if n > 0 {
            Some(stripped.last())
        } else {
            peer
        });
        if n > 0 && n - 1 < list.len() {
            assert(stripped.last() == chain[n - 1]);
            assert(chain[n - 1] == list[n - 1]);
            assert forall|j: int| n - 1 < j < list.len() implies any_contains(proxies, #[trigger] list[j]) by {
                assert(chain[j] == list[j]);
            }
            assert(list[n - 1] == client->Some_0);
            assert(followed_only_by_proxies(list, client->Some_0, proxies));
        } else if n > 0 {
            assert(stripped.last() == chain[n - 1]);
            assert(chain[n - 1] == peer->Some_0);
        }
    }
}

/// Behind a trusted proxy, `Forwarded` comes first: when it supplies a
/// `proto`, a resolved scheme is that value in lowercase, and when it
/// supplies a `host`, a resolved host is that value, whatever
/// `X-Forwarded-Proto` and `X-Forwarded-Host` say. Those are used only when
/// `Forwarded` gives no such value, and the direct scheme and host only
/// when neither header gives one.
pub proof fn law_forwarded_values_take_precedence(
    direct_scheme: Seq<char>,
    direct_host: Seq<char>,
    fields: Seq<(Seq<char>, Seq<u8>)>,
    peer: Option<IpAddress>,
    proxies: Seq<IpNetwork>,
)
    requires
        peer matches Some(p) && any_contains(proxies, p),
    ensures
        request_metadata(direct_scheme, direct_host, fields, peer, proxies) matches Ok((scheme, host, _)) ==> {
            &&& forwarded_of(fields) matches Ok(Some(v)) ==> (v.scheme matches Some(p) ==> scheme == ascii_lower(p))
            &&& forwarded_of(fields) matches Ok(Some(v)) ==> (v.host matches Some(h) ==> host == h)
            &&& !(forwarded_of(fields) matches Ok(Some(v)) && v.scheme is Some) ==> {
                &&& comma_first_of(fields, "x-forwarded-proto"@) matches Ok(Some(x)) ==> scheme == ascii_lower(x)
                &&& comma_first_of(fields, "x-forwarded-proto"@) matches Ok(None) ==> scheme == ascii_lower(
                    direct_scheme,
                )
            }
            &&& !(forwarded_of(fields) matches Ok(Some(v)) && v.host is Some) ==> {
                &&& comma_first_of(fields, "x-forwarded-host"@) matches Ok(Some(x)) ==> host == x
                &&& comma_first_of(fields, "x-forwarded-host"@) matches Ok(None) ==> host == direct_host
            }
        },
{
}

/// The client address of a resolved request is not a trusted proxy, unless
/// it is the peer itself (when every address of the chain is trusted); and
/// a resolved public scheme is always http or https when a trusted proxy
/// supplied it.
pub proof fn law_client_address_is_not_a_trusted_proxy(
    direct_scheme: Seq<char>,
    direct_host: Seq<char>,
    fields: Seq<(Seq<char>, Seq<u8>)>,
    peer: Option<IpAddress>,
    proxies: Seq<IpNetwork>,
)
    ensures
        request_metadata(direct_scheme, direct_host, fields, peer, proxies) matches Ok((_, _, Some(c))) ==> (
        !any_contains(proxies, c) || peer == Some(c)),
        (peer matches Some(p) && any_contains(proxies, p)) ==> (request_metadata(
            direct_scheme,
            direct_host,
            fields,
            peer,
            proxies,
        ) matches Ok((s, _, _)) ==> (s == "http"@ || s == "https"@)),
{
    if peer matches Some(p) && any_contains(proxies, p) {
        if let Ok(Some(forwarded)) = forwarded_of(fields) {
            lemma_strip_trusted(
                (if forwarded.addresses.len() > 0 {
                    forwarded.addresses
                } else {
                    x_forwarded_for_of(fields)->Ok_0
                }).push(peer.unwrap()),
                proxies,
            );
        }
        if let Ok(list) = x_forwarded_for_of(fields) {
            lemma_strip_trusted(list.push(peer.unwrap()), proxies);
        }
    }
}

} // verus!
