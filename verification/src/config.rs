use vstd::prelude::*;

use crate::adapter::{EndpointView, HttpEndpointConfig, HttpTransportConfig};
use crate::ip::{
    family_width, ip_address_from_text, ip_network_from_text, parse_ip_address, parse_ip_network,
    parse_socket_address, socket_address_from_text, IpAddress, IpNetwork, SocketAddress,
};
use crate::redirect::pairs_view;
use crate::text::{debug_quoted, debug_text, join2, owned, split, split_text, text_eq, texts, trim, trim_text};

verus! {

/// A decimal digit.
pub open spec fn is_digit(c: char) -> bool {
    '0' <= c && c <= '9'
}

/// The value of a string of decimal digits.
pub open spec fn digits_value(s: Seq<char>) -> nat
    decreases s.len(),
{
    if s.len() == 0 {
        0
    } else {
        digits_value(s.drop_last()) * 10 + (s.last() as nat - 48) as nat
    }
}

/// The digits of an unsigned integer's text: all of it after an optional
/// leading `+`.
pub open spec fn unsigned_digits(s: Seq<char>) -> Seq<char> {
    if s.len() > 0 && s[0] == '+' {
        s.drop_first()
    } else {
        s
    }
}

/// Whether every character is a decimal digit.
pub open spec fn all_digits(s: Seq<char>) -> bool {
    forall|i: int| 0 <= i < s.len() ==> is_digit(#[trigger] s[i])
}

/// The unsigned integer a text spells (`str::parse` for unsigned types,
/// before the range check): an optional `+`, then one or more decimal
/// digits and nothing else.
pub open spec fn unsigned_value(s: Seq<char>) -> Option<nat> {
    let digits = unsigned_digits(s);
    if digits.len() > 0 && all_digits(digits) {
        Some(digits_value(digits))
    } else {
        None
    }
}

proof fn lemma_digits_grow(s: Seq<char>, i: int)
    requires
        0 <= i <= s.len(),
        all_digits(s),
    ensures
        digits_value(s.take(i)) <= digits_value(s),
    decreases s.len() - i,
{
    if i < s.len() {
        lemma_digits_grow(s, i + 1);
        assert(s.take(i + 1).drop_last() =~= s.take(i));
    } else {
        assert(s.take(i) =~= s);
    }
}

/// Parses an unsigned decimal integer that fits in a `u64`
/// (`str::parse::<u64>`).
pub fn parse_u64(text: &str) -> (value: Option<u64>)
    ensures
        match value {
            Some(v) => unsigned_value(text@) == Some(v as nat),
            None => !(unsigned_value(text@) matches Some(v) && v <= u64::MAX),
        },
{
    let n = text.unicode_len();
    let mut start: usize = 0;
    if n > 0 && text.get_char(0) == '+' {
        start = 1;
    }
    let ghost digits = unsigned_digits(text@);
    assert(digits =~= text@.skip(start as int));
    if start == n {
        return None;
    }
    let mut total: u64 = 0;
    let mut i = start;
    while i < n
        invariant
            start <= i <= n,
            n == text@.len(),
            digits == text@.skip(start as int),
            digits == unsigned_digits(text@),
            start < n,
            forall|k: int| start <= k < i ==> is_digit(#[trigger] text@[k]),
            total == digits_value(digits.take(i - start)),
        decreases n - i,
    {
        let c = text.get_char(i);
        if !('0' <= c && c <= '9') {
            proof {
                assert(digits[i - start] == c);
                assert(!is_digit(digits[i - start]));
                assert(unsigned_value(text@) is None);
            }
            return None;
        }
        let d = (c as u32 - 48) as u64;
        proof {
            assert(digits.take(i - start + 1).drop_last() =~= digits.take(i - start));
            assert(digits.take(i - start + 1).last() == c);
        }
        let next = match total.checked_mul(10) {
            Some(t) => t.checked_add(d),
            None => None,
        };
        match next {
            Some(t) => {
                total = t;
            },
            None => {
                proof {
                    assert(digits_value(digits.take(i - start + 1)) == total * 10 + d);
                    assert(total * 10 + d > u64::MAX);
                    if all_digits(digits) {
                        lemma_digits_grow(digits, i - start + 1);
                    }
                }
                return None;
            },
        }
        i = i + 1;
    }
    proof {
        assert(digits.take(n - start) =~= digits);
    }
    Some(total)
}

/// Parses an unsigned decimal integer that fits in a `usize`
/// (`str::parse::<usize>`).
pub fn parse_usize(text: &str) -> (value: Option<usize>)
    ensures
        match value {
            Some(v) => unsigned_value(text@) == Some(v as nat),
            None => !(unsigned_value(text@) matches Some(v) && v <= usize::MAX),
        },
{
    match parse_u64(text) {
        Some(v) => {
            if v <= usize::MAX as u64 {
                Some(v as usize)
            } else {
                None
            }
        },
        None => None,
    }
}

/// A positive integer setting: the value must parse within `maximum`
/// and must not be zero.
pub open spec fn positive_setting(name: Seq<char>, value: Seq<char>, maximum: nat) -> Result<nat, Seq<char>> {
    match unsigned_value(value) {
        Some(v) => if v > maximum {
            Err(name + " must be a positive integer"@)
        } else if v == 0 {
            Err(name + " must be greater than zero"@)
        } else {
            Ok(v)
        },
        None => Err(name + " must be a positive integer"@),
    }
}

/// Reads a positive `usize` setting.
pub fn parse_nonzero_usize_value(name: &str, value: &str) -> (parsed: Result<usize, String>)
    ensures
        match parsed {
            Ok(v) => positive_setting(name@, value@, usize::MAX as nat) == Ok::<nat, Seq<char>>(v as nat),
            Err(e) => positive_setting(name@, value@, usize::MAX as nat) == Err::<nat, Seq<char>>(e@),
        },
{
    match parse_usize(value) {
        None => Err(join2(name, " must be a positive integer")),
        Some(0) => Err(join2(name, " must be greater than zero")),
        Some(v) => Ok(v),
    }
}

/// Reads a positive `u64` setting.
pub fn parse_nonzero_u64_value(name: &str, value: &str) -> (parsed: Result<u64, String>)
    ensures
        match parsed {
            Ok(v) => positive_setting(name@, value@, u64::MAX as nat) == Ok::<nat, Seq<char>>(v as nat),
            Err(e) => positive_setting(name@, value@, u64::MAX as nat) == Err::<nat, Seq<char>>(e@),
        },
{
    match parse_u64(value) {
        None => Err(join2(name, " must be a positive integer")),
        Some(0) => Err(join2(name, " must be greater than zero")),
        Some(v) => Ok(v),
    }
}

/// A boolean setting: exactly `true` or `false` (`str::parse::<bool>`).
pub open spec fn bool_setting(name: Seq<char>, value: Seq<char>) -> Result<bool, Seq<char>> {
    if value == "true"@ {
        Ok(true)
    } else if value == "false"@ {
        Ok(false)
    } else {
        Err(name + " must be true or false"@)
    }
}

/// Reads a boolean setting.
pub fn parse_bool_value(name: &str, value: &str) -> (parsed: Result<bool, String>)
    ensures
        match parsed {
            Ok(b) => bool_setting(name@, value@) == Ok::<bool, Seq<char>>(b),
            Err(e) => bool_setting(name@, value@) == Err::<bool, Seq<char>>(e@),
        },
{
    proof {
        reveal_strlit("true");
        reveal_strlit("false");
    }
    if text_eq(value, "true") {
        Ok(true)
    } else if text_eq(value, "false") {
        Ok(false)
    } else {
        Err(join2(name, " must be true or false"))
    }
}

/// The network one trusted proxy entry names: a CIDR, or a single address
/// (as a network of its full width).
pub open spec fn proxy_network(entry: Seq<char>) -> Result<IpNetwork, Seq<char>> {
    match ip_network_from_text(entry) {
        Some(n) => Ok(n),
        None => match ip_address_from_text(entry) {
            Some(a) => Ok(IpNetwork { address: a, prefix_len: family_width(a.family) as u8 }),
            None => Err("invalid trusted proxy IP or CIDR "@ + debug_text(entry)),
        },
    }
}

/// The trusted proxy networks of comma-separated entries, blank ones
/// skipped; the first invalid entry stops.
pub open spec fn proxies_fold(pieces: Seq<Seq<char>>) -> Result<Seq<IpNetwork>, Seq<char>>
    decreases pieces.len(),
{
    if pieces.len() == 0 {
        Ok(Seq::empty())
    } else {
        match proxies_fold(pieces.drop_last()) {
            Err(e) => Err(e),
            Ok(done) => {
                let entry = trim(pieces.last());
                if entry.len() == 0 {
                    Ok(done)
                } else {
                    match proxy_network(entry) {
                        Err(e) => Err(e),
                        Ok(n) => Ok(done.push(n)),
                    }
                }
            },
        }
    }
}

proof fn lemma_proxies_error_sticks(pieces: Seq<Seq<char>>, i: int)
    requires
        0 <= i <= pieces.len(),
        proxies_fold(pieces.take(i)) is Err,
    ensures
        proxies_fold(pieces) == proxies_fold(pieces.take(i)),
    decreases pieces.len() - i,
{
    if i < pieces.len() {
        assert(pieces.take(i + 1).drop_last() =~= pieces.take(i));
        lemma_proxies_error_sticks(pieces, i + 1);
    } else {
        assert(pieces.take(i) =~= pieces);
    }
}

/// Reads the trusted proxy setting.
pub fn parse_trusted_proxies(value: &str) -> (parsed: Result<Vec<IpNetwork>, String>)
    ensures
        match parsed {
            Ok(v) => proxies_fold(split(value@, ',')) == Ok::<Seq<IpNetwork>, Seq<char>>(v@)
                && forall|i: int| 0 <= i < v@.len() ==> (#[trigger] v@[i]).valid(),
            Err(e) => proxies_fold(split(value@, ',')) == Err::<Seq<IpNetwork>, Seq<char>>(e@),
        },
{
    let pieces = split_text(value, ',');
    let ghost ps = texts(pieces@);
    let mut networks: Vec<IpNetwork> = Vec::new();
    proof {
        assert(ps.take(0) =~= Seq::<Seq<char>>::empty());
        assert(networks@ =~= Seq::<IpNetwork>::empty());
    }
    for i in 0..pieces.len()
        invariant
            ps == texts(pieces@),
            ps == split(value@, ','),
            proxies_fold(ps.take(i as int)) == Ok::<Seq<IpNetwork>, Seq<char>>(networks@),
            forall|k: int| 0 <= k < networks@.len() ==> (#[trigger] networks@[k]).valid(),
    {
        proof {
            assert(ps.take(i + 1).drop_last() =~= ps.take(i as int));
            assert(ps.take(i + 1).last() == pieces@[i as int]@);
        }
        let entry = trim_text(pieces[i].as_str());
        if entry.as_str().unicode_len() != 0 {
            let network = match parse_ip_network(entry.as_str()) {
                Some(n) => n,
                None => match parse_ip_address(entry.as_str()) {
                    Some(a) => crate::ip::IpNetwork::single(a),
                    None => {
                        proof {
                            lemma_proxies_error_sticks(ps, i + 1);
                        }
                        let quoted = debug_quoted(entry.as_str());
                        return Err(join2("invalid trusted proxy IP or CIDR ", quoted.as_str()));
                    },
                },
            };
            networks.push(network);
        }
    }
    proof {
        assert(ps.take(ps.len() as int) =~= ps);
    }
    Ok(networks)
}

/// The string map a JSON object with string values holds, as
/// `serde_json::from_str::<BTreeMap<String, String>>` reads it: its pairs
/// in key order.
pub uninterp spec fn json_string_map(text: Seq<char>) -> Option<Seq<(Seq<char>, Seq<char>)>>;

/// Reads a JSON object with string values
/// (`serde_json::from_str::<BTreeMap<String, String>>`), or nothing when
/// the text is not one.
#[verifier::external_body]
fn parse_string_map(text: &str) -> (pairs: Option<Vec<(String, String)>>)
    ensures
        match pairs {
            Some(p) => json_string_map(text@) == Some(pairs_view(p@)),
            None => json_string_map(text@) is None,
        },
{
    match serde_json::from_str::<std::collections::BTreeMap<String, String>>(text) {
        Ok(map) => Some(map.into_iter().collect()),
        Err(_) => None,
    }
}

/// Reads a static headers setting: a JSON object with string values.
pub fn parse_static_headers(name: &str, input: &str) -> (parsed: Result<Vec<(String, String)>, String>)
    ensures
        match parsed {
            Ok(p) => json_string_map(input@) == Some(pairs_view(p@)),
            Err(e) => json_string_map(input@) is None && e@ == name@ + " must be a JSON object with string values"@,
        },
{
    match parse_string_map(input) {
        Some(p) => Ok(p),
        None => Err(join2(name, " must be a JSON object with string values")),
    }
}

/// A setting that is present unless it is the single NUL character that
/// stands for "not set".
pub fn configured_setting(value: String) -> (setting: Option<String>)
    ensures
        match setting {
            Some(s) => value@ != seq!['\0'] && s@ == value@,
            None => value@ == seq!['\0'],
        },
{
    proof {
        reveal_strlit("\0");
        assert("\0"@ =~= seq!['\0']);
    }
    if text_eq(value.as_str(), "\0") {
        None
    } else {
        Some(value)
    }
}

/// A bearer token read from a file: exactly one trailing line ending
/// (`\r\n` or `\n`) is dropped, and the rest must not be empty.
pub open spec fn token_from_file(contents: Seq<char>, name: Seq<char>) -> Result<Seq<char>, Seq<char>> {
    let token = if crate::text::has_suffix(contents, "\r\n"@) {
        contents.take(contents.len() - 2)
    } else if crate::text::has_suffix(contents, "\n"@) {
        contents.take(contents.len() - 1)
    } else {
        contents
    };
    if token.len() == 0 {
        Err(name + " must not contain an empty token"@)
    } else {
        Ok(token)
    }
}

/// Extracts the bearer token from a token file's contents.
pub fn token_file_contents(contents: &str, name: &str) -> (token: Result<String, String>)
    ensures
        match token {
            Ok(t) => token_from_file(contents@, name@) == Ok::<Seq<char>, Seq<char>>(t@),
            Err(e) => token_from_file(contents@, name@) == Err::<Seq<char>, Seq<char>>(e@),
        },
{
    let n = contents.unicode_len();
    proof {
        reveal_strlit("\r\n");
        reveal_strlit("\n");
    }
    let token = if crate::text::text_has_suffix(contents, "\r\n") {
        owned(contents.substring_char(0, n - 2))
    } else if crate::text::text_has_suffix(contents, "\n") {
        owned(contents.substring_char(0, n - 1))
    } else {
        owned(contents)
    };
    if token.as_str().unicode_len() == 0 {
        return Err(join2(name, " must not contain an empty token"));
    }
    Ok(token)
}

/// The first value of a setting, if it is set.
pub open spec fn first_setting(env: Seq<(Seq<char>, Seq<char>)>, name: Seq<char>) -> Option<Seq<char>>
    decreases env.len(),
{
    if env.len() == 0 {
        None
    } else if env[0].0 == name {
        Some(env[0].1)
    } else {
        first_setting(env.drop_first(), name)
    }
}

/// The value of a setting, or a default when it is not set.
pub open spec fn setting_or(env: Seq<(Seq<char>, Seq<char>)>, name: Seq<char>, default: Seq<char>) -> Seq<char> {
    match first_setting(env, name) {
        Some(v) => v,
        None => default,
    }
}

proof fn lemma_first_setting(env: Seq<(Seq<char>, Seq<char>)>, name: Seq<char>, i: int)
    requires
        0 <= i <= env.len(),
        forall|j: int| 0 <= j < i ==> (#[trigger] env[j]).0 != name,
    ensures
        i < env.len() && env[i].0 == name ==> first_setting(env, name) == Some(env[i].1),
        i == env.len() ==> first_setting(env, name) is None,
    decreases i,
{
    if i > 0 {
        let t = env.drop_first();
        assert forall|j: int| 0 <= j < i - 1 implies (#[trigger] t[j]).0 != name by {
            assert(t[j] == env[j + 1]);
        }
        lemma_first_setting(t, name, i - 1);
    }
}

/// Reads a setting, or its default.
pub fn setting_value(env: &[(String, String)], name: &str, default: &str) -> (value: String)
    ensures
        value@ == setting_or(pairs_view(env@), name@, default@),
{
    let ghost view = pairs_view(env@);
    for i in 0..env.len()
        invariant
            view == pairs_view(env@),
            forall|j: int| 0 <= j < i ==> (#[trigger] view[j]).0 != name@,
    {
        if text_eq(env[i].0.as_str(), name) {
            proof {
                lemma_first_setting(view, name@, i as int);
            }
            return owned(env[i].1.as_str());
        }
    }
    proof {
        lemma_first_setting(view, name@, view.len() as int);
    }
    owned(default)
}

/// The result of reading a file, by path.
pub open spec fn first_file(files: Seq<(Seq<char>, Result<Seq<char>, Seq<char>>)>, path: Seq<char>) -> Option<Result<Seq<char>, Seq<char>>>
    decreases files.len(),
{
    if files.len() == 0 {
        None
    } else if files[0].0 == path {
        Some(files[0].1)
    } else {
        first_file(files.drop_first(), path)
    }
}

/// The read results as plain values.
pub open spec fn files_view(files: Seq<(String, Result<String, String>)>) -> Seq<(Seq<char>, Result<Seq<char>, Seq<char>>)> {
    files.map_values(
        |f: (String, Result<String, String>)|
            (
                f.0@,
                match f.1 {
                    Ok(c) => Ok(c@),
                    Err(e) => Err(e@),
                },
            ),
    )
}

proof fn lemma_first_file(files: Seq<(Seq<char>, Result<Seq<char>, Seq<char>>)>, path: Seq<char>, i: int)
    requires
        0 <= i <= files.len(),
        forall|j: int| 0 <= j < i ==> (#[trigger] files[j]).0 != path,
    ensures
        i < files.len() && files[i].0 == path ==> first_file(files, path) == Some(files[i].1),
        i == files.len() ==> first_file(files, path) is None,
    decreases i,
{
    if i > 0 {
        let t = files.drop_first();
        assert forall|j: int| 0 <= j < i - 1 implies (#[trigger] t[j]).0 != path by {
            assert(t[j] == files[j + 1]);
        }
        lemma_first_file(t, path, i - 1);
    }
}

/// The bearer token in the file at a path, as read before: a file that
/// could not be read, or was not read, is an error naming the setting.
pub open spec fn token_file_result(
    files: Seq<(Seq<char>, Result<Seq<char>, Seq<char>>)>,
    path: Seq<char>,
    name: Seq<char>,
) -> Result<Seq<char>, Seq<char>> {
    match first_file(files, path) {
        None => Err("could not read "@ + name + ": the file was not read"@),
        Some(Err(e)) => Err("could not read "@ + name + ": "@ + e),
        Some(Ok(contents)) => token_from_file(contents, name),
    }
}

/// Takes the bearer token from the file at a path.
pub fn read_token_file(files: &[(String, Result<String, String>)], path: &str, name: &str) -> (token: Result<String, String>)
    ensures
        match token {
            Ok(t) => token_file_result(files_view(files@), path@, name@) == Ok::<Seq<char>, Seq<char>>(t@),
            Err(e) => token_file_result(files_view(files@), path@, name@) == Err::<Seq<char>, Seq<char>>(e@),
        },
{
    let ghost view = files_view(files@);
    for i in 0..files.len()
        invariant
            view == files_view(files@),
            forall|j: int| 0 <= j < i ==> (#[trigger] view[j]).0 != path@,
    {
        if text_eq(files[i].0.as_str(), path) {
            proof {
                lemma_first_file(view, path@, i as int);
            }
            return match &files[i].1 {
                Ok(contents) => token_file_contents(contents.as_str(), name),
                Err(error) => {
                    let mut message = crate::text::join3("could not read ", name, ": ");
                    message.append(error.as_str());
                    Err(message)
                },
            };
        }
    }
    proof {
        lemma_first_file(view, path@, view.len() as int);
    }
    Err(crate::text::join3("could not read ", name, ": the file was not read"))
}

/// A setting's value unless it is the NUL that stands for "not set".
pub open spec fn configured(value: Seq<char>) -> Option<Seq<char>> {
    if value == seq!['\0'] {
        None
    } else {
        Some(value)
    }
}

/// The endpoint that an adapter's settings describe: `COMPACTOR_HTTP_<ADAPTER>_*`
/// names its bearer token, token file and static headers.
pub open spec fn endpoint_settings(
    env: Seq<(Seq<char>, Seq<char>)>,
    files: Seq<(Seq<char>, Result<Seq<char>, Seq<char>>)>,
    adapter: Seq<char>,
    url_name: Seq<char>,
    timeout_name: Seq<char>,
) -> Result<crate::adapter::EndpointView, Seq<char>> {
    let url = setting_or(env, url_name, Seq::empty());
    let token_name = "COMPACTOR_HTTP_"@ + adapter + "_BEARER_TOKEN"@;
    let file_name = "COMPACTOR_HTTP_"@ + adapter + "_BEARER_TOKEN_FILE"@;
    let headers_name = "COMPACTOR_HTTP_"@ + adapter + "_STATIC_HEADERS_JSON"@;
    let direct = configured(setting_or(env, token_name, seq!['\0']));
    let file = configured(setting_or(env, file_name, seq!['\0']));
    if url.len() == 0 {
        Err(url_name + " is required for the selected adapter"@)
    } else {
        match positive_setting(timeout_name, setting_or(env, timeout_name, "1500"@), u64::MAX as nat) {
            Err(e) => Err(e),
            Ok(timeout) => if direct is Some && file is Some {
                Err(token_name + " and "@ + file_name + " are mutually exclusive"@)
            } else {
                let token: Result<Option<Seq<char>>, Seq<char>> = match direct {
                    Some(t) => Ok(Some(t)),
                    None => match file {
                        Some(path) => match token_file_result(files, path, file_name) {
                            Ok(t) => Ok(Some(t)),
                            Err(e) => Err(e),
                        },
                        None => Ok(None),
                    },
                };
                match token {
                    Err(e) => Err(e),
                    Ok(token) => match crate::config::json_string_map(setting_or(env, headers_name, "{}"@)) {
                        None => Err(headers_name + " must be a JSON object with string values"@),
                        Some(headers) => match crate::adapter::endpoint_config(url, timeout as u64, crate::string_map::map_entries(headers), token) {
                            Err(e) => Err("invalid "@ + adapter + " HTTP configuration: "@ + e),
                            Ok(v) => Ok(v),
                        },
                    },
                }
            },
        }
    }
}

/// Reads an adapter's endpoint settings.
pub fn http_endpoint_from_lookup(
    env: &[(String, String)],
    files: &[(String, Result<String, String>)],
    adapter: &str,
    url_name: &str,
    timeout_name: &str,
) -> (endpoint: Result<crate::adapter::HttpEndpointConfig, String>)
    ensures
        match endpoint {
            Ok(e) => endpoint_settings(pairs_view(env@), files_view(files@), adapter@, url_name@, timeout_name@)
                == Ok::<crate::adapter::EndpointView, Seq<char>>(e@),
            Err(m) => endpoint_settings(pairs_view(env@), files_view(files@), adapter@, url_name@, timeout_name@)
                == Err::<crate::adapter::EndpointView, Seq<char>>(m@),
        },
{
    proof {
        reveal_strlit("");
        reveal_strlit("\0");
        assert("\0"@ =~= seq!['\0']);
    }
    let url = setting_value(env, url_name, "");
    if url.as_str().unicode_len() == 0 {
        return Err(join2(url_name, " is required for the selected adapter"));
    }
    let timeout = parse_nonzero_u64_value(timeout_name, setting_value(env, timeout_name, "1500").as_str())?;
    let token_name = crate::text::join3("COMPACTOR_HTTP_", adapter, "_BEARER_TOKEN");
    let file_name = crate::text::join3("COMPACTOR_HTTP_", adapter, "_BEARER_TOKEN_FILE");
    let direct = configured_setting(setting_value(env, token_name.as_str(), "\0"));
    let file = configured_setting(setting_value(env, file_name.as_str(), "\0"));
    if direct.is_some() && file.is_some() {
        let mut message = crate::text::join3(token_name.as_str(), " and ", file_name.as_str());
        message.append(" are mutually exclusive");
        return Err(message);
    }
    let bearer_token = match direct {
        Some(t) => Some(t),
        None => match file {
            Some(path) => Some(read_token_file(files, path.as_str(), file_name.as_str())?),
            None => None,
        },
    };
    let headers_name = crate::text::join3("COMPACTOR_HTTP_", adapter, "_STATIC_HEADERS_JSON");
    let static_headers = parse_static_headers(headers_name.as_str(), setting_value(env, headers_name.as_str(), "{}").as_str())?;
    match crate::adapter::HttpEndpointConfig::new(url.as_str(), timeout, static_headers, bearer_token) {
        Ok(e) => Ok(e),
        Err(error) => {
            let mut message = crate::text::join3("invalid ", adapter, " HTTP configuration: ");
            message.append(error.message());
            Err(message)
        },
    }
}

/// Where redirect definitions come from.
pub enum RedirectSourceConfig {
    Json { path: String },
    Http { endpoint: HttpEndpointConfig, max_response_bytes: usize },
}

/// Where redirect events go.
pub enum RedirectEventSinkConfig {
    Jsonl { path: String },
    Http { endpoint: HttpEndpointConfig },
}

/// The service configuration.
pub struct Config {
    pub bind_address: SocketAddress,
    pub source: RedirectSourceConfig,
    pub event_sink: RedirectEventSinkConfig,
    pub http_transport: Option<HttpTransportConfig>,
    pub trusted_proxies: Vec<IpNetwork>,
    pub record_client_addresses: bool,
    pub max_captured_header_value_bytes: usize,
    pub max_captured_header_total_bytes: usize,
    pub redirect_cache_ttl_seconds: u64,
    pub redirect_cache_max_entries: usize,
}

/// A source configuration as plain values.
pub enum SourceView {
    Json { path: Seq<char> },
    Http { endpoint: EndpointView, max_response_bytes: nat },
}

/// A sink configuration as plain values.
pub enum SinkView {
    Jsonl { path: Seq<char> },
    Http { endpoint: EndpointView },
}

/// A configuration as plain values.
pub struct ConfigView {
    pub bind_address: (IpAddress, u16),
    pub source: SourceView,
    pub event_sink: SinkView,
    pub connect_timeout_ms: Option<u64>,
    pub trusted_proxies: Seq<IpNetwork>,
    pub record_client_addresses: bool,
    pub max_captured_header_value_bytes: nat,
    pub max_captured_header_total_bytes: nat,
    pub redirect_cache_ttl_seconds: nat,
    pub redirect_cache_max_entries: nat,
}

impl View for Config {
    type V = ConfigView;

    open spec fn view(&self) -> ConfigView {
        ConfigView {
            bind_address: (self.bind_address.ip, self.bind_address.port),
            source: match self.source {
                RedirectSourceConfig::Json { path } => SourceView::Json { path: path@ },
                RedirectSourceConfig::Http { endpoint, max_response_bytes } => SourceView::Http {
                    endpoint: endpoint@,
                    max_response_bytes: max_response_bytes as nat,
                },
            },
            event_sink: match self.event_sink {
                RedirectEventSinkConfig::Jsonl { path } => SinkView::Jsonl { path: path@ },
                RedirectEventSinkConfig::Http { endpoint } => SinkView::Http { endpoint: endpoint@ },
            },
            connect_timeout_ms: match self.http_transport {
                Some(t) => Some(t.connect_timeout_ms),
                None => None,
            },
            trusted_proxies: self.trusted_proxies@,
            record_client_addresses: self.record_client_addresses,
            max_captured_header_value_bytes: self.max_captured_header_value_bytes as nat,
            max_captured_header_total_bytes: self.max_captured_header_total_bytes as nat,
            redirect_cache_ttl_seconds: self.redirect_cache_ttl_seconds as nat,
            redirect_cache_max_entries: self.redirect_cache_max_entries as nat,
        }
    }
}

/// The source that the settings select: `json` (the default) reads a
/// file, `http` asks an endpoint.
pub open spec fn source_settings(
    env: Seq<(Seq<char>, Seq<char>)>,
    files: Seq<(Seq<char>, Result<Seq<char>, Seq<char>>)>,
) -> Result<SourceView, Seq<char>> {
    let kind = setting_or(env, "COMPACTOR_SOURCE_TYPE"@, "json"@);
    if kind == "json"@ {
        Ok(SourceView::Json { path: setting_or(env, "COMPACTOR_REDIRECTS_FILE"@, "./redirects.json"@) })
    } else if kind == "http"@ {
        match endpoint_settings(env, files, "SOURCE"@, "COMPACTOR_HTTP_SOURCE_URL"@, "COMPACTOR_HTTP_SOURCE_REQUEST_TIMEOUT_MS"@) {
            Err(e) => Err(e),
            Ok(endpoint) => match positive_setting(
                "COMPACTOR_HTTP_SOURCE_MAX_RESPONSE_BYTES"@,
                setting_or(env, "COMPACTOR_HTTP_SOURCE_MAX_RESPONSE_BYTES"@, "65536"@),
                usize::MAX as nat,
            ) {
                Err(e) => Err(e),
                Ok(limit) => Ok(SourceView::Http { endpoint, max_response_bytes: limit }),
            },
        }
    } else {
        Err("COMPACTOR_SOURCE_TYPE must be json or http"@)
    }
}

/// The sink that the settings select: `jsonl` (the default) appends to a
/// file, `http` posts to an endpoint.
pub open spec fn sink_settings(
    env: Seq<(Seq<char>, Seq<char>)>,
    files: Seq<(Seq<char>, Result<Seq<char>, Seq<char>>)>,
) -> Result<SinkView, Seq<char>> {
    let kind = setting_or(env, "COMPACTOR_EVENT_SINK_TYPE"@, "jsonl"@);
    if kind == "jsonl"@ {
        Ok(SinkView::Jsonl { path: setting_or(env, "COMPACTOR_EVENTS_FILE"@, "./events.jsonl"@) })
    } else if kind == "http"@ {
        match endpoint_settings(env, files, "EVENT_SINK"@, "COMPACTOR_HTTP_EVENT_SINK_URL"@, "COMPACTOR_HTTP_EVENT_SINK_REQUEST_TIMEOUT_MS"@) {
            Err(e) => Err(e),
            Ok(endpoint) => Ok(SinkView::Http { endpoint }),
        }
    } else {
        Err("COMPACTOR_EVENT_SINK_TYPE must be jsonl or http"@)
    }
}

/// The HTTP connect timeout, read only when an adapter uses HTTP.
pub open spec fn transport_settings(env: Seq<(Seq<char>, Seq<char>)>, uses_http: bool) -> Result<Option<u64>, Seq<char>> {
    if uses_http {
        match positive_setting(
            "COMPACTOR_HTTP_CONNECT_TIMEOUT_MS"@,
            setting_or(env, "COMPACTOR_HTTP_CONNECT_TIMEOUT_MS"@, "500"@),
            u64::MAX as nat,
        ) {
            Err(e) => Err(e),
            Ok(ms) => Ok(Some(ms as u64)),
        }
    } else {
        Ok(None)
    }
}

/// The limits and switches that follow the adapters, in the order they
/// are read.
pub open spec fn limit_settings(env: Seq<(Seq<char>, Seq<char>)>) -> Result<(Seq<IpNetwork>, bool, nat, nat, nat, nat), Seq<char>> {
    match proxies_fold(split(setting_or(env, "COMPACTOR_TRUSTED_PROXIES"@, Seq::empty()), ',')) {
        Err(e) => Err(e),
        Ok(proxies) => match bool_setting(
            "COMPACTOR_RECORD_CLIENT_ADDRESSES"@,
            setting_or(env, "COMPACTOR_RECORD_CLIENT_ADDRESSES"@, "true"@),
        ) {
            Err(e) => Err(e),
            Ok(record) => match positive_setting(
                "COMPACTOR_MAX_CAPTURED_HEADER_VALUE_BYTES"@,
                setting_or(env, "COMPACTOR_MAX_CAPTURED_HEADER_VALUE_BYTES"@, "1024"@),
                usize::MAX as nat,
            ) {
                Err(e) => Err(e),
                Ok(value_bytes) => match positive_setting(
                    "COMPACTOR_MAX_CAPTURED_HEADER_TOTAL_BYTES"@,
                    setting_or(env, "COMPACTOR_MAX_CAPTURED_HEADER_TOTAL_BYTES"@, "4096"@),
                    usize::MAX as nat,
                ) {
                    Err(e) => Err(e),
                    Ok(total_bytes) => match positive_setting(
                        "COMPACTOR_REDIRECT_CACHE_TTL_SECONDS"@,
                        setting_or(env, "COMPACTOR_REDIRECT_CACHE_TTL_SECONDS"@, "300"@),
                        u64::MAX as nat,
                    ) {
                        Err(e) => Err(e),
                        Ok(ttl) => match positive_setting(
                            "COMPACTOR_REDIRECT_CACHE_MAX_ENTRIES"@,
                            setting_or(env, "COMPACTOR_REDIRECT_CACHE_MAX_ENTRIES"@, "10000"@),
                            usize::MAX as nat,
                        ) {
                            Err(e) => Err(e),
                            Ok(entries) => Ok((proxies, record, value_bytes, total_bytes, ttl, entries)),
                        },
                    },
                },
            },
        },
    }
}

/// The configuration that environment settings give, with the contents of
/// the token files they name read beforehand; the first invalid setting
/// stops.
pub open spec fn config_of(
    env: Seq<(Seq<char>, Seq<char>)>,
    files: Seq<(Seq<char>, Result<Seq<char>, Seq<char>>)>,
) -> Result<ConfigView, Seq<char>> {
    match socket_address_from_text(setting_or(env, "COMPACTOR_BIND_ADDRESS"@, "0.0.0.0:8080"@)) {
        Err(e) => Err("invalid COMPACTOR_BIND_ADDRESS: "@ + e),
        Ok(bind) => match source_settings(env, files) {
            Err(e) => Err(e),
            Ok(source) => match sink_settings(env, files) {
                Err(e) => Err(e),
                Ok(sink) => match transport_settings(env, source is Http || sink is Http) {
                    Err(e) => Err(e),
                    Ok(connect) => match limit_settings(env) {
                        Err(e) => Err(e),
                        Ok((proxies, record, value_bytes, total_bytes, ttl, entries)) => Ok(
                            ConfigView {
                                bind_address: bind,
                                source,
                                event_sink: sink,
                                connect_timeout_ms: connect,
                                trusted_proxies: proxies,
                                record_client_addresses: record,
                                max_captured_header_value_bytes: value_bytes,
                                max_captured_header_total_bytes: total_bytes,
                                redirect_cache_ttl_seconds: ttl,
                                redirect_cache_max_entries: entries,
                            },
                        ),
                    },
                },
            },
        },
    }
}

fn read_source(env: &[(String, String)], files: &[(String, Result<String, String>)]) -> (source: Result<RedirectSourceConfig, String>)
    ensures
        match source {
            Ok(s) => source_settings(pairs_view(env@), files_view(files@)) == Ok::<SourceView, Seq<char>>(match s {
                RedirectSourceConfig::Json { path } => SourceView::Json { path: path@ },
                RedirectSourceConfig::Http { endpoint, max_response_bytes } => SourceView::Http {
                    endpoint: endpoint@,
                    max_response_bytes: max_response_bytes as nat,
                },
            }),
            Err(e) => source_settings(pairs_view(env@), files_view(files@)) == Err::<SourceView, Seq<char>>(e@),
        },
{
    proof {
        reveal_strlit("json");
        reveal_strlit("http");
    }
    let kind = setting_value(env, "COMPACTOR_SOURCE_TYPE", "json");
    if text_eq(kind.as_str(), "json") {
        Ok(RedirectSourceConfig::Json { path: setting_value(env, "COMPACTOR_REDIRECTS_FILE", "./redirects.json") })
    } else if text_eq(kind.as_str(), "http") {
        let endpoint = http_endpoint_from_lookup(
            env,
            files,
            "SOURCE",
            "COMPACTOR_HTTP_SOURCE_URL",
            "COMPACTOR_HTTP_SOURCE_REQUEST_TIMEOUT_MS",
        )?;
        let limit = parse_nonzero_usize_value(
            "COMPACTOR_HTTP_SOURCE_MAX_RESPONSE_BYTES",
            setting_value(env, "COMPACTOR_HTTP_SOURCE_MAX_RESPONSE_BYTES", "65536").as_str(),
        )?;
        Ok(RedirectSourceConfig::Http { endpoint, max_response_bytes: limit })
    } else {
        Err(owned("COMPACTOR_SOURCE_TYPE must be json or http"))
    }
}

fn read_sink(env: &[(String, String)], files: &[(String, Result<String, String>)]) -> (sink: Result<RedirectEventSinkConfig, String>)
    ensures
        match sink {
            Ok(s) => sink_settings(pairs_view(env@), files_view(files@)) == Ok::<SinkView, Seq<char>>(match s {
                RedirectEventSinkConfig::Jsonl { path } => SinkView::Jsonl { path: path@ },
                RedirectEventSinkConfig::Http { endpoint } => SinkView::Http { endpoint: endpoint@ },
            }),
            Err(e) => sink_settings(pairs_view(env@), files_view(files@)) == Err::<SinkView, Seq<char>>(e@),
        },
{
    proof {
        reveal_strlit("jsonl");
        reveal_strlit("http");
    }
    let kind = setting_value(env, "COMPACTOR_EVENT_SINK_TYPE", "jsonl");
    if text_eq(kind.as_str(), "jsonl") {
        Ok(RedirectEventSinkConfig::Jsonl { path: setting_value(env, "COMPACTOR_EVENTS_FILE", "./events.jsonl") })
    } else if text_eq(kind.as_str(), "http") {
        let endpoint = http_endpoint_from_lookup(
            env,
            files,
            "EVENT_SINK",
            "COMPACTOR_HTTP_EVENT_SINK_URL",
            "COMPACTOR_HTTP_EVENT_SINK_REQUEST_TIMEOUT_MS",
        )?;
        Ok(RedirectEventSinkConfig::Http { endpoint })
    } else {
        Err(owned("COMPACTOR_EVENT_SINK_TYPE must be jsonl or http"))
    }
}

impl Config {
    /// Reads the configuration from environment settings (name/value
    /// pairs; the first of a name counts) and from the results of reading
    /// the token files they name (path, then contents or the read error).
    pub fn from_lookup(env: &[(String, String)], token_files: &[(String, Result<String, String>)]) -> (config: Result<Config, String>)
        ensures
            match config {
                Ok(c) => config_of(pairs_view(env@), files_view(token_files@)) == Ok::<ConfigView, Seq<char>>(c@),
                Err(e) => config_of(pairs_view(env@), files_view(token_files@)) == Err::<ConfigView, Seq<char>>(e@),
            },
    {
        let bind_text = setting_value(env, "COMPACTOR_BIND_ADDRESS", "0.0.0.0:8080");
        let bind_address = match parse_socket_address(bind_text.as_str()) {
            Ok(a) => a,
            Err(error) => {
                return Err(join2("invalid COMPACTOR_BIND_ADDRESS: ", error.as_str()));
            },
        };
        let source = read_source(env, token_files)?;
        let event_sink = read_sink(env, token_files)?;
        let uses_http = match &source {
            RedirectSourceConfig::Http { .. } => true,
            _ => false,
        } || match &event_sink {
            RedirectEventSinkConfig::Http { .. } => true,
            _ => false,
        };
        let http_transport = if uses_http {
            let ms = parse_nonzero_u64_value(
                "COMPACTOR_HTTP_CONNECT_TIMEOUT_MS",
                setting_value(env, "COMPACTOR_HTTP_CONNECT_TIMEOUT_MS", "500").as_str(),
            )?;
            match HttpTransportConfig::new(ms) {
                Ok(t) => Some(t),
                Err(error) => {
                    return Err(owned(error.message()));
                },
            }
        } else {
            None
        };
        proof {
            reveal_strlit("");
        }
        let trusted_proxies = parse_trusted_proxies(setting_value(env, "COMPACTOR_TRUSTED_PROXIES", "").as_str())?;
        let record_client_addresses = parse_bool_value(
            "COMPACTOR_RECORD_CLIENT_ADDRESSES",
            setting_value(env, "COMPACTOR_RECORD_CLIENT_ADDRESSES", "true").as_str(),
        )?;
        let max_captured_header_value_bytes = parse_nonzero_usize_value(
            "COMPACTOR_MAX_CAPTURED_HEADER_VALUE_BYTES",
            setting_value(env, "COMPACTOR_MAX_CAPTURED_HEADER_VALUE_BYTES", "1024").as_str(),
        )?;
        let max_captured_header_total_bytes = parse_nonzero_usize_value(
            "COMPACTOR_MAX_CAPTURED_HEADER_TOTAL_BYTES",
            setting_value(env, "COMPACTOR_MAX_CAPTURED_HEADER_TOTAL_BYTES", "4096").as_str(),
        )?;
        let redirect_cache_ttl_seconds = parse_nonzero_u64_value(
            "COMPACTOR_REDIRECT_CACHE_TTL_SECONDS",
            setting_value(env, "COMPACTOR_REDIRECT_CACHE_TTL_SECONDS", "300").as_str(),
        )?;
        let redirect_cache_max_entries = parse_nonzero_usize_value(
            "COMPACTOR_REDIRECT_CACHE_MAX_ENTRIES",
            setting_value(env, "COMPACTOR_REDIRECT_CACHE_MAX_ENTRIES", "10000").as_str(),
        )?;
        Ok(Config {
            bind_address,
            source,
            event_sink,
            http_transport,
            trusted_proxies,
            record_client_addresses,
            max_captured_header_value_bytes,
            max_captured_header_total_bytes,
            redirect_cache_ttl_seconds,
            redirect_cache_max_entries,
        })
    }
}

/// A setting takes the value of its first occurrence: when the environment
/// names it at `i` and nowhere before, its value is the one given there.
pub proof fn law_first_occurrence_sets_a_setting(env: Seq<(Seq<char>, Seq<char>)>, name: Seq<char>, i: int)
    requires
        0 <= i < env.len(),
        env[i].0 == name,
        forall|j: int| 0 <= j < i ==> (#[trigger] env[j]).0 != name,
    ensures
        first_setting(env, name) == Some(env[i].1),
{
    lemma_first_setting(env, name, i);
}

/// A setting that the environment never names is absent.
pub proof fn law_unnamed_setting_is_absent(env: Seq<(Seq<char>, Seq<char>)>, name: Seq<char>)
    requires
        forall|j: int| 0 <= j < env.len() ==> (#[trigger] env[j]).0 != name,
    ensures
        first_setting(env, name) is None,
{
    lemma_first_setting(env, name, env.len() as int);
}

/// The configured files are the ones read and written: with the JSON
/// source, its path is the value of `COMPACTOR_REDIRECTS_FILE` when that is
/// set and `./redirects.json` only when it is not; with the JSONL sink, its
/// path is the value of `COMPACTOR_EVENTS_FILE` when set and
/// `./events.jsonl` only when not. `COMPACTOR_SOURCE_TYPE` and
/// `COMPACTOR_EVENT_SINK_TYPE` choose the adapters, JSON and JSONL when
/// they are not set; the listener binds the address that
/// `COMPACTOR_BIND_ADDRESS` gives, `0.0.0.0:8080` when it is not set.
pub proof fn law_configured_files_are_used(
    env: Seq<(Seq<char>, Seq<char>)>,
    files: Seq<(Seq<char>, Result<Seq<char>, Seq<char>>)>,
)
    ensures
        config_of(env, files) matches Ok(c) ==> {
            &&& c.source matches SourceView::Json { path } ==> {
                &&& first_setting(env, "COMPACTOR_REDIRECTS_FILE"@) matches Some(v) ==> path == v
                &&& first_setting(env, "COMPACTOR_REDIRECTS_FILE"@) is None ==> path == "./redirects.json"@
            }
            &&& c.event_sink matches SinkView::Jsonl { path } ==> {
                &&& first_setting(env, "COMPACTOR_EVENTS_FILE"@) matches Some(v) ==> path == v
                &&& first_setting(env, "COMPACTOR_EVENTS_FILE"@) is None ==> path == "./events.jsonl"@
            }
            &&& first_setting(env, "COMPACTOR_SOURCE_TYPE"@) is None ==> c.source is Json
            &&& first_setting(env, "COMPACTOR_EVENT_SINK_TYPE"@) is None ==> c.event_sink is Jsonl
            &&& first_setting(env, "COMPACTOR_SOURCE_TYPE"@) == Some("json"@) ==> c.source is Json
            &&& first_setting(env, "COMPACTOR_SOURCE_TYPE"@) == Some("http"@) ==> c.source is Http
            &&& first_setting(env, "COMPACTOR_EVENT_SINK_TYPE"@) == Some("jsonl"@) ==> c.event_sink is Jsonl
            &&& first_setting(env, "COMPACTOR_EVENT_SINK_TYPE"@) == Some("http"@) ==> c.event_sink is Http
            &&& first_setting(env, "COMPACTOR_BIND_ADDRESS"@) matches Some(v) ==> socket_address_from_text(v) == Ok::<
                (IpAddress, u16),
                Seq<char>,
            >(c.bind_address)
            &&& first_setting(env, "COMPACTOR_BIND_ADDRESS"@) is None ==> socket_address_from_text("0.0.0.0:8080"@)
                == Ok::<(IpAddress, u16), Seq<char>>(c.bind_address)
        },
{
    reveal_strlit("json");
    reveal_strlit("http");
    reveal_strlit("jsonl");
    assert("http"@ != "json"@) by {
        assert("http"@[0] != "json"@[0]);
    }
    assert("http"@ != "jsonl"@) by {
        assert("http"@[0] != "jsonl"@[0]);
    }
}

/// HTTP connection settings matter only to HTTP adapters: a configuration
/// has an HTTP transport exactly when its source or its sink uses HTTP, and
/// file adapters leave the HTTP settings unread.
pub proof fn law_transport_only_for_http_adapters(
    env: Seq<(Seq<char>, Seq<char>)>,
    files: Seq<(Seq<char>, Result<Seq<char>, Seq<char>>)>,
)
    ensures
        config_of(env, files) matches Ok(c) ==> (c.connect_timeout_ms is Some <==> (c.source is Http || c.event_sink is Http)),
        (setting_or(env, "COMPACTOR_SOURCE_TYPE"@, "json"@) == "json"@ && setting_or(env, "COMPACTOR_EVENT_SINK_TYPE"@, "jsonl"@)
            == "jsonl"@) ==> (source_settings(env, files) matches Ok(SourceView::Json { .. })) && (sink_settings(env, files) matches Ok(
            SinkView::Jsonl { .. },
        )),
{
}

} // verus!
