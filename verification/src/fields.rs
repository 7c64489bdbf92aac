use vstd::prelude::*;

use crate::text::ascii_lower;

verus! {

/// An HTTP token character (RFC 9110 `tchar`): the characters that a header
/// name may hold.
pub open spec fn is_token_char(c: char) -> bool {
    ||| ('a' <= c && c <= 'z')
    ||| ('A' <= c && c <= 'Z')
    ||| ('0' <= c && c <= '9')
    ||| c == '!' || c == '#' || c == '$' || c == '%' || c == '&' || c == '\''
    ||| c == '*' || c == '+' || c == '-' || c == '.' || c == '^' || c == '_'
    ||| c == '`' || c == '|' || c == '~'
}

/// The normal form of a header name: present when the name has between 1
/// and 65535 characters, all of them token characters, and then lowercase.
pub open spec fn header_name_of(name: Seq<char>) -> Option<Seq<char>> {
    if 1 <= name.len() <= 65535 && forall|i: int| 0 <= i < name.len() ==> is_token_char(#[trigger] name[i]) {
        Some(ascii_lower(name))
    } else {
        None
    }
}

/// A character that a header value may hold: a tab, or anything from the
/// space on but DEL.
pub open spec fn is_value_char(c: char) -> bool {
    (c as u32 >= 32 && c as u32 != 127) || c == '\t'
}

/// Whether a text is a valid header value.
pub open spec fn valid_header_value(value: Seq<char>) -> bool {
    forall|i: int| 0 <= i < value.len() ==> is_value_char(#[trigger] value[i])
}

/// Normalizes a header name (`http::HeaderName::from_bytes`, as its source
/// shows): a name of 1 to 65535 token characters is accepted in lowercase;
/// any other is refused with the error's text.
#[verifier::external_body]
pub(crate) fn parse_header_name(name: &str) -> (parsed: Result<String, String>)
    ensures
        match parsed {
            Ok(n) => header_name_of(name@) == Some(n@),
            Err(e) => header_name_of(name@) is None && e@ == "invalid HTTP header name"@,
        },
{
    match http::HeaderName::from_bytes(name.as_bytes()) {
        Ok(parsed) => Ok(parsed.as_str().to_owned()),
        Err(error) => Err(error.to_string()),
    }
}

/// Checks a header value (`http::HeaderValue::from_str`, as its source
/// shows): every byte must be a tab or at least 32 and not 127, so every
/// non-ASCII character passes. The accepted value keeps its text.
#[verifier::external_body]
pub(crate) fn parse_header_value(value: &str) -> (parsed: Result<String, String>)
    ensures
        match parsed {
            Ok(v) => valid_header_value(value@) && v@ == value@,
            Err(e) => !valid_header_value(value@) && e@ == "failed to parse header value"@,
        },
{
    match http::HeaderValue::from_str(value) {
        Ok(parsed) => Ok(String::from_utf8_lossy(parsed.as_bytes()).into_owned()),
        Err(error) => Err(error.to_string()),
    }
}

} // verus!
