use vstd::prelude::*;
use vstd::string::*;
use vstd::utf8::*;

use crate::text::{ascii_lower, ascii_lowercase, char_string, owned, text_eq};

verus! {

broadcast use vstd::string::group_string_axioms, vstd::utf8::group_utf8_lib;

/// The header fields of a request or response: names in their lowercase
/// normal form, values as raw bytes, in arrival order.
#[derive(Debug)]
pub struct HeaderList {
    entries: Vec<(String, Vec<u8>)>,
}

impl View for HeaderList {
    type V = Seq<(Seq<char>, Seq<u8>)>;

    closed spec fn view(&self) -> Seq<(Seq<char>, Seq<u8>)> {
        self.entries@.map_values(|e: (String, Vec<u8>)| (e.0@, e.1@))
    }
}

/// The first value of a header field (`HeaderMap::get`).
pub open spec fn first_value(fields: Seq<(Seq<char>, Seq<u8>)>, name: Seq<char>) -> Option<Seq<u8>>
    decreases fields.len(),
{
    if fields.len() == 0 {
        None
    } else if fields[0].0 == name {
        Some(fields[0].1)
    } else {
        first_value(fields.drop_first(), name)
    }
}

proof fn lemma_first_value(fields: Seq<(Seq<char>, Seq<u8>)>, name: Seq<char>, i: int)
    requires
        0 <= i <= fields.len(),
        forall|j: int| 0 <= j < i ==> (#[trigger] fields[j]).0 != name,
    ensures
        i < fields.len() && fields[i].0 == name ==> first_value(fields, name) == Some(fields[i].1),
        i == fields.len() ==> first_value(fields, name) is None,
    decreases i,
{
    if i > 0 {
        let t = fields.drop_first();
        assert forall|j: int| 0 <= j < i - 1 implies (#[trigger] t[j]).0 != name by {
            assert(t[j] == fields[j + 1]);
        }
        lemma_first_value(t, name, i - 1);
    }
}

/// A byte that `HeaderValue::to_str` accepts: visible ASCII or tab.
pub open spec fn visible_ascii_byte(b: u8) -> bool {
    (32 <= b && b < 127) || b == 9
}

/// Whether every byte is visible ASCII or a tab.
pub open spec fn visible_ascii(bytes: Seq<u8>) -> bool {
    forall|i: int| 0 <= i < bytes.len() ==> visible_ascii_byte(#[trigger] bytes[i])
}

/// The characters of ASCII bytes.
pub open spec fn ascii_chars(bytes: Seq<u8>) -> Seq<char> {
    bytes.map_values(|b: u8| b as char)
}

/// The first value of a header as text, when it is visible ASCII
/// (`headers.get(name)?.to_str().ok()`).
pub open spec fn header_text_of(fields: Seq<(Seq<char>, Seq<u8>)>, name: Seq<char>) -> Option<Seq<char>> {
    match first_value(fields, name) {
        Some(v) => if visible_ascii(v) {
            Some(ascii_chars(v))
        } else {
            None
        },
        None => None,
    }
}

/// The text of visible ASCII bytes, or nothing when another byte occurs.
pub fn visible_text(bytes: &Vec<u8>) -> (text: Option<String>)
    ensures
        match text {
            Some(t) => visible_ascii(bytes@) && t@ == ascii_chars(bytes@),
            None => !visible_ascii(bytes@),
        },
{
    let mut t = owned("");
    proof {
        reveal_strlit("");
    }
    for i in 0..bytes.len()
        invariant
            forall|j: int| 0 <= j < i ==> visible_ascii_byte(#[trigger] bytes@[j]),
            t@ == ascii_chars(bytes@.subrange(0, i as int)),
    {
        let b = bytes[i];
        if !((32 <= b && b < 127) || b == 9) {
            return None;
        }
        let c = char_string(b as char);
        t.append(c.as_str());
        assert(ascii_chars(bytes@.subrange(0, i + 1)) =~= ascii_chars(bytes@.subrange(0, i as int)).push(b as char));
    }
    assert(bytes@.subrange(0, bytes@.len() as int) =~= bytes@);
    Some(t)
}

impl HeaderList {
    /// No header fields.
    pub fn new() -> (headers: Self)
        ensures
            headers@ == Seq::<(Seq<char>, Seq<u8>)>::empty(),
    {
        let headers = HeaderList { entries: Vec::new() };
        assert(headers@ =~= Seq::<(Seq<char>, Seq<u8>)>::empty());
        headers
    }

    /// Adds a value for a header name, after any earlier values
    /// (`HeaderMap::append`); the name is lowercased.
    pub fn append(&mut self, name: &str, value: Vec<u8>)
        ensures
            final(self)@ == old(self)@.push((ascii_lower(name@), value@)),
    {
        let lowered = ascii_lowercase(name);
        self.entries.push((lowered, value));
        assert(final(self)@ =~= old(self)@.push((ascii_lower(name@), value@)));
    }

}

/// The first value of a header (`HeaderMap::get`).
pub fn header_value<'a>(headers: &'a HeaderList, name: &str) -> (value: Option<&'a Vec<u8>>)
    ensures
        match value {
            Some(v) => first_value(headers@, name@) == Some(v@),
            None => first_value(headers@, name@) is None,
        },
{
    let n = headers.entries.len();
    for i in 0..n
        invariant
            n == headers.entries@.len(),
            forall|j: int| 0 <= j < i ==> (#[trigger] headers@[j]).0 != name@,
    {
        if text_eq(headers.entries[i].0.as_str(), name) {
            proof {
                lemma_first_value(headers@, name@, i as int);
            }
            return Some(&headers.entries[i].1);
        }
        assert(headers@[i as int].0 == headers.entries@[i as int].0@);
    }
    proof {
        lemma_first_value(headers@, name@, n as int);
    }
    None
}

/// The first value of a header as text, when it is visible ASCII.
pub fn header_text(headers: &HeaderList, name: &str) -> (text: Option<String>)
    ensures
        match text {
            Some(t) => header_text_of(headers@, name@) == Some(t@),
            None => header_text_of(headers@, name@) is None,
        },
{
    match header_value(headers, name) {
        Some(v) => visible_text(v),
        None => None,
    }
}


/// The largest byte length, up to `maximum`, at which `bytes` can be cut
/// between two characters: all of it when it fits.
pub open spec fn truncation_point(bytes: Seq<u8>, maximum: nat, point: nat) -> bool {
    if bytes.len() <= maximum {
        point == bytes.len()
    } else {
        &&& point <= maximum
        &&& is_char_boundary(bytes, point as int)
        &&& forall|b: int| point < b <= maximum ==> !is_char_boundary(bytes, b)
    }
}

/// Cuts text to at most `maximum` bytes without splitting a character.
pub fn truncate_utf8(value: &str, maximum: usize) -> (truncated: String)
    ensures
        exists|point: nat|
            truncation_point(value.spec_bytes(), maximum as nat, point)
                && encode_utf8(truncated@) == value.spec_bytes().subrange(0, point as int),
{
    let length = value.as_bytes().len();
    if length <= maximum {
        proof {
            assert(value.spec_bytes().subrange(0, value.spec_bytes().len() as int) =~= value.spec_bytes());
            assert(truncation_point(value.spec_bytes(), maximum as nat, value.spec_bytes().len()));
        }
        return owned(value);
    }
    let ghost bytes = value.spec_bytes();
    let mut boundary = maximum;
    proof {
        encode_utf8_valid_utf8(value@);
        is_char_boundary_start_end_of_seq(bytes);
    }
    while !value.is_char_boundary(boundary)
        invariant
            bytes == value.spec_bytes(),
            valid_utf8(bytes),
            boundary <= maximum < bytes.len(),
            is_char_boundary(bytes, 0),
            forall|b: int| boundary < b <= maximum ==> !is_char_boundary(bytes, b),
        decreases boundary,
    {
        boundary = boundary - 1;
    }
    let (head, _tail) = value.split_at(boundary);
    let truncated = owned(head);
    proof {
        assert(truncation_point(bytes, maximum as nat, boundary as nat));
    }
    truncated
}

/// Cuts ASCII text to at most `maximum` characters, which are its bytes.
pub fn truncate_ascii(value: &str, maximum: usize) -> (truncated: String)
    requires
        is_ascii_chars(value@),
    ensures
        truncated@ == take_at_most(value@, maximum as nat),
        is_ascii_chars(truncated@),
{
    let truncated = truncate_utf8(value, maximum);
    proof {
        let point = choose|point: nat|
            truncation_point(encode_utf8(value@), maximum as nat, point)
                && encode_utf8(truncated@) == encode_utf8(value@).subrange(0, point as int);
        lemma_truncate_ascii(value@, maximum as nat, point, truncated@);
        assert(is_ascii_chars(truncated@));
        is_ascii_chars_encode_utf8(truncated@);
    }
    truncated
}

/// For ASCII text, truncation keeps the first `maximum` characters.
proof fn lemma_truncate_ascii(value: Seq<char>, maximum: nat, point: nat, truncated: Seq<char>)
    requires
        is_ascii_chars(value),
        truncation_point(encode_utf8(value), maximum, point),
        encode_utf8(truncated) == encode_utf8(value).subrange(0, point as int),
    ensures
        truncated == value.take(if value.len() <= maximum { value.len() as int } else { maximum as int }),
{
    let bytes = encode_utf8(value);
    is_ascii_chars_encode_utf8(value);
    encode_utf8_valid_utf8(value);
    let k = if value.len() <= maximum { value.len() as int } else { maximum as int };
    if value.len() > maximum {
        if point < maximum {
            let b = maximum as int;
            is_char_boundary_iff_is_leading_byte(bytes, b);
            assert(value[b] as u8 == bytes[b]);
            assert(is_leading_byte_width_1(bytes[b]));
            assert(false);
        }
    }
    assert(point == k);
    let prefix = value.take(k);
    assert(is_ascii_chars(prefix));
    is_ascii_chars_encode_utf8(prefix);
    assert(encode_utf8(prefix) =~= bytes.subrange(0, k));
    encode_utf8_decode_utf8(prefix);
    encode_utf8_decode_utf8(truncated);
}

} // verus!

verus! {

/// Byte limits for captured request header values.
#[derive(Debug, Clone, Copy, PartialEq, Eq, Structural)]
pub struct HeaderCaptureLimits {
    pub value_bytes: usize,
    pub total_bytes: usize,
}

/// The request headers that events may record, in the order they are
/// considered.
pub open spec fn captured_names() -> Seq<Seq<char>> {
    seq!["referer"@, "accept"@, "accept-language"@, "x-request-id"@]
}

/// The first `n` characters of `s`, or all of it.
pub open spec fn take_at_most(s: Seq<char>, n: nat) -> Seq<char> {
    if s.len() <= n {
        s
    } else {
        s.take(n as int)
    }
}

/// Capture over the first `n` allowlisted names: each textual value is cut
/// to `value_bytes`, and left out when it would take the total past
/// `total_bytes`. Returns the captured pairs and the bytes they use.
pub open spec fn capture_prefix(
    fields: Seq<(Seq<char>, Seq<u8>)>,
    limits: HeaderCaptureLimits,
    n: nat,
) -> (Seq<(Seq<char>, Seq<char>)>, nat)
    decreases n,
{
    if n == 0 {
        (Seq::empty(), 0)
    } else {
        let (acc, total) = capture_prefix(fields, limits, (n - 1) as nat);
        let name = captured_names()[n - 1];
        match header_text_of(fields, name) {
            None => (acc, total),
            Some(text) => {
                let v = take_at_most(text, limits.value_bytes as nat);
                if total + v.len() > limits.total_bytes {
                    (acc, total)
                } else {
                    (acc.push((name, v)), total + v.len())
                }
            },
        }
    }
}

/// The captured headers of a request.
pub open spec fn captured_headers(fields: Seq<(Seq<char>, Seq<u8>)>, limits: HeaderCaptureLimits) -> Seq<(Seq<char>, Seq<char>)> {
    capture_prefix(fields, limits, 4).0
}

proof fn lemma_capture_total(fields: Seq<(Seq<char>, Seq<u8>)>, limits: HeaderCaptureLimits, n: nat)
    ensures
        capture_prefix(fields, limits, n).1 <= limits.total_bytes,
    decreases n,
{
    if n > 0 {
        lemma_capture_total(fields, limits, (n - 1) as nat);
    }
}

fn capture_one(
    headers: &HeaderList,
    name: &str,
    limits: HeaderCaptureLimits,
    captured: &mut Vec<(String, String)>,
    total: &mut usize,
    Ghost(n): Ghost<nat>,
)
    requires
        1 <= n <= 4,
        name@ == captured_names()[n - 1],
        crate::redirect::pairs_view(old(captured)@) == capture_prefix(headers@, limits, (n - 1) as nat).0,
        *old(total) == capture_prefix(headers@, limits, (n - 1) as nat).1,
    ensures
        crate::redirect::pairs_view(final(captured)@) == capture_prefix(headers@, limits, n).0,
        *final(total) == capture_prefix(headers@, limits, n).1,
{
    proof {
        lemma_capture_total(headers@, limits, (n - 1) as nat);
    }
    match header_text(headers, name) {
        None => {},
        Some(text) => {
            proof {
                assert(is_ascii_chars(text@));
            }
            let value = truncate_ascii(text.as_str(), limits.value_bytes);
            proof {
                is_ascii_chars_encode_utf8(value@);
            }
            let length = value.as_str().as_bytes().len();
            if length <= limits.total_bytes - *total {
                *total = *total + length;
                captured.push((owned(name), value));
                proof {
                    assert(crate::redirect::pairs_view(captured@) =~= crate::redirect::pairs_view(old(captured)@).push((name@, value@)));
                }
            }
        },
    }
}

/// The allowlisted request headers, cut to the configured byte limits,
/// as the entries of a string map: in name order.
pub fn capture_headers(headers: &HeaderList, limits: HeaderCaptureLimits) -> (captured: Vec<(String, String)>)
    ensures
        crate::redirect::pairs_view(captured@) == crate::string_map::map_entries(captured_headers(headers@, limits)),
{
    let mut captured: Vec<(String, String)> = Vec::new();
    let mut total: usize = 0;
    proof {
        assert(crate::redirect::pairs_view(captured@) =~= Seq::<(Seq<char>, Seq<char>)>::empty());
    }
    capture_one(headers, "referer", limits, &mut captured, &mut total, Ghost(1));
    capture_one(headers, "accept", limits, &mut captured, &mut total, Ghost(2));
    capture_one(headers, "accept-language", limits, &mut captured, &mut total, Ghost(3));
    capture_one(headers, "x-request-id", limits, &mut captured, &mut total, Ghost(4));
    crate::string_map::map_entries_of(&captured)
}

/// The bytes that captured values take: one byte per character, since
/// captured values are ASCII.
pub open spec fn captured_size(pairs: Seq<(Seq<char>, Seq<char>)>) -> nat
    decreases pairs.len(),
{
    if pairs.len() == 0 {
        0
    } else {
        captured_size(pairs.drop_last()) + pairs.last().1.len()
    }
}

proof fn lemma_capture_prefix(fields: Seq<(Seq<char>, Seq<u8>)>, limits: HeaderCaptureLimits, n: nat)
    requires
        n <= 4,
    ensures
        capture_prefix(fields, limits, n).1 == captured_size(capture_prefix(fields, limits, n).0),
        capture_prefix(fields, limits, n).1 <= limits.total_bytes,
        forall|i: int|
            0 <= i < capture_prefix(fields, limits, n).0.len() ==> {
                &&& captured_names().take(n as int).contains((#[trigger] capture_prefix(fields, limits, n).0[i]).0)
                &&& capture_prefix(fields, limits, n).0[i].1.len() <= limits.value_bytes
            },
    decreases n,
{
    lemma_capture_total(fields, limits, n);
    if n > 0 {
        let m = (n - 1) as nat;
        lemma_capture_prefix(fields, limits, m);
        let (acc, total) = capture_prefix(fields, limits, m);
        let name = captured_names()[n - 1];
        assert(captured_names().take(n as int)[n - 1] == name);
        assert forall|x: Seq<char>| captured_names().take(m as int).contains(x) implies captured_names().take(
            n as int,
        ).contains(x) by {
            let j = choose|j: int| 0 <= j < m && captured_names().take(m as int)[j] == x;
            assert(captured_names().take(n as int)[j] == x);
        }
        match header_text_of(fields, name) {
            None => {},
            Some(text) => {
                let v = take_at_most(text, limits.value_bytes as nat);
                if total + v.len() <= limits.total_bytes {
                    let pushed = acc.push((name, v));
                    assert(pushed.drop_last() =~= acc);
                    assert forall|i: int| 0 <= i < pushed.len() implies {
                        &&& captured_names().take(n as int).contains((#[trigger] pushed[i]).0)
                        &&& pushed[i].1.len() <= limits.value_bytes
                    } by {
                        if i < acc.len() {
                            assert(pushed[i] == acc[i]);
                        } else {
                            assert(captured_names().take(n as int).contains(name));
                        }
                    }
                }
            },
        }
    }
}

/// Header capture keeps events bounded and free of sensitive headers: only
/// `referer`, `accept`, `accept-language` and `x-request-id` are recorded,
/// each value is at most `value_bytes` long, and all of them take at most
/// `total_bytes`.
pub proof fn law_capture_is_bounded(fields: Seq<(Seq<char>, Seq<u8>)>, limits: HeaderCaptureLimits)
    ensures
        captured_size(captured_headers(fields, limits)) <= limits.total_bytes,
        forall|i: int|
            0 <= i < captured_headers(fields, limits).len() ==> {
                &&& captured_names().contains((#[trigger] captured_headers(fields, limits)[i]).0)
                &&& captured_headers(fields, limits)[i].1.len() <= limits.value_bytes
            },
{
    lemma_capture_prefix(fields, limits, 4);
    assert(captured_names().take(4) =~= captured_names());
}

} // verus!
