use vstd::prelude::*;

use crate::text::{char_string, find_char, first_index, has_char, owned};

verus! {

/// A C0 control character or a space, which URL parsing strips from both
/// ends of its input.
pub open spec fn is_c0_or_space(c: char) -> bool {
    (c as u32) <= 0x20
}

/// A tab or newline, which URL parsing removes wherever it occurs.
pub open spec fn is_tab_or_newline(c: char) -> bool {
    c == '\t' || c == '\n' || c == '\r'
}

/// The first index at or after `i` that does not hold a C0 control or a
/// space.
pub open spec fn skip_c0_forward(s: Seq<char>, i: int) -> int
    decreases s.len() - i,
{
    if 0 <= i < s.len() && is_c0_or_space(s[i]) {
        skip_c0_forward(s, i + 1)
    } else {
        i
    }
}

/// The end left after dropping C0 controls and spaces from `s[floor..e]`'s
/// end.
pub open spec fn skip_c0_backward(s: Seq<char>, e: int, floor: int) -> int
    decreases e,
{
    if e > floor && e > 0 && e <= s.len() && is_c0_or_space(s[e - 1]) {
        skip_c0_backward(s, e - 1, floor)
    } else {
        e
    }
}

/// The characters of `s` that are not tabs or newlines.
pub open spec fn without_tabs_newlines(s: Seq<char>) -> Seq<char>
    decreases s.len(),
{
    if s.len() == 0 {
        s
    } else if is_tab_or_newline(s.last()) {
        without_tabs_newlines(s.drop_last())
    } else {
        without_tabs_newlines(s.drop_last()).push(s.last())
    }
}

/// The text a URL parser reads from an input: leading and trailing C0
/// controls and spaces stripped, then tabs and newlines removed.
pub open spec fn url_input(s: Seq<char>) -> Seq<char> {
    let a = skip_c0_forward(s, 0);
    let e = skip_c0_backward(s, s.len() as int, a);
    without_tabs_newlines(s.subrange(a, e))
}

/// The first index at or after `i` that is not a slash.
pub open spec fn skip_slashes(s: Seq<char>, i: int) -> int
    decreases s.len() - i,
{
    if 0 <= i < s.len() && s[i] == '/' {
        skip_slashes(s, i + 1)
    } else {
        i
    }
}

/// The end of an authority that starts at `i`: the first `/`, `?` or `#`.
pub open spec fn authority_end(s: Seq<char>, i: int) -> int
    decreases s.len() - i,
{
    if 0 <= i < s.len() && s[i] != '/' && s[i] != '?' && s[i] != '#' {
        authority_end(s, i + 1)
    } else {
        i
    }
}

/// The end of a path that starts at `i`: the first `?` or `#`.
pub open spec fn path_end(s: Seq<char>, i: int) -> int
    decreases s.len() - i,
{
    if 0 <= i < s.len() && s[i] != '?' && s[i] != '#' {
        path_end(s, i + 1)
    } else {
        i
    }
}

/// The path as a URL text spells it: after the scheme's colon, any
/// slashes and the authority, up to the query or fragment. Nothing is
/// resolved or re-encoded.
pub open spec fn spelled_path(s: Seq<char>) -> Seq<char> {
    if has_char(s, ':') {
        let start = authority_end(s, skip_slashes(s, first_index(s, ':') + 1));
        s.subrange(start, path_end(s, start))
    } else {
        Seq::empty()
    }
}

/// A character that URL parsing percent-encodes in a path: a C0 control,
/// a space, `"`, `#`, `<`, `>`, `?`, a backtick, `{`, `}`, DEL, or any
/// character outside ASCII.
pub open spec fn in_path_encode_set(c: char) -> bool {
    ||| (c as u32) < 0x20
    ||| (c as u32) >= 0x7F
    ||| c == ' '
    ||| c == '"'
    ||| c == '#'
    ||| c == '<'
    ||| c == '>'
    ||| c == '?'
    ||| c == '`'
    ||| c == '{'
    ||| c == '}'
}

/// The UTF-8 encoding of a character.
pub open spec fn utf8_bytes(c: char) -> Seq<u8> {
    let v = c as u32;
    if v < 0x80 {
        seq![v as u8]
    } else if v < 0x800 {
        seq![(0xC0 + v / 64) as u8, (0x80 + v % 64) as u8]
    } else if v < 0x10000 {
        seq![(0xE0 + v / 4096) as u8, (0x80 + (v / 64) % 64) as u8, (0x80 + v % 64) as u8]
    } else {
        seq![
            (0xF0 + v / 262144) as u8,
            (0x80 + (v / 4096) % 64) as u8,
            (0x80 + (v / 64) % 64) as u8,
            (0x80 + v % 64) as u8,
        ]
    }
}

/// The uppercase hexadecimal digit for a value below sixteen.
pub open spec fn hex_digit(d: nat) -> char {
    if d < 10 {
        ((48 + d) as u32) as char
    } else {
        ((55 + d) as u32) as char
    }
}

/// A byte written as `%` and two uppercase hexadecimal digits.
pub open spec fn percent_byte(b: u8) -> Seq<char> {
    seq!['%', hex_digit((b / 16) as nat), hex_digit((b % 16) as nat)]
}

/// Bytes written one after the other as percent-escapes.
pub open spec fn percent_bytes(bytes: Seq<u8>) -> Seq<char>
    decreases bytes.len(),
{
    if bytes.len() == 0 {
        Seq::empty()
    } else {
        percent_bytes(bytes.drop_last()) + percent_byte(bytes.last())
    }
}

/// A path character as URL parsing writes it: percent-escapes of its
/// UTF-8 bytes when it is in the path encode set, else itself.
pub open spec fn path_encoded_char(c: char) -> Seq<char> {
    if in_path_encode_set(c) {
        percent_bytes(utf8_bytes(c))
    } else {
        seq![c]
    }
}

/// A path as URL parsing writes it, each character encoded in turn.
/// Existing percent-escapes are kept as they are.
pub open spec fn path_encoded(s: Seq<char>) -> Seq<char>
    decreases s.len(),
{
    if s.len() == 0 {
        Seq::empty()
    } else {
        path_encoded(s.drop_last()) + path_encoded_char(s.last())
    }
}

proof fn lemma_skip_c0_forward_bounds(s: Seq<char>, i: int)
    requires
        0 <= i <= s.len(),
    ensures
        i <= skip_c0_forward(s, i) <= s.len(),
    decreases s.len() - i,
{
    if i < s.len() && is_c0_or_space(s[i]) {
        lemma_skip_c0_forward_bounds(s, i + 1);
    }
}

proof fn lemma_skip_c0_backward_bounds(s: Seq<char>, e: int, floor: int)
    requires
        0 <= floor <= e <= s.len(),
    ensures
        floor <= skip_c0_backward(s, e, floor) <= e,
    decreases e,
{
    if e > floor && e > 0 && is_c0_or_space(s[e - 1]) {
        lemma_skip_c0_backward_bounds(s, e - 1, floor);
    }
}

proof fn lemma_scans_bounds(s: Seq<char>, i: int)
    requires
        0 <= i <= s.len(),
    ensures
        i <= skip_slashes(s, i) <= s.len(),
        i <= authority_end(s, i) <= s.len(),
        i <= path_end(s, i) <= s.len(),
    decreases s.len() - i,
{
    if i < s.len() {
        lemma_scans_bounds(s, i + 1);
    }
}

/// The text a URL parser reads from an input.
pub fn url_input_text(s: &str) -> (text: String)
    ensures
        text@ == url_input(s@),
{
    let ghost v = s@;
    let n = s.unicode_len();
    let mut a: usize = 0;
    while a < n && (s.get_char(a) as u32) <= 0x20
        invariant
            v == s@,
            n == v.len(),
            a <= n,
            skip_c0_forward(v, a as int) == skip_c0_forward(v, 0),
        decreases n - a,
    {
        a = a + 1;
    }
    let mut e: usize = n;
    while e > a && (s.get_char(e - 1) as u32) <= 0x20
        invariant
            v == s@,
            n == v.len(),
            a <= e <= n,
            a == skip_c0_forward(v, 0),
            skip_c0_backward(v, e as int, a as int) == skip_c0_backward(v, n as int, a as int),
        decreases e,
    {
        e = e - 1;
    }
    let mut text = owned("");
    proof {
        reveal_strlit("");
        assert(v.subrange(a as int, a as int) =~= Seq::<char>::empty());
    }
    let mut k: usize = a;
    while k < e
        invariant
            v == s@,
            n == v.len(),
            a <= k <= e <= n,
            text@ == without_tabs_newlines(v.subrange(a as int, k as int)),
        decreases e - k,
    {
        let c = s.get_char(k);
        proof {
            assert(v.subrange(a as int, k + 1).drop_last() =~= v.subrange(a as int, k as int));
            assert(v.subrange(a as int, k + 1).last() == c);
        }
        if !(c == '\t' || c == '\n' || c == '\r') {
            text.append(char_string(c).as_str());
        }
        k = k + 1;
    }
    text
}

/// The path that a URL text spells.
pub fn spelled_path_text(s: &str) -> (path: String)
    ensures
        path@ == spelled_path(s@),
{
    let ghost v = s@;
    let n = s.unicode_len();
    let colon = match find_char(s, ':') {
        Some(c) => c,
        None => {
            proof {
                reveal_strlit("");
            }
            return owned("");
        },
    };
    let mut i: usize = colon + 1;
    proof {
        lemma_scans_bounds(v, i as int);
    }
    while i < n && s.get_char(i) == '/'
        invariant
            v == s@,
            n == v.len(),
            colon < n,
            colon == first_index(v, ':'),
            i <= n,
            skip_slashes(v, i as int) == skip_slashes(v, colon + 1),
        decreases n - i,
    {
        i = i + 1;
    }
    let ghost slashes_end = i as int;
    while i < n && s.get_char(i) != '/' && s.get_char(i) != '?' && s.get_char(i) != '#'
        invariant
            v == s@,
            n == v.len(),
            i <= n,
            slashes_end == skip_slashes(v, first_index(v, ':') + 1),
            authority_end(v, i as int) == authority_end(v, slashes_end),
        decreases n - i,
    {
        i = i + 1;
    }
    let start = i;
    while i < n && s.get_char(i) != '?' && s.get_char(i) != '#'
        invariant
            v == s@,
            n == v.len(),
            start <= i <= n,
            start == authority_end(v, skip_slashes(v, first_index(v, ':') + 1)),
            path_end(v, i as int) == path_end(v, start as int),
        decreases n - i,
    {
        i = i + 1;
    }
    owned(s.substring_char(start, i))
}

/// Whether no character of `s` is `?` or `#`.
pub open spec fn free_of_query_marks(s: Seq<char>) -> bool {
    forall|i: int| 0 <= i < s.len() ==> s[i] != '?' && s[i] != '#'
}

proof fn lemma_percent_bytes_free(bytes: Seq<u8>)
    ensures
        free_of_query_marks(percent_bytes(bytes)),
    decreases bytes.len(),
{
    if bytes.len() > 0 {
        lemma_percent_bytes_free(bytes.drop_last());
        let b = bytes.last();
        let p = percent_bytes(bytes.drop_last());
        let q = percent_byte(b);
        assert(free_of_query_marks(q)) by {
            let hi = (b / 16) as nat;
            let lo = (b % 16) as nat;
            assert(hex_digit(hi) != '?' && hex_digit(hi) != '#');
            assert(hex_digit(lo) != '?' && hex_digit(lo) != '#');
        }
        assert forall|i: int| 0 <= i < (p + q).len() implies (p + q)[i] != '?' && (p + q)[i] != '#' by {
            if i < p.len() {
                assert((p + q)[i] == p[i]);
            } else {
                assert((p + q)[i] == q[i - p.len()]);
            }
        }
    }
}

/// Percent-encoding a path leaves no `?` and no `#` in it; it is empty
/// only when the path is, and it keeps a leading `/`.
pub proof fn law_path_encoding_keeps_path_shape(s: Seq<char>)
    ensures
        free_of_query_marks(path_encoded(s)),
        path_encoded(s).len() == 0 <==> s.len() == 0,
        s.len() > 0 && s[0] == '/' ==> path_encoded(s)[0] == '/',
    decreases s.len(),
{
    if s.len() > 0 {
        let init = s.drop_last();
        law_path_encoding_keeps_path_shape(init);
        let c = s.last();
        let p = path_encoded(init);
        let q = path_encoded_char(c);
        if in_path_encode_set(c) {
            lemma_percent_bytes_free(utf8_bytes(c));
            assert(utf8_bytes(c).len() > 0);
            assert(utf8_bytes(c).drop_last().len() + 1 == utf8_bytes(c).len());
            assert(q.len() > 0);
        } else {
            assert(c != '?' && c != '#');
            assert(free_of_query_marks(q));
        }
        assert forall|i: int| 0 <= i < (p + q).len() implies (p + q)[i] != '?' && (p + q)[i] != '#' by {
            if i < p.len() {
                assert((p + q)[i] == p[i]);
            } else {
                assert((p + q)[i] == q[i - p.len()]);
            }
        }
        if s[0] == '/' {
            if init.len() > 0 {
                assert(init[0] == '/');
                assert((p + q)[0] == p[0]);
            } else {
                assert(c == '/');
                assert(!in_path_encode_set(c));
                assert(p.len() == 0);
                assert((p + q)[0] == q[0]);
            }
        }
    }
}

fn hex_digit_of(d: u8) -> (c: char)
    requires
        d < 16,
    ensures
        c == hex_digit(d as nat),
{
    if d < 10 {
        (48 + d) as char
    } else {
        (55 + d) as char
    }
}

/// Appends a byte's percent-escape.
fn push_percent_byte(text: &mut String, b: u8)
    ensures
        final(text)@ == old(text)@ + percent_byte(b),
{
    proof {
        reveal_strlit("%");
    }
    let ghost start = text@;
    text.append("%");
    text.append(char_string(hex_digit_of(b / 16)).as_str());
    text.append(char_string(hex_digit_of(b % 16)).as_str());
    assert(text@ =~= start + percent_byte(b));
}

/// The UTF-8 encoding of a character.
fn utf8_of(c: char) -> (bytes: Vec<u8>)
    ensures
        bytes@ == utf8_bytes(c),
{
    let v = c as u32;
    let mut bytes: Vec<u8> = Vec::new();
    if v < 0x80 {
        bytes.push(v as u8);
    } else if v < 0x800 {
        bytes.push((0xC0 + v / 64) as u8);
        bytes.push((0x80 + v % 64) as u8);
    } else if v < 0x10000 {
        bytes.push((0xE0 + v / 4096) as u8);
        bytes.push((0x80 + (v / 64) % 64) as u8);
        bytes.push((0x80 + v % 64) as u8);
    } else {
        bytes.push((0xF0 + v / 262144) as u8);
        bytes.push((0x80 + (v / 4096) % 64) as u8);
        bytes.push((0x80 + (v / 64) % 64) as u8);
        bytes.push((0x80 + v % 64) as u8);
    }
    assert(bytes@ =~= utf8_bytes(c));
    bytes
}

/// A path as URL parsing writes it: each character of the percent-encode
/// set replaced by the percent-escapes of its UTF-8 bytes.
pub fn path_encoded_text(s: &str) -> (path: String)
    ensures
        path@ == path_encoded(s@),
{
    let ghost v = s@;
    let n = s.unicode_len();
    let mut text = owned("");
    proof {
        reveal_strlit("");
        assert(v.subrange(0, 0) =~= Seq::<char>::empty());
    }
    let mut k: usize = 0;
    while k < n
        invariant
            v == s@,
            n == v.len(),
            k <= n,
            text@ == path_encoded(v.subrange(0, k as int)),
        decreases n - k,
    {
        let c = s.get_char(k);
        proof {
            assert(v.subrange(0, k + 1).drop_last() =~= v.subrange(0, k as int));
            assert(v.subrange(0, k + 1).last() == c);
        }
        if in_path_encode_set_char(c) {
            let bytes = utf8_of(c);
            let ghost before = text@;
            let mut j: usize = 0;
            proof {
                assert(bytes@.subrange(0, 0) =~= Seq::<u8>::empty());
            }
            while j < bytes.len()
                invariant
                    j <= bytes.len(),
                    text@ == before + percent_bytes(bytes@.subrange(0, j as int)),
                decreases bytes.len() - j,
            {
                proof {
                    assert(bytes@.subrange(0, j + 1).drop_last() =~= bytes@.subrange(0, j as int));
                }
                push_percent_byte(&mut text, bytes[j]);
                assert(text@ =~= before + percent_bytes(bytes@.subrange(0, j + 1)));
                j = j + 1;
            }
            assert(bytes@.subrange(0, bytes.len() as int) =~= bytes@);
        } else {
            text.append(char_string(c).as_str());
        }
        k = k + 1;
    }
    assert(v.subrange(0, n as int) =~= v);
    text
}

fn in_path_encode_set_char(c: char) -> (r: bool)
    ensures
        r == in_path_encode_set(c),
{
    (c as u32) < 0x20 || (c as u32) >= 0x7F || c == ' ' || c == '"' || c == '#' || c == '<' || c == '>' || c == '?'
        || c == '`' || c == '{' || c == '}'
}

proof fn lemma_authority_end_stops(s: Seq<char>, i: int)
    requires
        0 <= i <= s.len(),
    ensures
        authority_end(s, i) < s.len() ==> s[authority_end(s, i)] == '/' || s[authority_end(s, i)] == '?'
            || s[authority_end(s, i)] == '#',
    decreases s.len() - i,
{
    if i < s.len() && s[i] != '/' && s[i] != '?' && s[i] != '#' {
        lemma_authority_end_stops(s, i + 1);
    }
}

/// A spelled path that is not empty begins with `/`.
pub proof fn law_spelled_path_starts_with_slash(s: Seq<char>)
    ensures
        spelled_path(s).len() > 0 ==> spelled_path(s)[0] == '/',
{
    if has_char(s, ':') {
        let colon = first_index(s, ':');
        crate::text::lemma_first_index(s, ':');
        lemma_scans_bounds(s, colon + 1);
        let from = skip_slashes(s, colon + 1);
        lemma_scans_bounds(s, from);
        let start = authority_end(s, from);
        lemma_scans_bounds(s, start);
        lemma_authority_end_stops(s, from);
        if spelled_path(s).len() > 0 {
            assert(path_end(s, start) > start);
            assert(spelled_path(s)[0] == s[start]);
        }
    }
}

proof fn lemma_path_end_stops(s: Seq<char>, i: int, k: int)
    requires
        0 <= i <= k < path_end(s, i),
    ensures
        s[k] != '?' && s[k] != '#',
    decreases s.len() - i,
{
    if i < k {
        lemma_path_end_stops(s, i + 1, k);
    }
}

/// A spelled path never carries the query or the fragment: it holds no `?`
/// and no `#`.
pub proof fn law_spelled_path_excludes_query_and_fragment(s: Seq<char>)
    ensures
        !has_char(spelled_path(s), '?'),
        !has_char(spelled_path(s), '#'),
{
    if has_char(s, ':') {
        let colon = first_index(s, ':');
        crate::text::lemma_first_index(s, ':');
        let start = authority_end(s, skip_slashes(s, colon + 1));
        lemma_scans_bounds(s, colon + 1);
        lemma_scans_bounds(s, skip_slashes(s, colon + 1));
        lemma_scans_bounds(s, start);
        let p = spelled_path(s);
        assert forall|j: int| 0 <= j < p.len() implies p[j] != '?' && p[j] != '#' by {
            lemma_path_end_stops(s, start, start + j);
        }
    }
}

} // verus!
