use vstd::prelude::*;

verus! {

/// The text of an optional string.
pub open spec fn opt_text(o: Option<String>) -> Option<Seq<char>> {
    match o {
        Some(s) => Some(s@),
        None => None,
    }
}

/// The Unicode `White_Space` property, which `char::is_whitespace` and
/// `str::trim` go by.
pub open spec fn is_unicode_whitespace(c: char) -> bool {
    let v = c as u32;
    ||| 0x09 <= v <= 0x0d
    ||| v == 0x20
    ||| v == 0x85
    ||| v == 0xa0
    ||| v == 0x1680
    ||| 0x2000 <= v <= 0x200a
    ||| v == 0x2028
    ||| v == 0x2029
    ||| v == 0x202f
    ||| v == 0x205f
    ||| v == 0x3000
}

/// `char::is_whitespace`.
pub fn char_is_whitespace(c: char) -> (r: bool)
    ensures
        r == is_unicode_whitespace(c),
{
    let v = c as u32;
    (0x09 <= v && v <= 0x0d) || v == 0x20 || v == 0x85 || v == 0xa0 || v == 0x1680 || (0x2000
        <= v && v <= 0x200a) || v == 0x2028 || v == 0x2029 || v == 0x202f || v == 0x205f || v
        == 0x3000
}

/// Whether `s.trim()` is empty: every character is white space.
pub open spec fn is_blank(s: Seq<char>) -> bool {
    forall|i: int| 0 <= i < s.len() ==> is_unicode_whitespace(#[trigger] s[i])
}

/// Whether a text is empty or white space only (`str::trim().is_empty()`).
pub fn str_is_blank(s: &str) -> (r: bool)
    ensures
        r == is_blank(s@),
{
    for c in it: s.chars()
        invariant
            it.seq() == s@,
            forall|i: int| 0 <= i < it.index() ==> is_unicode_whitespace(#[trigger] s@[i]),
    {
        if !char_is_whitespace(c) {
            return false;
        }
    }
    true
}

} // verus!

verus! {

/// The text made of one character (`char::to_string`).
#[verifier::external_body]
pub(crate) fn char_string(c: char) -> (text: String)
    ensures
        text@ == seq![c],
{
    c.to_string()
}

/// Owned copy of a string slice.
pub fn owned(s: &str) -> (text: String)
    ensures
        text@ == s@,
{
    s.to_string()
}

/// The concatenation of two pieces of text.
pub fn join2(a: &str, b: &str) -> (text: String)
    ensures
        text@ == a@ + b@,
{
    let mut text = owned(a);
    text.append(b);
    text
}

/// The concatenation of three pieces of text.
pub fn join3(a: &str, b: &str, c: &str) -> (text: String)
    ensures
        text@ == a@ + b@ + c@,
{
    let mut text = owned(a);
    text.append(b);
    text.append(c);
    text
}

/// The decimal digit character for a value below ten.
pub open spec fn digit_char(d: nat) -> char {
    ((48 + d) as u32) as char
}

/// The decimal representation of a natural number, without sign or
/// leading zeros (`0` for zero).
pub open spec fn decimal_text(n: nat) -> Seq<char>
    decreases n,
{
    if n < 10 {
        seq![digit_char(n)]
    } else {
        decimal_text(n / 10).push(digit_char(n % 10))
    }
}

fn digit(d: u64) -> (c: char)
    requires
        d < 10,
    ensures
        c == digit_char(d as nat),
{
    let v: u8 = 48 + d as u8;
    v as char
}

/// Decimal text of an unsigned integer, as `to_string` writes it.
pub fn u64_text(n: u64) -> (text: String)
    ensures
        text@ == decimal_text(n as nat),
    decreases n,
{
    if n < 10 {
        char_string(digit(n))
    } else {
        let mut text = u64_text(n / 10);
        let last = char_string(digit(n % 10));
        text.append(last.as_str());
        text
    }
}

/// Decimal text of a `u16`.
pub fn u16_text(n: u16) -> (text: String)
    ensures
        text@ == decimal_text(n as nat),
{
    u64_text(n as u64)
}

} // verus!

verus! {

/// `s` with its leading white space removed (`str::trim_start`).
pub open spec fn trim_start(s: Seq<char>) -> Seq<char>
    decreases s.len(),
{
    if s.len() > 0 && is_unicode_whitespace(s[0]) {
        trim_start(s.drop_first())
    } else {
        s
    }
}

/// `s` with its trailing white space removed (`str::trim_end`).
pub open spec fn trim_end(s: Seq<char>) -> Seq<char>
    decreases s.len(),
{
    if s.len() > 0 && is_unicode_whitespace(s.last()) {
        trim_end(s.drop_last())
    } else {
        s
    }
}

/// `s` with leading and trailing white space removed (`str::trim`).
pub open spec fn trim(s: Seq<char>) -> Seq<char> {
    trim_end(trim_start(s))
}

proof fn lemma_trim_start(s: Seq<char>, i: int)
    requires
        0 <= i <= s.len(),
        forall|j: int| 0 <= j < i ==> is_unicode_whitespace(#[trigger] s[j]),
        i == s.len() || !is_unicode_whitespace(s[i]),
    ensures
        trim_start(s) == s.subrange(i, s.len() as int),
    decreases i,
{
    if i == 0 {
        assert(s.subrange(0, s.len() as int) =~= s);
    } else {
        let t = s.drop_first();
        assert forall|j: int| 0 <= j < i - 1 implies is_unicode_whitespace(#[trigger] t[j]) by {
            assert(t[j] == s[j + 1]);
        }
        lemma_trim_start(t, i - 1);
        assert(t.subrange(i - 1, t.len() as int) =~= s.subrange(i, s.len() as int));
    }
}

proof fn lemma_trim_end(s: Seq<char>, j: int)
    requires
        0 <= j <= s.len(),
        forall|k: int| j <= k < s.len() ==> is_unicode_whitespace(#[trigger] s[k]),
        j == 0 || !is_unicode_whitespace(s[j - 1]),
    ensures
        trim_end(s) == s.subrange(0, j),
    decreases s.len() - j,
{
    if j == s.len() {
        assert(s.subrange(0, j) =~= s);
    } else {
        let t = s.drop_last();
        assert forall|k: int| j <= k < t.len() implies is_unicode_whitespace(#[trigger] t[k]) by {
            assert(t[k] == s[k]);
        }
        lemma_trim_end(t, j);
        assert(t.subrange(0, j) =~= s.subrange(0, j));
    }
}

/// `str::trim`, written out: white space is Unicode `White_Space`.
pub fn trim_text(s: &str) -> (t: String)
    ensures
        t@ == trim(s@),
{
    let ghost v = s@;
    let n = s.unicode_len();
    let mut start: usize = 0;
    let mut end: usize = 0;
    let mut seen: bool = false;
    let mut idx: usize = 0;
    for c in it: s.chars()
        invariant
            it.seq() == v,
            v == s@,
            n == v.len(),
            idx == it.index(),
            idx <= v.len(),
            !seen ==> start == idx && end == idx && forall|j: int| 0 <= j < idx ==> is_unicode_whitespace(#[trigger] v[j]),
            seen ==> start < end <= idx && !is_unicode_whitespace(v[start as int])
                && !is_unicode_whitespace(v[end - 1])
                && forall|j: int| 0 <= j < start ==> is_unicode_whitespace(#[trigger] v[j]),
            seen ==> forall|k: int| end <= k < idx ==> is_unicode_whitespace(#[trigger] v[k]),
    {
        assert(c == v[idx as int]);
        if char_is_whitespace(c) {
            if !seen {
                start = idx + 1;
                end = idx + 1;
            }
        } else {
            if !seen {
                seen = true;
                start = idx;
            }
            end = idx + 1;
        }
        idx = idx + 1;
    }
    proof {
        lemma_trim_start(v, start as int);
        let u = v.subrange(start as int, v.len() as int);
        if seen {
            assert forall|k: int| end - start <= k < u.len() implies is_unicode_whitespace(#[trigger] u[k]) by {
                assert(u[k] == v[k + start]);
            }
            assert(u[end - start - 1] == v[end - 1]);
            lemma_trim_end(u, end - start);
            assert(u.subrange(0, end - start) =~= v.subrange(start as int, end as int));
        } else {
            assert(u.len() == 0);
            lemma_trim_end(u, 0);
            assert(u.subrange(0, 0) =~= v.subrange(start as int, end as int));
        }
    }
    owned(s.substring_char(start, end))
}

/// The pieces of `s` between occurrences of `sep` (`str::split` with a
/// character pattern); there is always at least one piece.
pub open spec fn split(s: Seq<char>, sep: char) -> Seq<Seq<char>>
    decreases s.len(),
{
    if s.len() == 0 {
        seq![Seq::<char>::empty()]
    } else {
        let p = split(s.drop_last(), sep);
        if s.last() == sep {
            p.push(Seq::<char>::empty())
        } else {
            p.update(p.len() - 1, p.last().push(s.last()))
        }
    }
}

/// Splitting always gives at least one piece.
pub proof fn lemma_split_nonempty(s: Seq<char>, sep: char)
    ensures
        split(s, sep).len() >= 1,
    decreases s.len(),
{
    if s.len() > 0 {
        lemma_split_nonempty(s.drop_last(), sep);
    }
}

/// The texts of a list of strings.
pub open spec fn texts(v: Seq<String>) -> Seq<Seq<char>> {
    v.map_values(|x: String| x@)
}

/// `str::split` with a character pattern, collected.
pub fn split_text(s: &str, sep: char) -> (pieces: Vec<String>)
    ensures
        texts(pieces@) == split(s@, sep),
{
    let ghost v = s@;
    let n = s.unicode_len();
    let mut pieces: Vec<String> = Vec::new();
    let mut start: usize = 0;
    let mut idx: usize = 0;
    assert(v.subrange(0, 0) =~= Seq::<char>::empty());
    assert(texts(pieces@).push(v.subrange(0, 0)) =~= split(v.subrange(0, 0), sep));
    for c in it: s.chars()
        invariant
            it.seq() == v,
            v == s@,
            n == v.len(),
            idx == it.index(),
            start <= idx <= v.len(),
            texts(pieces@).push(v.subrange(start as int, idx as int)) == split(v.subrange(0, idx as int), sep),
    {
        assert(idx < v.len());
        assert(c == v[idx as int]);
        let ghost before = texts(pieces@);
        proof {
            lemma_split_nonempty(v.subrange(0, idx as int), sep);
            assert(v.subrange(0, idx + 1).drop_last() =~= v.subrange(0, idx as int));
        }
        if c == sep {
            let piece = owned(s.substring_char(start, idx));
            pieces.push(piece);
            start = idx + 1;
            proof {
                assert(v.subrange(start as int, idx + 1) =~= Seq::<char>::empty());
                assert(texts(pieces@).push(v.subrange(start as int, idx + 1)) =~= split(v.subrange(0, idx + 1), sep));
            }
        } else {
            proof {
                let p = split(v.subrange(0, idx as int), sep);
                assert(v.subrange(start as int, idx + 1) =~= v.subrange(start as int, idx as int).push(c));
                assert(texts(pieces@).push(v.subrange(start as int, idx + 1)) =~= p.update(p.len() - 1, p.last().push(c)));
            }
        }
        idx = idx + 1;
    }
    pieces.push(owned(s.substring_char(start, idx)));
    proof {
        assert(v.subrange(0, idx as int) =~= v);
        assert(texts(pieces@) =~= split(v, sep));
    }
    pieces
}

/// Whether `c` occurs in `s`.
pub open spec fn has_char(s: Seq<char>, c: char) -> bool {
    exists|i: int| 0 <= i < s.len() && s[i] == c
}

/// The index of the first `c` in `s`, when there is one.
pub open spec fn first_index(s: Seq<char>, c: char) -> int {
    choose|i: int| 0 <= i < s.len() && s[i] == c && forall|j: int| 0 <= j < i ==> s[j] != c
}

proof fn lemma_earliest(s: Seq<char>, c: char, i: int)
    requires
        0 <= i < s.len(),
        s[i] == c,
    ensures
        exists|k: int| 0 <= k < s.len() && s[k] == c && forall|j: int| 0 <= j < k ==> s[j] != c,
    decreases i,
{
    if exists|j: int| 0 <= j < i && s[j] == c {
        let j = choose|j: int| 0 <= j < i && s[j] == c;
        lemma_earliest(s, c, j);
    } else {
        assert(forall|j: int| 0 <= j < i ==> s[j] != c);
    }
}

/// A character that occurs has a first occurrence.
pub proof fn lemma_first_index(s: Seq<char>, c: char)
    requires
        has_char(s, c),
    ensures
        0 <= first_index(s, c) < s.len(),
        s[first_index(s, c)] == c,
        forall|j: int| 0 <= j < first_index(s, c) ==> s[j] != c,
{
    let i = choose|i: int| 0 <= i < s.len() && s[i] == c;
    lemma_earliest(s, c, i);
}

/// `str::split_once` with a character pattern.
pub open spec fn split_once(s: Seq<char>, c: char) -> Option<(Seq<char>, Seq<char>)> {
    if has_char(s, c) {
        let i = first_index(s, c);
        Some((s.subrange(0, i), s.subrange(i + 1, s.len() as int)))
    } else {
        None
    }
}

/// The index of the first `c` in `s`.
pub fn find_char(s: &str, c: char) -> (found: Option<usize>)
    ensures
        found is Some <==> has_char(s@, c),
        found matches Some(i) ==> i == first_index(s@, c) && i < s@.len(),
{
    let ghost v = s@;
    let n = s.unicode_len();
    let mut idx: usize = 0;
    for d in it: s.chars()
        invariant
            it.seq() == v,
            v == s@,
            n == v.len(),
            idx == it.index(),
            idx <= v.len(),
            forall|j: int| 0 <= j < idx ==> v[j] != c,
    {
        assert(d == v[idx as int]);
        if d == c {
            proof {
                let f = first_index(v, c);
                assert(0 <= idx < v.len() && v[idx as int] == c && forall|j: int| 0 <= j < idx ==> v[j] != c);
                if f != idx {
                    if f < idx {
                    } else {
                        assert(v[idx as int] != c);
                    }
                }
            }
            return Some(idx);
        }
        idx = idx + 1;
    }
    None
}

/// `str::split_once` with a character pattern.
pub fn split_once_text(s: &str, c: char) -> (parts: Option<(String, String)>)
    ensures
        match split_once(s@, c) {
            Some((a, b)) => parts matches Some(p) && p.0@ == a && p.1@ == b,
            None => parts is None,
        },
{
    match find_char(s, c) {
        Some(i) => {
            let n = s.unicode_len();
            Some((owned(s.substring_char(0, i)), owned(s.substring_char(i + 1, n))))
        },
        None => None,
    }
}

/// ASCII letters lowered, everything else kept (`str::to_ascii_lowercase`).
pub open spec fn ascii_lower_char(c: char) -> char {
    if 'A' <= c <= 'Z' {
        ((c as u32) + 32) as char
    } else {
        c
    }
}

/// `s` with ASCII uppercase letters lowercased.
pub open spec fn ascii_lower(s: Seq<char>) -> Seq<char> {
    s.map_values(|c: char| ascii_lower_char(c))
}

/// Lowercasing an ASCII uppercase letter gives the matching lowercase
/// letter, and lowercasing twice changes nothing more.
pub proof fn lemma_ascii_lower_char(c: char)
    ensures
        ascii_lower_char(ascii_lower_char(c)) == ascii_lower_char(c),
        'A' <= c <= 'Z' ==> 'a' <= ascii_lower_char(c) <= 'z',
        !('A' <= c <= 'Z') ==> ascii_lower_char(c) == c,
{
    if 'A' <= c <= 'Z' {
        let d = ((c as u32) + 32) as char;
        assert(d as u32 == (c as u32) + 32);
    }
}

/// Lowercasing keeps the length, and lowercasing twice changes nothing more.
pub proof fn lemma_ascii_lower_idempotent(s: Seq<char>)
    ensures
        ascii_lower(s).len() == s.len(),
        ascii_lower(ascii_lower(s)) == ascii_lower(s),
        forall|i: int| 0 <= i < s.len() ==> #[trigger] ascii_lower(s)[i] == ascii_lower_char(s[i]),
{
    assert forall|i: int| 0 <= i < s.len() implies #[trigger] ascii_lower(ascii_lower(s))[i] == ascii_lower(s)[i] by {
        lemma_ascii_lower_char(s[i]);
    }
    assert(ascii_lower(ascii_lower(s)) =~= ascii_lower(s));
}

fn lower_char(c: char) -> (d: char)
    ensures
        d == ascii_lower_char(c),
{
    if 'A' <= c && c <= 'Z' {
        let b: u8 = c as u8 + 32;
        b as char
    } else {
        c
    }
}

/// `str::to_ascii_lowercase`.
pub fn ascii_lowercase(s: &str) -> (t: String)
    ensures
        t@ == ascii_lower(s@),
{
    let ghost v = s@;
    let mut t = owned("");
    proof {
        reveal_strlit("");
    }
    for c in it: s.chars()
        invariant
            it.seq() == v,
            t@ == ascii_lower(v.subrange(0, it.index())),
    {
        let ghost i = it.index();
        assert(c == v[i]);
        let d = char_string(lower_char(c));
        t.append(d.as_str());
        assert(ascii_lower(v.subrange(0, i + 1)) =~= ascii_lower(v.subrange(0, i)).push(ascii_lower_char(c)));
    }
    assert(v.subrange(0, v.len() as int) =~= v);
    t
}

/// Text equality (`str == str`).
pub fn text_eq(a: &str, b: &str) -> (same: bool)
    ensures
        same == (a@ == b@),
{
    let x = owned(a);
    let y = owned(b);
    x == y
}

} // verus!

verus! {

/// `s` without leading and trailing occurrences of `c`
/// (`str::trim_matches` with a character).
pub open spec fn strip_char(s: Seq<char>, c: char) -> Seq<char>
    decreases s.len(),
{
    if s.len() > 0 && s[0] == c {
        strip_char(s.drop_first(), c)
    } else {
        strip_char_end(s, c)
    }
}

/// `s` with every trailing `c` removed.
pub open spec fn strip_char_end(s: Seq<char>, c: char) -> Seq<char>
    decreases s.len(),
{
    if s.len() > 0 && s.last() == c {
        strip_char_end(s.drop_last(), c)
    } else {
        s
    }
}

proof fn lemma_strip_char_end(s: Seq<char>, c: char, j: int)
    requires
        0 <= j <= s.len(),
        forall|k: int| j <= k < s.len() ==> #[trigger] s[k] == c,
        j == 0 || s[j - 1] != c,
    ensures
        strip_char_end(s, c) == s.subrange(0, j),
    decreases s.len() - j,
{
    if j == s.len() {
        assert(s.subrange(0, j) =~= s);
    } else {
        let t = s.drop_last();
        assert forall|k: int| j <= k < t.len() implies #[trigger] t[k] == c by {
            assert(t[k] == s[k]);
        }
        lemma_strip_char_end(t, c, j);
        assert(t.subrange(0, j) =~= s.subrange(0, j));
    }
}

proof fn lemma_strip_char(s: Seq<char>, c: char, i: int, j: int)
    requires
        0 <= i <= j <= s.len(),
        forall|k: int| 0 <= k < i ==> #[trigger] s[k] == c,
        i == s.len() || s[i] != c,
        forall|k: int| j <= k < s.len() ==> #[trigger] s[k] == c,
        j == i || s[j - 1] != c,
    ensures
        strip_char(s, c) == s.subrange(i, j),
    decreases i,
{
    if i == 0 {
        let u = s;
        lemma_strip_char_end(s, c, j);
        if s.len() > 0 {
            assert(s[0] != c);
        }
    } else {
        let t = s.drop_first();
        assert forall|k: int| 0 <= k < i - 1 implies #[trigger] t[k] == c by {
            assert(t[k] == s[k + 1]);
        }
        assert forall|k: int| j - 1 <= k < t.len() implies #[trigger] t[k] == c by {
            assert(t[k] == s[k + 1]);
        }
        lemma_strip_char(t, c, i - 1, j - 1);
        assert(t.subrange(i - 1, j - 1) =~= s.subrange(i, j));
    }
}

/// `str::trim_matches` with a character pattern.
pub fn strip_char_text(s: &str, c: char) -> (t: String)
    ensures
        t@ == strip_char(s@, c),
{
    let ghost v = s@;
    let n = s.unicode_len();
    let mut start: usize = 0;
    let mut end: usize = 0;
    let mut seen: bool = false;
    let mut idx: usize = 0;
    for d in it: s.chars()
        invariant
            it.seq() == v,
            v == s@,
            n == v.len(),
            idx == it.index(),
            idx <= v.len(),
            !seen ==> start == idx && end == idx && forall|j: int| 0 <= j < idx ==> #[trigger] v[j] == c,
            seen ==> start < end <= idx && v[start as int] != c && v[end - 1] != c
                && forall|j: int| 0 <= j < start ==> #[trigger] v[j] == c,
            seen ==> forall|k: int| end <= k < idx ==> #[trigger] v[k] == c,
    {
        assert(d == v[idx as int]);
        if d == c {
            if !seen {
                start = idx + 1;
                end = idx + 1;
            }
        } else {
            if !seen {
                seen = true;
                start = idx;
            }
            end = idx + 1;
        }
        idx = idx + 1;
    }
    proof {
        lemma_strip_char(v, c, start as int, end as int);
    }
    owned(s.substring_char(start, end))
}

/// Whether a text starts with a character (`str::starts_with`).
pub open spec fn starts_with_char(s: Seq<char>, c: char) -> bool {
    s.len() > 0 && s[0] == c
}

/// Whether a text ends with a character (`str::ends_with`).
pub open spec fn ends_with_char(s: Seq<char>, c: char) -> bool {
    s.len() > 0 && s.last() == c
}

/// Whether `s` begins with `prefix`.
pub open spec fn has_prefix(s: Seq<char>, prefix: Seq<char>) -> bool {
    prefix.len() <= s.len() && s.subrange(0, prefix.len() as int) == prefix
}

/// Whether `s` ends with `suffix`.
pub open spec fn has_suffix(s: Seq<char>, suffix: Seq<char>) -> bool {
    suffix.len() <= s.len() && s.subrange(s.len() - suffix.len(), s.len() as int) == suffix
}

/// Whether a text begins with another (`str::starts_with`).
pub fn text_has_prefix(s: &str, prefix: &str) -> (r: bool)
    ensures
        r == has_prefix(s@, prefix@),
{
    let n = s.unicode_len();
    let m = prefix.unicode_len();
    if m > n {
        return false;
    }
    for i in 0..m
        invariant
            m == prefix@.len(),
            n == s@.len(),
            m <= n,
            forall|j: int| 0 <= j < i ==> s@[j] == prefix@[j],
    {
        if s.get_char(i) != prefix.get_char(i) {
            return false;
        }
    }
    assert(s@.subrange(0, m as int) =~= prefix@);
    true
}

/// Whether a text ends with another (`str::ends_with`).
pub fn text_has_suffix(s: &str, suffix: &str) -> (r: bool)
    ensures
        r == has_suffix(s@, suffix@),
{
    let n = s.unicode_len();
    let m = suffix.unicode_len();
    if m > n {
        return false;
    }
    let start = n - m;
    for i in 0..m
        invariant
            m == suffix@.len(),
            n == s@.len(),
            start == n - m,
            forall|j: int| 0 <= j < i ==> s@[start + j] == suffix@[j],
    {
        if s.get_char(start + i) != suffix.get_char(i) {
            return false;
        }
    }
    assert(s@.subrange(start as int, n as int) =~= suffix@);
    true
}

/// Whether a text begins with a character.
pub fn text_starts_with(s: &str, c: char) -> (r: bool)
    ensures
        r == starts_with_char(s@, c),
{
    let n = s.unicode_len();
    n > 0 && s.get_char(0) == c
}

/// Whether a text ends with a character.
pub fn text_ends_with(s: &str, c: char) -> (r: bool)
    ensures
        r == ends_with_char(s@, c),
{
    let n = s.unicode_len();
    n > 0 && s.get_char(n - 1) == c
}

/// Whether a text holds a character.
pub fn text_has_char(s: &str, c: char) -> (r: bool)
    ensures
        r == has_char(s@, c),
{
    find_char(s, c).is_some()
}

/// The text that `format!("{:?}", s)` writes for a string: quoted, with
/// special characters escaped.
pub uninterp spec fn debug_text(s: Seq<char>) -> Seq<char>;

/// Debug-formats a string (`<str as Debug>::fmt`).
#[verifier::external_body]
pub(crate) fn debug_quoted(s: &str) -> (text: String)
    ensures
        text@ == debug_text(s@),
{
    format!("{s:?}")
}

} // verus!
