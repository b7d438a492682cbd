//! What the headers of a response say of a file: its name, its length and whether
//! the server serves byte ranges; and the name a URL gives a file.
//!
//! Header values reach these functions as text (where the header is present and
//! its value is visible ASCII).

use vstd::prelude::*;
use crate::download::FileInfo;
use crate::text::{
    chars_to_string, count_and_find, count_char, char_index, parse_unsigned, parse_unsigned_range,
    str_chars,
};

verus! {

/// The text of an optional string.
pub open spec fn opt_text(o: Option<&str>) -> Option<Seq<char>> {
    match o {
        Some(s) => Some(s@),
        None => None,
    }
}

/// Whether `c` has Unicode's `White_Space` property, which std's `trim` removes.
pub open spec fn is_white_space(c: char) -> bool {
    ('\u{9}' <= c <= '\u{d}') || c == ' ' || c == '\u{85}' || c == '\u{a0}' || c == '\u{1680}' || (
    '\u{2000}' <= c <= '\u{200a}') || c == '\u{2028}' || c == '\u{2029}' || c == '\u{202f}' || c
        == '\u{205f}' || c == '\u{3000}'
}

/// `s` without its leading white space.
pub open spec fn trim_start(s: Seq<char>) -> Seq<char>
    decreases s.len(),
{
    if s.len() > 0 && is_white_space(s[0]) {
        trim_start(s.drop_first())
    } else {
        s
    }
}

/// `s` without its trailing white space.
pub open spec fn trim_end(s: Seq<char>) -> Seq<char>
    decreases s.len(),
{
    if s.len() > 0 && is_white_space(s.last()) {
        trim_end(s.drop_last())
    } else {
        s
    }
}

/// `s` without leading and trailing white space, as std's `str::trim` gives it.
pub open spec fn trim(s: Seq<char>) -> Seq<char> {
    trim_end(trim_start(s))
}

/// The lowercase form of `s` that std's `str::to_lowercase` gives.
pub uninterp spec fn lowercase(s: Seq<char>) -> Seq<char>;

/// The lowercase form of `s`: `str::to_lowercase`, which maps each character by
/// Unicode's lowercase mapping.
#[verifier::external_body]
fn str_to_lowercase(s: &str) -> (r: String)
    ensures
        r@ == lowercase(s@),
{
    s.to_lowercase()
}

/// Whether `s` begins with `p`.
pub open spec fn starts_with(s: Seq<char>, p: Seq<char>) -> bool {
    p.len() <= s.len() && s.take(p.len() as int) == p
}

/// The parts of `s` between occurrences of `c`, as std's `str::split` gives them.
pub open spec fn split_on(s: Seq<char>, c: char) -> Seq<Seq<char>>
    decreases s.len(),
{
    if count_char(s, c) == 0 {
        seq![s]
    } else {
        let i = char_index(s, c) as int;
        if 0 <= i < s.len() {
            seq![s.take(i)] + split_on(s.skip(i + 1), c)
        } else {
            seq![s]
        }
    }
}

/// `s` with `p` taken off its front as many times as it begins with it.
pub open spec fn trim_start_matches(s: Seq<char>, p: Seq<char>) -> Seq<char>
    decreases s.len(),
{
    if p.len() > 0 && starts_with(s, p) {
        trim_start_matches(s.skip(p.len() as int), p)
    } else {
        s
    }
}

/// `s` without the `c` characters at its front and its back.
pub open spec fn trim_char(s: Seq<char>, c: char) -> Seq<char> {
    trim_char_end(trim_char_start(s, c), c)
}

pub open spec fn trim_char_start(s: Seq<char>, c: char) -> Seq<char>
    decreases s.len(),
{
    if s.len() > 0 && s[0] == c {
        trim_char_start(s.drop_first(), c)
    } else {
        s
    }
}

pub open spec fn trim_char_end(s: Seq<char>, c: char) -> Seq<char>
    decreases s.len(),
{
    if s.len() > 0 && s.last() == c {
        trim_char_end(s.drop_last(), c)
    } else {
        s
    }
}

/// Trims white space from both ends of `s`.
pub fn trim_chars(s: &[char]) -> (r: Vec<char>)
    ensures
        r@ == trim(s@),
{
    let n = s.len();
    let mut from: usize = 0;
    assert(s@.skip(0) =~= s@);
    while from < n && is_white_space_char(s[from])
        invariant
            n == s@.len(),
            from <= n,
            trim_start(s@) == trim_start(s@.skip(from as int)),
        decreases n - from,
    {
        proof {
            assert(s@.skip(from as int)[0] == s@[from as int]);
            assert(s@.skip(from as int).drop_first() =~= s@.skip(from + 1));
        }
        from = from + 1;
    }
    proof {
        if from < n {
            assert(s@.skip(from as int)[0] == s@[from as int]);
        }
    }
    let ghost started = s@.skip(from as int);
    assert(trim_start(s@) == started);
    let mut to: usize = n;
    while to > from && is_white_space_char(s[to - 1])
        invariant
            n == s@.len(),
            from <= to <= n,
            started == s@.skip(from as int),
            trim_end(started) == trim_end(s@.subrange(from as int, to as int)),
        decreases to - from,
    {
        proof {
            let cur = s@.subrange(from as int, to as int);
            assert(cur.last() == s@[to - 1]);
            assert(cur.drop_last() =~= s@.subrange(from as int, to - 1));
        }
        to = to - 1;
    }
    proof {
        let cur = s@.subrange(from as int, to as int);
        if to > from {
            assert(cur.last() == s@[to - 1]);
        }
        assert(started =~= s@.subrange(from as int, n as int));
    }
    let mut r: Vec<char> = Vec::new();
    let mut k = from;
    while k < to
        invariant
            from <= k <= to <= n == s@.len(),
            r@ == s@.subrange(from as int, k as int),
        decreases to - k,
    {
        r.push(s[k]);
        k = k + 1;
    }
    r
}

/// Whether `c` is white space; see `is_white_space`.
fn is_white_space_char(c: char) -> (b: bool)
    ensures
        b == is_white_space(c),
{
    ('\u{9}' <= c && c <= '\u{d}') || c == ' ' || c == '\u{85}' || c == '\u{a0}' || c == '\u{1680}' || (
    '\u{2000}' <= c && c <= '\u{200a}') || c == '\u{2028}' || c == '\u{2029}' || c == '\u{202f}' || c
        == '\u{205f}' || c == '\u{3000}'
}

/// Whether `s` begins with `p`.
pub(crate) fn starts_with_chars(s: &[char], p: &[char]) -> (b: bool)
    ensures
        b == starts_with(s@, p@),
{
    if p.len() > s.len() {
        return false;
    }
    let mut i: usize = 0;
    while i < p.len()
        invariant
            p@.len() <= s@.len(),
            i <= p@.len(),
            forall|j: int| 0 <= j < i ==> s@[j] == p@[j],
        decreases p@.len() - i,
    {
        if s[i] != p[i] {
            assert(s@.take(p@.len() as int)[i as int] != p@[i as int]);
            return false;
        }
        i = i + 1;
    }
    assert(s@.take(p@.len() as int) =~= p@);
    true
}

/// The characters `s[from..to]`.
fn sub_chars(s: &[char], from: usize, to: usize) -> (r: Vec<char>)
    requires
        from <= to <= s@.len(),
    ensures
        r@ == s@.subrange(from as int, to as int),
{
    let mut r: Vec<char> = Vec::new();
    let mut k = from;
    while k < to
        invariant
            from <= k <= to <= s@.len(),
            r@ == s@.subrange(from as int, k as int),
        decreases to - k,
    {
        r.push(s[k]);
        k = k + 1;
    }
    r
}

proof fn lemma_no_char(t: Seq<char>, c: char)
    requires
        forall|j: int| 0 <= j < t.len() ==> t[j] != c,
    ensures
        count_char(t, c) == 0,
    decreases t.len(),
{
    if t.len() > 0 {
        lemma_no_char(t.drop_first(), c);
    }
}

proof fn lemma_first_char(t: Seq<char>, c: char, i: int)
    requires
        0 <= i < t.len(),
        t[i] == c,
        forall|j: int| 0 <= j < i ==> t[j] != c,
    ensures
        count_char(t, c) > 0,
        char_index(t, c) == i,
    decreases i,
{
    if i > 0 {
        lemma_first_char(t.drop_first(), c, i - 1);
    }
}

/// The parts of `s` between occurrences of `c`; see `split_on`.
pub fn split_chars(s: &[char], c: char) -> (parts: Vec<Vec<char>>)
    ensures
        parts@.map_values(|p: Vec<char>| p@) == split_on(s@, c),
{
    let n = s.len();
    let mut parts: Vec<Vec<char>> = Vec::new();
    let mut current: Vec<char> = Vec::new();
    let mut start: usize = 0;
    let mut k: usize = 0;
    assert(s@.skip(0) =~= s@);
    while k < n
        invariant
            n == s@.len(),
            start <= k <= n,
            current@ == s@.subrange(start as int, k as int),
            forall|j: int| start <= j < k ==> s@[j] != c,
            parts@.map_values(|p: Vec<char>| p@) + split_on(s@.skip(start as int), c) == split_on(s@, c),
        decreases n - k,
    {
        if s[k] == c {
            proof {
                let t = s@.skip(start as int);
                lemma_first_char(t, c, k - start);
                assert(t.take(k - start) =~= current@);
                assert(t.skip(k - start + 1) =~= s@.skip(k + 1));
                assert(split_on(t, c) == seq![current@] + split_on(s@.skip(k + 1), c));
            }
            let ghost before = parts@.map_values(|p: Vec<char>| p@);
            parts.push(current);
            proof {
                assert(parts@.map_values(|p: Vec<char>| p@) =~= before.push(s@.subrange(start as int, k as int)));
                assert(before + (seq![s@.subrange(start as int, k as int)] + split_on(s@.skip(k + 1), c)) =~= before.push(
                    s@.subrange(start as int, k as int),
                ) + split_on(s@.skip(k + 1), c));
            }
            current = Vec::new();
            start = k + 1;
            assert(current@ =~= s@.subrange(start as int, (k + 1) as int));
        } else {
            current.push(s[k]);
        }
        k = k + 1;
    }
    proof {
        let t = s@.skip(start as int);
        assert forall|j: int| 0 <= j < t.len() implies t[j] != c by {
            assert(t[j] == s@[start + j]);
        }
        lemma_no_char(t, c);
        assert(current@ =~= t);
    }
    let ghost before = parts@.map_values(|p: Vec<char>| p@);
    parts.push(current);
    proof {
        assert(parts@.map_values(|p: Vec<char>| p@) =~= before + seq![s@.skip(start as int)]);
    }
    parts
}

/// The file name that a `filename...` token of a `Content-Disposition` header
/// gives: what follows its first `=`, trimmed, without one pair of enclosing double
/// quotes, and without a leading `UTF-8''`; `None` where the token has no `=`.
pub open spec fn filename_from_token(token: Seq<char>) -> Option<Seq<char>> {
    if count_char(token, '=') == 0 {
        None
    } else {
        let f = trim(token.skip(char_index(token, '=') + 1int));
        let unquoted = if f.len() >= 2 && f[0] == '"' && f.last() == '"' {
            f.subrange(1, f.len() - 1)
        } else {
            f
        };
        Some(
            if starts_with(unquoted, "UTF-8''"@) {
                unquoted.skip(7)
            } else {
                unquoted
            },
        )
    }
}

/// The file name that the first of `tokens` whose trimmed lowercase form begins
/// with `filename` gives; see `filename_from_token`.
pub open spec fn filename_in_tokens(tokens: Seq<Seq<char>>) -> Option<Seq<char>>
    decreases tokens.len(),
{
    if tokens.len() == 0 {
        None
    } else if starts_with(lowercase(trim(tokens[0])), "filename"@) {
        filename_from_token(trim(tokens[0]))
    } else {
        filename_in_tokens(tokens.drop_first())
    }
}

/// The file name a `Content-Disposition` header value gives: see
/// `filename_in_tokens`, over its `;`-separated tokens.
pub open spec fn spec_extract_filename(value: Option<Seq<char>>) -> Option<Seq<char>> {
    match value {
        None => None,
        Some(v) => filename_in_tokens(split_on(v, ';')),
    }
}

/// The lowercase form of `token`.
fn lowercase_chars(token: &Vec<char>) -> (r: Vec<char>)
    ensures
        r@ == lowercase(token@),
{
    let text = chars_to_string(token.as_slice());
    let lower = str_to_lowercase(text.as_str());
    str_chars(lower.as_str())
}

/// The characters after the first `c` of `s`, where there is one.
fn after_first(s: &[char], c: char) -> (r: Option<Vec<char>>)
    ensures
        match r {
            None => count_char(s@, c) == 0,
            Some(v) => count_char(s@, c) > 0 && v@ == s@.skip(char_index(s@, c) + 1int),
        },
{
    let n = s.len();
    let (count, i) = count_and_find(s, c);
    if count == 0 {
        return None;
    }
    proof {
        lemma_char_index_in(s@, c);
    }
    let v = sub_chars(s, i + 1, n);
    assert(v@ =~= s@.skip(i + 1));
    Some(v)
}

proof fn lemma_char_index_in(s: Seq<char>, c: char)
    requires
        count_char(s, c) > 0,
    ensures
        char_index(s, c) < s.len(),
        s[char_index(s, c) as int] == c,
    decreases s.len(),
{
    if s.len() > 0 && s[0] != c {
        lemma_char_index_in(s.drop_first(), c);
    }
}

/// The file name a `Content-Disposition` header value gives; see
/// `spec_extract_filename`.
pub fn extract_filename(content_disposition: Option<&str>) -> (name: Option<String>)
    ensures
        match name {
            None => spec_extract_filename(opt_text(content_disposition)) is None,
            Some(n) => spec_extract_filename(opt_text(content_disposition)) == Some(n@),
        },
{
    let header_value = match content_disposition {
        None => {
            return None;
        },
        Some(v) => v,
    };
    let chars = str_chars(header_value);
    let tokens = split_chars(chars.as_slice(), ';');
    let ghost ts = tokens@.map_values(|p: Vec<char>| p@);
    let mut k: usize = 0;
    assert(ts.skip(0) =~= ts);
    while k < tokens.len()
        invariant
            ts == tokens@.map_values(|p: Vec<char>| p@),
            ts == split_on(header_value@, ';'),
            opt_text(content_disposition) == Some(header_value@),
            k <= ts.len(),
            filename_in_tokens(ts) == filename_in_tokens(ts.skip(k as int)),
        decreases ts.len() - k,
    {
        proof {
            assert(ts.skip(k as int)[0] == ts[k as int]);
            assert(ts.skip(k as int).drop_first() =~= ts.skip(k + 1));
        }
        let token = trim_chars(tokens[k].as_slice());
        assert(token@ == trim(ts[k as int]));
        let lowered = lowercase_chars(&token);
        match filename_of_token(token.as_slice(), lowered.as_slice()) {
            None => {},
            Some(found) => {
                return found;
            },
        }
        k = k + 1;
    }
    None
}

/// The file name of a `Content-Disposition` token whose trimmed form is `token`
/// and whose lowercase form is `lowered`: `None` where `lowered` does not begin
/// with `filename`, else what `filename_from_token` gives.
pub fn filename_of_token(token: &[char], lowered: &[char]) -> (r: Option<Option<String>>)
    ensures
        match r {
            None => !starts_with(lowered@, "filename"@),
            Some(None) => starts_with(lowered@, "filename"@) && filename_from_token(token@) is None,
            Some(Some(name)) => starts_with(lowered@, "filename"@) && filename_from_token(token@) == Some(name@),
        },
{
    let p = str_chars("filename");
    if !starts_with_chars(lowered, p.as_slice()) {
        return None;
    }
    let after = after_first(token, '=');
    let rest = match after {
        None => {
            return Some(None);
        },
        Some(r) => r,
    };
    let f = trim_chars(rest.as_slice());
    let n = f.len();
    let unquoted = if n >= 2 && f[0] == '"' && f[n - 1] == '"' {
        sub_chars(f.as_slice(), 1, n - 1)
    } else {
        f
    };
    let utf8_prefix = str_chars("UTF-8''");
    proof {
        reveal_strlit("UTF-8''");
    }
    let result = if starts_with_chars(unquoted.as_slice(), utf8_prefix.as_slice()) {
        sub_chars(unquoted.as_slice(), 7, unquoted.len())
    } else {
        unquoted
    };
    proof {
        if n >= 2 {
            assert(f@.last() == f@[n - 1]);
        }
    }
    Some(Some(chars_to_string(result.as_slice())))
}

/// The file name of the first of `tokens` whose trimmed lowercase form begins
/// with `filename=`: that trimmed token with every leading `filename=` taken off and
/// without double quotes at either end.
pub open spec fn file_name_in_tokens(tokens: Seq<Seq<char>>) -> Option<Seq<char>>
    decreases tokens.len(),
{
    if tokens.len() == 0 {
        None
    } else if starts_with(lowercase(trim(tokens[0])), "filename="@) {
        Some(trim_char(trim_start_matches(trim(tokens[0]), "filename="@), '"'))
    } else {
        file_name_in_tokens(tokens.drop_first())
    }
}

/// Takes every leading `p` off `s`.
fn trim_start_matches_chars(s: Vec<char>, p: &[char]) -> (r: Vec<char>)
    ensures
        r@ == trim_start_matches(s@, p@),
    decreases s@.len(),
{
    if p.len() > 0 && starts_with_chars(s.as_slice(), p) {
        let rest = sub_chars(s.as_slice(), p.len(), s.len());
        assert(rest@ =~= s@.skip(p@.len() as int));
        trim_start_matches_chars(rest, p)
    } else {
        s
    }
}

/// Takes every `c` off both ends of `s`.
fn trim_char_chars(s: &[char], c: char) -> (r: Vec<char>)
    ensures
        r@ == trim_char(s@, c),
{
    let n = s.len();
    let mut from: usize = 0;
    assert(s@.skip(0) =~= s@);
    while from < n && s[from] == c
        invariant
            n == s@.len(),
            from <= n,
            trim_char_start(s@, c) == trim_char_start(s@.skip(from as int), c),
        decreases n - from,
    {
        proof {
            assert(s@.skip(from as int)[0] == s@[from as int]);
            assert(s@.skip(from as int).drop_first() =~= s@.skip(from + 1));
        }
        from = from + 1;
    }
    proof {
        if from < n {
            assert(s@.skip(from as int)[0] == s@[from as int]);
        }
        assert(s@.skip(from as int) =~= s@.subrange(from as int, n as int));
    }
    let mut to: usize = n;
    while to > from && s[to - 1] == c
        invariant
            n == s@.len(),
            from <= to <= n,
            trim_char_end(trim_char_start(s@, c), c) == trim_char_end(s@.subrange(from as int, to as int), c),
        decreases to - from,
    {
        proof {
            let cur = s@.subrange(from as int, to as int);
            assert(cur.last() == s@[to - 1]);
            assert(cur.drop_last() =~= s@.subrange(from as int, to - 1));
        }
        to = to - 1;
    }
    proof {
        let cur = s@.subrange(from as int, to as int);
        if to > from {
            assert(cur.last() == s@[to - 1]);
        }
    }
    sub_chars(s, from, to)
}

/// The file name a `Content-Disposition` header value gives by its `filename=`
/// token; see `file_name_in_tokens`.
pub fn extract_file_name(content_disposition: Option<&str>) -> (name: Option<String>)
    ensures
        match content_disposition {
            None => name is None,
            Some(v) => match file_name_in_tokens(split_on(v@, ';')) {
                None => name is None,
                Some(n) => name matches Some(m) && m@ == n,
            },
        },
{
    let header_value = match content_disposition {
        None => {
            return None;
        },
        Some(v) => v,
    };
    let chars = str_chars(header_value);
    let tokens = split_chars(chars.as_slice(), ';');
    let ghost ts = tokens@.map_values(|p: Vec<char>| p@);
    let mut k: usize = 0;
    assert(ts.skip(0) =~= ts);
    while k < tokens.len()
        invariant
            ts == tokens@.map_values(|p: Vec<char>| p@),
            ts == split_on(header_value@, ';'),
            content_disposition == Some(header_value),
            k <= ts.len(),
            file_name_in_tokens(ts) == file_name_in_tokens(ts.skip(k as int)),
        decreases ts.len() - k,
    {
        proof {
            assert(ts.skip(k as int)[0] == ts[k as int]);
            assert(ts.skip(k as int).drop_first() =~= ts.skip(k + 1));
        }
        let part = trim_chars(tokens[k].as_slice());
        assert(part@ == trim(ts[k as int]));
        let lowered = lowercase_chars(&part);
        match file_name_of_token(part.as_slice(), lowered.as_slice()) {
            None => {},
            Some(name) => {
                return Some(name);
            },
        }
        k = k + 1;
    }
    None
}

/// The file name of a `Content-Disposition` token whose trimmed form is `part` and
/// whose lowercase form is `lowered`: none where `lowered` does not begin with
/// `filename=`, else `part` with every leading `filename=` taken off and without
/// double quotes at either end.
pub fn file_name_of_token(part: &[char], lowered: &[char]) -> (r: Option<String>)
    ensures
        match r {
            None => !starts_with(lowered@, "filename="@),
            Some(name) => starts_with(lowered@, "filename="@) && name@ == trim_char(
                trim_start_matches(part@, "filename="@),
                '"',
            ),
        },
{
    let prefix = str_chars("filename=");
    if !starts_with_chars(lowered, prefix.as_slice()) {
        return None;
    }
    let whole = sub_chars(part, 0, part.len());
    assert(whole@ =~= part@);
    let stripped = trim_start_matches_chars(whole, prefix.as_slice());
    let unquoted = trim_char_chars(stripped.as_slice(), '"');
    Some(chars_to_string(unquoted.as_slice()))
}

/// The ASCII lowercase form of `c`.
pub open spec fn ascii_lower(c: char) -> char {
    if 'A' <= c <= 'Z' {
        ((c as u32) + 32) as char
    } else {
        c
    }
}

/// Whether `s` holds `p` somewhere.
pub open spec fn contains_text(s: Seq<char>, p: Seq<char>) -> bool {
    exists|i: int| 0 <= i && i + p.len() <= s.len() && #[trigger] s.subrange(i, i + p.len()) == p
}

/// Whether an `Accept-Ranges` header value says the server serves byte ranges: its
/// ASCII lowercase form holds `bytes`. No header: no.
pub fn extract_range_support(accept_ranges: Option<&str>) -> (b: bool)
    ensures
        b == match accept_ranges {
            None => false,
            Some(v) => contains_text(v@.map_values(|c: char| ascii_lower(c)), "bytes"@),
        },
{
    let v = match accept_ranges {
        None => {
            return false;
        },
        Some(v) => v,
    };
    let chars = str_chars(v);
    let ghost lower_view = v@.map_values(|c: char| ascii_lower(c));
    let mut lower: Vec<char> = Vec::new();
    let mut i: usize = 0;
    while i < chars.len()
        invariant
            chars@ == v@,
            lower_view == v@.map_values(|c: char| ascii_lower(c)),
            i <= chars@.len(),
            lower@ == lower_view.take(i as int),
        decreases chars@.len() - i,
    {
        let c = chars[i];
        let l = if 'A' <= c && c <= 'Z' {
            let u: u32 = (c as u32) + 32;
            char_from_ascii(u)
        } else {
            c
        };
        lower.push(l);
        proof {
            assert(lower_view[i as int] == ascii_lower(v@[i as int]));
            assert(lower_view.take(i + 1) =~= lower_view.take(i as int).push(ascii_lower(c)));
        }
        i = i + 1;
    }
    assert(lower_view.take(chars@.len() as int) =~= lower_view);
    let needle = str_chars("bytes");
    proof {
        reveal_strlit("bytes");
    }
    let n = lower.len();
    let m = needle.len();
    if m > n {
        return false;
    }
    let mut start: usize = 0;
    while start <= n - m
        invariant
            accept_ranges == Some(v),
            lower_view == v@.map_values(|c: char| ascii_lower(c)),
            lower@ == lower_view,
            needle@ == "bytes"@,
            m == needle@.len(),
            m == 5,
            n == lower@.len(),
            m <= n,
            start <= n - m + 1,
            forall|j: int| 0 <= j < start ==> #[trigger] lower_view.subrange(j, j + m) != needle@,
        decreases n - start,
    {
        if starts_with_chars(sub_chars(lower.as_slice(), start, n).as_slice(), needle.as_slice()) {
            proof {
                let rest = lower_view.subrange(start as int, n as int);
                assert(rest.take(m as int) =~= lower_view.subrange(start as int, start + m));
                assert(lower_view.subrange(start as int, start + "bytes"@.len()) == "bytes"@);
            }
            return true;
        }
        proof {
            let rest = lower_view.subrange(start as int, n as int);
            assert(rest.take(m as int) =~= lower_view.subrange(start as int, start + m));
        }
        start = start + 1;
    }
    assert(!contains_text(lower_view, "bytes"@));
    false
}

/// The character of the ASCII code `u`.
fn char_from_ascii(u: u32) -> (c: char)
    requires
        u < 128,
    ensures
        c == u as char,
{
    let b: u8 = u as u8;
    b as char
}

/// The length a `Content-Length` header value gives, read as std reads a `u64`.
pub fn extract_content_length(content_length: Option<&str>) -> (len: Option<u64>)
    ensures
        match content_length {
            None => len is None,
            Some(v) => match parse_unsigned(v@, u64::MAX as nat) {
                Some(n) => len == Some(n as u64),
                None => len is None,
            },
        },
{
    match content_length {
        None => None,
        Some(v) => {
            let chars = str_chars(v);
            let r = parse_unsigned_range(chars.as_slice(), 0, chars.len(), u64::MAX);
            assert(chars@.subrange(0, chars@.len() as int) =~= chars@);
            r
        },
    }
}

/// The file name a URL gives: its text after the last `/` and before the first `?`
/// after it, where that is not empty.
pub open spec fn spec_file_name_from_url(url: Seq<char>) -> Option<Seq<char>> {
    let parts = split_on(url, '/');
    let last = parts[parts.len() - 1];
    let name = split_on(last, '?')[0];
    if name.len() > 0 {
        Some(name)
    } else {
        None
    }
}

proof fn lemma_split_nonempty(s: Seq<char>, c: char)
    ensures
        split_on(s, c).len() > 0,
    decreases s.len(),
{
    if count_char(s, c) > 0 {
        let i = char_index(s, c) as int;
        if 0 <= i < s.len() {
            lemma_split_nonempty(s.skip(i + 1), c);
        }
    }
}

/// The file name `url` gives; see `spec_file_name_from_url`.
pub fn extract_file_name_from_url(url: String) -> (name: Option<String>)
    ensures
        match spec_file_name_from_url(url@) {
            None => name is None,
            Some(n) => name matches Some(m) && m@ == n,
        },
{
    let chars = str_chars(url.as_str());
    let parts = split_chars(chars.as_slice(), '/');
    proof {
        lemma_split_nonempty(url@, '/');
    }
    let ghost ps = parts@.map_values(|p: Vec<char>| p@);
    assert(ps.len() == parts@.len());
    let last = &parts[parts.len() - 1];
    assert(last@ == ps[ps.len() - 1]);
    let pieces = split_chars(last.as_slice(), '?');
    proof {
        lemma_split_nonempty(last@, '?');
    }
    let ghost qs = pieces@.map_values(|p: Vec<char>| p@);
    assert(qs.len() == pieces@.len());
    let first = &pieces[0];
    assert(first@ == qs[0]);
    if first.len() > 0 {
        Some(chars_to_string(first.as_slice()))
    } else {
        None
    }
}

/// What the headers of a response say of the file: its size (from
/// `Content-Length`), its name (from `Content-Disposition`) and whether the server
/// serves byte ranges (from `Accept-Ranges`).
pub struct HeaderFacts {
    pub file_size: Option<u64>,
    pub file_name: Option<String>,
    pub supports_range: bool,
}

/// Reads the three headers of a response, each given as its text where present;
/// see `extract_content_length`, `extract_file_name` and `extract_range_support`.
pub fn read_headers(content_length: Option<&str>, content_disposition: Option<&str>, accept_ranges: Option<&str>) -> (f:
    HeaderFacts)
    ensures
        match content_length {
            None => f.file_size is None,
            Some(v) => match parse_unsigned(v@, u64::MAX as nat) {
                Some(n) => f.file_size == Some(n as u64),
                None => f.file_size is None,
            },
        },
        match content_disposition {
            None => f.file_name is None,
            Some(v) => match file_name_in_tokens(split_on(v@, ';')) {
                None => f.file_name is None,
                Some(n) => f.file_name matches Some(m) && m@ == n,
            },
        },
        f.supports_range == match accept_ranges {
            None => false,
            Some(v) => contains_text(v@.map_values(|c: char| ascii_lower(c)), "bytes"@),
        },
{
    HeaderFacts {
        file_size: extract_content_length(content_length),
        file_name: extract_file_name(content_disposition),
        supports_range: extract_range_support(accept_ranges),
    }
}

/// Whether the answer to a `HEAD` request said nothing of the file (no size, no
/// name and no range support), so that a `GET` request must be asked instead.
pub fn needs_get_fallback(head: &HeaderFacts) -> (b: bool)
    ensures
        b == (head.file_size is None && head.file_name is None && !head.supports_range),
{
    head.file_size.is_none() && head.file_name.is_none() && !head.supports_range
}

/// What is known of the file at `url` from the headers of its response: its size,
/// its name (from the headers, or else from the URL; see
/// `spec_file_name_from_url`) and whether ranges are served. The size must be
/// known and a name must be found.
pub fn file_info_from(url: String, facts: HeaderFacts) -> (info: FileInfo)
    requires
        facts.file_size is Some,
        facts.file_name is Some || spec_file_name_from_url(url@) is Some,
    ensures
        info.url@ == url@,
        Some(info.file_size) == facts.file_size,
        info.supports_range == facts.supports_range,
        match facts.file_name {
            Some(n) => info.file_name@ == n@,
            None => spec_file_name_from_url(url@) == Some(info.file_name@),
        },
{
    let file_name = match facts.file_name {
        Some(n) => n,
        None => match extract_file_name_from_url(url.clone()) {
            Some(n) => n,
            None => String::new(),
        },
    };
    let file_size = match facts.file_size {
        Some(n) => n,
        None => 0,
    };
    FileInfo { url, file_size, file_name, supports_range: facts.supports_range }
}

} // verus!
