//! Temp files: their names, what they cover, and their order.
//!
//! A worker writes each flushed buffer to a temp file named
//! `<worker>#<start byte>-<end byte>`; reading a name gives those numbers back.

use vstd::prelude::*;
use crate::byte_range::ByteRange;
use crate::sort::{StartKeyed, sort_by_start, stable_sort_by_start};
use crate::text::{
    chars_to_string, count_and_find, push_str_chars, count_char, char_index, decimal, lemma_parse_decimal,
    lemma_split_at_separator, parse_unsigned, parse_unsigned_range, str_chars, u64_to_decimal,
};

verus! {

/// A temp file of a download: its name, its path, the bytes `[start_byte, end_byte]`
/// of the file it holds, the worker that wrote it and its size on disk.
#[derive(Clone, Debug, PartialEq, Eq)]
pub struct TempFileMetadata {
    pub name: String,
    pub path: String,
    pub start_byte: u64,
    pub end_byte: u64,
    pub worker_number: u8,
    pub size: u64,
}

impl StartKeyed for TempFileMetadata {
    open spec fn start_key(&self) -> u64 {
        self.start_byte
    }

    fn get_start_key(&self) -> (k: u64) {
        self.start_byte
    }
}

/// Whether a temp file of bytes `[start, end]` belongs to `range`: it lies inside
/// it (starting at or after its start, ending at or before its end), or it starts
/// before the end of `range` and runs past it.
pub open spec fn temp_file_in_range(start: u64, end: u64, range: ByteRange) -> bool {
    (start >= range.start && start < range.end && end <= range.end && end > range.start) || (start
        < range.end && end > range.end)
}

/// Whether two temp-file records are the same: equal names, paths, bytes, worker
/// and size.
pub open spec fn same_file(a: TempFileMetadata, b: TempFileMetadata) -> bool {
    &&& a.name@ == b.name@
    &&& a.path@ == b.path@
    &&& a.start_byte == b.start_byte
    &&& a.end_byte == b.end_byte
    &&& a.worker_number == b.worker_number
    &&& a.size == b.size
}

impl TempFileMetadata {
    /// A copy of this record.
    pub fn duplicate(&self) -> (c: TempFileMetadata)
        ensures
            c == *self,
    {
        TempFileMetadata {
            name: self.name.clone(),
            path: self.path.clone(),
            start_byte: self.start_byte,
            end_byte: self.end_byte,
            worker_number: self.worker_number,
            size: self.size,
        }
    }

    /// Whether `self` and `other` are the same record; see `same_file`.
    pub fn is_same_file(&self, other: &TempFileMetadata) -> (b: bool)
        ensures
            b == same_file(*self, *other),
    {
        self.start_byte == other.start_byte && self.end_byte == other.end_byte && self.worker_number
            == other.worker_number && self.size == other.size && self.name == other.name && self.path
            == other.path
    }

    /// Whether this file belongs to `range`; see `temp_file_in_range`.
    pub fn is_in_range(&self, range: ByteRange) -> (b: bool)
        ensures
            b == temp_file_in_range(self.start_byte, self.end_byte, range),
    {
        (self.start_byte >= range.start && self.start_byte < range.end && self.end_byte <= range.end
            && self.end_byte > range.start) || (self.start_byte < range.end && self.end_byte > range.end)
    }
}

/// The name of the temp file of worker `w` that holds bytes `[start, end]`:
/// `<w>#<start>-<end>`.
pub open spec fn temp_file_name_text(w: u8, start: u64, end: u64) -> Seq<char> {
    decimal(w as nat) + seq!['#'] + (decimal(start as nat) + seq!['-'] + decimal(end as nat))
}

/// What a temp file's name says: the text must split at `#` into exactly two
/// parts, a worker number (a `u8`) and a range part, and the range part must
/// split at `-` into exactly two parts, the start and the end bytes (`u64`s),
/// each read as std's `from_str` reads it.
pub open spec fn spec_worker_and_range(s: Seq<char>) -> Option<(u8, u64, u64)> {
    if count_char(s, '#') != 1 {
        None
    } else {
        let i = char_index(s, '#') as int;
        let worker = s.take(i);
        let range_part = s.skip(i + 1);
        if count_char(range_part, '-') != 1 {
            None
        } else {
            let j = char_index(range_part, '-') as int;
            match (
                parse_unsigned(worker, 255),
                parse_unsigned(range_part.take(j), u64::MAX as nat),
                parse_unsigned(range_part.skip(j + 1), u64::MAX as nat),
            ) {
                (Some(w), Some(a), Some(b)) => Some((w as u8, a as u64, b as u64)),
                _ => None,
            }
        }
    }
}

/// Reads the worker number and the byte range from a temp file's name; see
/// `spec_worker_and_range`.
pub fn extract_worker_and_range(s: &str) -> (r: Option<(u8, u64, u64)>)
    ensures
        r == spec_worker_and_range(s@),
{
    let chars = str_chars(s);
    let (hashes, i) = count_and_find(chars.as_slice(), '#');
    if hashes != 1 {
        return None;
    }
    proof {
        lemma_index_below_len(chars@, '#');
    }
    let n = chars.len();
    let worker = parse_unsigned_range(chars.as_slice(), 0, i, 255);
    proof {
        assert(chars@.subrange(0, i as int) =~= chars@.take(i as int));
    }
    let worker = match worker {
        Some(w) => w as u8,
        None => {
            return None;
        },
    };
    let ghost range_part = chars@.skip(i + 1);
    let mut rest: Vec<char> = Vec::new();
    let mut k = i + 1;
    while k < n
        invariant
            i < n == chars@.len(),
            i + 1 <= k <= n,
            rest@ == chars@.subrange(i + 1, k as int),
        decreases n - k,
    {
        rest.push(chars[k]);
        k = k + 1;
    }
    assert(rest@ =~= range_part);
    let (dashes, j) = count_and_find(rest.as_slice(), '-');
    if dashes != 1 {
        return None;
    }
    proof {
        lemma_index_below_len(rest@, '-');
        assert(rest@.subrange(0, j as int) =~= rest@.take(j as int));
        assert(rest@.subrange(j + 1, rest@.len() as int) =~= rest@.skip(j + 1));
    }
    let start = parse_unsigned_range(rest.as_slice(), 0, j, u64::MAX);
    let end = parse_unsigned_range(rest.as_slice(), j + 1, rest.len(), u64::MAX);
    match (start, end) {
        (Some(a), Some(b)) => Some((worker, a, b)),
        _ => None,
    }
}

proof fn lemma_index_below_len(s: Seq<char>, c: char)
    requires
        count_char(s, c) > 0,
    ensures
        char_index(s, c) < s.len(),
    decreases s.len(),
{
    if s.len() > 0 && s[0] != c {
        lemma_index_below_len(s.drop_first(), c);
    }
}

/// The name of the temp file of worker `w` that holds bytes `[start, end]`.
pub fn temp_file_name(w: u8, start: u64, end: u64) -> (name: String)
    ensures
        name@ == temp_file_name_text(w, start, end),
{
    let mut v = u64_to_decimal(w as u64);
    v.push('#');
    let mut s = u64_to_decimal(start);
    v.append(&mut s);
    v.push('-');
    let mut e = u64_to_decimal(end);
    v.append(&mut e);
    proof {
        assert(v@ =~= temp_file_name_text(w, start, end));
    }
    chars_to_string(v.as_slice())
}

/// Reading the name of a temp file gives back the worker and the bytes it was
/// named with.
pub proof fn lemma_temp_file_name_roundtrip(w: u8, start: u64, end: u64)
    ensures
        spec_worker_and_range(temp_file_name_text(w, start, end)) == Some((w, start, end)),
{
    let range_part = decimal(start as nat) + seq!['-'] + decimal(end as nat);
    lemma_split_at_separator(start as nat, end as nat, '-');
    let s = temp_file_name_text(w, start, end);
    assert(s =~= decimal(w as nat) + seq!['#'] + range_part);
    crate::text::lemma_decimal_is_digits(start as nat);
    crate::text::lemma_decimal_is_digits(end as nat);
    crate::text::lemma_digits_no_char(decimal(start as nat), '#');
    crate::text::lemma_digits_no_char(decimal(end as nat), '#');
    crate::text::lemma_count_char_add(decimal(start as nat) + seq!['-'], decimal(end as nat), '#');
    crate::text::lemma_count_char_add(decimal(start as nat), seq!['-'], '#');
    assert(count_char(seq!['-'], '#') == 0) by {
        assert(seq!['-'].drop_first() =~= Seq::<char>::empty());
        assert(count_char(Seq::<char>::empty(), '#') == 0);
    }
    lemma_name_split_hash(w as nat, range_part);
    lemma_parse_decimal(w as nat, 255);
    lemma_parse_decimal(start as nat, u64::MAX as nat);
    lemma_parse_decimal(end as nat, u64::MAX as nat);
}

proof fn lemma_name_split_hash(n: nat, rest: Seq<char>)
    requires
        count_char(rest, '#') == 0,
    ensures
        count_char(decimal(n) + seq!['#'] + rest, '#') == 1,
        char_index(decimal(n) + seq!['#'] + rest, '#') == decimal(n).len(),
        (decimal(n) + seq!['#'] + rest).take(decimal(n).len() as int) == decimal(n),
        (decimal(n) + seq!['#'] + rest).skip(decimal(n).len() + 1int) == rest,
{
    crate::text::lemma_split_prefix(n, rest, '#');
}

/// Orders temp files by their start byte, keeping files with the same start byte
/// in the order in which they came.
pub fn list_temp_files_sorted(files: Vec<TempFileMetadata>) -> (sorted: Vec<TempFileMetadata>)
    ensures
        sorted@ == sort_by_start(files@),
{
    stable_sort_by_start(files)
}

/// What regex's `Regex::is_match` says of `text` for the regex `pattern`: whether
/// the regex matches anywhere in the text; none where `pattern` does not compile.
pub uninterp spec fn regex_matches(pattern: Seq<char>, text: Seq<char>) -> Option<bool>;

/// Compiles `pattern` with regex's `Regex::new` and asks `Regex::is_match`
/// whether it matches anywhere in `text`; a pattern that does not compile gives
/// none. The answer is named by `regex_matches`, a function of the two texts.
#[verifier::external_body]
fn regex_is_match(pattern: &str, text: &str) -> (r: Option<bool>)
    ensures
        r == regex_matches(pattern@, text@),
{
    match regex::Regex::new(pattern) {
        Ok(re) => Some(re.is_match(text)),
        Err(_) => None,
    }
}

/// The position of the last `c` in `s`, or -1 where there is none.
pub open spec fn last_index_of(s: Seq<char>, c: char) -> int
    decreases s.len(),
{
    if s.len() == 0 {
        -1
    } else if s.last() == c {
        s.len() - 1
    } else {
        last_index_of(s.drop_last(), c)
    }
}

/// The stem a new version of a file is named from: where the stem already reads
/// as a versioned name (`matched`), what comes before its last `_`; else the stem.
pub open spec fn unversioned_stem(stem: Seq<char>, matched: bool) -> Seq<char> {
    if matched && last_index_of(stem, '_') >= 0 {
        stem.take(last_index_of(stem, '_'))
    } else {
        stem
    }
}

/// The name of version `version` of a file whose stem is `stem` and whose
/// extension is `extension`: `<unversioned stem>_<version>.<extension>`.
pub open spec fn versioned_name_text(stem: Seq<char>, matched: bool, extension: Seq<char>, version: u32) -> Seq<
    char,
> {
    unversioned_stem(stem, matched) + seq!['_'] + decimal(version as nat) + seq!['.'] + extension
}

/// Finds the last `c` in `s`; see `last_index_of`.
fn find_last(s: &Vec<char>, c: char) -> (r: Option<usize>)
    ensures
        match r {
            Some(i) => i == last_index_of(s@, c) && i < s@.len(),
            None => last_index_of(s@, c) == -1,
        },
{
    let mut k: usize = s.len();
    assert(s@.take(k as int) =~= s@);
    while k > 0
        invariant
            k <= s@.len(),
            last_index_of(s@, c) == last_index_of(s@.take(k as int), c),
        decreases k,
    {
        proof {
            assert(s@.take(k as int).drop_last() =~= s@.take(k - 1));
        }
        if s[k - 1] == c {
            return Some(k - 1);
        }
        k = k - 1;
    }
    None
}

/// The name of the next version of a file, with stem `stem` and extension
/// `extension`: where the stem matches the pattern `.+_\d+` of versioned names
/// (by regex), its part after the last `_` is dropped; then `_<version>.<extension>`
/// follows. See `versioned_name_text`.
pub fn versioned_file_name(stem: &str, extension: &str, version: u32) -> (name: String)
    ensures
        name@ == versioned_name_text(
            stem@,
            regex_matches(".+_\\d+"@, stem@) == Some(true),
            extension@,
            version,
        ),
{
    let matched = regex_is_match(".+_\\d+", stem);
    let chars = str_chars(stem);
    let mut v: Vec<char> = Vec::new();
    let cut = match matched {
        Some(true) => find_last(&chars, '_'),
        _ => None,
    };
    match cut {
        Some(i) => {
            let mut k: usize = 0;
            while k < i
                invariant
                    i < chars@.len(),
                    k <= i,
                    v@ == chars@.take(k as int),
                decreases i - k,
            {
                v.push(chars[k]);
                k = k + 1;
                proof {
                    assert(chars@.take(k as int) =~= chars@.take(k - 1).push(chars@[k - 1]));
                }
            }
        },
        None => {
            v = chars;
        },
    }
    assert(v@ =~= unversioned_stem(stem@, regex_matches(".+_\\d+"@, stem@) == Some(true)));
    v.push('_');
    let mut d = u64_to_decimal(version as u64);
    v.append(&mut d);
    v.push('.');
    push_str_chars(&mut v, extension);
    proof {
        assert(v@ =~= versioned_name_text(
            stem@,
            regex_matches(".+_\\d+"@, stem@) == Some(true),
            extension@,
            version,
        ));
    }
    chars_to_string(v.as_slice())
}

} // verus!
