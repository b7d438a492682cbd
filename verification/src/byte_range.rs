//! The inclusive byte range `[start, end]` that a connection downloads.

use vstd::prelude::*;
use crate::sort::StartKeyed;
use crate::text::{chars_to_string, decimal, push_str_chars, u64_to_decimal};

verus! {

/// An inclusive range of bytes of the file: `start` and `end` are both part of it.
#[derive(Clone, Copy, Debug, PartialEq, Eq, Structural, PartialOrd, Ord)]
pub struct ByteRange {
    pub start: u64,
    pub end: u64,
}

/// The order of byte ranges: by `start`, then by `end`.
pub open spec fn range_lt(a: ByteRange, b: ByteRange) -> bool {
    a.start < b.start || (a.start == b.start && a.end < b.end)
}

/// The number of bytes of `[start, end]`.
pub open spec fn range_len(r: ByteRange) -> int {
    r.end - r.start + 1
}

/// The value of the `Range` request header for `r`: `bytes=<start>-<end>`.
pub open spec fn range_header_value(r: ByteRange) -> Seq<char> {
    "bytes="@ + decimal(r.start as nat) + "-"@ + decimal(r.end as nat)
}

/// The text of `r`: `ByteRange::<start>-<end>`.
pub open spec fn range_text(r: ByteRange) -> Seq<char> {
    "ByteRange::"@ + decimal(r.start as nat) + "-"@ + decimal(r.end as nat)
}

/// The name of the `Range` header, `hyper::header::RANGE`, as text. http's table of
/// standard headers gives it the name `range`, which its `Display` writes out.
#[verifier::external_body]
fn range_header_name() -> (s: String)
    ensures
        s@ == "range"@,
{
    hyper::header::RANGE.to_string()
}

impl ByteRange {
    pub fn new(start: u64, end: u64) -> (r: ByteRange)
        ensures
            r.start == start,
            r.end == end,
    {
        ByteRange { start, end }
    }

    /// Whether `self.start` lies within `[other.end, other.end]`.
    pub fn is_in_range_of(&self, other: &ByteRange) -> (b: bool)
        ensures
            b == (self.start >= other.end && self.start <= other.end),
    {
        self.start >= other.end && self.start <= other.end
    }

    /// Whether `other` starts inside `self`.
    pub fn overlaps_with(&self, other: &ByteRange) -> (b: bool)
        ensures
            b == (self.start <= other.start && self.end >= other.start),
    {
        self.start <= other.start && self.end >= other.start
    }

    /// Whether the range holds at least three bytes.
    pub fn is_valid(&self) -> (b: bool)
        ensures
            b == (self.start + 1 < self.end),
    {
        self.start != self.end && self.start < self.end && self.start + 1 < self.end
    }

    /// The number of bytes in the range.
    pub fn len(&self) -> (n: u64)
        requires
            self.start <= self.end,
            self.end - self.start < u64::MAX,
        ensures
            n == range_len(*self),
    {
        self.end - self.start + 1
    }

    /// Whether `self` comes before `other` in the order of ranges.
    pub fn is_before(&self, other: &ByteRange) -> (b: bool)
        ensures
            b == range_lt(*self, *other),
    {
        self.start < other.start || (self.start == other.start && self.end < other.end)
    }

    /// The `Range` request header for this range: its name and `bytes=<start>-<end>`.
    pub fn to_header(&self) -> (h: (String, String))
        ensures
            h.0@ == "range"@,
            h.1@ == range_header_value(*self),
    {
        let mut v: Vec<char> = Vec::new();
        push_str_chars(&mut v, "bytes=");
        let s = u64_to_decimal(self.start);
        v.append(&mut s.clone());
        push_str_chars(&mut v, "-");
        let e = u64_to_decimal(self.end);
        v.append(&mut e.clone());
        proof {
            assert(v@ =~= range_header_value(*self));
        }
        (range_header_name(), chars_to_string(v.as_slice()))
    }

    /// The text of this range, `ByteRange::<start>-<end>`.
    pub fn to_text(&self) -> (s: String)
        ensures
            s@ == range_text(*self),
    {
        let mut v: Vec<char> = Vec::new();
        push_str_chars(&mut v, "ByteRange::");
        let s = u64_to_decimal(self.start);
        v.append(&mut s.clone());
        push_str_chars(&mut v, "-");
        let e = u64_to_decimal(self.end);
        v.append(&mut e.clone());
        proof {
            assert(v@ =~= range_text(*self));
        }
        chars_to_string(v.as_slice())
    }
}

impl StartKeyed for ByteRange {
    open spec fn start_key(&self) -> u64 {
        self.start
    }

    fn get_start_key(&self) -> (k: u64) {
        self.start
    }
}

} // verus!
