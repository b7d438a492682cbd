//! The byte range of a download segment, with private bounds.

use vstd::prelude::*;
use crate::text::{chars_to_string, decimal, push_str_chars, u64_to_decimal};

verus! {

/// An inclusive range of bytes `[start, end]` whose bounds are read through its view.
#[derive(Clone, Copy, Debug, PartialEq, Eq, Structural)]
pub struct ByteRange {
    start: u64,
    end: u64,
}

impl View for ByteRange {
    type V = (u64, u64);

    closed spec fn view(&self) -> (u64, u64) {
        (self.start, self.end)
    }
}

impl ByteRange {
    pub fn new(start: u64, end: u64) -> (r: ByteRange)
        ensures
            r@ == (start, end),
    {
        ByteRange { start, end }
    }

    /// The first byte.
    pub fn start(&self) -> (s: u64)
        ensures
            s == self@.0,
    {
        self.start
    }

    /// The last byte.
    pub fn end(&self) -> (e: u64)
        ensures
            e == self@.1,
    {
        self.end
    }

    /// Whether `self` starts within `[other.end, other.end]`.
    pub fn is_in_range_of(&self, other: &ByteRange) -> (b: bool)
        ensures
            b == (self@.0 >= other@.1 && self@.0 <= other@.1),
    {
        self.start >= other.end && self.start <= other.end
    }

    /// Whether `other` starts inside `self`.
    pub fn overlaps_with(&self, other: &ByteRange) -> (b: bool)
        ensures
            b == (self@.0 <= other@.0 && self@.1 >= other@.0),
    {
        self.start <= other.start && self.end >= other.start
    }

    /// The text of this range, `ByteRange::<start>-<end>`.
    pub fn to_text(&self) -> (s: String)
        ensures
            s@ == "ByteRange::"@ + decimal(self@.0 as nat) + "-"@ + decimal(self@.1 as nat),
    {
        let mut v: Vec<char> = Vec::new();
        push_str_chars(&mut v, "ByteRange::");
        let mut a = u64_to_decimal(self.start);
        v.append(&mut a);
        push_str_chars(&mut v, "-");
        let mut b = u64_to_decimal(self.end);
        v.append(&mut b);
        proof {
            assert(v@ =~= "ByteRange::"@ + decimal(self@.0 as nat) + "-"@ + decimal(self@.1 as nat));
        }
        chars_to_string(v.as_slice())
    }

    /// Whether the range holds at least three bytes.
    pub fn is_valid(&self) -> (b: bool)
        ensures
            b == (self@.0 + 1 < self@.1),
    {
        self.start != self.end && self.start < self.end && self.start + 1 < self.end
    }
}

} // verus!
