//! Utilities: temp files, shared data and the clock.

use vstd::prelude::*;
use crate::segment::ByteRange;
use crate::utils::file::{extract_worker_and_range, spec_worker_and_range};

pub mod file;
pub mod shared_data;

verus! {

/// A temp file as a worker reports it: its name, the bytes `[start_byte, end_byte]`
/// it holds, the worker that wrote it and its size on disk.
#[derive(Clone, Debug, PartialEq, Eq)]
pub struct TempFileMetadata {
    pub name: String,
    pub start_byte: u64,
    pub end_byte: u64,
    pub worker_number: u8,
    pub size: u64,
}

/// Whether bytes `[start, end]` belong to the segment `[rs, re]`: they lie inside
/// it, or they start before its end and run past it.
pub open spec fn in_segment(start: u64, end: u64, rs: u64, re: u64) -> bool {
    (start >= rs && start < re && end <= re && end > rs) || (start < re && end > re)
}

impl TempFileMetadata {
    /// Whether this file belongs to `range`; see `in_segment`.
    pub fn is_in_range(&self, range: ByteRange) -> (b: bool)
        ensures
            b == in_segment(self.start_byte, self.end_byte, range@.0, range@.1),
    {
        let rs = range.start();
        let re = range.end();
        (self.start_byte >= rs && self.start_byte < re && self.end_byte <= re && self.end_byte > rs)
            || (self.start_byte < re && self.end_byte > re)
    }

    /// The record of the temp file named `name` that holds `size` bytes: none where
    /// the name does not read as `<worker>#<start>-<end>` (see
    /// `spec_worker_and_range`).
    pub fn from_file_name(name: &str, size: u64) -> (r: Option<TempFileMetadata>)
        ensures
            match spec_worker_and_range(name@) {
                None => r is None,
                Some((w, s, e)) => r matches Some(m) && {
                    &&& m.name@ == name@
                    &&& m.worker_number == w
                    &&& m.start_byte == s
                    &&& m.end_byte == e
                    &&& m.size == size
                },
            },
    {
        match extract_worker_and_range(name) {
            None => None,
            Some((worker_number, start_byte, end_byte)) => Some(
                TempFileMetadata { name: name.to_owned(), start_byte, end_byte, worker_number, size },
            ),
        }
    }
}

/// The milliseconds since the Unix epoch by the system clock, through std's
/// `SystemTime::elapsed` on `UNIX_EPOCH`; `None` where the clock stands before the
/// epoch (the error of `elapsed`). Nothing is stated of the value: it is the time.
#[verifier::external_body]
pub fn now_millis() -> Option<u128> {
    match std::time::UNIX_EPOCH.elapsed() {
        Ok(d) => Some(d.as_millis()),
        Err(_) => None,
    }
}

} // verus!
