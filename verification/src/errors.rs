//! The errors a download can end with.

use vstd::prelude::*;
use crate::text::{chars_to_string, push_str_chars};

verus! {

/// Why a download stopped: the transport failed, something else failed, a chunk
/// could not be processed, or a command came that the worker cannot follow.
#[derive(Clone, Debug, PartialEq, Eq)]
pub enum DownloadError {
    Transport(String),
    Other(String),
    ProcessChunk,
    InvalidCommand,
}

/// The text of an error: `Transport error: <reason>`, `Other error: <reason>`,
/// `Process chunk error` or `Invalid command`.
pub open spec fn error_text(e: DownloadError) -> Seq<char> {
    match e {
        DownloadError::Transport(r) => "Transport error: "@ + r@,
        DownloadError::Other(r) => "Other error: "@ + r@,
        DownloadError::ProcessChunk => "Process chunk error"@,
        DownloadError::InvalidCommand => "Invalid command"@,
    }
}

impl DownloadError {
    /// The text of this error; see `error_text`.
    pub fn to_text(&self) -> (s: String)
        ensures
            s@ == error_text(*self),
    {
        let mut v: Vec<char> = Vec::new();
        match self {
            DownloadError::Transport(r) => {
                push_str_chars(&mut v, "Transport error: ");
                push_str_chars(&mut v, r.as_str());
            },
            DownloadError::Other(r) => {
                push_str_chars(&mut v, "Other error: ");
                push_str_chars(&mut v, r.as_str());
            },
            DownloadError::ProcessChunk => {
                push_str_chars(&mut v, "Process chunk error");
            },
            DownloadError::InvalidCommand => {
                push_str_chars(&mut v, "Invalid command");
            },
        }
        proof {
            assert(v@ =~= error_text(*self));
        }
        chars_to_string(v.as_slice())
    }
}

} // verus!
