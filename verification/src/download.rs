//! A download: what the user asks for, what the engine downloads, and the
//! engine's state.

use vstd::prelude::*;
use std::collections::HashMap;

verus! {

/// The state of the download engine.
#[derive(Clone, Copy, Debug, PartialEq, Eq, Structural)]
pub enum EngineState {
    Complete,
    WorkersComplete,
    Initial,
    Running,
}

/// The file that the engine downloads: its id, URL, whether its size and range
/// support were known beforehand, request headers, whether the server serves byte
/// ranges, its size and its name.
#[derive(Clone)]
pub struct DownloadItem {
    pub uid: String,
    pub url: String,
    pub prefetched_info: bool,
    pub headers: HashMap<String, String>,
    pub supports_range: bool,
    pub file_size: u64,
    pub file_name: String,
}

/// What the user asks to download: the URL and what is already known of the file.
pub struct DownloadInfo {
    pub url: String,
    pub uid: Option<String>,
    pub supports_range: Option<bool>,
    pub file_size: Option<u64>,
    pub filename: Option<String>,
}

/// What the server says of a file: its URL, size, name and byte-range support.
pub struct FileInfo {
    pub url: String,
    pub file_size: u64,
    pub file_name: String,
    pub supports_range: bool,
}

/// A task that runs to its end on the calling thread.
pub trait RunnableTask {
    fn run(&mut self);
}

/// Whether `s` has the form of a random (version 4) UUID written by the `uuid`
/// crate: 36 characters, hyphens at positions 8, 13, 18 and 23, lowercase
/// hexadecimal digits elsewhere, and `4` at position 14.
pub open spec fn is_uuid_v4_text(s: Seq<char>) -> bool {
    &&& s.len() == 36
    &&& forall|i: int|
        0 <= i < 36 ==> if i == 8 || i == 13 || i == 18 || i == 23 {
            s[i] == '-'
        } else {
            ('0' <= #[trigger] s[i] <= '9') || ('a' <= s[i] <= 'f')
        }
    &&& s[14] == '4'
}

/// A new random id: `uuid::Uuid::new_v4()` written out by its `Display`, which
/// writes the hyphenated lowercase form, with the version digit 4 that `new_v4` sets.
#[verifier::external_body]
fn new_uid() -> (s: String)
    ensures
        is_uuid_v4_text(s@),
{
    uuid::Uuid::new_v4().to_string()
}

impl DownloadInfo {
    /// A download of `url` of which nothing else is known.
    pub fn from_url(url: String) -> (info: DownloadInfo)
        ensures
            info.url == url,
            info.uid is None,
            info.supports_range is None,
            info.file_size is None,
            info.filename is None,
    {
        DownloadInfo { url, uid: None, supports_range: None, file_size: None, filename: None }
    }
}

impl DownloadItem {
    /// The download of a file the server described, under a new random id.
    pub fn from(file_info: &FileInfo) -> (item: DownloadItem)
        ensures
            is_uuid_v4_text(item.uid@),
            item.url == file_info.url,
            !item.prefetched_info,
            item.headers@.len() == 0,
            item.supports_range == file_info.supports_range,
            item.file_size == file_info.file_size,
            item.file_name == file_info.file_name,
    {
        DownloadItem {
            uid: new_uid(),
            url: file_info.url.clone(),
            prefetched_info: false,
            headers: HashMap::new(),
            supports_range: file_info.supports_range,
            file_size: file_info.file_size,
            file_name: file_info.file_name.clone(),
        }
    }

    /// The download the engine makes of what the user asked for: the given id or a
    /// new random one; known beforehand where both the size and the range support
    /// are given; the given range support, else none; the given size, else 0; and
    /// the name `output_file_name_override`, else the given one, else empty.
    pub fn from_info(info: DownloadInfo, output_file_name_override: Option<String>) -> (item: DownloadItem)
        ensures
            match info.uid {
                Some(u) => item.uid == u,
                None => is_uuid_v4_text(item.uid@),
            },
            item.url == info.url,
            item.prefetched_info == (info.file_size is Some && info.supports_range is Some),
            item.headers@.len() == 0,
            item.supports_range == match info.supports_range {
                Some(b) => b,
                None => false,
            },
            item.file_size == match info.file_size {
                Some(n) => n,
                None => 0,
            },
            match output_file_name_override {
                Some(name) => item.file_name == name,
                None => match info.filename {
                    Some(name) => item.file_name == name,
                    None => item.file_name@.len() == 0,
                },
            },
    {
        let prefetched_info = info.file_size.is_some() && info.supports_range.is_some();
        let uid = match info.uid {
            Some(u) => u,
            None => new_uid(),
        };
        let supports_range = match info.supports_range {
            Some(b) => b,
            None => false,
        };
        let file_size = match info.file_size {
            Some(n) => n,
            None => 0,
        };
        let file_name = match output_file_name_override {
            Some(name) => name,
            None => match info.filename {
                Some(name) => name,
                None => String::new(),
            },
        };
        DownloadItem {
            uid,
            url: info.url,
            prefetched_info,
            headers: HashMap::new(),
            supports_range,
            file_size,
            file_name,
        }
    }
}

} // verus!
