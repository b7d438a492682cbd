//! The decisions of a download worker: whether it may start, how it answers a
//! request to change its byte range, where its temp files start and end, and
//! which temp files a shortened range cuts.

use vstd::prelude::*;
use crate::byte_range::{ByteRange, range_len};
use vstd::arithmetic::power2::{lemma2_to64, lemma_pow2_strictly_increases, pow2};
use crate::message::{EngineToWorkerMsg, ToEngineMessage};
use crate::errors::DownloadError;
use crate::sort::{sort_by_start, stable_sort_by_start};
use crate::utils::file::{TempFileMetadata, temp_file_in_range, temp_file_name, temp_file_name_text};

verus! {

/// A worker keeps a range it is asked to give up only where the bytes from its
/// start to its end number more than this.
pub const MINIMUM_DOWNLOADABLE_BYTE_RANGE_LEN: u64 = 500000;

/// The smallest buffer a worker flushes to disk: 64 KB.
pub const MIN_FLUSH: u64 = 65536;

/// The largest buffer a worker keeps before flushing: 8 MB.
pub const MAX_FLUSH: u64 = 8388608;

/// The state of a worker's download.
///
/// Initial: the worker has not yet started a download.
/// Stopped: the download is paused.
/// Complete: the whole download is complete.
/// RangeComplete: the worker's range has been fully downloaded.
/// Resetting: the connection is being reset.
/// Downloading: data is arriving.
/// Starting: the download is starting.
/// Connecting: connecting to the server; no data has arrived yet.
/// Failed: the download has failed.
#[derive(Clone, Copy, Debug, PartialEq, Eq, Structural)]
pub enum Status {
    Initial,
    Stopped,
    Complete,
    RangeComplete,
    Resetting,
    Downloading,
    Starting,
    Connecting,
    Failed,
}

/// What a worker knows of its download, as plain values: its number and range,
/// the size of the file, and its counters of received bytes and temp files.
pub struct HttpDownloadWorker {
    pub worker_number: u8,
    pub url: String,
    pub uid: String,
    pub file_size: u64,
    pub status_downloading: bool,
    pub byte_range: ByteRange,
    pub speed_check_bytes: u64,
    pub temp_bytes_received: u64,
    pub buffer_flush_threshold: u64,
    pub prev_buffer_end_byte: u64,
    pub total_request_bytes_received: u64,
    pub total_bytes_received: u64,
    pub cached_temp_files: Vec<TempFileMetadata>,
    pub terminated_on_completion: bool,
}

/// The range and the answer of a worker of range `br` that has received
/// `total_req` bytes of its current request when asked to take `new_range`.
///
/// A worker whose range is complete refuses. Where the requested range ends at or
/// before the byte the worker has reached, the worker keeps the first half of what
/// it has left, `[new_range.start, split]`, and offers the rest up to its old end,
/// provided the split lies past byte 0 and past `new_range.start` and its old range
/// holds more than `MINIMUM_DOWNLOADABLE_BYTE_RANGE_LEN` bytes after its start;
/// else it refuses. A requested range of fewer than three bytes is refused.
/// Otherwise the worker takes the requested range.
pub open spec fn spec_refresh(br: ByteRange, total_req: u64, complete: bool, new_range: ByteRange, reuse: bool) -> (ByteRange, ToEngineMessage) {
    let refused = ToEngineMessage::ByteRangeRefreshRefused { requested_range: new_range, reuse };
    if complete {
        (br, refused)
    } else if br.start + total_req >= new_range.end {
        let reached = br.start + total_req;
        let split_byte = (br.end - reached) / 2;
        let new_end = split_byte + reached;
        if new_end > 0 && new_range.start < new_end && br.start + MINIMUM_DOWNLOADABLE_BYTE_RANGE_LEN < br.end {
            let refreshed = ByteRange { start: new_range.start, end: new_end as u64 };
            (
                refreshed,
                ToEngineMessage::ByteRangeRefreshOverlapped {
                    requested_range: new_range,
                    refreshed_range: refreshed,
                    new_valid_range: ByteRange { start: (new_end + 1) as u64, end: br.end },
                    reuse,
                },
            )
        } else {
            (br, refused)
        }
    } else if new_range.start >= new_range.end || new_range.start + 1 >= new_range.end {
        (br, refused)
    } else {
        (new_range, ToEngineMessage::ByteRangeRefreshSuccess { requested_range: new_range, reuse })
    }
}

/// The arithmetic of a refresh stays within `u64`: the byte reached fits, lies at or
/// before the end of the range where the request ends before it, and so do the
/// sums that the offer computes.
pub open spec fn refresh_defined(br: ByteRange, total_req: u64, complete: bool, new_range: ByteRange) -> bool {
    !complete ==> {
        &&& br.start + total_req <= u64::MAX
        &&& br.start + total_req >= new_range.end ==> {
            let reached = br.start + total_req;
            let new_end = (br.end - reached) / 2 + reached;
            &&& br.end >= reached
            &&& (new_end > 0 && new_range.start < new_end) ==> br.start + MINIMUM_DOWNLOADABLE_BYTE_RANGE_LEN
                <= u64::MAX
            &&& (new_end > 0 && new_range.start < new_end && br.start + MINIMUM_DOWNLOADABLE_BYTE_RANGE_LEN
                < br.end) ==> new_end < u64::MAX
        }
    }
}

/// The flush threshold for a download speed: twice the speed, saturating at
/// `u64::MAX`, held within `[MIN_FLUSH, MAX_FLUSH]`.
pub open spec fn flush_threshold(speed_bytes_per_sec: u64) -> u64 {
    let doubled: int = if speed_bytes_per_sec > u64::MAX / 2 { u64::MAX as int } else { speed_bytes_per_sec * 2 };
    if doubled < MIN_FLUSH {
        MIN_FLUSH
    } else if doubled > MAX_FLUSH {
        MAX_FLUSH
    } else {
        doubled as u64
    }
}

/// What a worker's next request asks for: the URL, the byte range and its `Range`
/// header, and the whole-number quotients of the bytes already received in the
/// range by the range's length and of all received bytes by the file size.
pub struct RequestPlan {
    pub url: String,
    pub range: ByteRange,
    pub range_header: (String, String),
    pub worker_progress: u64,
    pub total_progress: u64,
}

/// Where the worker stands after a chunk: keep going; the range is overrun, so flush,
/// cut the temp files and complete; or the buffer is over its threshold, so flush.
#[derive(Clone, Copy, Debug, PartialEq, Eq, Structural)]
pub enum ChunkOutcome {
    Continue,
    FlushCutComplete,
    Flush,
}

/// Which temp files a range that now ends at `end` cuts: the files to delete, and
/// the file whose first `cut_len` bytes are kept in a new temp file.
pub struct CutPlan {
    pub to_delete: Vec<TempFileMetadata>,
    pub cut_file: Option<TempFileMetadata>,
    pub cut_len: u64,
}

/// The temp files of `files` that reach past `end`: those that start after it and
/// those that end after it.
pub open spec fn files_past(files: Seq<TempFileMetadata>, end: u64) -> Seq<TempFileMetadata>
    decreases files.len(),
{
    if files.len() == 0 {
        files
    } else {
        let rest = files_past(files.drop_last(), end);
        let f = files.last();
        if end < f.start_byte || end < f.end_byte {
            rest.push(f)
        } else {
            rest
        }
    }
}

/// The last file of `files` that holds byte `end` but runs past it.
pub open spec fn file_cut_at(files: Seq<TempFileMetadata>, end: u64) -> Option<TempFileMetadata>
    decreases files.len(),
{
    if files.len() == 0 {
        None
    } else {
        let f = files.last();
        if !(end < f.start_byte) && end < f.end_byte {
            Some(f)
        } else {
            file_cut_at(files.drop_last(), end)
        }
    }
}

/// `files` without its first record that is the same as `f`.
pub open spec fn remove_first_same(files: Seq<TempFileMetadata>, f: TempFileMetadata) -> Seq<TempFileMetadata>
    decreases files.len(),
{
    if files.len() == 0 {
        files
    } else if crate::utils::file::same_file(files[0], f) {
        files.drop_first()
    } else {
        seq![files[0]] + remove_first_same(files.drop_first(), f)
    }
}

/// `files` with, for each record of `gone` in turn, its first same record removed.
pub open spec fn remove_each(files: Seq<TempFileMetadata>, gone: Seq<TempFileMetadata>) -> Seq<TempFileMetadata>
    decreases gone.len(),
{
    if gone.len() == 0 {
        files
    } else {
        remove_first_same(remove_each(files, gone.drop_last()), gone.last())
    }
}

/// The temp files in `files` that belong to `range`, in their order.
pub open spec fn files_in_range(files: Seq<TempFileMetadata>, range: ByteRange) -> Seq<TempFileMetadata>
    decreases files.len(),
{
    if files.len() == 0 {
        files
    } else {
        let rest = files_in_range(files.drop_last(), range);
        let f = files.last();
        if temp_file_in_range(f.start_byte, f.end_byte, range) {
            rest.push(f)
        } else {
            rest
        }
    }
}

/// The sum of the sizes of `files`.
pub open spec fn total_size(files: Seq<TempFileMetadata>) -> int
    decreases files.len(),
{
    if files.len() == 0 {
        0
    } else {
        total_size(files.drop_last()) + files.last().size
    }
}

/// The temp files of `files` that worker `worker` wrote, in their order.
pub open spec fn worker_files(files: Seq<TempFileMetadata>, worker: u8) -> Seq<TempFileMetadata> {
    files.filter(|f: TempFileMetadata| f.worker_number == worker)
}

/// The temp files of `files` that worker `worker` wrote, in their order: what a
/// worker's cache of temp files holds.
pub fn files_of_worker(files: &Vec<TempFileMetadata>, worker: u8) -> (v: Vec<TempFileMetadata>)
    ensures
        v@ == worker_files(files@, worker),
{
    let mut v: Vec<TempFileMetadata> = Vec::new();
    let n = files.len();
    let mut i: usize = 0;
    while i < n
        invariant
            n == files@.len(),
            i <= n,
            v@ == worker_files(files@.take(i as int), worker),
        decreases n - i,
    {
        proof {
            reveal(Seq::filter);
            assert(files@.take(i + 1).drop_last() =~= files@.take(i as int));
            assert(files@.take(i + 1).last() == files@[i as int]);
        }
        if files[i].worker_number == worker {
            v.push(files[i].duplicate());
        }
        i = i + 1;
    }
    assert(files@.take(n as int) =~= files@);
    v
}

impl HttpDownloadWorker {
    /// The temp files of this worker sorted by start byte: all of them, or those that
    /// belong to its range.
    pub open spec fn spec_temp_files_sorted(&self, this_range_only: bool) -> Seq<TempFileMetadata> {
        if this_range_only {
            sort_by_start(files_in_range(self.cached_temp_files@, self.byte_range))
        } else {
            sort_by_start(self.cached_temp_files@)
        }
    }

    /// A worker of the given number and range, with no bytes received.
    pub fn new(worker_number: u8, url: String, uid: String, file_size: u64, byte_range: ByteRange) -> (w: Self)
        ensures
            w.worker_number == worker_number,
            w.url == url,
            w.uid == uid,
            w.file_size == file_size,
            w.byte_range == byte_range,
            !w.status_downloading,
            w.speed_check_bytes == 0,
            w.temp_bytes_received == 0,
            w.buffer_flush_threshold == 0,
            w.prev_buffer_end_byte == 0,
            w.total_request_bytes_received == 0,
            w.total_bytes_received == 0,
            w.cached_temp_files@.len() == 0,
            !w.terminated_on_completion,
    {
        HttpDownloadWorker {
            worker_number,
            url,
            uid,
            file_size,
            status_downloading: false,
            byte_range,
            speed_check_bytes: 0,
            temp_bytes_received: 0,
            buffer_flush_threshold: 0,
            prev_buffer_end_byte: 0,
            total_request_bytes_received: 0,
            total_bytes_received: 0,
            cached_temp_files: Vec::new(),
            terminated_on_completion: false,
        }
    }

    /// Whether a start must be refused: the range is empty or reaches past the file,
    /// or, unless the connection is reused, the worker is already downloading,
    /// connecting or starting and this is no reset.
    pub fn is_start_not_allowed(&self, reuse: bool, conn_reset: bool, status: Status) -> (b: bool)
        ensures
            b == (self.byte_range.start >= self.byte_range.end || self.byte_range.start > self.file_size
                || self.byte_range.end > self.file_size || (!reuse && (status == Status::Downloading
                || status == Status::Connecting || status == Status::Starting) && !conn_reset)),
    {
        if self.byte_range.start >= self.byte_range.end || self.byte_range.start > self.file_size
            || self.byte_range.end > self.file_size {
            return true;
        }
        if reuse {
            return false;
        }
        (status == Status::Downloading || status == Status::Connecting || status == Status::Starting)
            && !conn_reset
    }

    /// Answers a request to take `new_range`; see `spec_refresh`. `complete` says
    /// whether the worker's range is complete.
    pub fn refresh_byte_range(&mut self, new_range: ByteRange, reuse_connection: bool, complete: bool) -> (msg:
        ToEngineMessage)
        requires
            refresh_defined(old(self).byte_range, old(self).total_request_bytes_received, complete, new_range),
        ensures
            (final(self).byte_range, msg) == spec_refresh(
                old(self).byte_range,
                old(self).total_request_bytes_received,
                complete,
                new_range,
                reuse_connection,
            ),
            final(self).total_request_bytes_received == old(self).total_request_bytes_received,
            final(self).cached_temp_files == old(self).cached_temp_files,
            final(self).status_downloading == old(self).status_downloading,
            *final(self) == (HttpDownloadWorker { byte_range: final(self).byte_range, ..*old(self) }),
    {
        let prev_end_byte = self.byte_range.end;
        if complete {
            return ToEngineMessage::ByteRangeRefreshRefused { requested_range: new_range, reuse: reuse_connection };
        }
        if self.byte_range.start + self.total_request_bytes_received >= new_range.end {
            let reached = self.byte_range.start + self.total_request_bytes_received;
            let split_byte = (self.byte_range.end - reached) / 2;
            let new_end = split_byte + reached;
            let new_valid_end = prev_end_byte;
            let new_valid_start = self.byte_range.start;
            if new_end > 0 && new_range.start < new_end && new_valid_start + MINIMUM_DOWNLOADABLE_BYTE_RANGE_LEN
                < new_valid_end {
                self.byte_range = ByteRange::new(new_range.start, new_end);
                return ToEngineMessage::ByteRangeRefreshOverlapped {
                    requested_range: new_range,
                    new_valid_range: ByteRange::new(self.byte_range.end + 1, prev_end_byte),
                    refreshed_range: self.byte_range,
                    reuse: reuse_connection,
                };
            } else {
                return ToEngineMessage::ByteRangeRefreshRefused {
                    requested_range: new_range,
                    reuse: reuse_connection,
                };
            }
        }
        if new_range.start >= new_range.end || new_range.start + 1 >= new_range.end {
            return ToEngineMessage::ByteRangeRefreshRefused { requested_range: new_range, reuse: reuse_connection };
        }
        self.byte_range = new_range;
        ToEngineMessage::ByteRangeRefreshSuccess { requested_range: self.byte_range, reuse: reuse_connection }
    }

    /// Counts `len` newly received bytes in the buffer, the request and the total.
    pub fn update_received_bytes(&mut self, len: u64)
        requires
            old(self).temp_bytes_received + len <= u64::MAX,
            old(self).total_request_bytes_received + len <= u64::MAX,
            old(self).total_bytes_received + len <= u64::MAX,
        ensures
            final(self).temp_bytes_received == old(self).temp_bytes_received + len,
            final(self).total_request_bytes_received == old(self).total_request_bytes_received + len,
            final(self).total_bytes_received == old(self).total_bytes_received + len,
            final(self).byte_range == old(self).byte_range,
            final(self).prev_buffer_end_byte == old(self).prev_buffer_end_byte,
            final(self).cached_temp_files == old(self).cached_temp_files,
            final(self).worker_number == old(self).worker_number,
            *final(self) == (HttpDownloadWorker {
                temp_bytes_received: final(self).temp_bytes_received,
                total_request_bytes_received: final(self).total_request_bytes_received,
                total_bytes_received: final(self).total_bytes_received,
                ..*old(self)
            }),
    {
        self.temp_bytes_received = self.temp_bytes_received + len;
        self.total_request_bytes_received = self.total_request_bytes_received + len;
        self.total_bytes_received = self.total_bytes_received + len;
    }

    /// Whether the request has received the whole range: at least as many bytes as
    /// the range `[start, end]` holds.
    pub fn download_exceeded_end_byte(&self) -> (b: bool)
        ensures
            b == (self.total_request_bytes_received >= range_len(self.byte_range)),
    {
        self.byte_range.end < self.byte_range.start || self.total_request_bytes_received > self.byte_range.end
            - self.byte_range.start
    }

    /// Whether the range's start plus the bytes the request received, plus one, is
    /// the range's end.
    pub fn download_match_end_byte(&self) -> (b: bool)
        ensures
            b == (self.byte_range.start + self.total_request_bytes_received + 1 == self.byte_range.end),
    {
        self.byte_range.end > self.byte_range.start && self.total_request_bytes_received == self.byte_range.end
            - self.byte_range.start - 1
    }

    /// The first byte of the buffer: the range's start plus what earlier buffers held.
    pub fn temp_file_start_byte(&self) -> (b: u64)
        requires
            self.byte_range.start + self.prev_buffer_end_byte <= u64::MAX,
        ensures
            b == self.byte_range.start + self.prev_buffer_end_byte,
    {
        self.byte_range.start + self.prev_buffer_end_byte
    }

    /// The last byte of the buffer.
    pub fn temp_file_end_byte(&self) -> (b: u64)
        requires
            1 <= self.byte_range.start + self.prev_buffer_end_byte + self.temp_bytes_received <= u64::MAX,
        ensures
            b == self.byte_range.start + self.prev_buffer_end_byte + self.temp_bytes_received - 1,
    {
        self.byte_range.start + self.prev_buffer_end_byte + self.temp_bytes_received - 1
    }

    /// Empties the buffer's count of bytes.
    pub fn reset_data_buffer(&mut self)
        ensures
            *final(self) == (HttpDownloadWorker { temp_bytes_received: 0, ..*old(self) }),
    {
        self.temp_bytes_received = 0;
    }

    /// Sets the flush threshold from the download speed; see `flush_threshold`.
    pub fn calculate_flush_threshold(&mut self, speed_bytes_per_sec: u64)
        ensures
            final(self).buffer_flush_threshold == flush_threshold(speed_bytes_per_sec),
            final(self).byte_range == old(self).byte_range,
            final(self).temp_bytes_received == old(self).temp_bytes_received,
            final(self).prev_buffer_end_byte == old(self).prev_buffer_end_byte,
            final(self).total_request_bytes_received == old(self).total_request_bytes_received,
            final(self).total_bytes_received == old(self).total_bytes_received,
            final(self).cached_temp_files == old(self).cached_temp_files,
            *final(self) == (HttpDownloadWorker { buffer_flush_threshold: final(self).buffer_flush_threshold, ..*old(self) }),
    {
        let doubled: u64 = if speed_bytes_per_sec > u64::MAX / 2 { u64::MAX } else { speed_bytes_per_sec * 2 };
        self.buffer_flush_threshold = if doubled < MIN_FLUSH {
            MIN_FLUSH
        } else if doubled > MAX_FLUSH {
            MAX_FLUSH
        } else {
            doubled
        };
    }

    /// Copies of this worker's temp files, sorted by start byte: all of them, or
    /// those that belong to its range.
    pub fn temp_files_sorted(&self, this_range_only: bool) -> (files: Vec<TempFileMetadata>)
        ensures
            files@ == self.spec_temp_files_sorted(this_range_only),
    {
        let ghost all = self.cached_temp_files@;
        let mut picked: Vec<TempFileMetadata> = Vec::new();
        let n = self.cached_temp_files.len();
        let mut i: usize = 0;
        while i < n
            invariant
                n == all.len(),
                all == self.cached_temp_files@,
                i <= n,
                picked@ == (if this_range_only {
                    files_in_range(all.take(i as int), self.byte_range)
                } else {
                    all.take(i as int)
                }),
            decreases n - i,
        {
            let f = &self.cached_temp_files[i];
            proof {
                assert(all.take(i + 1).drop_last() =~= all.take(i as int));
                assert(all.take(i + 1).last() == all[i as int]);
            }
            if !this_range_only || f.is_in_range(self.byte_range) {
                picked.push(f.duplicate());
            }
            proof {
                if !this_range_only {
                    assert(picked@ =~= all.take(i + 1));
                }
            }
            i = i + 1;
        }
        proof {
            assert(all.take(n as int) =~= all);
        }
        stable_sort_by_start(picked)
    }

    /// The sum of the sizes of this worker's temp files: all of them, or those that
    /// belong to its range.
    pub fn total_written_bytes(&self, this_range_only: bool) -> (total: u64)
        requires
            total_size(self.spec_temp_files_sorted(this_range_only)) <= u64::MAX,
        ensures
            total == total_size(self.spec_temp_files_sorted(this_range_only)),
    {
        let files = self.temp_files_sorted(this_range_only);
        let ghost fs = files@;
        let mut total: u64 = 0;
        let mut i: usize = 0;
        proof {
            lemma_total_size_prefix(fs, 0);
        }
        while i < files.len()
            invariant
                fs == files@,
                i <= fs.len(),
                total_size(fs) <= u64::MAX,
                total == total_size(fs.take(i as int)),
            decreases fs.len() - i,
        {
            proof {
                assert(fs.take(i + 1).drop_last() =~= fs.take(i as int));
                lemma_total_size_prefix(fs, i + 1);
            }
            total = total + files[i].size;
            i = i + 1;
        }
        proof {
            assert(fs.take(fs.len() as int) =~= fs);
        }
        total
    }

    /// The byte the next request of this worker starts at: one past the end of the
    /// last of its temp files in its range, or the start of its range.
    pub fn new_start_byte(&self) -> (b: u64)
        requires
            self.spec_temp_files_sorted(true).len() > 0 ==> self.spec_temp_files_sorted(true).last().end_byte
                < u64::MAX,
        ensures
            b == (if self.spec_temp_files_sorted(true).len() == 0 {
                self.byte_range.start
            } else {
                (self.spec_temp_files_sorted(true).last().end_byte + 1) as u64
            }),
    {
        let files = self.temp_files_sorted(true);
        if files.len() == 0 {
            return self.byte_range.start;
        }
        files[files.len() - 1].end_byte + 1
    }

    /// The range of the next request: from the start of the range where the
    /// connection is reused, else from `new_start_byte`, to the end of the range.
    pub fn resolve_range(&self, reuse: bool) -> (r: ByteRange)
        requires
            self.spec_temp_files_sorted(true).len() > 0 ==> self.spec_temp_files_sorted(true).last().end_byte
                < u64::MAX,
        ensures
            r.end == self.byte_range.end,
            r.start == (if reuse {
                self.byte_range.start
            } else if self.spec_temp_files_sorted(true).len() == 0 {
                self.byte_range.start
            } else {
                (self.spec_temp_files_sorted(true).last().end_byte + 1) as u64
            }),
    {
        let req_start_byte = if reuse { self.byte_range.start } else { self.new_start_byte() };
        ByteRange::new(req_start_byte, self.byte_range.end)
    }

    /// Prepares the next request: its range (see `resolve_range`) and header, the
    /// counts of bytes already received (all temp files, and those of the range),
    /// and the offset of the next buffer from the start of the range.
    pub fn build_request(&mut self, reuse: bool) -> (plan: RequestPlan)
        requires
            old(self).spec_temp_files_sorted(true).len() > 0 ==> old(self).spec_temp_files_sorted(
                true,
            ).last().end_byte < u64::MAX,
            total_size(old(self).spec_temp_files_sorted(true)) <= u64::MAX,
            total_size(old(self).spec_temp_files_sorted(false)) <= u64::MAX,
            old(self).byte_range.start <= old(self).byte_range.end,
            old(self).byte_range.end - old(self).byte_range.start < u64::MAX,
            old(self).file_size > 0,
            !reuse ==> old(self).spec_temp_files_sorted(true).len() > 0 ==> old(self).spec_temp_files_sorted(
                true,
            ).last().end_byte + 1 >= old(self).byte_range.start,
        ensures
            plan.url == old(self).url,
            plan.range.end == old(self).byte_range.end,
            plan.range.start == (if reuse {
                old(self).byte_range.start
            } else if old(self).spec_temp_files_sorted(true).len() == 0 {
                old(self).byte_range.start
            } else {
                (old(self).spec_temp_files_sorted(true).last().end_byte + 1) as u64
            }),
            plan.range_header.0@ == "range"@,
            plan.range_header.1@ == crate::byte_range::range_header_value(plan.range),
            final(self).total_bytes_received == total_size(old(self).spec_temp_files_sorted(false)),
            final(self).total_request_bytes_received == total_size(old(self).spec_temp_files_sorted(true)),
            plan.worker_progress == final(self).total_request_bytes_received / range_len(old(self).byte_range) as u64,
            plan.total_progress == final(self).total_bytes_received / old(self).file_size,
            final(self).prev_buffer_end_byte == plan.range.start - old(self).byte_range.start,
            final(self).byte_range == old(self).byte_range,
            final(self).cached_temp_files == old(self).cached_temp_files,
            final(self).worker_number == old(self).worker_number,
            final(self).file_size == old(self).file_size,
            final(self).temp_bytes_received == old(self).temp_bytes_received,
            *final(self) == (HttpDownloadWorker {
                total_bytes_received: final(self).total_bytes_received,
                total_request_bytes_received: final(self).total_request_bytes_received,
                prev_buffer_end_byte: final(self).prev_buffer_end_byte,
                ..*old(self)
            }),
    {
        let request_range = self.resolve_range(reuse);
        let range_header = request_range.to_header();
        let total_existing_len = self.total_written_bytes(false);
        let total_req_received_bytes = self.total_written_bytes(true);
        let worker_progress = total_req_received_bytes / self.byte_range.len();
        self.total_bytes_received = total_existing_len;
        self.total_request_bytes_received = total_req_received_bytes;
        let total_progress = self.total_bytes_received / self.file_size;
        if request_range.start == self.byte_range.start {
            self.prev_buffer_end_byte = 0;
        } else {
            self.prev_buffer_end_byte = request_range.start - self.byte_range.start;
        }
        RequestPlan {
            url: self.url.clone(),
            range: request_range,
            range_header,
            worker_progress,
            total_progress,
        }
    }

    /// Clears the counts of a request that restarts: nothing received in it, no
    /// earlier buffers, an empty buffer.
    pub fn reset_status(&mut self)
        ensures
            final(self).total_request_bytes_received == 0,
            final(self).prev_buffer_end_byte == 0,
            final(self).temp_bytes_received == 0,
            final(self).byte_range == old(self).byte_range,
            final(self).total_bytes_received == old(self).total_bytes_received,
            final(self).cached_temp_files == old(self).cached_temp_files,
            *final(self) == (HttpDownloadWorker {
                total_request_bytes_received: 0,
                prev_buffer_end_byte: 0,
                temp_bytes_received: 0,
                ..*old(self)
            }),
    {
        self.total_request_bytes_received = 0;
        self.prev_buffer_end_byte = 0;
        self.reset_data_buffer();
    }

    /// Prepares the counters for a new start: no bytes received in the request,
    /// not downloading, not terminated.
    pub fn init_counters(&mut self)
        ensures
            final(self).total_request_bytes_received == 0,
            !final(self).status_downloading,
            !final(self).terminated_on_completion,
            final(self).byte_range == old(self).byte_range,
            final(self).total_bytes_received == old(self).total_bytes_received,
            final(self).prev_buffer_end_byte == old(self).prev_buffer_end_byte,
            final(self).temp_bytes_received == old(self).temp_bytes_received,
            final(self).cached_temp_files == old(self).cached_temp_files,
            *final(self) == (HttpDownloadWorker {
                total_request_bytes_received: 0,
                status_downloading: false,
                terminated_on_completion: false,
                ..*old(self)
            }),
    {
        self.terminated_on_completion = false;
        self.total_request_bytes_received = 0;
        self.status_downloading = false;
    }

    /// What to do after a chunk has been counted and the threshold set: flush, cut
    /// and complete once the request has received the whole range, else flush where
    /// the buffer holds more than the threshold.
    pub fn chunk_outcome(&self) -> (o: ChunkOutcome)
        ensures
            o == (if self.total_request_bytes_received >= range_len(self.byte_range) {
                ChunkOutcome::FlushCutComplete
            } else if self.temp_bytes_received > self.buffer_flush_threshold {
                ChunkOutcome::Flush
            } else {
                ChunkOutcome::Continue
            }),
    {
        if self.download_exceeded_end_byte() {
            ChunkOutcome::FlushCutComplete
        } else if self.temp_bytes_received > self.buffer_flush_threshold {
            ChunkOutcome::Flush
        } else {
            ChunkOutcome::Continue
        }
    }

    /// The name of the temp file the buffer is flushed to:
    /// `<worker>#<first byte>-<last byte>`.
    pub fn flush_file_name(&self) -> (name: String)
        requires
            1 <= self.byte_range.start + self.prev_buffer_end_byte + self.temp_bytes_received <= u64::MAX,
        ensures
            name@ == temp_file_name_text(
                self.worker_number,
                (self.byte_range.start + self.prev_buffer_end_byte) as u64,
                (self.byte_range.start + self.prev_buffer_end_byte + self.temp_bytes_received - 1) as u64,
            ),
    {
        temp_file_name(self.worker_number, self.temp_file_start_byte(), self.temp_file_end_byte())
    }

    /// Records a flushed buffer of `written_len` bytes written to `path`: a temp file
    /// named by `flush_file_name` is added to the cache, the offset of the next
    /// buffer moves past it, and the buffer is emptied.
    pub fn record_flush(&mut self, path: String, written_len: u64)
        requires
            1 <= old(self).byte_range.start + old(self).prev_buffer_end_byte + old(self).temp_bytes_received
                <= u64::MAX,
            old(self).prev_buffer_end_byte + written_len <= u64::MAX,
        ensures
            final(self).cached_temp_files@ == old(self).cached_temp_files@.push(
                TempFileMetadata {
                    name: final(self).cached_temp_files@.last().name,
                    path,
                    start_byte: (old(self).byte_range.start + old(self).prev_buffer_end_byte) as u64,
                    end_byte: (old(self).byte_range.start + old(self).prev_buffer_end_byte
                        + old(self).temp_bytes_received - 1) as u64,
                    worker_number: old(self).worker_number,
                    size: written_len,
                },
            ),
            final(self).cached_temp_files@.last().name@ == temp_file_name_text(
                old(self).worker_number,
                (old(self).byte_range.start + old(self).prev_buffer_end_byte) as u64,
                (old(self).byte_range.start + old(self).prev_buffer_end_byte + old(self).temp_bytes_received
                    - 1) as u64,
            ),
            final(self).prev_buffer_end_byte == old(self).prev_buffer_end_byte + written_len,
            final(self).temp_bytes_received == 0,
            final(self).byte_range == old(self).byte_range,
            final(self).total_bytes_received == old(self).total_bytes_received,
            final(self).total_request_bytes_received == old(self).total_request_bytes_received,
            final(self).worker_number == old(self).worker_number,
            *final(self) == (HttpDownloadWorker {
                cached_temp_files: final(self).cached_temp_files,
                prev_buffer_end_byte: final(self).prev_buffer_end_byte,
                temp_bytes_received: 0,
                ..*old(self)
            }),
    {
        let name = self.flush_file_name();
        let meta = TempFileMetadata {
            name,
            path,
            start_byte: self.temp_file_start_byte(),
            end_byte: self.temp_file_end_byte(),
            worker_number: self.worker_number,
            size: written_len,
        };
        self.cached_temp_files.push(meta);
        self.prev_buffer_end_byte = self.prev_buffer_end_byte + written_len;
        self.reset_data_buffer();
    }

    /// Marks the download of the range complete: no longer downloading. Gives the
    /// bytes of all temp files.
    pub fn set_download_complete(&mut self) -> (total: u64)
        requires
            total_size(old(self).spec_temp_files_sorted(false)) <= u64::MAX,
        ensures
            total == total_size(old(self).spec_temp_files_sorted(false)),
            !final(self).status_downloading,
            final(self).byte_range == old(self).byte_range,
            final(self).cached_temp_files == old(self).cached_temp_files,
            final(self).total_bytes_received == old(self).total_bytes_received,
            final(self).total_request_bytes_received == old(self).total_request_bytes_received,
            *final(self) == (HttpDownloadWorker { status_downloading: false, ..*old(self) }),
    {
        let total = self.total_written_bytes(false);
        self.status_downloading = false;
        total
    }

    /// Plans the cut of the temp files of the range after it has been shortened:
    /// among its temp files sorted by start byte, those that reach past the end of
    /// the range are deleted, and of the last one that holds the end byte and runs
    /// past it, the bytes up to the end are kept.
    pub fn plan_cut_temp_files(&self) -> (plan: CutPlan)
        requires
            self.byte_range.end < u64::MAX,
        ensures
            plan.to_delete@ == files_past(self.spec_temp_files_sorted(true), self.byte_range.end),
            plan.cut_file == file_cut_at(self.spec_temp_files_sorted(true), self.byte_range.end),
            plan.cut_file matches Some(f) ==> plan.cut_len == self.byte_range.end - f.start_byte + 1,
    {
        let temp_files = self.temp_files_sorted(true);
        let ghost fs = temp_files@;
        let end = self.byte_range.end;
        let mut to_delete: Vec<TempFileMetadata> = Vec::new();
        let mut cut_file: Option<TempFileMetadata> = None;
        let mut cut_len: u64 = 0;
        let mut i: usize = 0;
        while i < temp_files.len()
            invariant
                fs == temp_files@,
                end == self.byte_range.end,
                end < u64::MAX,
                i <= fs.len(),
                to_delete@ == files_past(fs.take(i as int), end),
                cut_file == file_cut_at(fs.take(i as int), end),
                cut_file matches Some(f) ==> cut_len == end - f.start_byte + 1,
            decreases fs.len() - i,
        {
            proof {
                assert(fs.take(i + 1).drop_last() =~= fs.take(i as int));
                assert(fs.take(i + 1).last() == fs[i as int]);
            }
            let f = &temp_files[i];
            if end < f.start_byte {
                to_delete.push(f.duplicate());
            } else if end < f.end_byte {
                cut_file = Some(f.duplicate());
                cut_len = end - f.start_byte + 1;
                to_delete.push(f.duplicate());
            }
            i = i + 1;
        }
        proof {
            assert(fs.take(fs.len() as int) =~= fs);
        }
        CutPlan { to_delete, cut_file, cut_len }
    }

    /// Removes from the cache the first record that is the same as `gone`.
    fn forget_temp_file(&mut self, gone: &TempFileMetadata)
        ensures
            final(self).cached_temp_files@ == remove_first_same(old(self).cached_temp_files@, *gone),
            final(self).byte_range == old(self).byte_range,
            final(self).total_bytes_received == old(self).total_bytes_received,
            final(self).worker_number == old(self).worker_number,
            *final(self) == (HttpDownloadWorker { cached_temp_files: final(self).cached_temp_files, ..*old(self) }),
    {
        let ghost orig = self.cached_temp_files@;
        let n = self.cached_temp_files.len();
        let mut i: usize = 0;
        assert(orig.skip(0) =~= orig);
        assert(orig.take(0) + orig =~= orig);
        while i < n
            invariant
                n == orig.len(),
                orig == self.cached_temp_files@,
                orig == old(self).cached_temp_files@,
                *self == *old(self),
                self.byte_range == old(self).byte_range,
                self.total_bytes_received == old(self).total_bytes_received,
                self.worker_number == old(self).worker_number,
                i <= n,
                forall|j: int| 0 <= j < i ==> !crate::utils::file::same_file(#[trigger] orig[j], *gone),
                remove_first_same(orig, *gone) == orig.take(i as int) + remove_first_same(orig.skip(i as int), *gone),
            decreases n - i,
        {
            if self.cached_temp_files[i].is_same_file(gone) {
                proof {
                    assert(orig.skip(i as int)[0] == orig[i as int]);
                    assert(orig.skip(i as int).drop_first() =~= orig.skip(i + 1));
                }
                self.cached_temp_files.remove(i);
                proof {
                    assert(self.cached_temp_files@ =~= orig.take(i as int) + orig.skip(i + 1));
                }
                return;
            }
            proof {
                let rest = orig.skip(i as int);
                assert(rest[0] == orig[i as int]);
                assert(rest.drop_first() =~= orig.skip(i + 1));
                assert(remove_first_same(rest, *gone) == seq![orig[i as int]] + remove_first_same(
                    orig.skip(i + 1),
                    *gone,
                ));
                assert(orig.take(i + 1) =~= orig.take(i as int) + seq![orig[i as int]]);
                assert(orig.take(i as int) + (seq![orig[i as int]] + remove_first_same(orig.skip(i + 1), *gone))
                    =~= orig.take(i + 1) + remove_first_same(orig.skip(i + 1), *gone));
            }
            i = i + 1;
        }
        proof {
            assert(orig.skip(n as int) =~= Seq::<TempFileMetadata>::empty());
            assert(orig.take(n as int) =~= orig);
        }
    }

    /// Carries out the bookkeeping of a cut: each deleted file leaves the cache and
    /// its size leaves the count of received bytes; where `kept` gives the path and
    /// length of the new temp file of the cut file's kept bytes, it joins the cache
    /// (named `<worker>#<start>-<start + length - 1>`) and its length joins the count.
    pub fn apply_cut(&mut self, plan: &CutPlan, kept: Option<(String, u64)>)
        requires
            total_size(plan.to_delete@) <= old(self).total_bytes_received,
            kept is Some ==> plan.cut_file is Some,
            kept matches Some((p, len)) ==> {
                &&& len >= 1
                &&& plan.cut_file->0.start_byte + len <= u64::MAX
                &&& old(self).total_bytes_received - total_size(plan.to_delete@) + len <= u64::MAX
            },
        ensures
            final(self).byte_range == old(self).byte_range,
            final(self).worker_number == old(self).worker_number,
            match kept {
                None => {
                    &&& final(self).cached_temp_files@ == remove_each(old(self).cached_temp_files@, plan.to_delete@)
                    &&& final(self).total_bytes_received == old(self).total_bytes_received - total_size(
                        plan.to_delete@,
                    )
                },
                Some((p, len)) => {
                    let start = plan.cut_file->0.start_byte;
                    let kept_meta = final(self).cached_temp_files@.last();
                    &&& final(self).cached_temp_files@ == remove_each(old(self).cached_temp_files@, plan.to_delete@).push(
                        kept_meta,
                    )
                    &&& kept_meta.name@ == temp_file_name_text(old(self).worker_number, start, (start + len - 1) as u64)
                    &&& kept_meta.path == p
                    &&& kept_meta.start_byte == start
                    &&& kept_meta.end_byte == start + len - 1
                    &&& kept_meta.worker_number == old(self).worker_number
                    &&& kept_meta.size == len
                    &&& final(self).total_bytes_received == old(self).total_bytes_received - total_size(
                        plan.to_delete@,
                    ) + len
                },
            },
            *final(self) == (HttpDownloadWorker {
                cached_temp_files: final(self).cached_temp_files,
                total_bytes_received: final(self).total_bytes_received,
                ..*old(self)
            }),
    {
        let ghost gone = plan.to_delete@;
        let ghost orig = self.cached_temp_files@;
        let ghost total0 = self.total_bytes_received;
        let mut i: usize = 0;
        proof {
            lemma_total_size_prefix(gone, 0);
        }
        while i < plan.to_delete.len()
            invariant
                gone == plan.to_delete@,
                i <= gone.len(),
                total_size(gone) <= total0,
                self.total_bytes_received == total0 - total_size(gone.take(i as int)),
                self.cached_temp_files@ == remove_each(orig, gone.take(i as int)),
                *self == (HttpDownloadWorker {
                    cached_temp_files: self.cached_temp_files,
                    total_bytes_received: self.total_bytes_received,
                    ..*old(self)
                }),
                self.byte_range == old(self).byte_range,
                self.worker_number == old(self).worker_number,
            decreases gone.len() - i,
        {
            proof {
                assert(gone.take(i + 1).drop_last() =~= gone.take(i as int));
                assert(gone.take(i + 1).last() == gone[i as int]);
                lemma_total_size_prefix(gone, i + 1);
            }
            let size = plan.to_delete[i].size;
            self.total_bytes_received = self.total_bytes_received - size;
            self.forget_temp_file(&plan.to_delete[i]);
            i = i + 1;
        }
        proof {
            assert(gone.take(gone.len() as int) =~= gone);
        }
        match kept {
            None => {},
            Some((path, len)) => {
                let start = match &plan.cut_file {
                    Some(f) => f.start_byte,
                    None => 0,
                };
                let new_end = start + len - 1;
                let meta = TempFileMetadata {
                    name: temp_file_name(self.worker_number, start, new_end),
                    path,
                    start_byte: start,
                    end_byte: new_end,
                    worker_number: self.worker_number,
                    size: len,
                };
                self.cached_temp_files.push(meta);
                self.total_bytes_received = self.total_bytes_received + len;
            },
        }
    }
}



/// The sizes of a prefix of `files` sum to no more than all of them.
proof fn lemma_total_size_prefix(files: Seq<TempFileMetadata>, k: int)
    requires
        0 <= k <= files.len(),
    ensures
        0 <= total_size(files.take(k)) <= total_size(files),
    decreases files.len() - k,
{
    if k < files.len() {
        lemma_total_size_prefix(files, k + 1);
        assert(files.take(k + 1).drop_last() =~= files.take(k));
    } else {
        assert(files.take(k) =~= files);
    }
    lemma_total_size_nonneg(files.take(k));
}

proof fn lemma_total_size_nonneg(files: Seq<TempFileMetadata>)
    ensures
        total_size(files) >= 0,
    decreases files.len(),
{
    if files.len() > 0 {
        lemma_total_size_nonneg(files.drop_last());
    }
}

/// `2^e`, or `u32::MAX` where that does not fit in a `u32`.
pub open spec fn saturating_pow2(e: nat) -> int {
    if pow2(e) > u32::MAX {
        u32::MAX as int
    } else {
        pow2(e) as int
    }
}

/// Counts a retry and gives the seconds to wait before it: the backoff grows by
/// one and the wait is `2^backoff`; where that is more than 16 seconds, the
/// backoff starts over at 1 and the wait is 2 seconds, so that a connection that
/// keeps failing is not left waiting ever longer.
pub fn next_retry_delay(retry_count: &mut u32, retry_backoff: &mut u32) -> (delay_secs: u32)
    requires
        *old(retry_count) < u32::MAX,
        *old(retry_backoff) < u32::MAX,
    ensures
        *final(retry_count) == *old(retry_count) + 1,
        2 <= delay_secs <= 16,
        saturating_pow2((*old(retry_backoff) + 1) as nat) > 16 ==> {
            &&& *final(retry_backoff) == 1
            &&& delay_secs == 2
        },
        saturating_pow2((*old(retry_backoff) + 1) as nat) <= 16 ==> {
            &&& *final(retry_backoff) == *old(retry_backoff) + 1
            &&& delay_secs == saturating_pow2((*old(retry_backoff) + 1) as nat)
        },
{
    *retry_count = *retry_count + 1;
    *retry_backoff = *retry_backoff + 1;
    let b = *retry_backoff;
    proof {
        lemma2_to64();
        if b > 5 {
            lemma_pow2_strictly_increases(5, b as nat);
        }
    }
    if b <= 4 {
        if b == 1 {
            2
        } else if b == 2 {
            4
        } else if b == 3 {
            8
        } else {
            16
        }
    } else {
        *retry_backoff = 1;
        2
    }
}

/// Where a download stands when a message from the engine arrives: the request is
/// on its way, or the body is streaming in.
#[derive(Clone, Copy, Debug, PartialEq, Eq, Structural)]
pub enum DownloadPhase {
    Requesting,
    Streaming,
}

/// What a message from the engine does to a download: the answer to send back,
/// the status to report, and the status the download ends with, where it ends.
#[derive(Clone, Copy, Debug, PartialEq, Eq, Structural)]
pub struct MessageEffect {
    pub reply: Option<ToEngineMessage>,
    pub new_status: Option<Status>,
    pub finish: Option<Status>,
}

/// The effect of `msg` on a download in `phase` of a worker of range `br` that has
/// received `total_req` bytes of its request, with `complete` telling whether its
/// range is complete. A stop ends it as stopped and a reset as resetting, and so
/// does a request for a new range while the request is on its way, after the
/// worker has answered it (see `spec_refresh`); while the body streams in, the
/// answer is sent and the download goes on. A start of either kind ends it as
/// resetting.
pub open spec fn spec_message_effect(
    br: ByteRange,
    total_req: u64,
    complete: bool,
    msg: EngineToWorkerMsg,
    phase: DownloadPhase,
) -> MessageEffect {
    match msg {
        EngineToWorkerMsg::Stop => MessageEffect {
            reply: None,
            new_status: Some(Status::Stopped),
            finish: Some(Status::Stopped),
        },
        EngineToWorkerMsg::Reset => MessageEffect {
            reply: None,
            new_status: Some(Status::Resetting),
            finish: Some(Status::Resetting),
        },
        EngineToWorkerMsg::RefreshByteRange(r, reuse) => {
            let answer = spec_refresh(br, total_req, complete, r, reuse).1;
            match phase {
                DownloadPhase::Requesting => MessageEffect {
                    reply: Some(answer),
                    new_status: Some(Status::Resetting),
                    finish: Some(Status::Resetting),
                },
                DownloadPhase::Streaming => MessageEffect { reply: Some(answer), new_status: None, finish: None },
            }
        },
        EngineToWorkerMsg::Start => MessageEffect { reply: None, new_status: None, finish: Some(Status::Resetting) },
        EngineToWorkerMsg::StartReuseConnection(_) => MessageEffect {
            reply: None,
            new_status: None,
            finish: Some(Status::Resetting),
        },
    }
}

impl HttpDownloadWorker {
    /// Whether a start may go ahead: it is refused with `InvalidCommand` where the
    /// worker is already starting or `is_start_not_allowed` says so.
    pub fn check_start(&self, reuse: bool, reset: bool, status: Status) -> (r: Result<(), DownloadError>)
        ensures
            r is Err <==> (status == Status::Starting || self.byte_range.start >= self.byte_range.end
                || self.byte_range.start > self.file_size || self.byte_range.end > self.file_size || (!reuse
                && (status == Status::Downloading || status == Status::Connecting || status == Status::Starting)
                && !reset)),
            r matches Err(e) ==> e == DownloadError::InvalidCommand,
    {
        if status == Status::Starting || self.is_start_not_allowed(reuse, reset, status) {
            Err(DownloadError::InvalidCommand)
        } else {
            Ok(())
        }
    }

    /// Follows a message from the engine during a download; see
    /// `spec_message_effect`. A request for a new range changes the range as
    /// `spec_refresh` says; a stop, a reset, or a new range while the request is on
    /// its way ends the download, which is no longer downloading.
    pub fn handle_engine_message(&mut self, msg: EngineToWorkerMsg, phase: DownloadPhase, complete: bool) -> (e:
        MessageEffect)
        requires
            msg matches EngineToWorkerMsg::RefreshByteRange(r, _) ==> refresh_defined(
                old(self).byte_range,
                old(self).total_request_bytes_received,
                complete,
                r,
            ),
        ensures
            e == spec_message_effect(
                old(self).byte_range,
                old(self).total_request_bytes_received,
                complete,
                msg,
                phase,
            ),
            final(self).byte_range == match msg {
                EngineToWorkerMsg::RefreshByteRange(r, reuse) => spec_refresh(
                    old(self).byte_range,
                    old(self).total_request_bytes_received,
                    complete,
                    r,
                    reuse,
                ).0,
                _ => old(self).byte_range,
            },
            final(self).status_downloading == (old(self).status_downloading && e.new_status is None),
            final(self).total_request_bytes_received == old(self).total_request_bytes_received,
            final(self).cached_temp_files == old(self).cached_temp_files,
            *final(self) == (HttpDownloadWorker {
                byte_range: final(self).byte_range,
                status_downloading: final(self).status_downloading,
                ..*old(self)
            }),
    {
        match msg {
            EngineToWorkerMsg::Stop => {
                self.status_downloading = false;
                MessageEffect { reply: None, new_status: Some(Status::Stopped), finish: Some(Status::Stopped) }
            },
            EngineToWorkerMsg::Reset => {
                self.status_downloading = false;
                MessageEffect { reply: None, new_status: Some(Status::Resetting), finish: Some(Status::Resetting) }
            },
            EngineToWorkerMsg::RefreshByteRange(r, reuse) => {
                let answer = self.refresh_byte_range(r, reuse, complete);
                match phase {
                    DownloadPhase::Requesting => {
                        self.status_downloading = false;
                        MessageEffect {
                            reply: Some(answer),
                            new_status: Some(Status::Resetting),
                            finish: Some(Status::Resetting),
                        }
                    },
                    DownloadPhase::Streaming => MessageEffect { reply: Some(answer), new_status: None, finish: None },
                }
            },
            EngineToWorkerMsg::Start => MessageEffect { reply: None, new_status: None, finish: Some(Status::Resetting) },
            EngineToWorkerMsg::StartReuseConnection(_) => MessageEffect {
                reply: None,
                new_status: None,
                finish: Some(Status::Resetting),
            },
        }
    }
}

/// A worker's answer to a request for a new range says what became of its range:
/// a refusal keeps the range, an acceptance takes the requested range, and a cut
/// keeps the range from the request's start up to a byte at or past the one the
/// worker has reached, offering the rest, which starts right after it and ends
/// where the old range ended. A worker never accepts a range that ends at or
/// before the byte it has reached (`start + total_req`), nor one of fewer than
/// three bytes, and a worker whose range is complete always refuses.
pub proof fn lemma_refresh_answer(br: ByteRange, total_req: u64, complete: bool, new_range: ByteRange, reuse: bool)
    requires
        refresh_defined(br, total_req, complete, new_range),
    ensures
        ({
            let (kept, answer) = spec_refresh(br, total_req, complete, new_range, reuse);
            match answer {
                ToEngineMessage::ByteRangeRefreshRefused { requested_range, reuse: re } => {
                    &&& kept == br
                    &&& requested_range == new_range
                    &&& re == reuse
                },
                ToEngineMessage::ByteRangeRefreshSuccess { requested_range, reuse: re } => {
                    &&& kept == new_range
                    &&& requested_range == new_range
                    &&& re == reuse
                    &&& !complete
                    &&& br.start + total_req < new_range.end
                    &&& new_range.start + 1 < new_range.end
                },
                ToEngineMessage::ByteRangeRefreshOverlapped {
                    requested_range,
                    refreshed_range,
                    new_valid_range,
                    reuse: re,
                } => {
                    &&& kept == refreshed_range
                    &&& requested_range == new_range
                    &&& refreshed_range.start == new_range.start
                    &&& refreshed_range.end >= br.start + total_req
                    &&& refreshed_range.end + 1 == new_valid_range.start
                    &&& new_valid_range.end == br.end
                    &&& re == reuse
                },
                _ => false,
            }
        }),
        br.start + total_req >= new_range.end ==> !(spec_refresh(br, total_req, complete, new_range, reuse).1 is ByteRangeRefreshSuccess),
        complete ==> spec_refresh(br, total_req, complete, new_range, reuse).1 is ByteRangeRefreshRefused,
{
}

} // verus!
