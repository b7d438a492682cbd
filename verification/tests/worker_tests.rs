use kasma::byte_range::ByteRange;
use kasma::errors::DownloadError;
use kasma::message::{EngineToWorkerMsg, ToEngineMessage};
use kasma::utils::file::TempFileMetadata;
use kasma::worker::{
    files_of_worker, next_retry_delay, ChunkOutcome, DownloadPhase, HttpDownloadWorker, Status, MAX_FLUSH, MIN_FLUSH,
};

const SIZE: u64 = 10_000_000;

fn worker(start: u64, end: u64) -> HttpDownloadWorker {
    HttpDownloadWorker::new(3, "https://a.b/f".to_string(), "uid".to_string(), SIZE, ByteRange::new(start, end))
}

fn temp(start: u64, end: u64) -> TempFileMetadata {
    TempFileMetadata {
        name: format!("3#{}-{}", start, end),
        path: format!("/t/3#{}-{}", start, end),
        start_byte: start,
        end_byte: end,
        worker_number: 3,
        size: end - start + 1,
    }
}

#[test]
fn refresh_refused_when_complete_or_too_small() {
    let mut w = worker(0, SIZE);
    let r = ByteRange::new(0, 1_000);
    assert_eq!(
        w.refresh_byte_range(r, true, true),
        ToEngineMessage::ByteRangeRefreshRefused { requested_range: r, reuse: true }
    );
    let tiny = ByteRange::new(5_000, 5_001);
    assert_eq!(
        w.refresh_byte_range(tiny, false, false),
        ToEngineMessage::ByteRangeRefreshRefused { requested_range: tiny, reuse: false }
    );
    assert_eq!(w.byte_range, ByteRange::new(0, SIZE));
}

#[test]
fn refresh_cut_refused_when_range_too_short() {
    let mut w = worker(0, 400_000);
    w.total_request_bytes_received = 300_000;
    let r = ByteRange::new(0, 200_000);
    assert_eq!(
        w.refresh_byte_range(r, false, false),
        ToEngineMessage::ByteRangeRefreshRefused { requested_range: r, reuse: false }
    );
}

#[test]
fn refresh_cut_splits_what_is_left() {
    let mut w = worker(0, 2_000_000);
    w.total_request_bytes_received = 1_000_000;
    let r = ByteRange::new(0, 900_000);
    let answer = w.refresh_byte_range(r, true, false);
    assert_eq!(
        answer,
        ToEngineMessage::ByteRangeRefreshOverlapped {
            requested_range: r,
            refreshed_range: ByteRange::new(0, 1_500_000),
            new_valid_range: ByteRange::new(1_500_001, 2_000_000),
            reuse: true,
        }
    );
    assert_eq!(w.byte_range, ByteRange::new(0, 1_500_000));
}

#[test]
fn retry_delay_doubles_then_starts_over() {
    let (mut count, mut backoff) = (0u32, 0u32);
    let delays: Vec<u32> = (0..6).map(|_| next_retry_delay(&mut count, &mut backoff)).collect();
    assert_eq!(delays, vec![2, 4, 8, 16, 2, 4]);
    assert_eq!(count, 6);
    assert_eq!(backoff, 2);
}

#[test]
fn start_checks() {
    let w = worker(0, 100);
    assert_eq!(w.check_start(false, false, Status::Initial), Ok(()));
    assert_eq!(w.check_start(true, false, Status::Starting), Err(DownloadError::InvalidCommand));
    assert_eq!(w.check_start(false, false, Status::Downloading), Err(DownloadError::InvalidCommand));
    assert_eq!(w.check_start(false, true, Status::Downloading), Ok(()));
    assert_eq!(w.check_start(true, false, Status::Connecting), Ok(()));
    let bad = worker(100, 100);
    assert!(bad.is_start_not_allowed(true, true, Status::Initial));
    let past = worker(0, SIZE + 1);
    assert!(past.is_start_not_allowed(false, false, Status::Initial));
}

#[test]
fn engine_messages_during_download() {
    let mut w = worker(0, SIZE);
    w.status_downloading = true;
    let e = w.handle_engine_message(EngineToWorkerMsg::Start, DownloadPhase::Streaming, false);
    assert_eq!(e.finish, Some(Status::Resetting));
    assert!(w.status_downloading);
    let r = ByteRange::new(0, 1_000_000);
    let e = w.handle_engine_message(EngineToWorkerMsg::RefreshByteRange(r, false), DownloadPhase::Streaming, false);
    assert_eq!(e.reply, Some(ToEngineMessage::ByteRangeRefreshSuccess { requested_range: r, reuse: false }));
    assert_eq!(e.finish, None);
    assert_eq!(w.byte_range, r);
    let e = w.handle_engine_message(EngineToWorkerMsg::Stop, DownloadPhase::Requesting, false);
    assert_eq!(e.new_status, Some(Status::Stopped));
    assert_eq!(e.finish, Some(Status::Stopped));
    assert!(!w.status_downloading);
}

#[test]
fn flush_threshold_is_clamped_double_speed() {
    let mut w = worker(0, SIZE);
    w.calculate_flush_threshold(0);
    assert_eq!(w.buffer_flush_threshold, MIN_FLUSH);
    w.calculate_flush_threshold(100_000);
    assert_eq!(w.buffer_flush_threshold, 200_000);
    w.calculate_flush_threshold(u64::MAX);
    assert_eq!(w.buffer_flush_threshold, MAX_FLUSH);
}

#[test]
fn byte_counters_and_temp_file_bounds() {
    let mut w = worker(1000, 5000);
    w.update_received_bytes(100);
    assert_eq!(w.temp_bytes_received, 100);
    assert_eq!(w.total_request_bytes_received, 100);
    assert_eq!(w.total_bytes_received, 100);
    assert_eq!(w.temp_file_start_byte(), 1000);
    assert_eq!(w.temp_file_end_byte(), 1099);
    assert_eq!(w.flush_file_name(), "3#1000-1099");
    assert!(!w.download_exceeded_end_byte());
    assert_eq!(w.chunk_outcome(), ChunkOutcome::Flush);
    w.calculate_flush_threshold(0);
    assert_eq!(w.chunk_outcome(), ChunkOutcome::Continue);
    w.update_received_bytes(3899);
    assert!(w.download_match_end_byte());
    assert!(!w.download_exceeded_end_byte());
    w.update_received_bytes(1);
    assert!(!w.download_match_end_byte());
    assert!(!w.download_exceeded_end_byte());
    assert_eq!(w.chunk_outcome(), ChunkOutcome::Continue);
    w.update_received_bytes(1);
    assert!(!w.download_match_end_byte());
    assert!(w.download_exceeded_end_byte());
    assert_eq!(w.chunk_outcome(), ChunkOutcome::FlushCutComplete);
    w.reset_data_buffer();
    assert_eq!(w.temp_bytes_received, 0);
}

#[test]
fn flush_records_temp_file() {
    let mut w = worker(1000, 5000);
    w.update_received_bytes(100);
    w.record_flush("/t/3#1000-1099".to_string(), 100);
    assert_eq!(w.cached_temp_files.len(), 1);
    assert_eq!(w.cached_temp_files[0].name, "3#1000-1099");
    assert_eq!(w.cached_temp_files[0].start_byte, 1000);
    assert_eq!(w.cached_temp_files[0].end_byte, 1099);
    assert_eq!(w.prev_buffer_end_byte, 100);
    assert_eq!(w.temp_bytes_received, 0);
    assert_eq!(w.temp_file_start_byte(), 1100);
}

#[test]
fn temp_files_sorted_and_summed() {
    let mut w = worker(0, 299);
    w.cached_temp_files = vec![temp(200, 299), temp(0, 99), temp(500, 599), temp(100, 199)];
    let all: Vec<u64> = w.temp_files_sorted(false).iter().map(|f| f.start_byte).collect();
    assert_eq!(all, vec![0, 100, 200, 500]);
    let mine: Vec<u64> = w.temp_files_sorted(true).iter().map(|f| f.start_byte).collect();
    assert_eq!(mine, vec![0, 100, 200]);
    assert_eq!(w.total_written_bytes(true), 300);
    assert_eq!(w.total_written_bytes(false), 400);
    assert_eq!(w.new_start_byte(), 300);
}

#[test]
fn cut_plan_for_shortened_range() {
    let mut w = worker(0, 149);
    w.cached_temp_files = vec![temp(0, 99), temp(100, 199), temp(200, 299)];
    let plan = w.plan_cut_temp_files();
    let deleted: Vec<u64> = plan.to_delete.iter().map(|f| f.start_byte).collect();
    assert_eq!(deleted, vec![100]);
    assert_eq!(plan.cut_file.as_ref().map(|f| f.start_byte), Some(100));
    assert_eq!(plan.cut_len, 50);
}

#[test]
fn cache_keeps_only_this_workers_files() {
    let mut other = temp(100, 199);
    other.worker_number = 4;
    let files = vec![temp(300, 399), other, temp(0, 99)];
    let mine = files_of_worker(&files, 3);
    assert_eq!(mine, vec![temp(300, 399), temp(0, 99)]);
    assert_eq!(files_of_worker(&files, 4).len(), 1);
    assert!(files_of_worker(&files, 9).is_empty());
}
