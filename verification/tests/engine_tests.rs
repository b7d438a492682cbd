use kasma::byte_range::ByteRange;
use kasma::byte_range_tree::ByteRangeStatus;
use kasma::download::{DownloadInfo, EngineState};
use kasma::engine::{
    all_range_complete, calculate_estimated_remaining, find_corrupted_temp_files, find_missing_byte_ranges,
    format_remaining, total_speed, workers_due_for_reset, EngineAction, HttpDownloadEngine,
};
use kasma::message::ToEngineMessage;
use kasma::setting::DownloadSetting;
use kasma::utils::file::TempFileMetadata;
use kasma::worker::{HttpDownloadWorker, Status};

const SIZE: u64 = 1_000_000;

fn info() -> DownloadInfo {
    DownloadInfo {
        url: "https://example.com/file.bin".to_string(),
        uid: Some("dl-1".to_string()),
        supports_range: Some(true),
        file_size: Some(SIZE),
        filename: Some("file.bin".to_string()),
    }
}

fn temp(start: u64, end: u64, size: u64) -> TempFileMetadata {
    TempFileMetadata {
        name: format!("0#{}-{}", start, end),
        path: format!("/tmp/0#{}-{}", start, end),
        start_byte: start,
        end_byte: end,
        worker_number: 0,
        size,
    }
}

fn leaf_ranges(e: &HttpDownloadEngine) -> Vec<(u64, u64)> {
    let t = e.byte_range_tree.as_ref().unwrap();
    t.lowest_level_nodes.iter().map(|&i| (t.nodes[i].range.start, t.nodes[i].range.end)).collect()
}

/// An engine that has started, with worker 0 on the whole file and its handshake done.
fn started() -> HttpDownloadEngine {
    let (mut e, uid) = HttpDownloadEngine::new(info(), DownloadSetting::builder().build(), None);
    assert_eq!(uid, "dl-1");
    let r = e.handle_start(vec![ByteRange::new(0, SIZE - 1)]);
    assert_eq!(r, Some((0, ByteRange::new(0, SIZE))));
    e.handle_worker_handshake(0, false);
    e
}

/// A started engine that split its root and asked worker 0 to take the left half.
fn split_requested() -> HttpDownloadEngine {
    let mut e = started();
    let msgs = e.request_byte_range_refresh_new_worker();
    assert_eq!(msgs, vec![(0u8, ByteRange::new(0, 500_000))]);
    e
}

#[test]
fn engine_new_gives_random_uid_when_none() {
    let mut i = info();
    i.uid = None;
    let (e, uid) = HttpDownloadEngine::new(i, DownloadSetting::builder().build(), Some("out.bin".to_string()));
    assert_eq!(uid.len(), 36);
    assert_eq!(uid.chars().nth(14), Some('4'));
    assert_eq!(uid.chars().filter(|c| *c == '-').count(), 4);
    assert_eq!(e.download_item.uid, uid);
    assert_eq!(e.download_item.file_name, "out.bin");
    assert!(e.download_item.prefetched_info);
    assert_eq!(e.state, EngineState::Initial);
    assert!(e.workers.is_empty());
}

#[test]
fn engine_start_registers_first_worker() {
    let (mut e, _) = HttpDownloadEngine::new(info(), DownloadSetting::builder().build(), None);
    let r = e.handle_start(vec![ByteRange::new(0, SIZE - 1)]);
    assert_eq!(r, Some((0, ByteRange::new(0, SIZE))));
    assert_eq!(e.pending_worker_handshakes, vec![0]);
    assert_eq!(e.workers.len(), 1);
    assert_eq!(e.workers[0].range, ByteRange::new(0, SIZE));
    assert_eq!(e.byte_range_tree.as_ref().unwrap().nodes[0].status, ByteRangeStatus::InUse);
    assert_eq!(e.handle_start(vec![ByteRange::new(0, SIZE - 1)]), None);
    e.handle_worker_handshake(0, false);
    assert!(e.pending_worker_handshakes.is_empty());
}

#[test]
fn engine_spawns_only_with_time_left() {
    let mut e = started();
    assert!(!e.should_spawn_worker(1));
    e.estimated_remaining_sec = 60;
    assert!(e.should_spawn_worker(1));
    assert!(!e.should_spawn_worker(8));
    let stopped = e.pause_workers();
    assert_eq!(stopped, vec![0]);
    assert!(!e.should_spawn_worker(1));
}

#[test]
fn engine_refresh_round_requests_left_half() {
    let e = split_requested();
    assert_eq!(e.spawned_workers, 1);
    assert_eq!(leaf_ranges(&e), vec![(0, 500_000), (500_001, SIZE)]);
    let t = e.byte_range_tree.as_ref().unwrap();
    assert_eq!(t.nodes[t.lowest_level_nodes[0]].status, ByteRangeStatus::RefreshRequested);
}

#[test]
fn engine_accepted_refresh_spawns_right_worker() {
    let mut e = split_requested();
    let mut w = HttpDownloadWorker::new(0, "https://example.com/file.bin".to_string(), "dl-1".to_string(), SIZE, ByteRange::new(0, SIZE));
    let answer = w.refresh_byte_range(ByteRange::new(0, 500_000), false, false);
    assert_eq!(answer, ToEngineMessage::ByteRangeRefreshSuccess { requested_range: ByteRange::new(0, 500_000), reuse: false });
    assert_eq!(w.byte_range, ByteRange::new(0, 500_000));
    let action = e.handle_refresh_byte_range_success(0, ByteRange::new(0, 500_000), false);
    assert_eq!(action, Ok(EngineAction::Spawn(8, ByteRange::new(500_001, SIZE))));
    assert_eq!(e.pending_worker_handshakes, vec![8, 8]);
    assert_eq!(e.workers.len(), 2);
    assert_eq!(e.workers[1].worker_number, 8);
    let t = e.byte_range_tree.as_ref().unwrap();
    assert_eq!(t.nodes[0].status, ByteRangeStatus::Outdated);
    assert_eq!(t.nodes[t.lowest_level_nodes[0]].status, ByteRangeStatus::InUse);
    assert_eq!(t.nodes[t.lowest_level_nodes[1]].status, ByteRangeStatus::InUse);
}

#[test]
fn engine_reuse_of_unknown_worker_fails() {
    let mut e = split_requested();
    let r = e.handle_refresh_byte_range_success(0, ByteRange::new(0, 500_000), true);
    assert_eq!(r, Err("Failed to find worker 8 when sending start command reuse worker".to_string()));
}

#[test]
fn engine_refused_refresh_undoes_split() {
    let mut e = split_requested();
    e.handle_refresh_byte_range_refused(0, ByteRange::new(0, 500_000), true);
    assert_eq!(leaf_ranges(&e), vec![(0, SIZE)]);
    assert_eq!(e.reuse_worker_queue, vec![0]);
}

#[test]
fn engine_overlap_keeps_cut_and_spawns_rest() {
    let mut e = split_requested();
    let mut w = HttpDownloadWorker::new(0, "https://example.com/file.bin".to_string(), "dl-1".to_string(), SIZE, ByteRange::new(0, SIZE));
    w.total_request_bytes_received = 600_000;
    let answer = w.refresh_byte_range(ByteRange::new(0, 500_000), false, false);
    let expected = ToEngineMessage::ByteRangeRefreshOverlapped {
        requested_range: ByteRange::new(0, 500_000),
        refreshed_range: ByteRange::new(0, 800_000),
        new_valid_range: ByteRange::new(800_001, SIZE),
        reuse: false,
    };
    assert_eq!(answer, expected);
    let action = e.handle_refresh_byte_range_overlap(
        0,
        ByteRange::new(0, 500_000),
        ByteRange::new(0, 800_000),
        ByteRange::new(800_001, SIZE),
        false,
    );
    assert_eq!(action, Ok(EngineAction::Spawn(8, ByteRange::new(800_001, SIZE))));
    assert_eq!(e.workers[0].range, ByteRange::new(0, 800_000));
    assert_eq!(leaf_ranges(&e), vec![(0, 800_000), (800_001, SIZE)]);
}

#[test]
fn engine_overlap_of_unknown_worker_fails() {
    let mut e = split_requested();
    let r = e.handle_refresh_byte_range_overlap(
        5,
        ByteRange::new(0, 500_000),
        ByteRange::new(0, 800_000),
        ByteRange::new(800_001, SIZE),
        false,
    );
    assert_eq!(r, Err("Failed to find worker 5 updating refreshed range".to_string()));
}

#[test]
fn engine_completion_marks_leaf_or_fails() {
    let mut e = split_requested();
    assert_eq!(e.handle_range_download_completion(0, ByteRange::new(0, 500_000)), Ok(()));
    let t = e.byte_range_tree.as_ref().unwrap();
    assert_eq!(t.nodes[t.lowest_level_nodes[0]].status, ByteRangeStatus::Complete);
    assert_eq!(
        e.handle_range_download_completion(3, ByteRange::new(1, 2)),
        Err("handle_range_download_completion:: Failed to find node ByteRange::1-2 in tree for worker number 3".to_string())
    );
}

#[test]
fn engine_update_worker_range_needs_worker() {
    let mut e = started();
    assert_eq!(e.update_worker_range(0, ByteRange::new(0, 10)), Ok(()));
    assert_eq!(e.workers[0].range, ByteRange::new(0, 10));
    assert_eq!(e.update_worker_range(4, ByteRange::new(0, 10)), Err(()));
}

#[test]
fn engine_finish_assembly_checks_size() {
    let mut e = started();
    assert!(!e.finish_assembly(SIZE - 1));
    assert_eq!(e.state, EngineState::Initial);
    assert!(e.finish_assembly(SIZE));
    assert_eq!(e.state, EngineState::Complete);
}

#[test]
fn missing_ranges_of_no_files_is_whole_file() {
    assert_eq!(find_missing_byte_ranges(&vec![], 1000), vec![ByteRange::new(0, 1000)]);
}

#[test]
fn missing_ranges_find_gap_and_tail() {
    let files = vec![temp(0, 99, 100), temp(200, 299, 100)];
    assert_eq!(
        find_missing_byte_ranges(&files, 1000),
        vec![ByteRange::new(100, 199), ByteRange::new(201, 1000)]
    );
    let whole = vec![temp(0, 499, 500), temp(500, 999, 500)];
    assert_eq!(find_missing_byte_ranges(&whole, 1000), vec![]);
}

#[test]
fn corrupted_files_are_marked() {
    let files = vec![temp(0, 99, 100), temp(100, 199, 50)];
    assert_eq!(find_corrupted_temp_files(&files, 1000, true), vec![1]);
    let overlapping = vec![temp(0, 99, 100), temp(50, 149, 100)];
    assert_eq!(find_corrupted_temp_files(&overlapping, 1000, false), vec![0, 1]);
    let past_end = vec![temp(0, 1999, 2000)];
    assert_eq!(find_corrupted_temp_files(&past_end, 1000, false), vec![0]);
}

#[test]
fn clashing_files_are_marked_with_gap_check() {
    let clashing = vec![temp(0, 99, 100), temp(50, 149, 100)];
    assert_eq!(find_corrupted_temp_files(&clashing, 1000, true), vec![0, 1, 0, 1]);
    let backwards = vec![temp(10, 5, 0)];
    assert_eq!(find_corrupted_temp_files(&backwards, 1000, false), vec![0]);
    let two_apart = vec![temp(0, 99, 100), temp(101, 199, 99)];
    assert_eq!(find_corrupted_temp_files(&two_apart, 1000, false), vec![0, 1]);
}

#[test]
fn remaining_time_text() {
    assert_eq!(format_remaining(0), "");
    assert_eq!(format_remaining(1), "1 Seconds");
    assert_eq!(format_remaining(59), "59 Secondss");
    assert_eq!(format_remaining(61), "1 Minute, 1 Second");
    assert_eq!(format_remaining(125), "2 Minutes, 5 Seconds");
    assert_eq!(format_remaining(3600), "1 Hour, 0 Minutes");
    assert_eq!(format_remaining(90_000), "1 Hour");
}

#[test]
fn remaining_time_estimate() {
    let r = calculate_estimated_remaining(&vec![100, 200], 1300, 100, 0, 5000);
    assert_eq!(r, Some(("10 Secondss".to_string(), 10)));
    assert_eq!(calculate_estimated_remaining(&vec![100], 1300, 100, 4500, 5000), None);
    assert_eq!(calculate_estimated_remaining(&vec![], 1300, 100, 0, 5000), None);
    assert_eq!(calculate_estimated_remaining(&vec![2000], 1300, 100, 0, 5000), None);
    assert_eq!(calculate_estimated_remaining(&vec![100], 1300, 0, 0, 5000), None);
}

#[test]
fn engine_estimate_uses_clock() {
    let mut e = started();
    assert_eq!(e.update_estimated_remaining(&vec![500_000], 100_000), Some(true));
    assert_eq!(e.estimated_remaining_sec, 5);
    assert_eq!(e.estimated_remaining, "5 Secondss");
    assert!(e.last_estimation_calc_time > 0);
    assert_eq!(e.update_estimated_remaining(&vec![500_000], 100_000), Some(false));
}

#[test]
fn reset_due_after_timeout() {
    let progress = vec![
        (0u8, Status::Downloading, 1000u128),
        (1u8, Status::Stopped, 0u128),
        (2u8, Status::Connecting, 9000u128),
        (3u8, Status::Complete, 0u128),
    ];
    assert_eq!(workers_due_for_reset(&progress, 5000, 10_000), vec![0]);
    assert_eq!(workers_due_for_reset(&progress, 5000, 20_000), vec![0, 2]);
    let e = started();
    assert_eq!(e.workers_to_reset(&vec![(0u8, Status::Downloading, 0u128)]), Some(vec![0]));
}

#[test]
fn totals_over_workers() {
    assert_eq!(total_speed(&vec![10, 20, 30]), 60);
    assert_eq!(total_speed(&vec![]), 0);
    assert!(all_range_complete(&vec![Status::RangeComplete, Status::RangeComplete]));
    assert!(!all_range_complete(&vec![Status::RangeComplete, Status::Downloading]));
    assert!(all_range_complete(&vec![]));
}

#[test]
fn reuse_ticker_takes_queued_worker() {
    let mut e = started();
    e.reuse_worker_queue.push(0);
    assert_eq!(e.run_worker_reuse_ticker(1, false), Ok(()));
    // The only node in use is worker 0's own range, so the worker waits again.
    assert_eq!(e.reuse_worker_queue, vec![0]);
    assert_eq!(e.request_byte_range_refresh_reuse_worker(9),
        Err("request_byte_range_refresh_reuse_worker:: Failed to find worker_num 9 in list of workers".to_string()));
}
