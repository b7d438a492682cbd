
use kasma::download::{DownloadInfo, DownloadItem, FileInfo};
use kasma::errors::DownloadError;
use kasma::setting::DownloadSetting;
use kasma::utils::now_millis;
use kasma::utils::shared_data::CachedData;

#[test]
fn setting_defaults() {
    let s = DownloadSetting::builder().build();
    assert_eq!(s.progress_polling_frequency_millis, 200);
    assert_eq!(s.total_connections, 8);
    assert_eq!(s.base_save_dir, "./downloads");
    assert_eq!(s.base_temp_dir, "./temp");
    assert_eq!(s.reset_timeout_millis, 60_000);
    assert!(!s.logger_enabled);
    assert!(s.proxy.is_none());
}

#[test]
fn setting_builder_overrides() {
    let s = DownloadSetting::builder()
        .progress_polling_milliseconds(50)
        .total_connections(3)
        .base_save_dir("/data".to_string())
        .base_temp_dir("/tmp/k".to_string())
        .reset_timeout_millis(1_000)
        .with_logger()
        .build();
    assert_eq!(s.progress_polling_frequency_millis, 50);
    assert_eq!(s.total_connections, 3);
    assert_eq!(s.base_save_dir, "/data");
    assert_eq!(s.base_temp_dir, "/tmp/k");
    assert_eq!(s.reset_timeout_millis, 1_000);
    assert!(s.logger_enabled);
}

#[test]
fn error_texts() {
    assert_eq!(DownloadError::Transport("reset".to_string()).to_text(), "Transport error: reset");
    assert_eq!(DownloadError::Other("disk".to_string()).to_text(), "Other error: disk");
    assert_eq!(DownloadError::ProcessChunk.to_text(), "Process chunk error");
    assert_eq!(DownloadError::InvalidCommand.to_text(), "Invalid command");
}

#[test]
fn download_items() {
    let info = DownloadInfo::from_url("https://a.b/c".to_string());
    assert_eq!(info.url, "https://a.b/c");
    assert!(info.uid.is_none() && info.file_size.is_none() && info.filename.is_none());
    let item = DownloadItem::from_info(info, None);
    assert_eq!(item.uid.len(), 36);
    assert_eq!(item.file_size, 0);
    assert_eq!(item.file_name, "");
    assert!(!item.prefetched_info);
    let fi = FileInfo { url: "u".to_string(), file_size: 9, file_name: "n".to_string(), supports_range: true };
    let item = DownloadItem::from(&fi);
    assert_eq!(item.file_size, 9);
    assert_eq!(item.file_name, "n");
    assert!(item.supports_range);
    assert!(item.uid.chars().all(|c| c == '-' || c.is_ascii_hexdigit() && !c.is_ascii_uppercase()));
}

#[test]
fn clock_is_after_epoch() {
    let a = now_millis().unwrap();
    let b = now_millis().unwrap();
    assert!(a > 1_600_000_000_000);
    assert!(b >= a);
}

#[test]
fn cached_data_tracks_changes() {
    let value = String::from("a");
    let cache = CachedData::new(&value);
    assert!(!cache.is_cache_outdated());
}
