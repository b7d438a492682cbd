use kasma::segment::ByteRange as SegmentRange;
use kasma::utils::file::{
    extract_worker_and_range, list_temp_files_sorted, temp_file_name, versioned_file_name, TempFileMetadata,
};
use kasma::utils::TempFileMetadata as ReportedFile;
use kasma::byte_range::ByteRange;

fn temp(start: u64, end: u64, worker: u8) -> TempFileMetadata {
    TempFileMetadata {
        name: temp_file_name(worker, start, end),
        path: format!("/t/{}", temp_file_name(worker, start, end)),
        start_byte: start,
        end_byte: end,
        worker_number: worker,
        size: end - start + 1,
    }
}

#[test]
fn temp_file_name_reads_back() {
    let name = temp_file_name(7, 1024, 2047);
    assert_eq!(name, "7#1024-2047");
    assert_eq!(extract_worker_and_range(&name), Some((7, 1024, 2047)));
    let max = temp_file_name(255, 0, u64::MAX);
    assert_eq!(extract_worker_and_range(&max), Some((255, 0, u64::MAX)));
}

#[test]
fn temp_file_names_that_do_not_read() {
    assert_eq!(extract_worker_and_range("7-1024-2047"), None);
    assert_eq!(extract_worker_and_range("7#1#2-3"), None);
    assert_eq!(extract_worker_and_range("256#1-2"), None);
    assert_eq!(extract_worker_and_range("7#1-2-3"), None);
    assert_eq!(extract_worker_and_range("7#a-2"), None);
    assert_eq!(extract_worker_and_range("#1-2"), None);
    assert_eq!(extract_worker_and_range("+7#+1-2"), Some((7, 1, 2)));
}

#[test]
fn temp_files_sort_stably_by_start() {
    let files = vec![temp(200, 299, 1), temp(0, 99, 2), temp(200, 250, 3), temp(100, 199, 4)];
    let sorted = list_temp_files_sorted(files);
    let keys: Vec<(u64, u8)> = sorted.iter().map(|f| (f.start_byte, f.worker_number)).collect();
    assert_eq!(keys, vec![(0, 2), (100, 4), (200, 1), (200, 3)]);
}

#[test]
fn temp_file_membership_in_range() {
    let r = ByteRange::new(100, 199);
    assert!(temp(100, 199, 0).is_in_range(r));
    assert!(temp(150, 300, 0).is_in_range(r));
    assert!(!temp(0, 99, 0).is_in_range(r));
    assert!(!temp(200, 299, 0).is_in_range(r));
    let a = temp(0, 9, 1);
    let b = a.duplicate();
    assert!(a.is_same_file(&b));
    assert!(!a.is_same_file(&temp(0, 9, 2)));
}

#[test]
fn reported_file_from_name() {
    let f = ReportedFile::from_file_name("2#10-19", 10).unwrap();
    assert_eq!(f.worker_number, 2);
    assert_eq!(f.start_byte, 10);
    assert_eq!(f.end_byte, 19);
    assert_eq!(f.size, 10);
    assert_eq!(f.name, "2#10-19");
    assert!(f.is_in_range(SegmentRange::new(0, 100)));
    assert!(!f.is_in_range(SegmentRange::new(20, 100)));
    assert!(ReportedFile::from_file_name("notes.txt", 3).is_none());
}

#[test]
fn versioned_names() {
    assert_eq!(versioned_file_name("report", "pdf", 2), "report_2.pdf");
    assert_eq!(versioned_file_name("report_3", "pdf", 4), "report_4.pdf");
    assert_eq!(versioned_file_name("my_file", "tar", 2), "my_file_2.tar");
    assert_eq!(versioned_file_name("a_1b", "bin", 5), "a_5.bin");
    assert_eq!(versioned_file_name("_7", "x", 2), "_7_2.x");
}
