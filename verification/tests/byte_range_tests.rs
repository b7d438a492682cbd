use kasma::byte_range::ByteRange;
use kasma::segment::ByteRange as SegmentRange;

#[test]
fn range_len_counts_both_ends() {
    assert_eq!(ByteRange::new(0, 9).len(), 10);
    assert_eq!(ByteRange::new(5, 5).len(), 1);
    assert_eq!(ByteRange::new(100, 8291).len(), 8192);
}

#[test]
fn range_validity_needs_three_bytes() {
    assert!(ByteRange::new(0, 2).is_valid());
    assert!(!ByteRange::new(0, 1).is_valid());
    assert!(!ByteRange::new(7, 7).is_valid());
    assert!(!ByteRange::new(9, 3).is_valid());
}

#[test]
fn range_overlap_and_containment() {
    let a = ByteRange::new(0, 100);
    let b = ByteRange::new(50, 200);
    let c = ByteRange::new(101, 200);
    assert!(a.overlaps_with(&b));
    assert!(!a.overlaps_with(&c));
    assert!(!b.overlaps_with(&a));
    assert!(ByteRange::new(100, 300).is_in_range_of(&a));
    assert!(!ByteRange::new(99, 300).is_in_range_of(&a));
}

#[test]
fn range_order_by_start_then_end() {
    assert!(ByteRange::new(0, 10).is_before(&ByteRange::new(1, 2)));
    assert!(ByteRange::new(3, 4).is_before(&ByteRange::new(3, 5)));
    assert!(!ByteRange::new(3, 5).is_before(&ByteRange::new(3, 5)));
}

#[test]
fn range_header_name_and_value() {
    let (name, value) = ByteRange::new(1024, 2047).to_header();
    assert_eq!(name, "range");
    assert_eq!(value, "bytes=1024-2047");
}

#[test]
fn range_text_form() {
    assert_eq!(ByteRange::new(0, 18446744073709551615).to_text(), "ByteRange::0-18446744073709551615");
    assert_eq!(SegmentRange::new(12, 34).to_text(), "ByteRange::12-34");
}

#[test]
fn segment_range_reads_its_bounds() {
    let r = SegmentRange::new(10, 20);
    assert_eq!(r.start(), 10);
    assert_eq!(r.end(), 20);
    assert!(r.is_valid());
    assert!(r.overlaps_with(&SegmentRange::new(15, 40)));
    assert!(SegmentRange::new(20, 30).is_in_range_of(&r));
    assert!(!SegmentRange::new(10, 11).is_valid());
}
