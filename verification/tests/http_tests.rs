use kasma::http::{
    extract_content_length, extract_file_name, extract_file_name_from_url, extract_filename, extract_range_support,
    file_info_from, file_name_of_token, filename_of_token, needs_get_fallback, read_headers, HeaderFacts,
};
use kasma::redirect::{next_redirect_step, resolve_redirect, LocationHeader, RedirectStep, MAX_REDIRECTS};

#[test]
fn filename_from_quoted_disposition() {
    assert_eq!(extract_filename(Some("attachment; filename=\"report.pdf\"")), Some("report.pdf".to_string()));
    assert_eq!(extract_filename(Some("attachment;filename=plain.txt ")), Some("plain.txt".to_string()));
}

#[test]
fn filename_with_utf8_prefix_and_any_case() {
    assert_eq!(
        extract_filename(Some("attachment; filename*=UTF-8''na%20me.txt")),
        Some("na%20me.txt".to_string())
    );
    assert_eq!(extract_filename(Some("inline; FileName=Data.csv")), Some("Data.csv".to_string()));
}

#[test]
fn filename_missing_or_without_value() {
    assert_eq!(extract_filename(None), None);
    assert_eq!(extract_filename(Some("inline")), None);
    assert_eq!(extract_filename(Some("attachment; filename; filename=x")), None);
}

#[test]
fn file_name_needs_exact_prefix_to_strip() {
    assert_eq!(extract_file_name(Some("attachment; filename=\"a.txt\"")), Some("a.txt".to_string()));
    assert_eq!(extract_file_name(Some("attachment; FILENAME=\"a.txt\"")), Some("FILENAME=\"a.txt".to_string()));
    assert_eq!(extract_file_name(Some("attachment; filename*=x")), None);
    assert_eq!(extract_file_name(None), None);
}

#[test]
fn range_support_from_accept_ranges() {
    assert!(extract_range_support(Some("bytes")));
    assert!(extract_range_support(Some("BYTES")));
    assert!(extract_range_support(Some("none, Bytes")));
    assert!(!extract_range_support(Some("none")));
    assert!(!extract_range_support(None));
}

#[test]
fn content_length_parses_u64() {
    assert_eq!(extract_content_length(Some("1048576")), Some(1_048_576));
    assert_eq!(extract_content_length(Some("18446744073709551615")), Some(u64::MAX));
    assert_eq!(extract_content_length(Some("18446744073709551616")), None);
    assert_eq!(extract_content_length(Some("+12")), Some(12));
    assert_eq!(extract_content_length(Some("1 2")), None);
    assert_eq!(extract_content_length(Some("")), None);
    assert_eq!(extract_content_length(None), None);
}

#[test]
fn file_name_from_url_path() {
    assert_eq!(extract_file_name_from_url("https://a.b/dir/file.zip?x=1".to_string()), Some("file.zip".to_string()));
    assert_eq!(extract_file_name_from_url("https://a.b/dir/".to_string()), None);
    assert_eq!(extract_file_name_from_url("file".to_string()), Some("file".to_string()));
}

#[test]
fn headers_decide_get_fallback_and_info() {
    let head = read_headers(None, None, Some("none"));
    assert!(needs_get_fallback(&head));
    let get = read_headers(Some("2048"), Some("attachment; filename=\"x.bin\""), Some("bytes"));
    assert!(!needs_get_fallback(&get));
    let info = file_info_from("https://a.b/y.bin".to_string(), get);
    assert_eq!(info.file_size, 2048);
    assert_eq!(info.file_name, "x.bin");
    assert!(info.supports_range);
    assert_eq!(info.url, "https://a.b/y.bin");
}

#[test]
fn file_info_falls_back_to_url_name() {
    let facts = HeaderFacts { file_size: Some(10), file_name: None, supports_range: false };
    let info = file_info_from("https://a.b/y.bin".to_string(), facts);
    assert_eq!(info.file_name, "y.bin");
    assert_eq!(info.file_size, 10);
    assert!(!info.supports_range);
}

#[test]
fn redirect_steps() {
    let mut count = 0u8;
    assert_eq!(next_redirect_step(&mut count, 200, &LocationHeader::Missing), RedirectStep::Success);
    assert_eq!(count, 0);
    let loc = LocationHeader::Text("https://c.d/f".to_string());
    assert_eq!(next_redirect_step(&mut count, 301, &loc), RedirectStep::Follow { absolute: true });
    let rel = LocationHeader::Text("/other".to_string());
    assert_eq!(next_redirect_step(&mut count, 302, &rel), RedirectStep::Follow { absolute: false });
    assert_eq!(next_redirect_step(&mut count, 303, &LocationHeader::Missing), RedirectStep::MissingLocation);
    assert_eq!(next_redirect_step(&mut count, 307, &LocationHeader::NotText), RedirectStep::InvalidLocation);
    assert_eq!(count, 4);
    assert_eq!(next_redirect_step(&mut count, 404, &loc), RedirectStep::HttpError(404));
    let mut many = MAX_REDIRECTS;
    assert_eq!(next_redirect_step(&mut many, 301, &loc), RedirectStep::TooManyRedirects);
}

#[test]
fn redirect_targets() {
    assert_eq!(resolve_redirect("https://a.b/x", "https://c.d/f", true), Ok("https://c.d/f".to_string()));
    assert_eq!(resolve_redirect("https://a.b/x", "https://c.d", true), Ok("https://c.d/".to_string()));
    assert_eq!(resolve_redirect("https://a.b/x", "HTTPS://c.d/f", true), Ok("https://c.d/f".to_string()));
    assert_eq!(resolve_redirect("https://a.b/x?q=1", "/new/path?z=2", false), Ok("https://a.b/new/path?z=2".to_string()));
    assert!(resolve_redirect("https://a.b/x", "ht tp://bad", true).unwrap_err().starts_with("Invalid URI: "));
    assert!(resolve_redirect("https://a.b/x", "/a b", false).unwrap_err().starts_with("Invalid path: "));
    assert!(resolve_redirect("a b", "/x", false).unwrap_err().starts_with("Invalid URI: "));
    assert_eq!(resolve_redirect("/x", "/y?z=1", false), Ok("/y?z=1".to_string()));
    assert!(resolve_redirect("a.b:80", "/y", false).unwrap_err().starts_with("Invalid URI parts: "));
}

fn chars(s: &str) -> Vec<char> {
    s.chars().collect()
}

#[test]
fn token_file_names() {
    let t = chars("FileName=\"UTF-8''a b.txt\"");
    let lowered = chars("filename=\"utf-8''a b.txt\"");
    assert_eq!(filename_of_token(&t, &lowered), Some(Some("a b.txt".to_string())));
    assert_eq!(filename_of_token(&chars("filename"), &chars("filename")), Some(None));
    assert_eq!(filename_of_token(&chars("inline"), &chars("inline")), None);
    let part = chars("filename=filename=\"x.bin\"");
    assert_eq!(file_name_of_token(&part, &part), Some("x.bin".to_string()));
    assert_eq!(file_name_of_token(&chars("name=x"), &chars("name=x")), None);
}
