use pdf::split::parse_split_groups;
use pdf::{
    create_blank, extract_pages, inspect_pdf_bytes, remove_pages, reorder_pages, rotate_pages,
    set_metadata, split_pdf, write_simple_pdf, PdfError, PdfInfo, PdfSource,
};

fn loaded(bytes: Vec<u8>) -> PdfSource {
    PdfSource { path: "input.pdf".to_string(), contents: Ok(bytes) }
}

fn read_back(bytes: &[u8]) -> PdfInfo {
    inspect_pdf_bytes("output.pdf", bytes).expect("output must be readable")
}

fn info_of_pages(n: usize) -> PdfInfo {
    read_back(&write_simple_pdf(n, "1.5"))
}

#[test]
fn create_blank_a4_creates_single_page_pdf() {
    let out = create_blank("A4").expect("A4 is a known size");
    let info = read_back(&out);
    assert_eq!(info.page_count, 1);
    assert!(String::from_utf8_lossy(&out).contains("/MediaBox [0 0 595 842]"));
}

#[test]
fn create_blank_custom_size_creates_single_page_pdf() {
    let out = create_blank("400x300").expect("custom size");
    assert_eq!(read_back(&out).page_count, 1);
    assert!(String::from_utf8_lossy(&out).contains("/MediaBox [0 0 400 300]"));
}

#[test]
fn create_blank_fails_for_invalid_size() {
    let err = create_blank("bad-size").expect_err("unknown size");
    assert!(matches!(err, PdfError::InvalidBlankSize { ref size } if size == "bad-size"));
}

#[test]
fn create_blank_letter_is_case_insensitive_and_trimmed() {
    let out = create_blank("  letter ").expect("letter");
    assert!(String::from_utf8_lossy(&out).contains("/MediaBox [0 0 612 792]"));
    assert_eq!(read_back(&out).version, "1.5");
}

#[test]
fn create_blank_rejects_zero_and_negative_sizes() {
    assert!(create_blank("0x100").is_err());
    assert!(create_blank("100x-5").is_err());
    assert!(create_blank("100x").is_err());
}

#[test]
fn extract_pages_command_creates_selected_page_subset() {
    let out = extract_pages(loaded(write_simple_pdf(5, "1.5")), "2,4-5").expect("extract");
    assert_eq!(read_back(&out).page_count, 3);
}

#[test]
fn extract_pages_fails_for_out_of_bounds_range() {
    let err = extract_pages(loaded(write_simple_pdf(3, "1.5")), "2,5").expect_err("out of range");
    match err {
        PdfError::InvalidPageRange { input, reason } => {
            assert_eq!(input, "2,5");
            assert_eq!(reason, "page 5 exceeds max page 3");
        }
        other => panic!("unexpected error {other:?}"),
    }
}

#[test]
fn extract_pages_keeps_the_version() {
    let out = extract_pages(loaded(write_simple_pdf(4, "1.7")), "1").expect("extract");
    let info = read_back(&out);
    assert_eq!(info.version, "1.7");
    assert_eq!(info.page_count, 1);
}

#[test]
fn remove_pages_command_removes_selected_subset() {
    let out = remove_pages(loaded(write_simple_pdf(5, "1.5")), "2,4").expect("remove");
    assert_eq!(read_back(&out).page_count, 3);
}

#[test]
fn remove_pages_fails_when_all_pages_are_removed() {
    let err = remove_pages(loaded(write_simple_pdf(3, "1.5")), "1-3").expect_err("all removed");
    assert!(matches!(err, PdfError::RemoveAllPagesForbidden));
}

#[test]
fn reorder_pages_accepts_order_and_preserves_count() {
    let out = reorder_pages(loaded(write_simple_pdf(4, "1.5")), "4,2,1,3").expect("reorder");
    assert_eq!(read_back(&out).page_count, 4);
}

#[test]
fn reorder_pages_fails_for_out_of_bounds_order() {
    let err = reorder_pages(loaded(write_simple_pdf(3, "1.5")), "1,4").expect_err("bad order");
    assert!(matches!(err, PdfError::InvalidPageRange { .. }));
}

#[test]
fn rotate_pages_rotates_selected_pages() {
    let out = rotate_pages(loaded(write_simple_pdf(5, "1.5")), "2,4", 90).expect("rotate");
    assert_eq!(read_back(&out).page_count, 5);
    let raw = String::from_utf8(out).expect("output text read");
    assert_eq!(raw.matches("/Rotate 90").count(), 2);
}

#[test]
fn rotate_pages_fails_for_invalid_degrees() {
    let err = rotate_pages(loaded(write_simple_pdf(3, "1.5")), "1-2", 45).expect_err("45");
    assert!(matches!(err, PdfError::InvalidRotationDegrees { degrees: 45 }));
}

#[test]
fn rotate_pages_checks_degrees_before_reading() {
    let source = PdfSource {
        path: "missing.pdf".to_string(),
        contents: Err(std::io::Error::new(std::io::ErrorKind::NotFound, "gone")),
    };
    let err = rotate_pages(source, "1", 45).expect_err("degrees first");
    assert!(matches!(err, PdfError::InvalidRotationDegrees { .. }));
}

#[test]
fn set_meta_updates_title_and_author_in_output() {
    let out = set_metadata(loaded(write_simple_pdf(2, "1.5")), Some("Spec Driven"), Some("Yutaro"))
        .expect("set-meta");
    let info = read_back(&out);
    assert_eq!(info.title.as_deref(), Some("Spec Driven"));
    assert_eq!(info.author.as_deref(), Some("Yutaro"));
    assert_eq!(info.page_count, 2);
}

#[test]
fn set_meta_requires_at_least_one_field() {
    let err = set_metadata(loaded(write_simple_pdf(1, "1.5")), None, None).expect_err("no field");
    assert!(matches!(err, PdfError::MetadataRequiresField));
}

#[test]
fn set_meta_keeps_the_field_that_is_not_given() {
    let first = set_metadata(loaded(write_simple_pdf(1, "1.5")), Some("Old"), Some("Ann"))
        .expect("first");
    let second = set_metadata(loaded(first), Some("New"), None).expect("second");
    let info = read_back(&second);
    assert_eq!(info.title.as_deref(), Some("New"));
    assert_eq!(info.author.as_deref(), Some("Ann"));
}

#[test]
fn split_single_creates_one_file_per_page() {
    let parts = split_pdf(&info_of_pages(3), "single").expect("single");
    assert_eq!(parts.len(), 3);
    for part in &parts {
        assert_eq!(read_back(part).page_count, 1);
    }
}

#[test]
fn split_range_creates_files_for_each_range_group() {
    let parts = split_pdf(&info_of_pages(5), "range:1-2,4-5").expect("range");
    assert_eq!(parts.len(), 2);
    assert_eq!(read_back(&parts[0]).page_count, 2);
    assert_eq!(read_back(&parts[1]).page_count, 2);
}

#[test]
fn split_chunk_creates_chunked_parts() {
    let parts = split_pdf(&info_of_pages(5), "chunk:2").expect("chunk");
    let counts: Vec<usize> = parts.iter().map(|p| read_back(p).page_count).collect();
    assert_eq!(counts, vec![2, 2, 1]);
}

#[test]
fn split_fails_for_invalid_mode() {
    let err = split_pdf(&info_of_pages(3), "weird").expect_err("weird");
    assert!(matches!(err, PdfError::InvalidSplitMode { ref mode } if mode == "weird"));
}

#[test]
fn split_chunk_mode_is_case_insensitive() {
    let parts = split_pdf(&info_of_pages(5), "CHUNK:2").expect("chunk");
    let counts: Vec<usize> = parts.iter().map(|p| read_back(p).page_count).collect();
    assert_eq!(counts, vec![2, 2, 1]);
}

#[test]
fn split_range_mode_is_case_insensitive() {
    let parts = split_pdf(&info_of_pages(5), "RANGE:1-2,4-5").expect("range");
    assert_eq!(parts.len(), 2);
    assert_eq!(read_back(&parts[0]).page_count, 2);
    assert_eq!(read_back(&parts[1]).page_count, 2);
}

#[test]
fn split_chunk_mode_rejects_zero_with_stable_error_code() {
    let err = split_pdf(&info_of_pages(3), "chunk:0").expect_err("chunk:0");
    assert_eq!(err.code(), "invalid_split_mode");
}

#[test]
fn split_range_reports_the_rejected_group() {
    let err = split_pdf(&info_of_pages(3), "range:1-2,9").expect_err("9 > 3");
    match err {
        PdfError::InvalidPageRange { input, reason } => {
            assert_eq!(input, "9");
            assert_eq!(reason, "page 9 exceeds max page 3");
        }
        other => panic!("unexpected error {other:?}"),
    }
}

#[test]
fn split_range_with_empty_group_is_an_invalid_mode() {
    let err = split_pdf(&info_of_pages(3), "range:1,,2").expect_err("empty group");
    assert!(matches!(err, PdfError::InvalidSplitMode { .. }));
}

#[test]
fn inspect_large_simple_pdf_is_reasonably_fast() {
    let bytes = write_simple_pdf(1000, "1.5");
    let start = std::time::Instant::now();
    let info = read_back(&bytes);
    assert_eq!(info.page_count, 1000);
    assert!(start.elapsed().as_secs() < 5, "inspect is too slow for simple large PDF");
}

#[test]
fn split_groups_keep_every_page_in_order() {
    assert_eq!(parse_split_groups("chunk:2", 5).expect("chunk"), vec![vec![1, 2], vec![3, 4], vec![5]]);
    assert_eq!(parse_split_groups(" Single ", 3).expect("single"), vec![vec![1], vec![2], vec![3]]);
    assert_eq!(parse_split_groups("range:4-5,1-2", 5).expect("range"), vec![vec![4, 5], vec![1, 2]]);
    assert_eq!(parse_split_groups("chunk:7", 3).expect("big chunk"), vec![vec![1, 2, 3]]);
}

#[test]
fn split_chunk_zero_prints_invalid_split_mode_line() {
    let err = split_pdf(&info_of_pages(3), "chunk:0").expect_err("chunk:0");
    let line = err.error_line();
    assert!(line.starts_with("error[invalid_split_mode]: "));
    assert!(line.contains("chunk:0"));
}

#[test]
fn split_range_parts_are_trimmed_and_read_in_order() {
    let groups = parse_split_groups("  Range: 3-4 , 1 ", 5).expect("ranges");
    assert_eq!(groups, vec![vec![3, 4], vec![1]]);
    let err = parse_split_groups("range:1,,2", 5).expect_err("empty part");
    assert_eq!(err.code(), "invalid_split_mode");
}

#[test]
fn early_refusals_come_before_any_document_is_read() {
    assert!(pdf::ops::check_rotation(90).is_ok());
    assert!(pdf::ops::check_rotation(270).is_ok());
    match pdf::ops::check_rotation(45) {
        Err(PdfError::InvalidRotationDegrees { degrees }) => assert_eq!(degrees, 45),
        other => panic!("unexpected {other:?}"),
    }
    assert!(pdf::ops::check_metadata_fields(Some("T"), None).is_ok());
    assert!(matches!(
        pdf::ops::check_metadata_fields(None, None),
        Err(PdfError::MetadataRequiresField)
    ));
    assert!(pdf::merge::check_merge_inputs(2).is_ok());
    assert!(matches!(
        pdf::merge::check_merge_inputs(1),
        Err(PdfError::MergeRequiresMultipleInputs)
    ));
}
