use pdf::merge::{display_name, merge_pdfs_named};
use pdf::{
    inspect_pdf_bytes, merge_pdfs, merge_pdfs_with_index, merge_pdfs_with_navigation,
    rotate_pages, write_simple_pdf, MergeOptions, PdfError, PdfInfo, PdfSource,
};

fn loaded(path: &str, bytes: Vec<u8>) -> PdfSource {
    PdfSource { path: path.to_string(), contents: Ok(bytes) }
}

fn missing(path: &str) -> PdfSource {
    PdfSource {
        path: path.to_string(),
        contents: Err(std::io::Error::new(std::io::ErrorKind::NotFound, "no such file")),
    }
}

fn read_back(bytes: &[u8]) -> PdfInfo {
    inspect_pdf_bytes("merged.pdf", bytes).expect("merged output parse")
}

#[test]
fn merge_command_merges_two_single_page_pdfs() {
    let out = merge_pdfs(vec![
        loaded("a.pdf", write_simple_pdf(1, "1.5")),
        loaded("b.pdf", write_simple_pdf(1, "1.5")),
    ])
    .expect("merge");
    assert_eq!(read_back(&out).page_count, 2);
}

#[test]
fn merge_command_fails_when_any_input_is_missing() {
    let err = merge_pdfs(vec![loaded("a.pdf", write_simple_pdf(1, "1.5")), missing("missing.pdf")])
        .expect_err("missing input");
    match err {
        PdfError::OpenPdf { path, .. } => assert_eq!(path, "missing.pdf"),
        other => panic!("unexpected error {other:?}"),
    }
}

#[test]
fn legacy_qpdf_merge_smoke_case_stays_green() {
    let out = merge_pdfs(vec![
        loaded("tests/fixtures/a.pdf", write_simple_pdf(1, "1.5")),
        loaded("tests/fixtures/b.pdf", write_simple_pdf(1, "1.5")),
    ])
    .expect("merge");
    assert_eq!(read_back(&out).page_count, 2);
}

#[test]
fn merge_requires_two_inputs() {
    let err = merge_pdfs(vec![loaded("a.pdf", write_simple_pdf(1, "1.5"))]).expect_err("one");
    assert!(matches!(err, PdfError::MergeRequiresMultipleInputs));
    let err = merge_pdfs(vec![]).expect_err("none");
    assert!(matches!(err, PdfError::MergeRequiresMultipleInputs));
}

#[test]
fn merge_reports_the_first_input_that_fails() {
    let err = merge_pdfs(vec![
        loaded("a.pdf", write_simple_pdf(1, "1.5")),
        loaded("bad.pdf", b"not a pdf".to_vec()),
        missing("later.pdf"),
    ])
    .expect_err("bad input");
    match err {
        PdfError::ParsePdf { path, reason } => {
            assert_eq!(path, "bad.pdf");
            assert_eq!(reason, "missing PDF header");
        }
        other => panic!("unexpected error {other:?}"),
    }
}

#[test]
fn merge_sums_page_counts_and_takes_the_first_version_that_is_not_default() {
    let out = merge_pdfs(vec![
        loaded("a.pdf", write_simple_pdf(2, "1.5")),
        loaded("b.pdf", write_simple_pdf(3, "1.7")),
        loaded("c.pdf", write_simple_pdf(1, "2.0")),
    ])
    .expect("merge");
    let info = read_back(&out);
    assert_eq!(info.page_count, 6);
    assert_eq!(info.version, "1.7");
}

#[test]
fn merge_keeps_the_rotation_of_each_page() {
    let rotated = rotate_pages(loaded("r.pdf", write_simple_pdf(2, "1.5")), "2", 180).expect("rotate");
    let out = merge_pdfs(vec![loaded("a.pdf", write_simple_pdf(1, "1.5")), loaded("r.pdf", rotated)])
        .expect("merge");
    let text = String::from_utf8(out).expect("utf8");
    assert_eq!(text.matches("/Rotate 180").count(), 1);
    assert!(text.contains("5 0 obj\n<< /Type /Page /Parent 2 0 R /MediaBox [0 0 200 200] /Rotate 180 >>"));
}

#[test]
fn merge_with_index_adds_an_index_page_and_entries() {
    let out = merge_pdfs_with_index(
        vec![
            loaded("dir/a.pdf", write_simple_pdf(2, "1.5")),
            loaded("dir/b.pdf", write_simple_pdf(3, "1.5")),
        ],
        true,
    )
    .expect("merge");
    let info = read_back(&out);
    assert_eq!(info.page_count, 6);
    let text = String::from_utf8(out).expect("utf8");
    assert!(text.contains("\n/IndexEntry (a.pdf|2)\n/IndexEntry (b.pdf|4)"));
    assert!(text.contains("\n/DestEntry (dest-1|2|a.pdf)\n/DestEntry (dest-2|4|b.pdf)"));
    assert!(text.contains("\n/LinkAnnot (index-1|dest-1|a.pdf)\n/LinkAnnot (index-2|dest-2|b.pdf)"));
    assert!(text.ends_with(
        "\n/OutlineEntry (outline-1|dest-1|a.pdf)\n/OutlineEntry (outline-2|dest-2|b.pdf)"
    ));
    assert!(text.contains("3 0 obj\n<< /Type /Page /Parent 2 0 R /MediaBox [0 0 200 200] >>"));
}

#[test]
fn merge_with_navigation_writes_what_is_asked() {
    let inputs = || {
        vec![
            loaded("a.pdf", write_simple_pdf(1, "1.5")),
            loaded("b.pdf", write_simple_pdf(1, "1.5")),
        ]
    };
    let all = merge_pdfs_with_navigation(
        inputs(),
        MergeOptions { index: true, links: true, outlines: true },
    )
    .expect("merge");
    let text = String::from_utf8(all).expect("utf8");
    assert!(text.ends_with(
        "\n/LinkAnnot (index-2|dest-2|b.pdf)\n/OutlineEntry (outline-1|dest-1|a.pdf)\n/OutlineEntry (outline-2|dest-2|b.pdf)"
    ));
    let basic = merge_pdfs_with_navigation(
        inputs(),
        MergeOptions { index: true, links: false, outlines: false },
    )
    .expect("merge");
    let text = String::from_utf8(basic).expect("utf8");
    assert!(text.ends_with("\n/DestEntry (dest-2|3|b.pdf)"));
    let plain = merge_pdfs_with_navigation(
        inputs(),
        MergeOptions { index: false, links: true, outlines: true },
    )
    .expect("merge");
    assert_eq!(plain, merge_pdfs(inputs()).expect("merge"));
}

#[test]
fn merge_named_lists_documents_under_the_given_names() {
    let out = merge_pdfs_named(
        vec![loaded("x", write_simple_pdf(1, "1.5")), loaded("y", write_simple_pdf(1, "1.5"))],
        vec!["first".to_string(), "second".to_string()],
        MergeOptions { index: true, links: false, outlines: false },
    )
    .expect("merge");
    let text = String::from_utf8(out).expect("utf8");
    assert!(text.contains("/IndexEntry (first|2)\n/IndexEntry (second|3)"));
}

#[test]
fn display_name_prefers_the_file_name() {
    assert_eq!(display_name("dir/a.pdf", Some("a.pdf".to_string())), "a.pdf");
    assert_eq!(display_name("..", None), "..");
}

#[test]
fn merge_lists_a_path_without_file_name_under_the_whole_path() {
    let out = merge_pdfs_with_index(
        vec![loaded("/", write_simple_pdf(1, "1.5")), loaded("b.pdf", write_simple_pdf(1, "1.5"))],
        true,
    )
    .expect("merge");
    let text = String::from_utf8(out).expect("utf8");
    assert!(text.contains("/IndexEntry (/|2)"));
}

#[test]
fn labels_are_encoded_so_markers_stay_whole() {
    assert_eq!(pdf::write::encode_label("a)b|c.pdf"), "a\\051b\\174c.pdf");
    assert_eq!(pdf::write::encode_label("x(y\\z\nw\r"), "x\\050y\\134z\\012w\\015");
    assert_eq!(pdf::write::encode_label("plain name.pdf"), "plain name.pdf");
    let out = merge_pdfs_with_navigation(
        vec![
            loaded("in/a)b|c.pdf", write_simple_pdf(1, "1.5")),
            loaded("in/d.pdf", write_simple_pdf(1, "1.5")),
        ],
        MergeOptions { index: true, links: true, outlines: true },
    )
    .expect("merge");
    let text = String::from_utf8(out).expect("utf8");
    assert!(text.contains("\n/IndexEntry (a\\051b\\174c.pdf|2)\n/IndexEntry (d.pdf|3)"));
    assert!(text.contains("\n/DestEntry (dest-1|2|a\\051b\\174c.pdf)"));
    assert!(text.contains("\n/LinkAnnot (index-1|dest-1|a\\051b\\174c.pdf)"));
    assert!(text.contains("\n/OutlineEntry (outline-1|dest-1|a\\051b\\174c.pdf)"));
    assert!(!text.contains("a)b|c"));
}

#[test]
fn navigation_lists_each_document_under_its_file_name() {
    let out = merge_pdfs_with_navigation(
        vec![
            loaded("x/y/first.pdf", write_simple_pdf(2, "1.5")),
            loaded("second.pdf", write_simple_pdf(1, "1.5")),
        ],
        MergeOptions { index: true, links: false, outlines: true },
    )
    .expect("merge");
    let text = String::from_utf8(out).expect("utf8");
    assert!(text.contains("\n/IndexEntry (first.pdf|2)\n/IndexEntry (second.pdf|4)"));
    assert!(text.ends_with(
        "\n/OutlineEntry (outline-1|dest-1|first.pdf)\n/OutlineEntry (outline-2|dest-2|second.pdf)"
    ));
    assert!(!text.contains("/LinkAnnot"));
}
