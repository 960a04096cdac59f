use pdf::{inspect_pdf, parse_page_ranges, write_simple_pdf, PdfError, PdfInfo, PdfSource};

#[test]
fn inspect_pdf_reads_minimal_fixture() {
    let source = PdfSource {
        path: "minimal.pdf".to_string(),
        contents: Ok(write_simple_pdf(1, "1.5")),
    };
    let info: PdfInfo = inspect_pdf(source).expect("fixture should parse");
    assert_eq!(info.version, "1.5");
    assert_eq!(info.page_count, 1);
    assert!(!info.encrypted);
    assert!(info.title.is_none());
    assert!(info.author.is_none());
}

#[test]
fn inspect_pdf_reports_missing_file_path() {
    let source = PdfSource {
        path: "tests/fixtures/does-not-exist.pdf".to_string(),
        contents: Err(std::io::Error::new(std::io::ErrorKind::NotFound, "not found")),
    };
    let err = inspect_pdf(source).expect_err("missing path must error");
    let rendered = err.message();
    assert!(rendered.contains("does-not-exist.pdf"));
}

#[test]
fn parse_page_ranges_handles_mixed_tokens() {
    let parsed = parse_page_ranges("1,3-5,8", 10).expect("must parse");
    assert_eq!(parsed, vec![1, 3, 4, 5, 8]);
}

#[test]
fn parse_page_ranges_rejects_zero() {
    let err = parse_page_ranges("0,1", 10).expect_err("must reject zero");
    assert!(matches!(err, PdfError::InvalidPageRange { .. }));
}
