use pdf::inspect::extract_page_rotations;
use pdf::write::{write_pdf_with_page_rotations, write_simple_pdf_with_metadata};
use pdf::{inspect_pdf_bytes, write_simple_pdf, PdfInfo};

fn read_back(bytes: &[u8]) -> PdfInfo {
    inspect_pdf_bytes("doc.pdf", bytes).expect("readable")
}

#[test]
fn written_document_reads_back_with_version_pages_and_fields() {
    let bytes = write_simple_pdf_with_metadata(3, "1.4", Some("Report"), Some("Ann Lee"));
    let info = read_back(&bytes);
    assert_eq!(info.version, "1.4");
    assert_eq!(info.page_count, 3);
    assert!(!info.encrypted);
    assert_eq!(info.title.as_deref(), Some("Report"));
    assert_eq!(info.author.as_deref(), Some("Ann Lee"));
}

#[test]
fn document_without_pages_is_refused() {
    let err = inspect_pdf_bytes("empty.pdf", &write_simple_pdf(0, "1.5")).expect_err("no pages");
    assert_eq!(err.message(), "failed to parse PDF at `empty.pdf`: no page objects found");
}

#[test]
fn pdfium_info_version_case_matches_behavior() {
    let info = read_back(&write_simple_pdf(3, "1.7"));
    assert_eq!(info.version, "1.7");
    assert_eq!(info.page_count, 3);
}

#[test]
fn legacy_pdfjs_minimal_info_case_stays_green() {
    let info = read_back(&write_simple_pdf(1, "1.1"));
    assert_eq!(info.page_count, 1);
    assert!(!info.encrypted);
}

#[test]
fn inspection_trims_the_version_and_fields() {
    let text = "%PDF-  1.6  \n1 0 obj << /Type /Page >> endobj\n/Title (  Spaced  )\n/Encrypt";
    let info = read_back(text.as_bytes());
    assert_eq!(info.version, "1.6");
    assert_eq!(info.page_count, 1);
    assert!(info.encrypted);
    assert_eq!(info.title.as_deref(), Some("Spaced"));
    assert_eq!(info.author, None);
}

#[test]
fn inspection_does_not_count_page_trees() {
    let text = "%PDF-1.5\n/Type /Pages /Type /Page\n/Type /Pages";
    assert_eq!(read_back(text.as_bytes()).page_count, 1);
}

#[test]
fn inspection_refuses_text_without_header() {
    let err = inspect_pdf_bytes("x.pdf", b"hello /Type /Page").expect_err("no header");
    assert_eq!(err.code(), "parse_pdf");
    assert_eq!(err.message(), "failed to parse PDF at `x.pdf`: missing PDF header");
    let err = inspect_pdf_bytes("x.pdf", b"%PDF-   \n/Type /Page").expect_err("empty version");
    assert_eq!(err.message(), "failed to parse PDF at `x.pdf`: missing PDF header");
}

#[test]
fn inspection_reads_invalid_utf8_leniently() {
    let mut bytes = b"%PDF-1.3\n".to_vec();
    bytes.push(0xff);
    bytes.extend_from_slice(b" /Type /Page /Title (T\xfex)");
    let info = read_back(&bytes);
    assert_eq!(info.version, "1.3");
    assert_eq!(info.page_count, 1);
    assert_eq!(info.title.as_deref(), Some("T\u{fffd}x"));
}

#[test]
fn written_rotations_read_back() {
    let bytes = write_pdf_with_page_rotations(4, "1.5", &[None, Some(90), None, Some(-270)]);
    let text: Vec<char> = String::from_utf8(bytes).expect("utf8").chars().collect();
    assert_eq!(extract_page_rotations(&text), vec![None, Some(90), None, Some(-270)]);
}

#[test]
fn rotation_values_follow_the_marker() {
    let text: Vec<char> = "a /Type /Page /Rotate   +45 x endobj b /Type /Page /Rotate x endobj /Type /Pages endobj"
        .chars()
        .collect();
    assert_eq!(extract_page_rotations(&text), vec![Some(45), None]);
}

#[test]
fn written_xref_offsets_point_at_objects() {
    let bytes = write_simple_pdf(2, "1.5");
    let text = String::from_utf8(bytes.clone()).expect("utf8");
    let xref_at = text.find("xref\n").expect("xref");
    let entries: Vec<usize> = text[xref_at..]
        .lines()
        .filter(|l| l.ends_with(" 00000 n "))
        .map(|l| l[..10].parse().expect("offset"))
        .collect();
    assert_eq!(entries.len(), 4);
    for (k, offset) in entries.iter().enumerate() {
        assert!(text[*offset..].starts_with(&format!("{} 0 obj", k + 1)));
    }
    assert!(text.ends_with(&format!("startxref\n{xref_at}\n%%EOF\n")));
}

#[test]
fn fields_with_slashes_and_padding_read_back_trimmed() {
    let bytes = write_simple_pdf_with_metadata(2, "1.7", Some("Q1/Q2"), Some("  X  "));
    let info = read_back(&bytes);
    assert_eq!(info.version, "1.7");
    assert_eq!(info.page_count, 2);
    assert!(!info.encrypted);
    assert_eq!(info.title.as_deref(), Some("Q1/Q2"));
    assert_eq!(info.author.as_deref(), Some("X"));
}

#[test]
fn empty_field_reads_back_as_none() {
    let bytes = write_simple_pdf_with_metadata(1, "1.4", Some("   "), Some(""));
    let info = read_back(&bytes);
    assert_eq!(info.title, None);
    assert_eq!(info.author, None);
}

#[test]
fn version_with_slash_reads_back() {
    let bytes = write_simple_pdf_with_metadata(1, "1.7/ext", Some("a/b"), None);
    let info = read_back(&bytes);
    assert_eq!(info.version, "1.7/ext");
    assert_eq!(info.page_count, 1);
    assert_eq!(info.title.as_deref(), Some("a/b"));
}

#[test]
fn rotations_read_back_under_a_version_with_slash() {
    let bytes = write_pdf_with_page_rotations(3, "2.0/x", &[Some(180), None, Some(90), Some(270)]);
    let text: Vec<char> = String::from_utf8(bytes).expect("utf8").chars().collect();
    assert_eq!(extract_page_rotations(&text), vec![Some(180), None, Some(90)]);
}

#[test]
fn writers_agree_with_the_simple_writer() {
    assert_eq!(
        pdf::write::write_single_page_pdf_with_size("1.5", 200, 200),
        write_simple_pdf(1, "1.5")
    );
    let wide = String::from_utf8(pdf::write::write_single_page_pdf_with_size("1.5", 612, 792)).expect("utf8");
    let simple = String::from_utf8(write_simple_pdf(1, "1.5")).expect("utf8");
    assert!(wide.contains("/MediaBox [0 0 612 792]"));
    assert_eq!(wide.replace("612 792", "200 200"), simple);
    assert_eq!(write_simple_pdf_with_metadata(2, "1.5", None, None), write_simple_pdf(2, "1.5"));
    let mut expected = write_simple_pdf(2, "1.5");
    expected.extend_from_slice(b"\n/Title (T)\n/Author (A)");
    assert_eq!(write_simple_pdf_with_metadata(2, "1.5", Some("T"), Some("A")), expected);
    assert_eq!(
        pdf::write::write_rotated_simple_pdf(3, "1.5", &[0, 2, 9], 90),
        write_pdf_with_page_rotations(3, "1.5", &[None, Some(90), None])
    );
}
