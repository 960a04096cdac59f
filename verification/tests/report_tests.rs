use pdf::cli::{
    blank_report, extract_report, info_report, merge_report, metadata_report, rotate_report,
    split_report,
};
use pdf::{inspect_pdf_bytes, render, write_simple_pdf, OutputFormat, PdfError, Report, Value};

#[test]
fn info_output_has_stable_key_value_shape() {
    let info = inspect_pdf_bytes("input.pdf", &write_simple_pdf(2, "1.5")).expect("parse");
    let out = render(&info_report(&info), OutputFormat::Text);
    assert_eq!(
        out,
        "status=ok\ncommand=info\nversion=1.5\npages=2\nencrypted=false\ntitle=\nauthor="
    );
}

#[test]
fn info_output_supports_json_format() {
    let info = inspect_pdf_bytes("input.pdf", &write_simple_pdf(2, "1.5")).expect("parse");
    let out = render(&info_report(&info), OutputFormat::Json);
    assert_eq!(
        out,
        "{\"status\":\"ok\",\"command\":\"info\",\"version\":\"1.5\",\"pages\":2,\"encrypted\":false,\"title\":\"\",\"author\":\"\"}"
    );
}

#[test]
fn extract_output_mentions_selected_range_and_path() {
    let out = render(&extract_report("2-3", "out.pdf"), OutputFormat::Text);
    assert!(out.contains("status=ok"));
    assert!(out.contains("command=extract-pages"));
    assert!(out.contains("extracted_pages=2-3"));
    assert!(out.contains("output=out.pdf"));
}

#[test]
fn merge_output_supports_json_format() {
    let out = render(&merge_report(2, "merged.pdf"), OutputFormat::Json);
    assert!(out.contains("\"status\":\"ok\""));
    assert!(out.contains("\"command\":\"merge\""));
    assert!(out.contains("\"merged_pages_source_count\":2"));
}

#[test]
fn split_output_supports_json_format() {
    let out = render(&split_report("single", 3, "parts"), OutputFormat::Json);
    assert!(out.contains("\"command\":\"split\""));
    assert!(out.contains("\"split_by\":\"single\""));
    assert!(out.contains("\"parts\":3"));
}

#[test]
fn create_blank_output_supports_json_format() {
    let out = render(&blank_report("A4", "blank.pdf"), OutputFormat::Json);
    assert!(out.contains("\"status\":\"ok\""));
    assert!(out.contains("\"command\":\"create-blank\""));
    assert!(out.contains("\"created\":\"blank\""));
}

#[test]
fn json_strings_are_escaped() {
    let report = Report {
        command: "x".to_string(),
        fields: vec![("path".to_string(), Value::Text("a\"b\\c\nd\u{1}".to_string()))],
    };
    assert_eq!(
        render(&report, OutputFormat::Json),
        "{\"status\":\"ok\",\"command\":\"x\",\"path\":\"a\\\"b\\\\c\\nd\\u0001\"}"
    );
}

#[test]
fn reports_print_numbers_and_flags() {
    let out = render(&rotate_report("1-2", -90, "o.pdf"), OutputFormat::Text);
    assert_eq!(out, "status=ok\ncommand=rotate-pages\nrotated_pages=1-2\ndegrees=-90\noutput=o.pdf");
    let out = render(
        &metadata_report(&Some("T".to_string()), &None, "m.pdf"),
        OutputFormat::Json,
    );
    assert_eq!(
        out,
        "{\"status\":\"ok\",\"command\":\"set-meta\",\"title\":\"T\",\"author\":\"\",\"output\":\"m.pdf\"}"
    );
}

#[test]
fn missing_info_file_has_stable_error_prefix() {
    let err = PdfError::OpenPdf {
        path: "tests/fixtures/does-not-exist.pdf".to_string(),
        source: std::io::Error::new(std::io::ErrorKind::NotFound, "gone"),
    };
    let line = err.error_line();
    assert!(line.starts_with("error[open_pdf]: failed to open PDF"));
    assert!(line.contains("`tests/fixtures/does-not-exist.pdf`: "));
    assert!(line.ends_with("gone"));
}

#[test]
fn rotate_invalid_degrees_has_stable_error_prefix() {
    let line = PdfError::InvalidRotationDegrees { degrees: 45 }.error_line();
    assert_eq!(line, "error[invalid_rotation_degrees]: invalid rotation degrees `45`: expected 90, 180 or 270");
}

#[test]
fn split_invalid_mode_has_stable_error_prefix() {
    let line = PdfError::InvalidSplitMode { mode: "weird".to_string() }.error_line();
    assert!(line.starts_with("error[invalid_split_mode]: invalid split mode"));
}

#[test]
fn every_error_has_its_code() {
    let io = || std::io::Error::new(std::io::ErrorKind::Other, "x");
    let cases: Vec<(PdfError, &str)> = vec![
        (PdfError::OpenPdf { path: "p".into(), source: io() }, "open_pdf"),
        (PdfError::ParsePdf { path: "p".into(), reason: "r".into() }, "parse_pdf"),
        (PdfError::MergeRequiresMultipleInputs, "merge_requires_multiple_inputs"),
        (PdfError::SavePdf { path: "p".into(), source: io() }, "save_pdf"),
        (PdfError::InvalidPageRange { input: "i".into(), reason: "r".into() }, "invalid_page_range"),
        (PdfError::RemoveAllPagesForbidden, "remove_all_pages_forbidden"),
        (PdfError::InvalidRotationDegrees { degrees: 1 }, "invalid_rotation_degrees"),
        (PdfError::InvalidBlankSize { size: "s".into() }, "invalid_blank_size"),
        (PdfError::MetadataRequiresField, "metadata_requires_field"),
        (PdfError::InvalidSplitMode { mode: "m".into() }, "invalid_split_mode"),
    ];
    for (err, code) in cases {
        assert_eq!(err.code(), code);
        assert!(err.error_line().starts_with(&format!("error[{code}]: ")));
    }
}

#[test]
fn error_messages_say_what_went_wrong() {
    assert_eq!(
        PdfError::InvalidPageRange { input: "5-2".into(), reason: "range start must be <= end".into() }
            .message(),
        "invalid page range `5-2`: range start must be <= end"
    );
    assert_eq!(
        PdfError::MergeRequiresMultipleInputs.message(),
        "merge requires at least two input files"
    );
    let save = PdfError::SavePdf {
        path: "out.pdf".into(),
        source: std::io::Error::new(std::io::ErrorKind::PermissionDenied, "denied"),
    };
    assert_eq!(save.describe("denied"), "failed to save merged PDF to `out.pdf`: denied");
    assert!(save.message().starts_with("failed to save merged PDF to `out.pdf`: "));
}
