//! The errors of the toolkit.
use vstd::prelude::*;

use crate::text::{decimal_i32, decimal_i32_chars, push_chars, push_str_chars, string_from_chars};

verus! {

/// `std::io::Error`, carried through the library unopened.
#[verifier::external_type_specification]
#[verifier::external_body]
pub struct ExIoError(std::io::Error);

/// Everything that can go wrong in the toolkit.
#[derive(Debug)]
pub enum PdfError {
    /// The input file could not be read.
    OpenPdf { path: String, source: std::io::Error },
    /// The input is not a PDF this toolkit can read.
    ParsePdf { path: String, reason: String },
    /// `merge` was given fewer than two inputs.
    MergeRequiresMultipleInputs,
    /// The output could not be written.
    SavePdf { path: String, source: std::io::Error },
    /// A page-range expression was rejected.
    InvalidPageRange { input: String, reason: String },
    /// `remove-pages` would remove every page.
    RemoveAllPagesForbidden,
    /// Rotation must be 90, 180 or 270 degrees.
    InvalidRotationDegrees { degrees: i32 },
    /// The size of a blank page was not understood.
    InvalidBlankSize { size: String },
    /// `set-meta` needs a title or an author.
    MetadataRequiresField,
    /// The split mode was not understood.
    InvalidSplitMode { mode: String },
}

/// The stable code under which each kind of error is reported.
pub open spec fn error_code(e: PdfError) -> Seq<char> {
    match e {
        PdfError::OpenPdf { .. } => "open_pdf"@,
        PdfError::ParsePdf { .. } => "parse_pdf"@,
        PdfError::MergeRequiresMultipleInputs => "merge_requires_multiple_inputs"@,
        PdfError::SavePdf { .. } => "save_pdf"@,
        PdfError::InvalidPageRange { .. } => "invalid_page_range"@,
        PdfError::RemoveAllPagesForbidden => "remove_all_pages_forbidden"@,
        PdfError::InvalidRotationDegrees { .. } => "invalid_rotation_degrees"@,
        PdfError::InvalidBlankSize { .. } => "invalid_blank_size"@,
        PdfError::MetadataRequiresField => "metadata_requires_field"@,
        PdfError::InvalidSplitMode { .. } => "invalid_split_mode"@,
    }
}

/// What an error says, where `io` is what the read or write error it
/// carries says of itself.
pub open spec fn error_message(e: PdfError, io: Seq<char>) -> Seq<char> {
    match e {
        PdfError::OpenPdf { path, .. } => "failed to open PDF at `"@ + path@ + "`: "@ + io,
        PdfError::ParsePdf { path, reason } => "failed to parse PDF at `"@ + path@ + "`: "@
            + reason@,
        PdfError::MergeRequiresMultipleInputs => "merge requires at least two input files"@,
        PdfError::SavePdf { path, .. } => "failed to save merged PDF to `"@ + path@ + "`: "@ + io,
        PdfError::InvalidPageRange { input, reason } => "invalid page range `"@ + input@ + "`: "@
            + reason@,
        PdfError::RemoveAllPagesForbidden => "cannot remove all pages of a document"@,
        PdfError::InvalidRotationDegrees { degrees } => "invalid rotation degrees `"@
            + decimal_i32(degrees) + "`: expected 90, 180 or 270"@,
        PdfError::InvalidBlankSize { size } => "invalid blank page size `"@ + size@
            + "`: expected A4, Letter or <width>x<height>"@,
        PdfError::MetadataRequiresField => "set-meta requires at least one of --title or --author"@,
        PdfError::InvalidSplitMode { mode } => "invalid split mode `"@ + mode@
            + "`: expected single, range:<ranges> or chunk:<size>"@,
    }
}

/// The line an error is printed as: `error[<code>]: <message>`.
pub open spec fn error_line_text(e: PdfError, io: Seq<char>) -> Seq<char> {
    "error["@ + error_code(e) + "]: "@ + error_message(e, io)
}

/// What `std::io::Error` says of itself through `Display`. The text comes
/// from the operating system, so nothing is stated of it.
#[verifier::external_body]
fn io_error_text(e: &std::io::Error) -> String {
    format!("{e}")
}

impl PdfError {
    /// The stable code of this error, as the command line prints it in
    /// `error[<code>]: <message>`.
    pub fn code(&self) -> (r: &'static str)
        ensures
            r@ == error_code(*self),
    {
        match self {
            PdfError::OpenPdf { .. } => "open_pdf",
            PdfError::ParsePdf { .. } => "parse_pdf",
            PdfError::MergeRequiresMultipleInputs => "merge_requires_multiple_inputs",
            PdfError::SavePdf { .. } => "save_pdf",
            PdfError::InvalidPageRange { .. } => "invalid_page_range",
            PdfError::RemoveAllPagesForbidden => "remove_all_pages_forbidden",
            PdfError::InvalidRotationDegrees { .. } => "invalid_rotation_degrees",
            PdfError::InvalidBlankSize { .. } => "invalid_blank_size",
            PdfError::MetadataRequiresField => "metadata_requires_field",
            PdfError::InvalidSplitMode { .. } => "invalid_split_mode",
        }
    }

    /// What this error says, given what the read or write error it carries
    /// says of itself.
    pub fn describe(&self, io: &str) -> (r: String)
        ensures
            r@ == error_message(*self, io@),
    {
        let mut out: Vec<char> = Vec::new();
        match self {
            PdfError::OpenPdf { path, .. } => {
                push_str_chars(&mut out, "failed to open PDF at `");
                push_str_chars(&mut out, path.as_str());
                push_str_chars(&mut out, "`: ");
                push_str_chars(&mut out, io);
            },
            PdfError::ParsePdf { path, reason } => {
                push_str_chars(&mut out, "failed to parse PDF at `");
                push_str_chars(&mut out, path.as_str());
                push_str_chars(&mut out, "`: ");
                push_str_chars(&mut out, reason.as_str());
            },
            PdfError::MergeRequiresMultipleInputs => {
                push_str_chars(&mut out, "merge requires at least two input files");
            },
            PdfError::SavePdf { path, .. } => {
                push_str_chars(&mut out, "failed to save merged PDF to `");
                push_str_chars(&mut out, path.as_str());
                push_str_chars(&mut out, "`: ");
                push_str_chars(&mut out, io);
            },
            PdfError::InvalidPageRange { input, reason } => {
                push_str_chars(&mut out, "invalid page range `");
                push_str_chars(&mut out, input.as_str());
                push_str_chars(&mut out, "`: ");
                push_str_chars(&mut out, reason.as_str());
            },
            PdfError::RemoveAllPagesForbidden => {
                push_str_chars(&mut out, "cannot remove all pages of a document");
            },
            PdfError::InvalidRotationDegrees { degrees } => {
                push_str_chars(&mut out, "invalid rotation degrees `");
                let d = decimal_i32_chars(*degrees);
                push_chars(&mut out, &d);
                push_str_chars(&mut out, "`: expected 90, 180 or 270");
            },
            PdfError::InvalidBlankSize { size } => {
                push_str_chars(&mut out, "invalid blank page size `");
                push_str_chars(&mut out, size.as_str());
                push_str_chars(&mut out, "`: expected A4, Letter or <width>x<height>");
            },
            PdfError::MetadataRequiresField => {
                push_str_chars(&mut out, "set-meta requires at least one of --title or --author");
            },
            PdfError::InvalidSplitMode { mode } => {
                push_str_chars(&mut out, "invalid split mode `");
                push_str_chars(&mut out, mode.as_str());
                push_str_chars(&mut out, "`: expected single, range:<ranges> or chunk:<size>");
            },
        }
        string_from_chars(out.as_slice())
    }

    /// What this error says; the part that a read or write error carries
    /// is what that error says of itself.
    pub fn message(&self) -> (r: String)
        ensures
            exists|io: Seq<char>| r@ == #[trigger] error_message(*self, io),
    {
        let r = match self {
            PdfError::OpenPdf { source, .. } => {
                let io = io_error_text(source);
                self.describe(io.as_str())
            },
            PdfError::SavePdf { source, .. } => {
                let io = io_error_text(source);
                self.describe(io.as_str())
            },
            _ => self.describe(""),
        };
        r
    }

    /// The line this error is printed as: `error[<code>]: <message>`.
    pub fn error_line(&self) -> (r: String)
        ensures
            exists|io: Seq<char>| r@ == #[trigger] error_line_text(*self, io),
    {
        let m = self.message();
        let mut out: Vec<char> = Vec::new();
        push_str_chars(&mut out, "error[");
        push_str_chars(&mut out, self.code());
        push_str_chars(&mut out, "]: ");
        push_str_chars(&mut out, m.as_str());
        proof {
            let io = choose|io: Seq<char>| m@ == #[trigger] error_message(*self, io);
            assert(out@ =~= error_line_text(*self, io));
        }
        string_from_chars(out.as_slice())
    }
}

} // verus!
