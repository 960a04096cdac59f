//! A small PDF toolkit: page-range parsing, a minimal PDF writer and
//! inspector, and the page operations built on them (extract, remove,
//! rotate, reorder, split, merge, metadata, blank documents), with the
//! reports its command line prints.
pub mod cli;
pub mod error;
pub mod inspect;
pub mod laws;
pub mod links;
pub mod merge;
pub mod ops;
pub mod outlines;
pub mod ranges;
pub mod readback;
pub mod report;
pub mod rotations;
pub mod shell;
pub mod split;
pub mod text;
pub mod write;

pub use cli::{Cli, Commands, CreateTarget};
pub use error::PdfError;
pub use inspect::{inspect_pdf, inspect_pdf_bytes, PdfInfo, PdfSource};
pub use merge::{merge_pdfs, merge_pdfs_with_index, merge_pdfs_with_navigation, MergeOptions};
pub use ops::{create_blank, extract_pages, remove_pages, reorder_pages, rotate_pages, set_metadata};
pub use ranges::parse_page_ranges;
pub use report::{render, OutputFormat, Report, Value};
pub use split::split_pdf;
pub use write::write_simple_pdf;
