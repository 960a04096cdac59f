//! Outline (bookmark) entries for each part of a merged document.
use vstd::prelude::*;

use crate::write::{
    number_entries, numbered_entries, triple_entries_text, triple_view, write_triple_entries,
};

verus! {

/// One outline entry per destination: the `i`-th is named `outline-<i + 1>`.
pub fn build_outline_entries(dest_entries: &[(String, usize, String)]) -> (r: Vec<
    (String, String, String),
>)
    ensures
        numbered_entries("outline-"@, dest_entries@, r@),
{
    number_entries("outline-", dest_entries)
}

/// Appends one `/OutlineEntry (outline|dest|label)` line per entry.
pub fn write_pdf_with_outline_entries(bytes: Vec<u8>, outlines: &[(String, String, String)]) -> (out:
    Vec<u8>)
    ensures
        out@ == bytes@ + vstd::utf8::encode_utf8(triple_entries_text("/OutlineEntry "@, triple_view(outlines@))),
{
    write_triple_entries(bytes, "/OutlineEntry ", outlines)
}

} // verus!
