//! Link annotations that lead from the index page of a merged document to
//! each merged part.
use vstd::prelude::*;

use crate::write::{
    number_entries, numbered_entries, triple_entries_text, triple_view, write_triple_entries,
};

verus! {

/// One link per destination: the `i`-th is named `index-<i + 1>`.
pub fn build_link_annotations(dest_entries: &[(String, usize, String)]) -> (r: Vec<
    (String, String, String),
>)
    ensures
        numbered_entries("index-"@, dest_entries@, r@),
{
    number_entries("index-", dest_entries)
}

/// Appends one `/LinkAnnot (index|dest|label)` line per link.
pub fn write_pdf_with_link_annotations(bytes: Vec<u8>, links: &[(String, String, String)]) -> (out:
    Vec<u8>)
    ensures
        out@ == bytes@ + vstd::utf8::encode_utf8(triple_entries_text("/LinkAnnot "@, triple_view(links@))),
{
    write_triple_entries(bytes, "/LinkAnnot ", links)
}

} // verus!
