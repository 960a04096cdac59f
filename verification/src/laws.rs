//! What the library promises of its operations taken together: what is
//! written reads back as it was written.
use vstd::prelude::*;
use vstd::utf8::encode_utf8;

use crate::inspect::{
    decoded_text, info_value, inspect_text, page_rotations, source_info, InfoView, PdfSource,
};
use crate::rotations::{
    e_free, lemma_dest_entries_e_free, lemma_e_join_any, lemma_entry_e_literals,
    lemma_index_entries_e_free, lemma_numbered_e_free, lemma_rotations_read_back,
    lemma_triple_entries_e_free,
};
use crate::merge::{
    all_load, dest_lines, index_lines, loads, merged_text, merged_version, navigation_text,
    numbered_lines, rotations_of, source_view, total_pages, MergeOptions,
};
use crate::ops::{blank_size, or_else};
use crate::ranges::{lemma_parsed_pages_nonempty, spec_parse_page_ranges};
use crate::readback::{
    calm, clear_field, clear_version, field_read, lemma_dest_entries_calm,
    lemma_document_then_calm, lemma_empty_calm, lemma_entry_literals, lemma_index_entries_calm,
    lemma_join_calm, lemma_numbered_name_calm, lemma_read_field, lemma_read_version,
    lemma_triple_entries_calm, lemma_written_text, marker_free, plain_version, slash_free,
};
use crate::split::{lemma_split_groups_nonempty, split_groups};
use crate::text::{trim_end, trim_start};
use crate::write::{
    document_text, metadata_text, rotation_list, simple_pages, simple_pdf_bytes,
    PageBox,
};

verus! {

/// The bytes of a written document are read back as the text written.
proof fn lemma_decode_written(t: Seq<char>)
    ensures
        decoded_text(encode_utf8(t)) == t,
{
    vstd::utf8::encode_utf8_valid_utf8(t);
    vstd::utf8::encode_utf8_decode_utf8(t);
}

/// Writing a document and inspecting what was written gives back its
/// version, one page for each page written, its title and author (each
/// trimmed, and none where it trims to nothing), and no encryption marker.
pub proof fn law_written_document_reads_back(
    version: Seq<char>,
    pages: Seq<PageBox>,
    title: Option<Seq<char>>,
    author: Option<Seq<char>>,
)
    requires
        clear_version(version),
        pages.len() >= 1,
        clear_field(title),
        clear_field(author),
    ensures
        inspect_text(
            decoded_text(encode_utf8(document_text(version, pages) + metadata_text(title, author))),
        ) == Ok::<InfoView, Seq<char>>(
            InfoView {
                version,
                page_count: pages.len(),
                encrypted: false,
                title: field_read(title),
                author: field_read(author),
            },
        ),
{
    lemma_decode_written(document_text(version, pages) + metadata_text(title, author));
    lemma_written_text(version, pages, title, author);
}

/// A written document without pages is refused when it is read back.
pub proof fn law_pageless_document_is_refused(
    version: Seq<char>,
    title: Option<Seq<char>>,
    author: Option<Seq<char>>,
)
    requires
        clear_version(version),
        clear_field(title),
        clear_field(author),
    ensures
        inspect_text(
            decoded_text(
                encode_utf8(document_text(version, seq![]) + metadata_text(title, author)),
            ),
        ) == Err::<InfoView, Seq<char>>("no page objects found"@),
{
    lemma_decode_written(document_text(version, seq![]) + metadata_text(title, author));
    lemma_written_text(version, seq![], title, author);
}

/// A simple document of `n` pages reads back as `n` pages of its version,
/// without title, author or encryption.
pub proof fn law_simple_pdf_reads_back(n: nat, version: Seq<char>)
    requires
        clear_version(version),
        n >= 1,
    ensures
        inspect_text(decoded_text(simple_pdf_bytes(n, version))) == Ok::<InfoView, Seq<char>>(
            InfoView { version, page_count: n, encrypted: false, title: None, author: None },
        ),
{
    law_written_document_reads_back(version, simple_pages(n, seq![]), None, None);
    assert(metadata_text(None, None) =~= Seq::<char>::empty());
    assert(document_text(version, simple_pages(n, seq![])) + metadata_text(None, None)
        =~= document_text(version, simple_pages(n, seq![])));
}

/// A document followed by text without markers reads back as the document.
proof fn lemma_reads_back_plainly(version: Seq<char>, pages: Seq<PageBox>, extra: Seq<char>)
    requires
        plain_version(version),
        pages.len() >= 1,
        calm(extra),
    ensures
        inspect_text(decoded_text(encode_utf8(document_text(version, pages) + extra)))
            == Ok::<InfoView, Seq<char>>(
            InfoView {
                version,
                page_count: pages.len(),
                encrypted: false,
                title: None,
                author: None,
            },
        ),
{
    lemma_decode_written(document_text(version, pages) + extra);
    lemma_document_then_calm(version, pages, extra);
}

/// What inspection reports of a document that loads: at least one page,
/// a version that is trimmed, not empty and on one line, and a title and
/// author that are trimmed, not empty and hold no `)`.
proof fn lemma_loaded(contents: Result<Vec<u8>, std::io::Error>)
    requires
        source_info(contents) is Some,
    ensures
        source_info(contents)->0.page_count >= 1,
        slash_free(source_info(contents)->0.version) ==> plain_version(
            source_info(contents)->0.version,
        ),
        marker_free(source_info(contents)->0.version) ==> clear_version(
            source_info(contents)->0.version,
        ),
        source_info(contents)->0.title matches Some(t) ==> (marker_free(t) ==> clear_field(
            Some(t),
        ) && field_read(Some(t)) == Some(t)),
        source_info(contents)->0.author matches Some(a) ==> (marker_free(a) ==> clear_field(
            Some(a),
        ) && field_read(Some(a)) == Some(a)),
{
    let t = decoded_text(contents->Ok_0@);
    lemma_read_version(t);
    if info_value(t, "Title"@) is Some {
        lemma_read_field(t, "Title"@);
    }
    if info_value(t, "Author"@) is Some {
        lemma_read_field(t, "Author"@);
    }
}

/// Selecting pages of a document (extracting or reordering them) and
/// inspecting the result gives one page per selected page, in the version
/// of the document they came from.
pub proof fn law_selected_pages_read_back(
    contents: Result<Vec<u8>, std::io::Error>,
    pages: Seq<char>,
)
    requires
        source_info(contents) is Some,
        marker_free(source_info(contents)->0.version),
        spec_parse_page_ranges(pages, source_info(contents)->0.page_count as usize) is Ok,
    ensures
        ({
            let info = source_info(contents)->0;
            let selected = spec_parse_page_ranges(pages, info.page_count as usize)->Ok_0;
            inspect_text(decoded_text(simple_pdf_bytes(selected.len(), info.version))) == Ok::<
                InfoView,
                Seq<char>,
            >(
                InfoView {
                    version: info.version,
                    page_count: selected.len(),
                    encrypted: false,
                    title: None,
                    author: None,
                },
            )
        }),
{
    let info = source_info(contents)->0;
    lemma_loaded(contents);
    lemma_parsed_pages_nonempty(pages, info.page_count as usize);
    let selected = spec_parse_page_ranges(pages, info.page_count as usize)->Ok_0;
    law_simple_pdf_reads_back(selected.len(), info.version);
}

/// Removing pages from a document and inspecting the result gives the
/// pages that were not removed, in the version of the document.
pub proof fn law_remaining_pages_read_back(
    contents: Result<Vec<u8>, std::io::Error>,
    pages: Seq<char>,
)
    requires
        source_info(contents) is Some,
        marker_free(source_info(contents)->0.version),
        spec_parse_page_ranges(pages, source_info(contents)->0.page_count as usize) is Ok,
        spec_parse_page_ranges(pages, source_info(contents)->0.page_count as usize)->Ok_0.len()
            < source_info(contents)->0.page_count,
    ensures
        ({
            let info = source_info(contents)->0;
            let selected = spec_parse_page_ranges(pages, info.page_count as usize)->Ok_0;
            let remaining = (info.page_count - selected.len()) as nat;
            inspect_text(decoded_text(simple_pdf_bytes(remaining, info.version))) == Ok::<
                InfoView,
                Seq<char>,
            >(
                InfoView {
                    version: info.version,
                    page_count: remaining,
                    encrypted: false,
                    title: None,
                    author: None,
                },
            )
        }),
{
    let info = source_info(contents)->0;
    lemma_loaded(contents);
    let selected = spec_parse_page_ranges(pages, info.page_count as usize)->Ok_0;
    law_simple_pdf_reads_back((info.page_count - selected.len()) as nat, info.version);
}

/// Rotating pages keeps the page count and the version.
pub proof fn law_rotated_pages_read_back(
    contents: Result<Vec<u8>, std::io::Error>,
    selected: Seq<usize>,
    degrees: i32,
)
    requires
        source_info(contents) is Some,
        marker_free(source_info(contents)->0.version),
    ensures
        ({
            let info = source_info(contents)->0;
            let pages = simple_pages(
                info.page_count,
                rotation_list(info.page_count, selected, degrees),
            );
            inspect_text(decoded_text(encode_utf8(document_text(info.version, pages)))) == Ok::<
                InfoView,
                Seq<char>,
            >(
                InfoView {
                    version: info.version,
                    page_count: info.page_count,
                    encrypted: false,
                    title: None,
                    author: None,
                },
            )
        }),
{
    let info = source_info(contents)->0;
    lemma_loaded(contents);
    let pages = simple_pages(info.page_count, rotation_list(info.page_count, selected, degrees));
    law_written_document_reads_back(info.version, pages, None, None);
    assert(document_text(info.version, pages) + metadata_text(None, None) =~= document_text(
        info.version,
        pages,
    ));
}

/// Setting a document's title and author and inspecting the result gives
/// the fields that were set (trimmed, and none where they trim to
/// nothing), and the document's own fields where none was given, with the
/// document's pages and version.
pub proof fn law_metadata_reads_back(
    contents: Result<Vec<u8>, std::io::Error>,
    title: Option<Seq<char>>,
    author: Option<Seq<char>>,
)
    requires
        source_info(contents) is Some,
        marker_free(source_info(contents)->0.version),
        clear_field(title),
        clear_field(author),
        title is None && source_info(contents)->0.title is Some ==> marker_free(
            source_info(contents)->0.title->0,
        ),
        author is None && source_info(contents)->0.author is Some ==> marker_free(
            source_info(contents)->0.author->0,
        ),
    ensures
        ({
            let info = source_info(contents)->0;
            let t = or_else(title, info.title);
            let a = or_else(author, info.author);
            inspect_text(
                decoded_text(
                    encode_utf8(
                        document_text(info.version, simple_pages(info.page_count, seq![]))
                            + metadata_text(t, a),
                    ),
                ),
            ) == Ok::<InfoView, Seq<char>>(
                InfoView {
                    version: info.version,
                    page_count: info.page_count,
                    encrypted: false,
                    title: field_read(t),
                    author: field_read(a),
                },
            )
        }),
{
    let info = source_info(contents)->0;
    lemma_loaded(contents);
    law_written_document_reads_back(
        info.version,
        simple_pages(info.page_count, seq![]),
        or_else(title, info.title),
        or_else(author, info.author),
    );
}

/// `1.5`, the version of new documents, reads back as written.
proof fn lemma_default_version_plain()
    ensures
        plain_version("1.5"@),
{
    reveal_strlit("1.5");
    assert(trim_start("1.5"@) == "1.5"@);
    assert(trim_end("1.5"@) == "1.5"@);
}

/// A blank document reads back as one page of version `1.5`.
pub proof fn law_blank_reads_back(size: Seq<char>)
    requires
        blank_size(size) is Some,
    ensures
        ({
            let wh = blank_size(size)->0;
            inspect_text(
                decoded_text(encode_utf8(document_text("1.5"@, seq![(wh.0, wh.1, None)]))),
            ) == Ok::<InfoView, Seq<char>>(
                InfoView {
                    version: "1.5"@,
                    page_count: 1,
                    encrypted: false,
                    title: None,
                    author: None,
                },
            )
        }),
{
    let wh = blank_size(size)->0;
    let pages: Seq<PageBox> = seq![(wh.0, wh.1, None)];
    lemma_default_version_plain();
    lemma_empty_calm();
    lemma_reads_back_plainly("1.5"@, pages, seq![]);
    assert(document_text("1.5"@, pages) + Seq::<char>::empty() =~= document_text("1.5"@, pages));
}

/// Each part of a split document reads back with as many pages as its
/// group, in the version of the document.
pub proof fn law_split_parts_read_back(version: Seq<char>, page_count: usize, by: Seq<char>)
    requires
        clear_version(version),
        split_groups(by, page_count) is Ok,
    ensures
        forall|k: int|
            0 <= k < split_groups(by, page_count)->Ok_0.len() ==> inspect_text(
                decoded_text(
                    simple_pdf_bytes(
                        (#[trigger] split_groups(by, page_count)->Ok_0[k]).len(),
                        version,
                    ),
                ),
            ) == Ok::<InfoView, Seq<char>>(
                InfoView {
                    version,
                    page_count: split_groups(by, page_count)->Ok_0[k].len(),
                    encrypted: false,
                    title: None,
                    author: None,
                },
            ),
{
    let groups = split_groups(by, page_count)->Ok_0;
    lemma_split_groups_nonempty(by, page_count);
    assert forall|k: int| 0 <= k < groups.len() implies inspect_text(
        decoded_text(simple_pdf_bytes((#[trigger] groups[k]).len(), version)),
    ) == Ok::<InfoView, Seq<char>>(
        InfoView {
            version,
            page_count: groups[k].len(),
            encrypted: false,
            title: None,
            author: None,
        },
    ) by {
        law_simple_pdf_reads_back(groups[k].len(), version);
    }
}

proof fn lemma_merged_version_plain(sources: Seq<PdfSource>)
    requires
        all_load(sources),
        forall|k: int|
            0 <= k < sources.len() ==> slash_free(#[trigger] source_view(sources[k]).version),
    ensures
        plain_version(merged_version(sources)),
    decreases sources.len(),
{
    if sources.len() == 0 {
        lemma_default_version_plain();
    } else {
        let rest = sources.drop_last();
        assert forall|k: int| 0 <= k < rest.len() implies loads(#[trigger] rest[k]) by {
            assert(rest[k] == sources[k]);
            assert(loads(sources[k]));
        }
        assert forall|k: int| 0 <= k < rest.len() implies slash_free(
            #[trigger] source_view(rest[k]).version,
        ) by {
            assert(rest[k] == sources[k]);
        }
        lemma_merged_version_plain(rest);
        let last = sources.last();
        assert(loads(sources[sources.len() - 1]));
        assert(slash_free(source_view(sources[sources.len() - 1]).version));
        lemma_loaded(last.contents);
    }
}

proof fn lemma_total_pages_positive(sources: Seq<PdfSource>)
    requires
        all_load(sources),
        sources.len() >= 1,
    ensures
        total_pages(sources) >= 1,
{
    let last = sources.last();
    assert(loads(sources[sources.len() - 1]));
    lemma_loaded(last.contents);
}

/// The navigation entries of a merged document hold no marker.
#[verifier::spinoff_prover]
proof fn lemma_merged_entries_calm(sources: Seq<PdfSource>, names: Seq<Seq<char>>, opts: MergeOptions)
    requires
        names.len() == sources.len(),
        forall|k: int| 0 <= k < names.len() ==> slash_free(#[trigger] names[k]),
    ensures
        calm(
            crate::write::index_entries_text(index_lines(sources, names))
                + crate::write::dest_entries_text(dest_lines(sources, names)) + navigation_text(
                numbered_lines("index-"@, names),
                numbered_lines("outline-"@, names),
                opts,
            ),
        ),
{
    let i_text = crate::write::index_entries_text(index_lines(sources, names));
    let d_text = crate::write::dest_entries_text(dest_lines(sources, names));
    let links = numbered_lines("index-"@, names);
    let outlines = numbered_lines("outline-"@, names);
    let n_text = navigation_text(links, outlines, opts);
    lemma_entry_literals();
    assert forall|k: int| 0 <= k < index_lines(sources, names).len() implies slash_free(
        #[trigger] index_lines(sources, names)[k].0,
    ) by {
        assert(index_lines(sources, names)[k].0 == names[k]);
    }
    lemma_index_entries_calm(index_lines(sources, names));
    assert forall|k: int| 0 <= k < dest_lines(sources, names).len() implies calm(
        #[trigger] dest_lines(sources, names)[k].0,
    ) && slash_free(dest_lines(sources, names)[k].2) by {
        lemma_numbered_name_calm("dest-"@, (k + 1) as nat);
        assert(dest_lines(sources, names)[k].2 == names[k]);
    }
    lemma_dest_entries_calm(dest_lines(sources, names));
    assert forall|k: int| 0 <= k < links.len() implies calm(#[trigger] links[k].0) && calm(
        links[k].1,
    ) && slash_free(links[k].2) by {
        lemma_numbered_name_calm("index-"@, (k + 1) as nat);
        lemma_numbered_name_calm("dest-"@, (k + 1) as nat);
        assert(links[k].2 == names[k]);
    }
    assert forall|k: int| 0 <= k < outlines.len() implies calm(#[trigger] outlines[k].0)
        && calm(outlines[k].1) && slash_free(outlines[k].2) by {
        lemma_numbered_name_calm("outline-"@, (k + 1) as nat);
        lemma_numbered_name_calm("dest-"@, (k + 1) as nat);
        assert(outlines[k].2 == names[k]);
    }
    let l_part = if opts.links {
        lemma_triple_entries_calm("/LinkAnnot "@, links);
        crate::write::triple_entries_text("/LinkAnnot "@, links)
    } else {
        Seq::<char>::empty()
    };
    let o_part = if opts.outlines {
        lemma_triple_entries_calm("/OutlineEntry "@, outlines);
        crate::write::triple_entries_text("/OutlineEntry "@, outlines)
    } else {
        Seq::<char>::empty()
    };
    lemma_join_calm(l_part, o_part);
    lemma_join_calm(i_text, d_text);
    lemma_join_calm(i_text + d_text, n_text);
}

/// Merging documents and inspecting the result gives the pages of all of
/// them (and the index page, when there is one), in the merged version,
/// without title, author or encryption.
#[verifier::spinoff_prover]
pub proof fn law_merged_document_reads_back(
    sources: Seq<PdfSource>,
    names: Seq<Seq<char>>,
    opts: MergeOptions,
)
    requires
        sources.len() >= 2,
        all_load(sources),
        names.len() == sources.len(),
        forall|k: int|
            0 <= k < sources.len() ==> slash_free(#[trigger] source_view(sources[k]).version),
        forall|k: int| 0 <= k < names.len() ==> slash_free(#[trigger] names[k]),
    ensures
        inspect_text(decoded_text(encode_utf8(merged_text(sources, names, opts)))) == Ok::<
            InfoView,
            Seq<char>,
        >(
            InfoView {
                version: merged_version(sources),
                page_count: total_pages(sources) + if opts.index {
                    1nat
                } else {
                    0nat
                },
                encrypted: false,
                title: None,
                author: None,
            },
        ),
{
    let version = merged_version(sources);
    let rotations = rotations_of(sources);
    let total = total_pages(sources);
    lemma_merged_version_plain(sources);
    lemma_total_pages_positive(sources);
    lemma_empty_calm();
    if opts.index {
        let pages = simple_pages(total + 1, seq![None] + rotations);
        let i_text = crate::write::index_entries_text(index_lines(sources, names));
        let d_text = crate::write::dest_entries_text(dest_lines(sources, names));
        let n_text = navigation_text(
            numbered_lines("index-"@, names),
            numbered_lines("outline-"@, names),
            opts,
        );
        lemma_merged_entries_calm(sources, names, opts);
        let doc = document_text(version, pages);
        assert(merged_text(sources, names, opts) =~= doc + (i_text + d_text + n_text));
        lemma_reads_back_plainly(version, pages, i_text + d_text + n_text);
    } else {
        let pages = simple_pages(total, rotations);
        lemma_reads_back_plainly(version, pages, seq![]);
        assert(document_text(version, pages) + Seq::<char>::empty() =~= document_text(
            version,
            pages,
        ));
    }
}

/// Reading back the rotations of a written document gives the rotation of
/// each page written.
pub proof fn law_written_rotations_read_back(version: Seq<char>, pages: Seq<PageBox>)
    requires
        e_free(version),
        !crate::text::contains_seq(version, "/Type /Page"@),
    ensures
        page_rotations(decoded_text(encode_utf8(document_text(version, pages)))) == Seq::new(
            pages.len(),
            |i: int| pages[i].2,
        ),
{
    lemma_decode_written(document_text(version, pages));
    lemma_empty_calm();
    crate::rotations::lemma_no_e(Seq::<char>::empty());
    lemma_rotations_read_back(version, pages, seq![]);
    assert(document_text(version, pages) + Seq::<char>::empty() =~= document_text(version, pages));
}

/// Rotating pages and reading back the rotations of the result gives the
/// rotation asked for on the selected pages and none on the others.
pub proof fn law_rotated_pages_keep_rotations(
    contents: Result<Vec<u8>, std::io::Error>,
    selected: Seq<usize>,
    degrees: i32,
)
    requires
        source_info(contents) is Some,
        !crate::text::contains_seq(source_info(contents)->0.version, "/Type /Page"@),
        e_free(source_info(contents)->0.version),
    ensures
        ({
            let info = source_info(contents)->0;
            let rotations = rotation_list(info.page_count, selected, degrees);
            page_rotations(
                decoded_text(
                    encode_utf8(
                        document_text(info.version, simple_pages(info.page_count, rotations)),
                    ),
                ),
            ) == rotations
        }),
{
    let info = source_info(contents)->0;
    lemma_loaded(contents);
    let rotations = rotation_list(info.page_count, selected, degrees);
    let pages = simple_pages(info.page_count, rotations);
    law_written_rotations_read_back(info.version, pages);
    assert(Seq::new(pages.len(), |i: int| pages[i].2) =~= rotations);
}

/// The rotation of each page of a merged document: the index page (when
/// there is one) unrotated, then the rotations that the documents declare,
/// in order, page by page (pages beyond them unrotated).
pub open spec fn merged_page_rotations(sources: Seq<PdfSource>, index: bool) -> Seq<Option<i32>> {
    let written = if index {
        seq![None] + rotations_of(sources)
    } else {
        rotations_of(sources)
    };
    Seq::new(
        total_pages(sources) + if index {
            1nat
        } else {
            0nat
        },
        |i: int|
            if i < written.len() {
                written[i]
            } else {
                None
            },
    )
}

/// The navigation entries of a merged document hold no `endobj`.
#[verifier::spinoff_prover]
proof fn lemma_merged_entries_e_free(
    sources: Seq<PdfSource>,
    names: Seq<Seq<char>>,
    opts: MergeOptions,
)
    requires
        names.len() == sources.len(),
        forall|k: int| 0 <= k < names.len() ==> e_free(#[trigger] names[k]),
    ensures
        e_free(
            crate::write::index_entries_text(index_lines(sources, names))
                + crate::write::dest_entries_text(dest_lines(sources, names)) + navigation_text(
                numbered_lines("index-"@, names),
                numbered_lines("outline-"@, names),
                opts,
            ),
        ),
{
    reveal_strlit("dest-");
    reveal_strlit("index-");
    reveal_strlit("outline-");
    lemma_entry_e_literals();
    let i_text = crate::write::index_entries_text(index_lines(sources, names));
    let d_text = crate::write::dest_entries_text(dest_lines(sources, names));
    let links = numbered_lines("index-"@, names);
    let outlines = numbered_lines("outline-"@, names);
    let n_text = navigation_text(links, outlines, opts);
    assert forall|k: int| 0 <= k < index_lines(sources, names).len() implies e_free(
        #[trigger] index_lines(sources, names)[k].0,
    ) by {
        assert(index_lines(sources, names)[k].0 == names[k]);
    }
    lemma_index_entries_e_free(index_lines(sources, names));
    assert forall|k: int| 0 <= k < dest_lines(sources, names).len() implies e_free(
        #[trigger] dest_lines(sources, names)[k].0,
    ) && e_free(dest_lines(sources, names)[k].2) by {
        lemma_numbered_e_free("dest-"@, (k + 1) as nat);
        assert(dest_lines(sources, names)[k].2 == names[k]);
    }
    lemma_dest_entries_e_free(dest_lines(sources, names));
    assert forall|k: int| 0 <= k < links.len() implies e_free(#[trigger] links[k].0) && e_free(
        links[k].1,
    ) && e_free(links[k].2) by {
        lemma_numbered_e_free("index-"@, (k + 1) as nat);
        lemma_numbered_e_free("dest-"@, (k + 1) as nat);
        assert(links[k].2 == names[k]);
    }
    assert forall|k: int| 0 <= k < outlines.len() implies e_free(#[trigger] outlines[k].0)
        && e_free(outlines[k].1) && e_free(outlines[k].2) by {
        lemma_numbered_e_free("outline-"@, (k + 1) as nat);
        lemma_numbered_e_free("dest-"@, (k + 1) as nat);
        assert(outlines[k].2 == names[k]);
    }
    let l_part = if opts.links {
        lemma_triple_entries_e_free("/LinkAnnot "@, links);
        crate::write::triple_entries_text("/LinkAnnot "@, links)
    } else {
        crate::rotations::lemma_no_e(Seq::<char>::empty());
        Seq::<char>::empty()
    };
    let o_part = if opts.outlines {
        lemma_triple_entries_e_free("/OutlineEntry "@, outlines);
        crate::write::triple_entries_text("/OutlineEntry "@, outlines)
    } else {
        crate::rotations::lemma_no_e(Seq::<char>::empty());
        Seq::<char>::empty()
    };
    lemma_e_join_any(l_part, o_part);
    lemma_e_join_any(i_text, d_text);
    if d_text.len() == 0 {
        assert(i_text + d_text =~= i_text);
    } else {
        assert((i_text + d_text).last() == d_text.last());
    }
    lemma_e_join_any(i_text + d_text, n_text);
}

/// Merging documents and reading back the rotations of the result gives
/// the index page (when there is one) unrotated, then the rotations that
/// the documents declare, in order.
#[verifier::spinoff_prover]
pub proof fn law_merge_keeps_rotations(
    sources: Seq<PdfSource>,
    names: Seq<Seq<char>>,
    opts: MergeOptions,
)
    requires
        sources.len() >= 2,
        all_load(sources),
        names.len() == sources.len(),
        forall|k: int|
            0 <= k < sources.len() ==> slash_free(#[trigger] source_view(sources[k]).version)
                && e_free(source_view(sources[k]).version),
        forall|k: int| 0 <= k < names.len() ==> slash_free(#[trigger] names[k]) && e_free(names[k]),
    ensures
        page_rotations(decoded_text(encode_utf8(merged_text(sources, names, opts))))
            == merged_page_rotations(sources, opts.index),
{
    let version = merged_version(sources);
    let rotations = rotations_of(sources);
    let total = total_pages(sources);
    lemma_merged_version_plain(sources);
    lemma_merged_version_e_free(sources);
    crate::readback::lemma_slash_free_marker_free(version);
    if opts.index {
        let written = seq![None] + rotations;
        let pages = simple_pages(total + 1, written);
        let i_text = crate::write::index_entries_text(index_lines(sources, names));
        let d_text = crate::write::dest_entries_text(dest_lines(sources, names));
        let n_text = navigation_text(
            numbered_lines("index-"@, names),
            numbered_lines("outline-"@, names),
            opts,
        );
        let extra = i_text + d_text + n_text;
        lemma_merged_entries_calm(sources, names, opts);
        lemma_merged_entries_e_free(sources, names, opts);
        assert(merged_text(sources, names, opts) =~= document_text(version, pages) + extra);
        lemma_decode_written(document_text(version, pages) + extra);
        lemma_rotations_read_back(version, pages, extra);
        assert(Seq::new(pages.len(), |i: int| pages[i].2) =~= merged_page_rotations(
            sources,
            opts.index,
        ));
    } else {
        let pages = simple_pages(total, rotations);
        law_written_rotations_read_back(version, pages);
        assert(merged_text(sources, names, opts) == document_text(version, pages));
        assert(Seq::new(pages.len(), |i: int| pages[i].2) =~= merged_page_rotations(
            sources,
            opts.index,
        ));
    }
}

proof fn lemma_merged_version_e_free(sources: Seq<PdfSource>)
    requires
        forall|k: int| 0 <= k < sources.len() ==> e_free(#[trigger] source_view(sources[k]).version),
    ensures
        e_free(merged_version(sources)),
    decreases sources.len(),
{
    if sources.len() == 0 {
        reveal_strlit("1.5");
        reveal_strlit("endobj");
        crate::rotations::lemma_no_e("1.5"@);
    } else {
        let rest = sources.drop_last();
        assert forall|k: int| 0 <= k < rest.len() implies e_free(
            #[trigger] source_view(rest[k]).version,
        ) by {
            assert(rest[k] == sources[k]);
        }
        lemma_merged_version_e_free(rest);
        assert(e_free(source_view(sources[sources.len() - 1]).version));
    }
}

} // verus!
