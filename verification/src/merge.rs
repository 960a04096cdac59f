//! Merging documents in order, optionally behind an index page that lists
//! where each merged part starts.
use vstd::prelude::*;
use vstd::utf8::encode_utf8;

use crate::error::PdfError;
use crate::inspect::{
    decode_utf8_lossy, decoded_text, extract_page_rotations, inspect_chars, is_load_error,
    page_rotations, source_info, InfoView, PdfInfo, PdfSource,
};
use crate::links::{build_link_annotations, write_pdf_with_link_annotations};
use crate::outlines::{build_outline_entries, write_pdf_with_outline_entries};
use crate::text::{chars_of, decimal, decimal_chars, push_chars, push_str_chars, string_from_chars};
use crate::write::{
    dest_entries_text, dest_view, document_text, index_entries_text, index_view,
    lemma_encode_concat, simple_pages, triple_entries_text, triple_view,
    write_pdf_with_dest_entries, write_pdf_with_index_entries, write_pdf_with_page_rotations,
};

verus! {

// ---------------------------------------------------------------------
// What a merge produces
// ---------------------------------------------------------------------

/// The text a document is read as; empty when it could not be read.
pub open spec fn source_text(s: PdfSource) -> Seq<char> {
    match s.contents {
        Ok(bytes) => decoded_text(bytes@),
        Err(_) => seq![],
    }
}

/// Whether a document loads as a PDF.
pub open spec fn loads(s: PdfSource) -> bool {
    source_info(s.contents) is Some
}

/// What inspecting a document that loads reports.
pub open spec fn source_view(s: PdfSource) -> InfoView {
    source_info(s.contents)->0
}

/// Document `k` is the first of `sources` that does not load.
pub open spec fn first_failure_at(sources: Seq<PdfSource>, k: int) -> bool {
    &&& 0 <= k < sources.len()
    &&& !loads(sources[k])
    &&& forall|j: int| 0 <= j < k ==> #[trigger] loads(sources[j])
}

/// Every document loads.
pub open spec fn all_load(sources: Seq<PdfSource>) -> bool {
    forall|j: int| 0 <= j < sources.len() ==> #[trigger] loads(sources[j])
}

/// The number of pages of all the documents together.
pub open spec fn total_pages(sources: Seq<PdfSource>) -> nat
    decreases sources.len(),
{
    if sources.len() == 0 {
        0
    } else {
        total_pages(sources.drop_last()) + source_view(sources.last()).page_count
    }
}

/// The version of a merged document: starting from `1.5`, each document's
/// version is taken while the version so far is still `1.5`.
pub open spec fn merged_version(sources: Seq<PdfSource>) -> Seq<char>
    decreases sources.len(),
{
    if sources.len() == 0 {
        "1.5"@
    } else {
        let v = merged_version(sources.drop_last());
        if v == "1.5"@ {
            source_view(sources.last()).version
        } else {
            v
        }
    }
}

/// The page rotations of all the documents, in order.
pub open spec fn rotations_of(sources: Seq<PdfSource>) -> Seq<Option<i32>>
    decreases sources.len(),
{
    if sources.len() == 0 {
        seq![]
    } else {
        rotations_of(sources.drop_last()) + page_rotations(source_text(sources.last()))
    }
}

/// The page on which document `k` starts in a merged document that has an
/// index page in front.
pub open spec fn indexed_start(sources: Seq<PdfSource>, k: int) -> nat {
    2 + total_pages(sources.take(k))
}

/// The name of the destination of document `k`: `dest-<k + 1>`.
pub open spec fn dest_name(k: nat) -> Seq<char> {
    "dest-"@ + decimal(k + 1)
}

/// The view of each document's name.
pub open spec fn names_view(names: Seq<String>) -> Seq<Seq<char>> {
    names.map_values(|s: String| s@)
}

/// One index entry per document: its name and the page it starts on.
pub open spec fn index_lines(sources: Seq<PdfSource>, names: Seq<Seq<char>>) -> Seq<
    (Seq<char>, nat),
> {
    Seq::new(sources.len(), |k: int| (names[k], indexed_start(sources, k)))
}

/// One destination per document: `dest-<k + 1>`, its first page, its name.
pub open spec fn dest_lines(sources: Seq<PdfSource>, names: Seq<Seq<char>>) -> Seq<
    (Seq<char>, nat, Seq<char>),
> {
    Seq::new(
        sources.len(),
        |k: int| (dest_name(k as nat), indexed_start(sources, k), names[k]),
    )
}

proof fn lemma_merged_version_default(sources: Seq<PdfSource>)
    requires
        forall|j: int| 0 <= j < sources.len() ==> #[trigger] source_view(sources[j]).version
            == "1.5"@,
    ensures
        merged_version(sources) == "1.5"@,
    decreases sources.len(),
{
    if sources.len() > 0 {
        let rest = sources.drop_last();
        assert forall|j: int| 0 <= j < rest.len() implies #[trigger] source_view(rest[j]).version
            == "1.5"@ by {
            assert(rest[j] == sources[j]);
        }
        lemma_merged_version_default(rest);
        assert(source_view(sources[sources.len() - 1]).version == "1.5"@);
    }
}

proof fn lemma_merged_version_at(sources: Seq<PdfSource>, k: int)
    requires
        0 <= k < sources.len(),
        source_view(sources[k]).version != "1.5"@,
        forall|j: int| 0 <= j < k ==> #[trigger] source_view(sources[j]).version == "1.5"@,
    ensures
        merged_version(sources) == source_view(sources[k]).version,
    decreases sources.len(),
{
    let rest = sources.drop_last();
    if k < sources.len() - 1 {
        assert(rest[k] == sources[k]);
        assert forall|j: int| 0 <= j < k implies #[trigger] source_view(rest[j]).version
            == "1.5"@ by {
            assert(rest[j] == sources[j]);
        }
        lemma_merged_version_at(rest, k);
    } else {
        assert forall|j: int| 0 <= j < rest.len() implies #[trigger] source_view(rest[j]).version
            == "1.5"@ by {
            assert(rest[j] == sources[j]);
        }
        lemma_merged_version_default(rest);
    }
}

/// The version of a merged document is the version of the first document
/// whose version is not `1.5`, or `1.5` where every version is `1.5`.
pub proof fn law_merged_version_is_first_other(sources: Seq<PdfSource>)
    ensures
        (forall|j: int| 0 <= j < sources.len() ==> #[trigger] source_view(sources[j]).version
            == "1.5"@) ==> merged_version(sources) == "1.5"@,
        forall|k: int|
            0 <= k < sources.len() && #[trigger] source_view(sources[k]).version != "1.5"@ && (
            forall|j: int| 0 <= j < k ==> #[trigger] source_view(sources[j]).version == "1.5"@)
                ==> merged_version(sources) == source_view(sources[k]).version,
{
    if forall|j: int| 0 <= j < sources.len() ==> #[trigger] source_view(sources[j]).version
        == "1.5"@ {
        lemma_merged_version_default(sources);
    }
    assert forall|k: int|
        0 <= k < sources.len() && #[trigger] source_view(sources[k]).version != "1.5"@ && (
        forall|j: int| 0 <= j < k ==> #[trigger] source_view(sources[j]).version == "1.5"@)
            implies merged_version(sources) == source_view(sources[k]).version by {
        lemma_merged_version_at(sources, k);
    }
}

/// With an index page in front, the first document starts on page 2 and
/// each following one right after the pages of all documents before it:
/// its start is the previous start plus the previous document's page
/// count. Index entry `k` carries name `k`, destination `k` is
/// `dest-<k + 1>` with that start and name.
pub proof fn law_index_starts_follow_page_counts(sources: Seq<PdfSource>, names: Seq<Seq<char>>)
    requires
        names.len() == sources.len(),
    ensures
        sources.len() > 0 ==> index_lines(sources, names)[0].1 == 2,
        forall|k: int|
            0 <= k < sources.len() - 1 ==> #[trigger] index_lines(sources, names)[k + 1].1
                == index_lines(sources, names)[k].1 + source_view(sources[k]).page_count,
        forall|k: int|
            0 <= k < sources.len() ==> #[trigger] index_lines(sources, names)[k] == (
                names[k],
                2 + total_pages(sources.take(k)),
            ),
        forall|k: int|
            0 <= k < sources.len() ==> #[trigger] dest_lines(sources, names)[k] == (
                dest_name(k as nat),
                index_lines(sources, names)[k].1,
                names[k],
            ),
        index_lines(sources, names).len() == sources.len(),
        dest_lines(sources, names).len() == sources.len(),
{
    if sources.len() > 0 {
        assert(sources.take(0) =~= Seq::<PdfSource>::empty());
    }
    assert forall|k: int| 0 <= k < sources.len() - 1 implies #[trigger] index_lines(
        sources,
        names,
    )[k + 1].1 == index_lines(sources, names)[k].1 + source_view(sources[k]).page_count by {
        assert(sources.take(k + 1).drop_last() =~= sources.take(k));
        assert(sources.take(k + 1).last() == sources[k]);
    }
}

/// One entry per document, named `<prefix><k + 1>`, that points at the
/// destination `dest-<k + 1>` and carries the document's name.
pub open spec fn numbered_lines(prefix: Seq<char>, names: Seq<Seq<char>>) -> Seq<
    (Seq<char>, Seq<char>, Seq<char>),
> {
    Seq::new(
        names.len(),
        |k: int| (prefix + decimal((k + 1) as nat), dest_name(k as nat), names[k]),
    )
}

/// Which navigation a merged document carries: an index page with its
/// index and destination entries, and, with the index, links from the
/// index to each part and outline entries for each part.
#[derive(Clone, Copy)]
pub struct MergeOptions {
    pub index: bool,
    pub links: bool,
    pub outlines: bool,
}

/// The link and outline entries that follow the destination entries.
pub open spec fn navigation_text(
    links: Seq<(Seq<char>, Seq<char>, Seq<char>)>,
    outlines: Seq<(Seq<char>, Seq<char>, Seq<char>)>,
    opts: MergeOptions,
) -> Seq<char> {
    (if opts.links {
        triple_entries_text("/LinkAnnot "@, links)
    } else {
        seq![]
    }) + (if opts.outlines {
        triple_entries_text("/OutlineEntry "@, outlines)
    } else {
        seq![]
    })
}

/// The text of the merged document. With an index, a blank index page
/// comes first, and the index and destination entries, then the links and
/// outline entries that are asked for, follow the document.
pub open spec fn merged_text(
    sources: Seq<PdfSource>,
    names: Seq<Seq<char>>,
    opts: MergeOptions,
) -> Seq<char> {
    let version = merged_version(sources);
    let rotations = rotations_of(sources);
    let total = total_pages(sources);
    if opts.index {
        document_text(version, simple_pages(total + 1, seq![None] + rotations))
            + index_entries_text(index_lines(sources, names)) + dest_entries_text(
            dest_lines(sources, names),
        ) + navigation_text(
            numbered_lines("index-"@, names),
            numbered_lines("outline-"@, names),
            opts,
        )
    } else {
        document_text(version, simple_pages(total, rotations))
    }
}

/// What merging `sources`, named `names`, gives: fewer than two documents
/// are refused; otherwise the first document that does not load gives its
/// load error; otherwise the merged document.
pub open spec fn merge_outcome(
    sources: Seq<PdfSource>,
    names: Seq<Seq<char>>,
    opts: MergeOptions,
    r: Result<Vec<u8>, PdfError>,
) -> bool {
    if sources.len() < 2 {
        r matches Err(PdfError::MergeRequiresMultipleInputs)
    } else if all_load(sources) {
        r matches Ok(out) && out@ == encode_utf8(merged_text(sources, names, opts))
    } else {
        forall|k: int|
            first_failure_at(sources, k) ==> (r matches Err(e) && is_load_error(
                sources[k].path@,
                sources[k].contents,
                e,
            ))
    }
}

// ---------------------------------------------------------------------
// The merge plan
// ---------------------------------------------------------------------

/// Everything a merged document is written from.
pub struct MergePlan {
    pub page_total: usize,
    pub output_version: String,
    pub merged_rotations: Vec<Option<i32>>,
    pub index_entries: Vec<(String, usize)>,
    pub dest_entries: Vec<(String, usize, String)>,
    pub include_index: bool,
}

/// `plan` is the plan for merging `sources`, named `names`.
pub open spec fn is_merge_plan(
    sources: Seq<PdfSource>,
    names: Seq<Seq<char>>,
    index: bool,
    plan: MergePlan,
) -> bool {
    &&& plan.include_index == index
    &&& plan.page_total == total_pages(sources) + (if index {
        1nat
    } else {
        0nat
    })
    &&& plan.output_version@ == merged_version(sources)
    &&& plan.merged_rotations@ == (if index {
        seq![None] + rotations_of(sources)
    } else {
        rotations_of(sources)
    })
    &&& index_view(plan.index_entries@) == (if index {
        index_lines(sources, names)
    } else {
        seq![]
    })
    &&& dest_view(plan.dest_entries@) == (if index {
        dest_lines(sources, names)
    } else {
        seq![]
    })
    &&& plan.page_total + 3 <= usize::MAX
}

/// Entries named `<prefix><k + 1>` that point at each destination.
pub open spec fn numbered_view(prefix: Seq<char>, dest: Seq<(String, usize, String)>) -> Seq<
    (Seq<char>, Seq<char>, Seq<char>),
> {
    Seq::new(dest.len(), |k: int| (prefix + decimal((k + 1) as nat), dest[k].0@, dest[k].2@))
}

/// The text written from a plan, with the links and outline entries that
/// are asked for.
pub open spec fn plan_text(plan: MergePlan, opts: MergeOptions) -> Seq<char> {
    let doc = document_text(
        plan.output_version@,
        simple_pages(plan.page_total as nat, plan.merged_rotations@),
    );
    if plan.include_index {
        doc + index_entries_text(index_view(plan.index_entries@)) + dest_entries_text(
            dest_view(plan.dest_entries@),
        ) + navigation_text(
            numbered_view("index-"@, plan.dest_entries@),
            numbered_view("outline-"@, plan.dest_entries@),
            opts,
        )
    } else {
        doc
    }
}

/// Loads a document: its inspection and its text.
fn load_text(source: PdfSource) -> (r: Result<(PdfInfo, Vec<char>), PdfError>)
    ensures
        match source_info(source.contents) {
            None => r matches Err(e) && is_load_error(source.path@, source.contents, e),
            Some(info) => r matches Ok((i, c)) && i@ == info && c@ == source_text(source)
                && i.page_count + 10 <= c@.len(),
        },
{
    let PdfSource { path, contents } = source;
    match contents {
        Err(e) => Err(PdfError::OpenPdf { path, source: e }),
        Ok(bytes) => {
            let text = decode_utf8_lossy(bytes.as_slice());
            let c = chars_of(text.as_str());
            match inspect_chars(path.as_str(), &c) {
                Ok(info) => Ok((info, c)),
                Err(e) => Err(e),
            }
        },
    }
}

/// Whether a version is the default `1.5`.
fn is_default_version(v: &String) -> (b: bool)
    ensures
        b == (v@ == "1.5"@),
{
    proof {
        reveal_strlit("1.5");
    }
    let c = chars_of(v.as_str());
    let b = c.len() == 3 && c[0] == '1' && c[1] == '.' && c[2] == '5';
    proof {
        if b {
            assert(c@ =~= "1.5"@);
        }
    }
    b
}

/// The name `dest-<k + 1>`.
fn dest_name_of(k: usize) -> (s: String)
    requires
        k < usize::MAX,
    ensures
        s@ == dest_name(k as nat),
{
    let mut v: Vec<char> = Vec::new();
    push_str_chars(&mut v, "dest-");
    let d = decimal_chars((k + 1) as u64);
    push_chars(&mut v, &d);
    string_from_chars(v.as_slice())
}

/// Refuses a merge of fewer than two documents, before any is read.
pub fn check_merge_inputs(count: usize) -> (r: Result<(), PdfError>)
    ensures
        r is Ok <==> count >= 2,
        r is Err ==> r matches Err(PdfError::MergeRequiresMultipleInputs),
{
    if count < 2 {
        Err(PdfError::MergeRequiresMultipleInputs)
    } else {
        Ok(())
    }
}

/// Inspects each document in order and gathers what the merged document
/// is written from.
pub fn collect_merge_plan(inputs: Vec<PdfSource>, names: &Vec<String>, include_index: bool) -> (r:
    Result<MergePlan, PdfError>)
    requires
        names@.len() == inputs@.len(),
    ensures
        inputs@.len() < 2 ==> r matches Err(PdfError::MergeRequiresMultipleInputs),
        r is Ok ==> inputs@.len() >= 2 && all_load(inputs@),
        inputs@.len() >= 2 && all_load(inputs@) ==> (r matches Ok(plan) && is_merge_plan(
            inputs@,
            names_view(names@),
            include_index,
            plan,
        )),
        inputs@.len() >= 2 ==> forall|k: int|
            first_failure_at(inputs@, k) ==> (r matches Err(e) && is_load_error(
                inputs@[k].path@,
                inputs@[k].contents,
                e,
            )),
{
    if let Err(e) = check_merge_inputs(inputs.len()) {
        return Err(e);
    }
    let ghost all = inputs@;
    let ghost nv = names_view(names@);
    let n = inputs.len();
    let mut rest = inputs;
    let mut page_total: usize = 0;
    let mut merged_rotations: Vec<Option<i32>> = Vec::new();
    let mut output_version = String::from_str("1.5");
    let mut index_entries: Vec<(String, usize)> = Vec::new();
    let mut dest_entries: Vec<(String, usize, String)> = Vec::new();
    let mut running_start: usize = if include_index {
        2
    } else {
        1
    };
    // The texts read so far stay in memory together; every page marker
    // takes eleven of their characters, which keeps the page counts in range.
    let mut read: Vec<char> = Vec::new();
    let mut i: usize = 0;
    assert(all.take(0) =~= Seq::<PdfSource>::empty());
    assert(all.skip(0) =~= all);
    while i < n
        invariant
            all == inputs@,
            n == all.len(),
            n >= 2,
            names@.len() == n,
            nv == names_view(names@),
            0 <= i <= n,
            rest@ == all.skip(i as int),
            forall|j: int| 0 <= j < i ==> #[trigger] loads(all[j]),
            page_total == total_pages(all.take(i as int)),
            running_start == (if include_index {
                2nat
            } else {
                1nat
            }) + page_total,
            output_version@ == merged_version(all.take(i as int)),
            merged_rotations@ == rotations_of(all.take(i as int)),
            index_view(index_entries@) == (if include_index {
                index_lines(all, nv).take(i as int)
            } else {
                seq![]
            }),
            dest_view(dest_entries@) == (if include_index {
                dest_lines(all, nv).take(i as int)
            } else {
                seq![]
            }),
            page_total + 10 * i <= read@.len(),
            read@.len() <= usize::MAX,
        decreases n - i,
    {
        assert(rest@[0] == all[i as int]);
        let source = rest.remove(0);
        assert(rest@ =~= all.skip(i + 1));
        let (info, mut text) = match load_text(source) {
            Ok(loaded) => loaded,
            Err(e) => {
                proof {
                    assert(!loads(all[i as int]));
                    assert(!all_load(all));
                    assert forall|k: int| first_failure_at(all, k) implies k == i by {
                        if k < i {
                            assert(loads(all[k]));
                        }
                        if k > i {
                            assert(loads(all[i as int]));
                        }
                    }
                }
                return Err(e);
            },
        };
        let ghost prev = all.take(i as int);
        let ghost next = all.take(i + 1);
        assert(next.drop_last() =~= prev);
        assert(next.last() == all[i as int]);
        if include_index {
            let ghost old_index = index_entries@;
            let ghost old_dest = dest_entries@;
            let ghost name = names@[i as int]@;
            assert(nv[i as int] == name);
            assert(indexed_start(all, i as int) == running_start);
            index_entries.push((names[i].clone(), running_start));
            let label = dest_name_of(i);
            dest_entries.push((label, running_start, names[i].clone()));
            assert(index_view(index_entries@) =~= index_view(old_index).push(
                (name, running_start as nat),
            ));
            assert(index_lines(all, nv).take(i + 1) =~= index_lines(all, nv).take(i as int).push(
                (name, indexed_start(all, i as int)),
            ));
            assert(dest_view(dest_entries@) =~= dest_view(old_dest).push(
                (dest_name(i as nat), running_start as nat, name),
            ));
            assert(dest_lines(all, nv).take(i + 1) =~= dest_lines(all, nv).take(i as int).push(
                (dest_name(i as nat), indexed_start(all, i as int), name),
            ));
        } else {
            assert(index_view(index_entries@) =~= seq![]);
        }
        let count = info.page_count;
        let mut rotations = extract_page_rotations(&text);
        read.append(&mut text);
        let read_len = read.len();
        page_total = page_total + count;
        running_start = running_start + count;
        if is_default_version(&output_version) {
            output_version = info.version;
        }
        merged_rotations.append(&mut rotations);
        i = i + 1;
    }
    assert(all.take(n as int) =~= all);
    if include_index {
        page_total = page_total + 1;
        let ghost before = merged_rotations@;
        merged_rotations.insert(0, None);
        assert(merged_rotations@ =~= seq![None] + before);
        assert(index_lines(all, nv).take(n as int) =~= index_lines(all, nv));
        assert(dest_lines(all, nv).take(n as int) =~= dest_lines(all, nv));
    }
    Ok(
        MergePlan {
            page_total,
            output_version,
            merged_rotations,
            index_entries,
            dest_entries,
            include_index,
        },
    )
}

/// Writes the merged document from its plan, with the links and outline
/// entries that `opts` asks for.
pub fn write_merge_plan(plan: &MergePlan, opts: MergeOptions) -> (out: Vec<u8>)
    requires
        plan.page_total + 3 <= usize::MAX,
    ensures
        out@ == encode_utf8(plan_text(*plan, opts)),
{
    let out = write_pdf_with_page_rotations(
        plan.page_total,
        plan.output_version.as_str(),
        plan.merged_rotations.as_slice(),
    );
    if !plan.include_index {
        return out;
    }
    let ghost doc = document_text(
        plan.output_version@,
        simple_pages(plan.page_total as nat, plan.merged_rotations@),
    );
    let ghost a = index_entries_text(index_view(plan.index_entries@));
    let ghost b = dest_entries_text(dest_view(plan.dest_entries@));
    let out = write_pdf_with_index_entries(out, plan.index_entries.as_slice());
    let out = write_pdf_with_dest_entries(out, plan.dest_entries.as_slice());
    proof {
        lemma_encode_concat(doc, a);
        lemma_encode_concat(doc + a, b);
    }
    let ghost l = if opts.links {
        triple_entries_text("/LinkAnnot "@, numbered_view("index-"@, plan.dest_entries@))
    } else {
        seq![]
    };
    let out = if opts.links {
        let annotations = build_link_annotations(plan.dest_entries.as_slice());
        assert(triple_view(annotations@) =~= numbered_view("index-"@, plan.dest_entries@));
        write_pdf_with_link_annotations(out, annotations.as_slice())
    } else {
        assert(out@ + encode_utf8(l) =~= out@);
        out
    };
    proof {
        lemma_encode_concat(doc + a + b, l);
    }
    let ghost o = if opts.outlines {
        triple_entries_text("/OutlineEntry "@, numbered_view("outline-"@, plan.dest_entries@))
    } else {
        seq![]
    };
    let out = if opts.outlines {
        let entries = build_outline_entries(plan.dest_entries.as_slice());
        assert(triple_view(entries@) =~= numbered_view("outline-"@, plan.dest_entries@));
        write_pdf_with_outline_entries(out, entries.as_slice())
    } else {
        assert(out@ + encode_utf8(o) =~= out@);
        out
    };
    proof {
        lemma_encode_concat(doc + a + b + l, o);
        assert(doc + a + b + (l + o) =~= doc + a + b + l + o);
    }
    out
}

/// The entries numbered from a plan's destinations are those numbered
/// from the documents' names.
proof fn lemma_numbered_view(
    prefix: Seq<char>,
    sources: Seq<PdfSource>,
    names: Seq<Seq<char>>,
    d: Seq<(String, usize, String)>,
)
    requires
        dest_view(d) == dest_lines(sources, names),
        names.len() == sources.len(),
    ensures
        numbered_view(prefix, d) == numbered_lines(prefix, names),
{
    assert(dest_view(d).len() == d.len());
    assert forall|k: int| 0 <= k < d.len() implies #[trigger] numbered_view(prefix, d)[k]
        == numbered_lines(prefix, names)[k] by {
        assert(dest_view(d)[k] == dest_lines(sources, names)[k]);
        assert(dest_view(d)[k] == (d[k].0@, d[k].1 as nat, d[k].2@));
    }
    assert(numbered_view(prefix, d) =~= numbered_lines(prefix, names));
}

/// A plan's text is the merged text.
proof fn lemma_plan_text(
    sources: Seq<PdfSource>,
    names: Seq<Seq<char>>,
    opts: MergeOptions,
    plan: MergePlan,
)
    requires
        is_merge_plan(sources, names, opts.index, plan),
        names.len() == sources.len(),
    ensures
        plan_text(plan, opts) == merged_text(sources, names, opts),
{
    if opts.index {
        lemma_numbered_view("index-"@, sources, names, plan.dest_entries@);
        lemma_numbered_view("outline-"@, sources, names, plan.dest_entries@);
    }
}

/// Merges documents in order; `names[k]` names document `k` in the
/// navigation entries.
pub fn merge_pdfs_named(inputs: Vec<PdfSource>, names: Vec<String>, opts: MergeOptions) -> (r:
    Result<Vec<u8>, PdfError>)
    requires
        names@.len() == inputs@.len(),
    ensures
        merge_outcome(inputs@, names_view(names@), opts, r),
{
    let ghost all = inputs@;
    let plan = match collect_merge_plan(inputs, &names, opts.index) {
        Ok(p) => p,
        Err(e) => return Err(e),
    };
    let out = write_merge_plan(&plan, opts);
    proof {
        lemma_plan_text(all, names_view(names@), opts, plan);
    }
    Ok(out)
}

// ---------------------------------------------------------------------
// Names of the merged documents
// ---------------------------------------------------------------------

/// Whether `part` is a contiguous run of the characters of `whole`.
pub open spec fn part_of(part: Seq<char>, whole: Seq<char>) -> bool {
    exists|a: int, b: int| 0 <= a <= b <= whole.len() && part == #[trigger] whole.subrange(a, b)
}

/// `path` is `dir/name` for an ordinary file name `name`: not empty,
/// without `/`, and neither `.` nor `..`; and the path holds no `\` and no
/// `:`, so that no platform reads another separator or a prefix in it.
pub open spec fn ordinary_path(path: Seq<char>, dir: Seq<char>, name: Seq<char>) -> bool {
    &&& path == dir + seq!['/'] + name
    &&& name.len() > 0
    &&& !name.contains('/')
    &&& name != seq!['.']
    &&& name != seq!['.', '.']
    &&& !path.contains('\\')
    &&& !path.contains(':')
}

/// A name that a document at `path` is listed under: the whole path, or a
/// non-empty run of its characters (its file name); for a path
/// `dir/name` with an ordinary file name, that file name.
pub open spec fn listed_name(name: Seq<char>, path: Seq<char>) -> bool {
    &&& name == path || (name.len() > 0 && part_of(name, path))
    &&& forall|dir: Seq<char>, n: Seq<char>| #[trigger] ordinary_path(path, dir, n) ==> name == n
}

/// Each document is listed under a name of its own path.
pub open spec fn listed_names(names: Seq<Seq<char>>, sources: Seq<PdfSource>) -> bool {
    &&& names.len() == sources.len()
    &&& forall|k: int| 0 <= k < names.len() ==> listed_name(#[trigger] names[k], sources[k].path@)
}

/// `std::path::Path::file_name`, as a string: the final component of a
/// path, if it has one. It is a `Normal` component, a non-empty run of the
/// path's own characters; the path is valid UTF-8, so the lossy conversion
/// keeps those characters as they are. Where the path is `dir/name` with an
/// ordinary file name and no `\` or `:`, every platform splits it at that
/// last `/` (it is a separator everywhere, and no prefix is read), so the
/// final component is `name`. What other paths give (which characters
/// separate components, what a prefix is) depends on the platform and is
/// left unsaid.
#[verifier::external_body]
fn path_file_name(path: &str) -> (r: Option<String>)
    ensures
        r matches Some(n) ==> n@.len() > 0 && part_of(n@, path@),
        forall|dir: Seq<char>, name: Seq<char>|
            #[trigger] ordinary_path(path@, dir, name) ==> r is Some && r->0@ == name,
{
    match std::path::Path::new(path).file_name() {
        Some(name) => Some(name.to_string_lossy().into_owned()),
        None => None,
    }
}

/// The name a document is listed under: the file name of its path, or the
/// whole path where it has none.
pub fn display_name(path: &str, file_name: Option<String>) -> (r: String)
    ensures
        r@ == match file_name {
            Some(n) => n@,
            None => path@,
        },
{
    match file_name {
        Some(n) => n,
        None => String::from_str(path),
    }
}

/// The name a document at `path` is listed under: its file name, or the
/// whole path where it has none; for `dir/name` with an ordinary file
/// name, `name`.
fn input_display_name(path: &str) -> (r: String)
    ensures
        listed_name(r@, path@),
{
    let file_name = path_file_name(path);
    display_name(path, file_name)
}

/// Merges documents in order with the navigation that `opts` asks for.
/// Each document is listed under the file name of its path.
pub fn merge_pdfs_with_navigation(inputs: Vec<PdfSource>, opts: MergeOptions) -> (r: Result<
    Vec<u8>,
    PdfError,
>)
    ensures
        exists|names: Seq<Seq<char>>|
            listed_names(names, inputs@) && #[trigger] merge_outcome(inputs@, names, opts, r),
{
    let mut names: Vec<String> = Vec::new();
    let mut i: usize = 0;
    while i < inputs.len()
        invariant
            0 <= i <= inputs@.len(),
            names@.len() == i,
            forall|k: int| 0 <= k < i ==> listed_name(#[trigger] names@[k]@, inputs@[k].path@),
        decreases inputs@.len() - i,
    {
        names.push(input_display_name(inputs[i].path.as_str()));
        i = i + 1;
    }
    let ghost nv = names_view(names@);
    assert(listed_names(nv, inputs@)) by {
        assert forall|k: int| 0 <= k < nv.len() implies listed_name(
            #[trigger] nv[k],
            inputs@[k].path@,
        ) by {
            assert(nv[k] == names@[k]@);
        }
    }
    let r = merge_pdfs_named(inputs, names, opts);
    assert(merge_outcome(inputs@, nv, opts, r));
    r
}

/// The navigation of `merge_pdfs_with_index`: with the index come the
/// links to each part and an outline entry for each part.
pub open spec fn index_options(index: bool) -> MergeOptions {
    MergeOptions { index, links: true, outlines: true }
}

/// Merges documents in order; when `index` is set, with an index page in
/// front, and index, destination, link and outline entries after the
/// document. Each document is listed under the file name of its path.
pub fn merge_pdfs_with_index(inputs: Vec<PdfSource>, index: bool) -> (r: Result<Vec<u8>, PdfError>)
    ensures
        exists|names: Seq<Seq<char>>|
            listed_names(names, inputs@) && #[trigger] merge_outcome(
                inputs@,
                names,
                index_options(index),
                r,
            ),
{
    let opts = MergeOptions { index, links: true, outlines: true };
    assert(opts == index_options(index));
    merge_pdfs_with_navigation(inputs, opts)
}

/// Merges documents in order.
pub fn merge_pdfs(inputs: Vec<PdfSource>) -> (r: Result<Vec<u8>, PdfError>)
    ensures
        merge_outcome(inputs@, seq![], index_options(false), r),
{
    let ghost all = inputs@;
    let r = merge_pdfs_with_index(inputs, false);
    proof {
        let names = choose|names: Seq<Seq<char>>|
            listed_names(names, all) && #[trigger] merge_outcome(
                all,
                names,
                index_options(false),
                r,
            );
        assert(merged_text(all, names, index_options(false)) == merged_text(
            all,
            seq![],
            index_options(false),
        ));
    }
    r
}

} // verus!
