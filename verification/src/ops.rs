//! Page operations on a single document: extract, remove, rotate,
//! reorder, set metadata, and blank documents.
use vstd::prelude::*;
use vstd::utf8::encode_utf8;

use crate::error::PdfError;
use crate::inspect::{inspect_pdf, is_load_error, source_info, PdfSource};
use crate::ranges::{lemma_valid_pages_len, parse_page_ranges, spec_parse_page_ranges};
use crate::text::{
    char_pos, chars_of, decimal_i32, find_char, parse_i32, parse_i32_range, trim, trim_range,
};
use crate::write::{
    document_text, metadata_text, rotation_list, simple_pages, simple_pdf_bytes,
    write_rotated_simple_pdf, write_simple_pdf, write_simple_pdf_with_metadata,
    write_single_page_pdf_with_size,
};

verus! {

/// `c` with ASCII upper-case letters turned to lower case.
pub open spec fn ascii_lower(c: char) -> char {
    if 'A' <= c && c <= 'Z' {
        (((c as u8) + 32) as u8) as char
    } else {
        c
    }
}

pub fn to_ascii_lower(c: char) -> (r: char)
    ensures
        r == ascii_lower(c),
{
    if 'A' <= c && c <= 'Z' {
        ((c as u8) + 32) as char
    } else {
        c
    }
}

/// Equality up to ASCII case, as `str::eq_ignore_ascii_case` compares.
pub open spec fn eq_ignore_ascii_case(s: Seq<char>, t: Seq<char>) -> bool {
    s.len() == t.len() && forall|i: int| 0 <= i < s.len() ==> ascii_lower(s[i]) == ascii_lower(t[i])
}

/// Whether `c[lo..hi]` equals `t` up to ASCII case.
pub fn range_eq_ignore_ascii_case(c: &Vec<char>, lo: usize, hi: usize, t: &Vec<char>) -> (b: bool)
    requires
        lo <= hi <= c@.len(),
    ensures
        b == eq_ignore_ascii_case(c@.subrange(lo as int, hi as int), t@),
{
    if hi - lo != t.len() {
        return false;
    }
    let mut i: usize = 0;
    while i < t.len()
        invariant
            hi - lo == t@.len(),
            lo <= hi <= c@.len(),
            0 <= i <= t@.len(),
            forall|j: int| 0 <= j < i ==> ascii_lower(c@[lo + j]) == ascii_lower(t@[j]),
        decreases t@.len() - i,
    {
        if to_ascii_lower(c[lo + i]) != to_ascii_lower(t[i]) {
            assert(c@.subrange(lo as int, hi as int)[i as int] == c@[lo + i]);
            return false;
        }
        i = i + 1;
    }
    assert forall|j: int| 0 <= j < t@.len() implies ascii_lower(
        c@.subrange(lo as int, hi as int)[j],
    ) == ascii_lower(t@[j]) by {
        assert(c@.subrange(lo as int, hi as int)[j] == c@[lo + j]);
    }
    true
}

/// The size of a blank page: `A4`, `Letter` (in any case) or `<w>x<h>`
/// with positive integers.
pub open spec fn blank_size(size: Seq<char>) -> Option<(i32, i32)> {
    let n = trim(size);
    if eq_ignore_ascii_case(n, "A4"@) {
        Some((595, 842))
    } else if eq_ignore_ascii_case(n, "Letter"@) {
        Some((612, 792))
    } else {
        let k = char_pos(n, 'x');
        if k == n.len() {
            None
        } else {
            match (parse_i32(n.take(k as int)), parse_i32(n.skip(k + 1int))) {
                (Some(w), Some(h)) => if w > 0 && h > 0 {
                    Some((w, h))
                } else {
                    None
                },
                _ => None,
            }
        }
    }
}

/// The named sizes are read in any case and with surrounding whitespace:
/// whatever lower-cases, once trimmed, to `a4` is 595 by 842 points, and
/// to `letter` is 612 by 792 points.
pub proof fn law_named_sizes_ignore_case(size: Seq<char>)
    ensures
        crate::split::lower_seq(trim(size)) == "a4"@ ==> blank_size(size) == Some((595i32, 842i32)),
        crate::split::lower_seq(trim(size)) == "letter"@ ==> blank_size(size) == Some(
            (612i32, 792i32),
        ),
{
    reveal_strlit("a4");
    reveal_strlit("A4");
    reveal_strlit("letter");
    reveal_strlit("Letter");
    let n = trim(size);
    let lower = crate::split::lower_seq(n);
    assert(ascii_lower('A') == 'a');
    assert(ascii_lower('a') == 'a');
    assert(ascii_lower('4') == '4');
    assert(ascii_lower('L') == 'l');
    assert(ascii_lower('l') == 'l');
    assert(ascii_lower('e') == 'e');
    assert(ascii_lower('t') == 't');
    assert(ascii_lower('r') == 'r');
    assert(lower.len() == n.len());
    if lower == "a4"@ {
        assert forall|i: int| 0 <= i < n.len() implies ascii_lower(n[i]) == ascii_lower(
            "A4"@[i],
        ) by {
            assert(lower[i] == ascii_lower(n[i]));
            if i == 0 {
                assert("A4"@[0] == 'A');
            } else {
                assert("A4"@[1] == '4');
            }
        }
    }
    if lower == "letter"@ {
        assert(!eq_ignore_ascii_case(n, "A4"@));
        assert forall|i: int| 0 <= i < n.len() implies ascii_lower(n[i]) == ascii_lower(
            "Letter"@[i],
        ) by {
            assert(lower[i] == ascii_lower(n[i]));
            assert(lower[i] == "letter"@[i]);
            if i == 0 {
                assert("Letter"@[0] == 'L');
            } else {
                assert("Letter"@[i] == "letter"@[i]);
            }
        }
    }
}

/// A size `<w>x<h>` with positive numbers is `w` by `h` points, in that
/// order.
pub proof fn law_custom_size_is_width_by_height(w: i32, h: i32)
    requires
        w > 0,
        h > 0,
    ensures
        blank_size(decimal_i32(w) + seq!['x'] + decimal_i32(h)) == Some((w, h)),
{
    reveal_strlit("A4");
    reveal_strlit("Letter");
    let dw = decimal_i32(w);
    let dh = decimal_i32(h);
    let s = dw + seq!['x'] + dh;
    crate::rotations::lemma_parse_decimal_i32(w);
    crate::rotations::lemma_parse_decimal_i32(h);
    crate::text::lemma_decimal_ascii(w as nat);
    crate::text::lemma_decimal_ascii(h as nat);
    assert(crate::text::is_digit(dw[0]));
    assert(crate::text::is_digit(dh[dh.len() - 1]));
    assert(s[0] == dw[0]);
    assert(s.last() == dh.last());
    assert(trim(s) == s);
    assert forall|i: int| 0 <= i < dw.len() implies s[i] != 'x' by {
        assert(s[i] == dw[i]);
        assert(crate::text::is_digit(dw[i]));
    }
    crate::text::lemma_char_pos_at(s, 'x', dw.len() as int);
    assert(s.take(dw.len() as int) =~= dw);
    assert(s.skip(dw.len() + 1int) =~= dh);
    assert(!eq_ignore_ascii_case(s, "A4"@)) by {
        if s.len() == 2 {
            assert(s.len() >= dw.len() + 2);
        }
    }
    assert(!eq_ignore_ascii_case(s, "Letter"@)) by {
        if eq_ignore_ascii_case(s, "Letter"@) {
            assert(ascii_lower(s[0]) == ascii_lower("Letter"@[0]));
            assert(ascii_lower('L') == 'l');
        }
    }
}

/// Reads the size of a blank page.
pub fn parse_blank_size(size: &str) -> (r: Result<(i32, i32), PdfError>)
    ensures
        match blank_size(size@) {
            Some(wh) => r == Ok::<(i32, i32), PdfError>(wh),
            None => r matches Err(PdfError::InvalidBlankSize { size: s }) && s@ == size@,
        },
{
    let c = chars_of(size);
    let (a, b) = trim_range(&c, 0, c.len());
    assert(c@.subrange(0, c@.len() as int) == c@);
    let a4 = chars_of("A4");
    if range_eq_ignore_ascii_case(&c, a, b, &a4) {
        return Ok((595, 842));
    }
    let letter = chars_of("Letter");
    if range_eq_ignore_ascii_case(&c, a, b, &letter) {
        return Ok((612, 792));
    }
    let k = find_char(&c, a, b, 'x');
    if k == b {
        return Err(PdfError::InvalidBlankSize { size: String::from_str(size) });
    }
    proof {
        let n = c@.subrange(a as int, b as int);
        assert(n.take(k - a) == c@.subrange(a as int, k as int));
        assert(n.skip(k - a + 1) == c@.subrange(k + 1, b as int));
    }
    let width = parse_i32_range(&c, a, k);
    let height = parse_i32_range(&c, k + 1, b);
    match (width, height) {
        (Some(w), Some(h)) => {
            if w > 0 && h > 0 {
                Ok((w, h))
            } else {
                Err(PdfError::InvalidBlankSize { size: String::from_str(size) })
            }
        },
        _ => Err(PdfError::InvalidBlankSize { size: String::from_str(size) }),
    }
}

/// A blank one-page document of the given size (version 1.5).
pub fn create_blank(size: &str) -> (r: Result<Vec<u8>, PdfError>)
    ensures
        match blank_size(size@) {
            Some(wh) => r matches Ok(out) && out@ == encode_utf8(
                document_text("1.5"@, seq![(wh.0, wh.1, None)]),
            ),
            None => r matches Err(PdfError::InvalidBlankSize { size: s }) && s@ == size@,
        },
{
    let (width, height) = match parse_blank_size(size) {
        Ok(wh) => wh,
        Err(e) => return Err(e),
    };
    Ok(write_single_page_pdf_with_size("1.5", width, height))
}

/// The pages of `source` selected by `pages`, as a new document.
pub fn extract_pages(source: PdfSource, pages: &str) -> (r: Result<Vec<u8>, PdfError>)
    ensures
        match source_info(source.contents) {
            None => r matches Err(e) && is_load_error(source.path@, source.contents, e),
            Some(info) => match spec_parse_page_ranges(pages@, info.page_count as usize) {
                Err(reason) => r matches Err(PdfError::InvalidPageRange { input, reason: r2 })
                    && input@ == pages@ && r2@ == reason,
                Ok(selected) => r matches Ok(out) && out@ == simple_pdf_bytes(
                    selected.len(),
                    info.version,
                ),
            },
        },
{
    let info = match inspect_pdf(source) {
        Ok(i) => i,
        Err(e) => return Err(e),
    };
    let selected = match parse_page_ranges(pages, info.page_count) {
        Ok(s) => s,
        Err(e) => return Err(e),
    };
    proof {
        lemma_valid_pages_len(selected@, info.page_count);
    }
    Ok(write_simple_pdf(selected.len(), info.version.as_str()))
}

/// `source` without the pages selected by `pages`; removing every page is
/// refused.
pub fn remove_pages(source: PdfSource, pages: &str) -> (r: Result<Vec<u8>, PdfError>)
    ensures
        match source_info(source.contents) {
            None => r matches Err(e) && is_load_error(source.path@, source.contents, e),
            Some(info) => match spec_parse_page_ranges(pages@, info.page_count as usize) {
                Err(reason) => r matches Err(PdfError::InvalidPageRange { input, reason: r2 })
                    && input@ == pages@ && r2@ == reason,
                Ok(selected) => if selected.len() >= info.page_count {
                    r matches Err(PdfError::RemoveAllPagesForbidden)
                } else {
                    r matches Ok(out) && out@ == simple_pdf_bytes(
                        (info.page_count - selected.len()) as nat,
                        info.version,
                    )
                },
            },
        },
{
    let info = match inspect_pdf(source) {
        Ok(i) => i,
        Err(e) => return Err(e),
    };
    let selected = match parse_page_ranges(pages, info.page_count) {
        Ok(s) => s,
        Err(e) => return Err(e),
    };
    if selected.len() >= info.page_count {
        return Err(PdfError::RemoveAllPagesForbidden);
    }
    let remaining = info.page_count - selected.len();
    Ok(write_simple_pdf(remaining, info.version.as_str()))
}

/// Whether a rotation is one of the accepted 90, 180 and 270 degrees.
pub open spec fn valid_rotation(degrees: i32) -> bool {
    degrees == 90 || degrees == 180 || degrees == 270
}

/// Refuses a rotation other than 90, 180 and 270 degrees, before any
/// document is read.
pub fn check_rotation(degrees: i32) -> (r: Result<(), PdfError>)
    ensures
        valid_rotation(degrees) <==> r is Ok,
        !valid_rotation(degrees) ==> (r matches Err(PdfError::InvalidRotationDegrees { degrees: d })
            && d == degrees),
{
    if degrees == 90 || degrees == 180 || degrees == 270 {
        Ok(())
    } else {
        Err(PdfError::InvalidRotationDegrees { degrees })
    }
}

/// `source` with the pages selected by `pages` turned by `degrees`.
pub fn rotate_pages(source: PdfSource, pages: &str, degrees: i32) -> (r: Result<Vec<u8>, PdfError>)
    ensures
        !valid_rotation(degrees) ==> (r matches Err(PdfError::InvalidRotationDegrees { degrees: d })
            && d == degrees),
        valid_rotation(degrees) ==> match source_info(source.contents) {
            None => r matches Err(e) && is_load_error(source.path@, source.contents, e),
            Some(info) => match spec_parse_page_ranges(pages@, info.page_count as usize) {
                Err(reason) => r matches Err(PdfError::InvalidPageRange { input, reason: r2 })
                    && input@ == pages@ && r2@ == reason,
                Ok(selected) => r matches Ok(out) && out@ == encode_utf8(
                    document_text(
                        info.version,
                        simple_pages(
                            info.page_count,
                            rotation_list(info.page_count, selected, degrees),
                        ),
                    ),
                ),
            },
        },
{
    if let Err(e) = check_rotation(degrees) {
        return Err(e);
    }
    let info = match inspect_pdf(source) {
        Ok(i) => i,
        Err(e) => return Err(e),
    };
    let selected = match parse_page_ranges(pages, info.page_count) {
        Ok(s) => s,
        Err(e) => return Err(e),
    };
    Ok(write_rotated_simple_pdf(info.page_count, info.version.as_str(), selected.as_slice(), degrees))
}

/// The value of an optional string argument.
pub open spec fn opt_str_view(s: Option<&str>) -> Option<Seq<char>> {
    match s {
        Some(x) => Some(x@),
        None => None,
    }
}

/// `first` where it is given, else `second`.
pub open spec fn or_else(first: Option<Seq<char>>, second: Option<Seq<char>>) -> Option<Seq<char>> {
    match first {
        Some(x) => Some(x),
        None => second,
    }
}

/// Refuses setting metadata when neither field is given, before any
/// document is read.
pub fn check_metadata_fields(title: Option<&str>, author: Option<&str>) -> (r: Result<
    (),
    PdfError,
>)
    ensures
        r is Ok <==> !(title is None && author is None),
        r is Err ==> r matches Err(PdfError::MetadataRequiresField),
{
    if title.is_none() && author.is_none() {
        Err(PdfError::MetadataRequiresField)
    } else {
        Ok(())
    }
}

/// `source` with its title and author set; a field that is not given keeps
/// the value the document had.
pub fn set_metadata(source: PdfSource, title: Option<&str>, author: Option<&str>) -> (r: Result<
    Vec<u8>,
    PdfError,
>)
    ensures
        title is None && author is None ==> r matches Err(PdfError::MetadataRequiresField),
        !(title is None && author is None) ==> match source_info(source.contents) {
            None => r matches Err(e) && is_load_error(source.path@, source.contents, e),
            Some(info) => r matches Ok(out) && out@ == encode_utf8(
                document_text(info.version, simple_pages(info.page_count, seq![]))
                    + metadata_text(
                    or_else(opt_str_view(title), info.title),
                    or_else(opt_str_view(author), info.author),
                ),
            ),
        },
{
    if let Err(e) = check_metadata_fields(title, author) {
        return Err(e);
    }
    let info = match inspect_pdf(source) {
        Ok(i) => i,
        Err(e) => return Err(e),
    };
    let t: Option<&str> = match title {
        Some(t) => Some(t),
        None => match &info.title {
            Some(x) => Some(x.as_str()),
            None => None,
        },
    };
    let a: Option<&str> = match author {
        Some(a) => Some(a),
        None => match &info.author {
            Some(x) => Some(x.as_str()),
            None => None,
        },
    };
    Ok(write_simple_pdf_with_metadata(info.page_count, info.version.as_str(), t, a))
}

/// The pages of `source` in the order given by `order`, as a new document.
pub fn reorder_pages(source: PdfSource, order: &str) -> (r: Result<Vec<u8>, PdfError>)
    ensures
        match source_info(source.contents) {
            None => r matches Err(e) && is_load_error(source.path@, source.contents, e),
            Some(info) => match spec_parse_page_ranges(order@, info.page_count as usize) {
                Err(reason) => r matches Err(PdfError::InvalidPageRange { input, reason: r2 })
                    && input@ == order@ && r2@ == reason,
                Ok(selected) => r matches Ok(out) && out@ == simple_pdf_bytes(
                    selected.len(),
                    info.version,
                ),
            },
        },
{
    let info = match inspect_pdf(source) {
        Ok(i) => i,
        Err(e) => return Err(e),
    };
    let selected = match parse_page_ranges(order, info.page_count) {
        Ok(s) => s,
        Err(e) => return Err(e),
    };
    proof {
        lemma_valid_pages_len(selected@, info.page_count);
    }
    Ok(write_simple_pdf(selected.len(), info.version.as_str()))
}

} // verus!
