//! Reading a document back: its version, page count, encryption marker,
//! title, author, and the rotation of each page.
use vstd::prelude::*;

use crate::error::PdfError;
use crate::text::{
    char_pos, chars_of, contains_chars, contains_seq, find_char, find_from, find_seq, is_whitespace,
    is_ws, lemma_find_from, matches_at, occurs_at, parse_i32, parse_i32_range, string_of_range,
    trim, trim_range, trim_start,
};

verus! {

/// What inspecting a document reports.
#[derive(Debug, Clone, PartialEq, Eq)]
pub struct PdfInfo {
    pub version: String,
    pub page_count: usize,
    pub encrypted: bool,
    pub title: Option<String>,
    pub author: Option<String>,
}

/// The mathematical content of a `PdfInfo`.
pub struct InfoView {
    pub version: Seq<char>,
    pub page_count: nat,
    pub encrypted: bool,
    pub title: Option<Seq<char>>,
    pub author: Option<Seq<char>>,
}

pub open spec fn opt_view(s: Option<String>) -> Option<Seq<char>> {
    match s {
        Some(x) => Some(x@),
        None => None,
    }
}

impl View for PdfInfo {
    type V = InfoView;

    open spec fn view(&self) -> InfoView {
        InfoView {
            version: self.version@,
            page_count: self.page_count as nat,
            encrypted: self.encrypted,
            title: opt_view(self.title),
            author: opt_view(self.author),
        }
    }
}

/// A document as it was loaded: where it came from, and its bytes or the
/// error that reading it gave.
pub struct PdfSource {
    pub path: String,
    pub contents: Result<Vec<u8>, std::io::Error>,
}

// ---------------------------------------------------------------------
// What inspecting a text finds
// ---------------------------------------------------------------------

/// The version in the header `%PDF-<version>` on the first line, trimmed,
/// when it is not empty.
pub open spec fn pdf_version(t: Seq<char>) -> Option<Seq<char>> {
    let line = t.take(char_pos(t, '\n') as int);
    if line.len() >= 5 && line.take(5) == "%PDF-"@ {
        let v = trim(line.skip(5));
        if v.len() > 0 {
            Some(v)
        } else {
            None
        }
    } else {
        None
    }
}

/// A page object marker `/Type /Page` (and not `/Type /Pages`) at `i`.
pub open spec fn page_at(t: Seq<char>, i: int) -> bool {
    &&& 0 <= i
    &&& i + 11 <= t.len()
    &&& t[i] == '/' && t[i + 1] == 'T' && t[i + 2] == 'y' && t[i + 3] == 'p' && t[i + 4] == 'e'
    &&& t[i + 5] == ' ' && t[i + 6] == '/' && t[i + 7] == 'P' && t[i + 8] == 'a' && t[i + 9]
        == 'g'
    &&& t[i + 10] == 'e'
    &&& !(i + 11 < t.len() && t[i + 11] == 's')
}

/// The number of page markers at or after position `i`.
pub open spec fn count_from(t: Seq<char>, i: nat) -> nat
    decreases t.len() - i,
{
    if i >= t.len() {
        0
    } else {
        (if page_at(t, i as int) {
            1nat
        } else {
            0nat
        }) + count_from(t, i + 1)
    }
}

/// The number of page objects in a text.
pub open spec fn count_pages(t: Seq<char>) -> nat {
    count_from(t, 0)
}

/// The value of the first `/<key> (<value>)` field, trimmed, when it is
/// not empty.
pub open spec fn info_value(t: Seq<char>, key: Seq<char>) -> Option<Seq<char>> {
    let token = "/"@ + key + " ("@;
    match find_from(t, token, 0) {
        None => None,
        Some(s) => {
            let rest = t.skip((s + token.len()) as int);
            let e = char_pos(rest, ')');
            if e == rest.len() {
                None
            } else {
                let v = trim(rest.take(e as int));
                if v.len() > 0 {
                    Some(v)
                } else {
                    None
                }
            }
        },
    }
}

/// Index of the first whitespace character of `s`, or `s.len()`.
pub open spec fn ws_pos(s: Seq<char>) -> nat
    decreases s.len(),
{
    if s.len() == 0 || is_ws(s[0]) {
        0
    } else {
        1 + ws_pos(s.drop_first())
    }
}

/// The rotation that a page object declares with `/Rotate <n>`: the first
/// whitespace-separated word after the marker, read as an `i32`.
pub open spec fn rotation_value(o: Seq<char>) -> Option<i32> {
    match find_from(o, "/Rotate "@, 0) {
        None => None,
        Some(s) => {
            let r = trim_start(o.skip(s + 8int));
            let w = r.take(ws_pos(r) as int);
            if w.len() == 0 {
                None
            } else {
                parse_i32(w)
            }
        },
    }
}

/// A piece of text between two `endobj` markers is a page object when it
/// mentions `/Type /Page` and not `/Type /Pages`.
pub open spec fn is_page_object(o: Seq<char>) -> bool {
    contains_seq(o, "/Type /Page"@) && !contains_seq(o, "/Type /Pages"@)
}

pub open spec fn rotation_entry(o: Seq<char>) -> Seq<Option<i32>> {
    if is_page_object(o) {
        seq![rotation_value(o)]
    } else {
        seq![]
    }
}

/// The rotation of each page object, in order, as found by splitting the
/// text at each `endobj`.
pub open spec fn page_rotations(t: Seq<char>) -> Seq<Option<i32>>
    decreases t.len(),
{
    proof {
        reveal_strlit("endobj");
        lemma_find_from(t, "endobj"@, 0);
    }
    match find_from(t, "endobj"@, 0) {
        Some(k) => rotation_entry(t.take(k as int)) + page_rotations(t.skip(k + 6int)),
        None => rotation_entry(t),
    }
}

/// What inspecting a text reports, or the reason it is not a PDF.
pub open spec fn inspect_text(t: Seq<char>) -> Result<InfoView, Seq<char>> {
    match pdf_version(t) {
        None => Err("missing PDF header"@),
        Some(v) => if count_pages(t) == 0 {
            Err("no page objects found"@)
        } else {
            Ok(
                InfoView {
                    version: v,
                    page_count: count_pages(t),
                    encrypted: contains_seq(t, "/Encrypt"@),
                    title: info_value(t, "Title"@),
                    author: info_value(t, "Author"@),
                },
            )
        },
    }
}

/// What inspection reports is what the text holds: a text is accepted
/// exactly when it has a `%PDF-` header with a version and at least one
/// page object; it is then reported encrypted exactly when it holds
/// `/Encrypt`, with its header's version, its number of page objects, and
/// its title and author fields.
pub proof fn law_inspection_reports_the_text(t: Seq<char>)
    ensures
        inspect_text(t) is Ok <==> (pdf_version(t) is Some && count_pages(t) >= 1),
        inspect_text(t) matches Ok(info) ==> {
            &&& info.encrypted <==> contains_seq(t, "/Encrypt"@)
            &&& Some(info.version) == pdf_version(t)
            &&& info.page_count == count_pages(t)
            &&& info.title == info_value(t, "Title"@)
            &&& info.author == info_value(t, "Author"@)
        },
{
}

/// The characters that `String::from_utf8_lossy` makes of some bytes.
pub uninterp spec fn utf8_lossy(bytes: Seq<u8>) -> Seq<char>;

/// `String::from_utf8_lossy`: the bytes decoded as UTF-8, with each invalid
/// sequence replaced by U+FFFD. Its contract names the result, and states
/// what the documentation says of valid input: it is decoded unchanged.
#[verifier::external_body]
pub(crate) fn decode_utf8_lossy(bytes: &[u8]) -> (s: String)
    ensures
        s@ == utf8_lossy(bytes@),
        vstd::utf8::valid_utf8(bytes@) ==> s@ == vstd::utf8::decode_utf8(bytes@),
{
    String::from_utf8_lossy(bytes).into_owned()
}

/// The text that inspecting these bytes reads: valid UTF-8 decoded as it
/// is, anything else as `String::from_utf8_lossy` reads it.
pub open spec fn decoded_text(bytes: Seq<u8>) -> Seq<char> {
    if vstd::utf8::valid_utf8(bytes) {
        vstd::utf8::decode_utf8(bytes)
    } else {
        utf8_lossy(bytes)
    }
}

// ---------------------------------------------------------------------
// Executable inspection
// ---------------------------------------------------------------------

/// Finds the version in the header line.
pub fn extract_version(c: &Vec<char>) -> (r: Option<String>)
    ensures
        opt_view(r) == pdf_version(c@),
{
    proof {
        reveal_strlit("%PDF-");
    }
    let n = c.len();
    let k = find_char(c, 0, n, '\n');
    assert(c@.subrange(0, n as int) == c@);
    let ghost line = c@.take(k as int);
    let prefix = chars_of("%PDF-");
    if k < 5 || !matches_at(c, 0, &prefix) {
        proof {
            if k >= 5 {
                assert(line.take(5) == c@.subrange(0, 5));
            }
        }
        return None;
    }
    assert(line.take(5) == c@.subrange(0, 5));
    assert(line.skip(5) == c@.subrange(5, k as int));
    let (a, b) = trim_range(c, 5, k);
    if a == b {
        return None;
    }
    Some(string_of_range(c, a, b))
}

/// Whether there is a page marker at `i`.
fn page_marker_at(c: &Vec<char>, i: usize) -> (b: bool)
    ensures
        b == page_at(c@, i as int),
{
    let n = c.len();
    if i > n || n - i < 11 {
        return false;
    }
    c[i] == '/' && c[i + 1] == 'T' && c[i + 2] == 'y' && c[i + 3] == 'p' && c[i + 4] == 'e'
        && c[i + 5] == ' ' && c[i + 6] == '/' && c[i + 7] == 'P' && c[i + 8] == 'a' && c[i + 9]
        == 'g' && c[i + 10] == 'e' && !(i + 11 < n && c[i + 11] == 's')
}

/// Each page marker takes eleven characters.
proof fn lemma_count_from_bound(t: Seq<char>, i: nat)
    ensures
        count_from(t, i) > 0 ==> count_from(t, i) + 10 + i <= t.len(),
    decreases t.len() - i,
{
    if i < t.len() {
        lemma_count_from_bound(t, i + 1);
    }
}

/// Counts the page objects (`/Type /Page` that is not `/Type /Pages`).
pub fn count_page_markers(c: &Vec<char>) -> (r: usize)
    ensures
        r == count_pages(c@),
        r > 0 ==> r + 10 <= c@.len(),
        r + 10 <= usize::MAX,
{
    let n = c.len();
    let mut cnt: usize = 0;
    let mut i: usize = 0;
    while i < n
        invariant
            n == c@.len(),
            0 <= i <= n,
            count_pages(c@) == cnt + count_from(c@, i as nat),
            cnt <= i,
        decreases n - i,
    {
        if page_marker_at(c, i) {
            cnt = cnt + 1;
        }
        i = i + 1;
    }
    proof {
        lemma_count_from_bound(c@, 0);
    }
    cnt
}

/// The value of the first `/<key> (<value>)` field.
pub fn extract_info_value(c: &Vec<char>, key: &str) -> (r: Option<String>)
    ensures
        opt_view(r) == info_value(c@, key@),
{
    let mut token: Vec<char> = Vec::new();
    crate::text::push_str_chars(&mut token, "/");
    crate::text::push_str_chars(&mut token, key);
    crate::text::push_str_chars(&mut token, " (");
    let ghost tok = "/"@ + key@ + " ("@;
    assert(token@ == tok);
    let n = c.len();
    match find_seq(c, &token, 0) {
        None => None,
        Some(s) => {
            proof {
                lemma_find_from(c@, tok, 0);
            }
            let start = s + token.len();
            let ghost rest = c@.skip(start as int);
            assert(rest == c@.subrange(start as int, n as int));
            let e = find_char(c, start, n, ')');
            if e == n {
                return None;
            }
            assert(rest.take(e - start) == c@.subrange(start as int, e as int));
            let (a, b) = trim_range(c, start, e);
            if a == b {
                None
            } else {
                Some(string_of_range(c, a, b))
            }
        },
    }
}

pub proof fn lemma_ws_pos_at(s: Seq<char>, k: int)
    requires
        0 <= k <= s.len(),
        k < s.len() ==> is_ws(s[k]),
        forall|i: int| 0 <= i < k ==> !is_ws(#[trigger] s[i]),
    ensures
        ws_pos(s) == k,
    decreases s.len(),
{
    if s.len() > 0 && k > 0 {
        assert forall|i: int| 0 <= i < k - 1 implies !is_ws(#[trigger] s.drop_first()[i]) by {
            assert(s.drop_first()[i] == s[i + 1]);
        }
        lemma_ws_pos_at(s.drop_first(), k - 1);
    }
}

/// Index of the first whitespace character of `c[lo..hi]`, or `hi`.
pub fn find_ws(c: &Vec<char>, lo: usize, hi: usize) -> (r: usize)
    requires
        lo <= hi <= c@.len(),
    ensures
        lo <= r <= hi,
        r - lo == ws_pos(c@.subrange(lo as int, hi as int)),
{
    let mut i = lo;
    while i < hi && !is_whitespace(c[i])
        invariant
            lo <= i <= hi <= c@.len(),
            forall|j: int| lo <= j < i ==> !is_ws(#[trigger] c@[j]),
        decreases hi - i,
    {
        i = i + 1;
    }
    proof {
        let s = c@.subrange(lo as int, hi as int);
        assert forall|j: int| 0 <= j < i - lo implies !is_ws(#[trigger] s[j]) by {
            assert(s[j] == c@[lo + j]);
        }
        lemma_ws_pos_at(s, i - lo);
    }
    i
}

/// The rotation that the page object `o` declares.
pub fn extract_rotation_value(o: &Vec<char>) -> (r: Option<i32>)
    ensures
        r == rotation_value(o@),
{
    let marker = chars_of("/Rotate ");
    proof {
        reveal_strlit("/Rotate ");
    }
    match find_seq(o, &marker, 0) {
        None => None,
        Some(s) => {
            proof {
                lemma_find_from(o@, marker@, 0);
            }
            let n = o.len();
            let start = s + 8;
            let ghost rest = o@.skip(start as int);
            assert(rest == o@.subrange(start as int, n as int));
            let mut a = start;
            while a < n && is_whitespace(o[a])
                invariant
                    start <= a <= n == o@.len(),
                    trim_start(rest) == trim_start(o@.subrange(a as int, n as int)),
                decreases n - a,
            {
                assert(o@.subrange(a as int, n as int).drop_first() == o@.subrange(a + 1, n as int));
                a = a + 1;
            }
            assert(trim_start(o@.subrange(a as int, n as int)) == o@.subrange(a as int, n as int));
            let b = find_ws(o, a, n);
            assert(o@.subrange(a as int, n as int).take(b - a) == o@.subrange(a as int, b as int));
            if a == b {
                None
            } else {
                parse_i32_range(o, a, b)
            }
        },
    }
}

/// Searching from `pos` is searching the text after `pos`.
pub proof fn lemma_find_shift(t: Seq<char>, p: Seq<char>, pos: nat, i: nat)
    requires
        pos <= i,
        pos <= t.len(),
    ensures
        find_from(t, p, i) == match find_from(t.skip(pos as int), p, (i - pos) as nat) {
            Some(k) => Some(k + pos),
            None => None::<nat>,
        },
    decreases t.len() + 1 - i,
{
    let u = t.skip(pos as int);
    if i + p.len() <= t.len() {
        if occurs_at(t, p, i as int) {
            assert(u.subrange(i - pos, i - pos + p.len()) == t.subrange(i as int, i + p.len() as int));
        } else {
            assert(u.subrange(i - pos, i - pos + p.len()) == t.subrange(i as int, i + p.len() as int));
            lemma_find_shift(t, p, pos, i + 1);
        }
    }
}

/// Whether the piece `o` is a page object.
fn page_object(o: &Vec<char>) -> (b: bool)
    ensures
        b == is_page_object(o@),
{
    let page = chars_of("/Type /Page");
    let pages = chars_of("/Type /Pages");
    contains_chars(o, &page) && !contains_chars(o, &pages)
}

/// The rotation of each page object, in order.
pub fn extract_page_rotations(c: &Vec<char>) -> (r: Vec<Option<i32>>)
    ensures
        r@ == page_rotations(c@),
{
    let marker = chars_of("endobj");
    proof {
        reveal_strlit("endobj");
    }
    let n = c.len();
    let mut out: Vec<Option<i32>> = Vec::new();
    let mut pos: usize = 0;
    assert(c@.subrange(0, n as int) == c@);
    loop
        invariant
            n == c@.len(),
            marker@ == "endobj"@,
            pos <= n,
            page_rotations(c@) == out@ + page_rotations(c@.subrange(pos as int, n as int)),
        decreases n - pos,
    {
        let ghost rest = c@.subrange(pos as int, n as int);
        let found = find_seq(c, &marker, pos);
        proof {
            reveal_strlit("endobj");
            lemma_find_shift(c@, marker@, pos as nat, pos as nat);
            assert(c@.skip(pos as int) == rest);
            lemma_find_from(c@, marker@, pos as nat);
        }
        let end = match found {
            Some(k) => k,
            None => n,
        };
        let mut piece: Vec<char> = Vec::new();
        crate::text::push_range(&mut piece, c, pos, end);
        if page_object(&piece) {
            let r = extract_rotation_value(&piece);
            out.push(r);
        }
        match found {
            Some(k) => {
                proof {
                    assert(rest.take(k - pos) == piece@);
                    assert(rest.skip(k - pos + 6) == c@.subrange(k + 6, n as int));
                }
                pos = k + 6;
            },
            None => {
                assert(rest == piece@);
                assert(out@ + Seq::<Option<i32>>::empty() == out@);
                return out;
            },
        }
    }
}

/// Inspects the text of a document; `path` names it in errors.
pub fn inspect_chars(path: &str, c: &Vec<char>) -> (r: Result<PdfInfo, PdfError>)
    ensures
        match r {
            Ok(info) => inspect_text(c@) == Ok::<InfoView, Seq<char>>(info@),
            Err(PdfError::ParsePdf { path: p, reason }) => {
                &&& p@ == path@
                &&& inspect_text(c@) == Err::<InfoView, Seq<char>>(reason@)
            },
            Err(_) => false,
        },
        r matches Ok(info) ==> info.page_count + 10 <= c@.len(),
        r matches Ok(info) ==> info.page_count + 10 <= usize::MAX,
{
    let version = match extract_version(c) {
        Some(v) => v,
        None => {
            return Err(
                PdfError::ParsePdf {
                    path: String::from_str(path),
                    reason: String::from_str("missing PDF header"),
                },
            );
        },
    };
    let page_count = count_page_markers(c);
    if page_count == 0 {
        return Err(
            PdfError::ParsePdf {
                path: String::from_str(path),
                reason: String::from_str("no page objects found"),
            },
        );
    }
    let encrypt = chars_of("/Encrypt");
    let encrypted = contains_chars(c, &encrypt);
    let title = extract_info_value(c, "Title");
    let author = extract_info_value(c, "Author");
    let info = PdfInfo { version, page_count, encrypted, title, author };
    assert(info@ == InfoView {
        version: pdf_version(c@)->0,
        page_count: count_pages(c@),
        encrypted: contains_seq(c@, "/Encrypt"@),
        title: info_value(c@, "Title"@),
        author: info_value(c@, "Author"@),
    });
    Ok(info)
}

/// Inspects the bytes of a document; `path` names it in errors.
pub fn inspect_pdf_bytes(path: &str, bytes: &[u8]) -> (r: Result<PdfInfo, PdfError>)
    ensures
        match r {
            Ok(info) => inspect_text(decoded_text(bytes@)) == Ok::<InfoView, Seq<char>>(info@),
            Err(PdfError::ParsePdf { path: p, reason }) => {
                &&& p@ == path@
                &&& inspect_text(decoded_text(bytes@)) == Err::<InfoView, Seq<char>>(reason@)
            },
            Err(_) => false,
        },
        r matches Ok(info) ==> info.page_count + 10 <= usize::MAX,
{
    let text = decode_utf8_lossy(bytes);
    let c = chars_of(text.as_str());
    inspect_chars(path, &c)
}

/// What inspecting a loaded document finds, when it is a readable PDF.
pub open spec fn source_info(contents: Result<Vec<u8>, std::io::Error>) -> Option<InfoView> {
    match contents {
        Ok(bytes) => match inspect_text(decoded_text(bytes@)) {
            Ok(info) => Some(info),
            Err(_) => None,
        },
        Err(_) => None,
    }
}

/// `e` is the error that loading a document gives: `OpenPdf` with the read
/// error, or `ParsePdf` with the reason the text is not a PDF.
pub open spec fn is_load_error(
    path: Seq<char>,
    contents: Result<Vec<u8>, std::io::Error>,
    e: PdfError,
) -> bool {
    match contents {
        Err(io) => e matches PdfError::OpenPdf { path: p, source: e2 } && p@ == path && e2 == io,
        Ok(bytes) => match inspect_text(decoded_text(bytes@)) {
            Err(reason) => e matches PdfError::ParsePdf { path: p, reason: r2 } && p@ == path
                && r2@ == reason,
            Ok(_) => false,
        },
    }
}

/// Inspects a loaded document: a read error becomes `OpenPdf`, text that is
/// not a PDF becomes `ParsePdf`.
pub fn inspect_pdf(source: PdfSource) -> (r: Result<PdfInfo, PdfError>)
    ensures
        match source_info(source.contents) {
            None => r matches Err(e) && is_load_error(source.path@, source.contents, e),
            Some(info) => r matches Ok(i) && i@ == info,
        },
        r matches Ok(info) ==> info.page_count + 10 <= usize::MAX,
{
    let PdfSource { path, contents } = source;
    match contents {
        Err(e) => Err(PdfError::OpenPdf { path, source: e }),
        Ok(bytes) => inspect_pdf_bytes(path.as_str(), bytes.as_slice()),
    }
}

} // verus!
