//! The minimal PDF writer: a catalog, a page tree, one object per page,
//! a cross-reference table with byte offsets, and a trailer.
use vstd::prelude::*;
use vstd::utf8::encode_utf8;

use crate::text::{
    decimal, decimal_chars, decimal_i32, decimal_i32_chars, decimal_pad10, push_str_bytes,
    string_from_chars,
};

verus! {

/// A page of a written document: its media box width and height, and its
/// rotation if it has one.
pub type PageBox = (i32, i32, Option<i32>);

/// The UTF-8 encoding of a concatenation is the concatenation of the
/// encodings.
pub proof fn lemma_encode_concat(a: Seq<char>, b: Seq<char>)
    ensures
        encode_utf8(a + b) == encode_utf8(a) + encode_utf8(b),
    decreases a.len(),
{
    if a.len() == 0 {
        assert(a + b == b);
        assert(encode_utf8(a) + encode_utf8(b) == encode_utf8(b));
    } else {
        assert((a + b).drop_first() == a.drop_first() + b);
        assert((a + b)[0] == a[0]);
        lemma_encode_concat(a.drop_first(), b);
        assert(encode_utf8(a + b) == vstd::utf8::encode_scalar(a[0] as u32) + (encode_utf8(
            a.drop_first(),
        ) + encode_utf8(b)));
    }
}

/// The number of bytes of the UTF-8 encoding of `s`.
pub open spec fn byte_len(s: Seq<char>) -> nat {
    encode_utf8(s).len()
}

pub open spec fn header_text(version: Seq<char>) -> Seq<char> {
    "%PDF-"@ + version + "\n"@
}

pub open spec fn catalog_text() -> Seq<char> {
    "1 0 obj\n<< /Type /Catalog /Pages 2 0 R >>\nendobj\n"@
}

pub open spec fn kid_ref(id: nat) -> Seq<char> {
    decimal(id) + " 0 R"@
}

/// The references `3 0 R 4 0 R ...` to the first `n` page objects.
pub open spec fn kids_text(n: nat) -> Seq<char>
    decreases n,
{
    if n == 0 {
        seq![]
    } else if n == 1 {
        kid_ref(3)
    } else {
        kids_text((n - 1) as nat) + " "@ + kid_ref(n + 2)
    }
}

pub open spec fn pages_text(n: nat) -> Seq<char> {
    "2 0 obj\n<< /Type /Pages /Kids ["@ + kids_text(n) + "] /Count "@ + decimal(n)
        + " >>\nendobj\n"@
}

pub open spec fn rotate_text(r: Option<i32>) -> Seq<char> {
    match r {
        Some(d) => " /Rotate "@ + decimal_i32(d),
        None => seq![],
    }
}

pub open spec fn page_text(id: nat, p: PageBox) -> Seq<char> {
    decimal(id) + " 0 obj\n<< /Type /Page /Parent 2 0 R /MediaBox [0 0 "@ + decimal_i32(p.0)
        + " "@ + decimal_i32(p.1) + "]"@ + rotate_text(p.2) + " >>\nendobj\n"@
}

/// The objects of a document, in the order they are written.
pub open spec fn objects(pages: Seq<PageBox>) -> Seq<Seq<char>> {
    seq![catalog_text(), pages_text(pages.len())] + Seq::new(
        pages.len(),
        |i: int| page_text((i + 3) as nat, pages[i]),
    )
}

/// The text before object `j`.
pub open spec fn prefix_text(version: Seq<char>, objs: Seq<Seq<char>>, j: int) -> Seq<char> {
    header_text(version) + objs.take(j).flatten()
}

/// The entries of the cross-reference table for the first `k` objects.
pub open spec fn xref_entries(version: Seq<char>, objs: Seq<Seq<char>>, k: nat) -> Seq<char>
    decreases k,
{
    if k == 0 {
        seq![]
    } else {
        xref_entries(version, objs, (k - 1) as nat) + decimal_pad10(
            byte_len(prefix_text(version, objs, k - 1)),
        ) + " 00000 n \n"@
    }
}

/// The complete text of a document with the given version and pages.
pub open spec fn document_text(version: Seq<char>, pages: Seq<PageBox>) -> Seq<char> {
    let objs = objects(pages);
    let body = prefix_text(version, objs, objs.len() as int);
    let size = objs.len() + 1;
    body + "xref\n0 "@ + decimal(size) + "\n0000000000 65535 f \n"@ + xref_entries(
        version,
        objs,
        objs.len(),
    ) + "trailer\n<< /Root 1 0 R /Size "@ + decimal(size) + " >>\nstartxref\n"@ + decimal(
        byte_len(body),
    ) + "\n%%EOF\n"@
}

/// The text of the metadata fields appended after a document.
pub open spec fn metadata_text(title: Option<Seq<char>>, author: Option<Seq<char>>) -> Seq<
    char,
> {
    (match title {
        Some(t) => "\n/Title ("@ + t + ")"@,
        None => seq![],
    }) + (match author {
        Some(a) => "\n/Author ("@ + a + ")"@,
        None => seq![],
    })
}

/// The pages of a simple document: `n` pages of 200 by 200 points, the
/// `i`-th rotated by `rotations[i]` where that is given.
pub open spec fn simple_pages(n: nat, rotations: Seq<Option<i32>>) -> Seq<PageBox> {
    Seq::new(
        n,
        |i: int|
            (200i32, 200i32, if i < rotations.len() {
                rotations[i]
            } else {
                None
            }),
    )
}

/// The bytes of a simple document of `n` unrotated pages.
pub open spec fn simple_pdf_bytes(n: nat, version: Seq<char>) -> Seq<u8> {
    encode_utf8(document_text(version, simple_pages(n, seq![])))
}

/// Appends the UTF-8 encoding of `v` to `out`.
fn push_chars_bytes(out: &mut Vec<u8>, v: &Vec<char>)
    ensures
        final(out)@ == old(out)@ + encode_utf8(v@),
{
    let s = string_from_chars(v.as_slice());
    push_str_bytes(out, s.as_str());
}

fn push_decimal(out: &mut Vec<u8>, n: u64)
    ensures
        final(out)@ == old(out)@ + encode_utf8(decimal(n as nat)),
{
    let d = decimal_chars(n);
    push_chars_bytes(out, &d);
}

fn push_decimal_i32(out: &mut Vec<u8>, n: i32)
    ensures
        final(out)@ == old(out)@ + encode_utf8(decimal_i32(n)),
{
    let d = decimal_i32_chars(n);
    push_chars_bytes(out, &d);
}

fn push_decimal_pad10(out: &mut Vec<u8>, n: u64)
    ensures
        final(out)@ == old(out)@ + encode_utf8(decimal_pad10(n as nat)),
{
    let d = decimal_chars(n);
    let mut v: Vec<char> = Vec::new();
    if d.len() < 10 {
        let k = 10 - d.len();
        let mut i: usize = 0;
        while i < k
            invariant
                0 <= i <= k,
                v@ == Seq::new(i as nat, |j: int| '0'),
            decreases k - i,
        {
            v.push('0');
            i = i + 1;
            assert(v@ =~= Seq::new(i as nat, |j: int| '0'));
        }
    }
    let mut d2 = d;
    v.append(&mut d2);
    push_chars_bytes(out, &v);
}

/// Appends `s` after `base + text`.
fn put_str(out: &mut Vec<u8>, s: &str, Ghost(base): Ghost<Seq<u8>>, Ghost(text): Ghost<Seq<char>>) -> (r:
    Ghost<Seq<char>>)
    requires
        old(out)@ == base + encode_utf8(text),
    ensures
        r@ == text + s@,
        final(out)@ == base + encode_utf8(r@),
{
    push_str_bytes(out, s);
    proof {
        lemma_encode_concat(text, s@);
    }
    Ghost(text + s@)
}

/// Appends `n` in decimal after `base + text`.
fn put_decimal(out: &mut Vec<u8>, n: u64, Ghost(base): Ghost<Seq<u8>>, Ghost(text): Ghost<Seq<char>>) -> (r:
    Ghost<Seq<char>>)
    requires
        old(out)@ == base + encode_utf8(text),
    ensures
        r@ == text + decimal(n as nat),
        final(out)@ == base + encode_utf8(r@),
{
    push_decimal(out, n);
    proof {
        lemma_encode_concat(text, decimal(n as nat));
    }
    Ghost(text + decimal(n as nat))
}

/// Appends a signed `n` in decimal after `base + text`.
fn put_decimal_i32(out: &mut Vec<u8>, n: i32, Ghost(base): Ghost<Seq<u8>>, Ghost(text): Ghost<Seq<char>>) -> (r:
    Ghost<Seq<char>>)
    requires
        old(out)@ == base + encode_utf8(text),
    ensures
        r@ == text + decimal_i32(n),
        final(out)@ == base + encode_utf8(r@),
{
    push_decimal_i32(out, n);
    proof {
        lemma_encode_concat(text, decimal_i32(n));
    }
    Ghost(text + decimal_i32(n))
}

/// Writes the page-tree object for `n` pages.
fn write_pages_object(out: &mut Vec<u8>, n: usize)
    requires
        n + 3 <= usize::MAX,
    ensures
        final(out)@ == old(out)@ + encode_utf8(pages_text(n as nat)),
{
    let ghost start = out@;
    push_str_bytes(out, "2 0 obj\n<< /Type /Pages /Kids [");
    let ghost mut text: Seq<char> = "2 0 obj\n<< /Type /Pages /Kids ["@;
    let mut i: usize = 0;
    while i < n
        invariant
            0 <= i <= n,
            n + 3 <= usize::MAX,
            out@ == start + encode_utf8(text),
            text == "2 0 obj\n<< /Type /Pages /Kids ["@ + kids_text(i as nat),
        decreases n - i,
    {
        let ghost before = text;
        if i > 0 {
            push_str_bytes(out, " ");
            proof {
                lemma_encode_concat(text, " "@);
                text = text + " "@;
            }
        }
        push_decimal(out, (i + 3) as u64);
        push_str_bytes(out, " 0 R");
        proof {
            lemma_encode_concat(text, decimal((i + 3) as nat));
            lemma_encode_concat(text + decimal((i + 3) as nat), " 0 R"@);
            text = text + decimal((i + 3) as nat) + " 0 R"@;
            if i == 0 {
                assert(kids_text(1) == kid_ref(3));
                assert(text == before + kid_ref(3));
            } else {
                assert(kids_text((i + 1) as nat) == kids_text(i as nat) + " "@ + kid_ref(
                    (i + 3) as nat,
                ));
            }
        }
        i = i + 1;
    }
    push_str_bytes(out, "] /Count ");
    push_decimal(out, n as u64);
    push_str_bytes(out, " >>\nendobj\n");
    proof {
        lemma_encode_concat(text, "] /Count "@);
        lemma_encode_concat(text + "] /Count "@, decimal(n as nat));
        lemma_encode_concat(text + "] /Count "@ + decimal(n as nat), " >>\nendobj\n"@);
    }
}

/// Writes the object of page `id`.
fn write_page_object(out: &mut Vec<u8>, id: usize, p: PageBox)
    ensures
        final(out)@ == old(out)@ + encode_utf8(page_text(id as nat, p)),
{
    let ghost base = out@;
    assert(out@ == base + encode_utf8(Seq::<char>::empty()));
    let Ghost(t) = put_decimal(out, id as u64, Ghost(base), Ghost(Seq::<char>::empty()));
    let Ghost(t) = put_str(
        out,
        " 0 obj\n<< /Type /Page /Parent 2 0 R /MediaBox [0 0 ",
        Ghost(base),
        Ghost(t),
    );
    let Ghost(t) = put_decimal_i32(out, p.0, Ghost(base), Ghost(t));
    let Ghost(t) = put_str(out, " ", Ghost(base), Ghost(t));
    let Ghost(t) = put_decimal_i32(out, p.1, Ghost(base), Ghost(t));
    let Ghost(t) = put_str(out, "]", Ghost(base), Ghost(t));
    let ghost mut text = t;
    match p.2 {
        Some(d) => {
            let Ghost(t2) = put_str(out, " /Rotate ", Ghost(base), Ghost(text));
            let Ghost(t3) = put_decimal_i32(out, d, Ghost(base), Ghost(t2));
            proof {
                text = t3;
            }
        },
        None => {},
    }
    let Ghost(t) = put_str(out, " >>\nendobj\n", Ghost(base), Ghost(text));
    assert(t =~= page_text(id as nat, p));
}

/// Appends `s`, keeping track of the text written so far.
fn emit_str(out: &mut Vec<u8>, s: &str, Ghost(text): Ghost<Seq<char>>) -> (r: Ghost<Seq<char>>)
    requires
        old(out)@ == encode_utf8(text),
    ensures
        r@ == text + s@,
        final(out)@ == encode_utf8(r@),
{
    push_str_bytes(out, s);
    proof {
        lemma_encode_concat(text, s@);
    }
    Ghost(text + s@)
}

/// Appends `n` in decimal, keeping track of the text written so far.
fn emit_decimal(out: &mut Vec<u8>, n: u64, Ghost(text): Ghost<Seq<char>>) -> (r: Ghost<
    Seq<char>,
>)
    requires
        old(out)@ == encode_utf8(text),
    ensures
        r@ == text + decimal(n as nat),
        final(out)@ == encode_utf8(r@),
{
    push_decimal(out, n);
    proof {
        lemma_encode_concat(text, decimal(n as nat));
    }
    Ghost(text + decimal(n as nat))
}

/// The text before object `j + 1` is the text before object `j` followed
/// by object `j`.
pub proof fn lemma_prefix_step(version: Seq<char>, objs: Seq<Seq<char>>, j: int)
    requires
        0 <= j < objs.len(),
    ensures
        prefix_text(version, objs, j + 1) == prefix_text(version, objs, j) + objs[j],
{
    assert(objs.take(j + 1) == objs.take(j).push(objs[j]));
    objs.take(j).lemma_flatten_push(objs[j]);
}

/// Writes a document with the given version and pages.
pub fn write_document(version: &str, pages: &[PageBox]) -> (out: Vec<u8>)
    requires
        pages@.len() + 3 <= usize::MAX,
    ensures
        out@ == encode_utf8(document_text(version@, pages@)),
{
    let n = pages.len();
    let ghost objs = objects(pages@);
    let mut out: Vec<u8> = Vec::new();
    let Ghost(text) = emit_str(&mut out, "%PDF-", Ghost(Seq::<char>::empty()));
    let Ghost(text) = emit_str(&mut out, version, Ghost(text));
    let Ghost(text) = emit_str(&mut out, "\n", Ghost(text));
    proof {
        assert(objs.take(0) == Seq::<Seq<char>>::empty());
        assert(text == prefix_text(version@, objs, 0));
    }
    let mut offsets: Vec<usize> = Vec::new();
    // The catalog.
    offsets.push(out.len());
    let Ghost(text) = emit_str(
        &mut out,
        "1 0 obj\n<< /Type /Catalog /Pages 2 0 R >>\nendobj\n",
        Ghost(text),
    );
    proof {
        lemma_prefix_step(version@, objs, 0);
    }
    // The page tree.
    offsets.push(out.len());
    let ghost before = out@;
    write_pages_object(&mut out, n);
    proof {
        lemma_encode_concat(text, pages_text(n as nat));
        lemma_prefix_step(version@, objs, 1);
    }
    let ghost mut text = text + pages_text(n as nat);
    // One object per page.
    let mut i: usize = 0;
    while i < n
        invariant
            0 <= i <= n,
            n == pages@.len(),
            n + 3 <= usize::MAX,
            objs == objects(pages@),
            text == prefix_text(version@, objs, i + 2),
            out@ == encode_utf8(text),
            offsets@.len() == i + 2,
            forall|k: int|
                0 <= k < i + 2 ==> offsets@[k] == byte_len(prefix_text(version@, objs, k)),
        decreases n - i,
    {
        offsets.push(out.len());
        write_page_object(&mut out, i + 3, pages[i]);
        proof {
            assert(objs[i + 2] == page_text((i + 3) as nat, pages@[i as int]));
            lemma_encode_concat(text, objs[i + 2]);
            lemma_prefix_step(version@, objs, i + 2);
            text = text + objs[i + 2];
        }
        i = i + 1;
    }
    let ghost body = text;
    assert(objs.len() == n + 2);
    assert(objs.take(objs.len() as int) == objs);
    let xref_start = out.len();
    let size = n + 3;
    let Ghost(text) = emit_str(&mut out, "xref\n0 ", Ghost(text));
    let Ghost(text) = emit_decimal(&mut out, size as u64, Ghost(text));
    let Ghost(text) = emit_str(&mut out, "\n0000000000 65535 f \n", Ghost(text));
    let ghost head = text;
    let mut k: usize = 0;
    let ghost mut text = text;
    while k < offsets.len()
        invariant
            0 <= k <= offsets@.len(),
            offsets@.len() == objs.len(),
            forall|m: int|
                0 <= m < objs.len() ==> offsets@[m] == byte_len(prefix_text(version@, objs, m)),
            text == head + xref_entries(version@, objs, k as nat),
            out@ == encode_utf8(text),
        decreases offsets@.len() - k,
    {
        push_decimal_pad10(&mut out, offsets[k] as u64);
        proof {
            lemma_encode_concat(text, decimal_pad10(offsets@[k as int] as nat));
            text = text + decimal_pad10(offsets@[k as int] as nat);
        }
        let Ghost(t2) = emit_str(&mut out, " 00000 n \n", Ghost(text));
        proof {
            text = t2;
        }
        k = k + 1;
    }
    let Ghost(text) = emit_str(&mut out, "trailer\n<< /Root 1 0 R /Size ", Ghost(text));
    let Ghost(text) = emit_decimal(&mut out, size as u64, Ghost(text));
    let Ghost(text) = emit_str(&mut out, " >>\nstartxref\n", Ghost(text));
    let Ghost(text) = emit_decimal(&mut out, xref_start as u64, Ghost(text));
    let Ghost(text) = emit_str(&mut out, "\n%%EOF\n", Ghost(text));
    proof {
        assert(text == document_text(version@, pages@));
    }
    out
}

/// How one character of a label is written: the characters that could end
/// an entry or split its fields (`(`, `)`, `|`, line breaks), and the
/// escape character `\` itself, as the octal escapes `\ddd` of PDF
/// strings; any other character as it is.
pub open spec fn label_char_text(c: char) -> Seq<char> {
    if c == '\\' {
        seq!['\\', '1', '3', '4']
    } else if c == '(' {
        seq!['\\', '0', '5', '0']
    } else if c == ')' {
        seq!['\\', '0', '5', '1']
    } else if c == '|' {
        seq!['\\', '1', '7', '4']
    } else if c == '\n' {
        seq!['\\', '0', '1', '2']
    } else if c == '\r' {
        seq!['\\', '0', '1', '5']
    } else {
        seq![c]
    }
}

/// How a label is written inside an entry: each character as
/// `label_char_text` writes it.
pub open spec fn label_text(s: Seq<char>) -> Seq<char>
    decreases s.len(),
{
    if s.len() == 0 {
        seq![]
    } else {
        label_text(s.drop_last()) + label_char_text(s.last())
    }
}

/// A character that an entry's label is written with as it is.
pub open spec fn label_safe(c: char) -> bool {
    c != '\\' && c != '(' && c != ')' && c != '|' && c != '\n' && c != '\r'
}

/// Writes a label as it stands inside an entry.
pub fn encode_label(label: &str) -> (r: String)
    ensures
        r@ == label_text(label@),
{
    let c = crate::text::chars_of(label);
    let mut out: Vec<char> = Vec::new();
    let mut i: usize = 0;
    while i < c.len()
        invariant
            0 <= i <= c@.len(),
            c@ == label@,
            out@ == label_text(c@.take(i as int)),
        decreases c@.len() - i,
    {
        let ch = c[i];
        let ghost before = out@;
        if ch == '\\' {
            out.push('\\');
            out.push('1');
            out.push('3');
            out.push('4');
        } else if ch == '(' {
            out.push('\\');
            out.push('0');
            out.push('5');
            out.push('0');
        } else if ch == ')' {
            out.push('\\');
            out.push('0');
            out.push('5');
            out.push('1');
        } else if ch == '|' {
            out.push('\\');
            out.push('1');
            out.push('7');
            out.push('4');
        } else if ch == '\n' {
            out.push('\\');
            out.push('0');
            out.push('1');
            out.push('2');
        } else if ch == '\r' {
            out.push('\\');
            out.push('0');
            out.push('1');
            out.push('5');
        } else {
            out.push(ch);
        }
        proof {
            assert(c@.take(i + 1).drop_last() =~= c@.take(i as int));
            assert(c@.take(i + 1).last() == ch);
            assert(out@ =~= before + label_char_text(ch));
        }
        i = i + 1;
    }
    assert(c@.take(c@.len() as int) =~= c@);
    string_from_chars(out.as_slice())
}

/// A written label holds none of the characters that end an entry or
/// split its fields: no `(`, `)`, `|` and no line break.
pub proof fn law_label_keeps_entries_whole(s: Seq<char>)
    ensures
        forall|i: int|
            0 <= i < label_text(s).len() ==> {
                let c = #[trigger] label_text(s)[i];
                c != '(' && c != ')' && c != '|' && c != '\n' && c != '\r'
            },
    decreases s.len(),
{
    if s.len() > 0 {
        law_label_keeps_entries_whole(s.drop_last());
        let a = label_text(s.drop_last());
        let b = label_char_text(s.last());
        assert forall|i: int| 0 <= i < label_text(s).len() implies {
            let c = #[trigger] label_text(s)[i];
            c != '(' && c != ')' && c != '|' && c != '\n' && c != '\r'
        } by {
            if i < a.len() {
                assert(label_text(s)[i] == a[i]);
            } else {
                assert(label_text(s)[i] == b[i - a.len()]);
            }
        }
    }
}

/// A label made only of characters written as they are is written
/// unchanged.
pub proof fn law_safe_label_unchanged(s: Seq<char>)
    requires
        forall|i: int| 0 <= i < s.len() ==> label_safe(#[trigger] s[i]),
    ensures
        label_text(s) == s,
    decreases s.len(),
{
    if s.len() > 0 {
        law_safe_label_unchanged(s.drop_last());
        assert(label_safe(s[s.len() - 1]));
        assert(s.drop_last().push(s.last()) =~= s);
    }
}

/// A character that a written label shows only where the label has it:
/// neither the escape character nor a digit of an escape.
pub open spec fn verbatim_char(c: char) -> bool {
    c != '\\' && !crate::text::is_digit(c)
}

/// Where a written label ends in `j` characters shown as they are, the
/// label itself ends in those characters.
proof fn lemma_label_suffix(s: Seq<char>, j: nat)
    requires
        j <= label_text(s).len(),
        forall|i: int|
            label_text(s).len() - j <= i < label_text(s).len() ==> verbatim_char(
                #[trigger] label_text(s)[i],
            ),
    ensures
        j <= s.len(),
        s.subrange(s.len() - j, s.len() as int) == label_text(s).subrange(
            label_text(s).len() - j,
            label_text(s).len() as int,
        ),
    decreases s.len(),
{
    let t = label_text(s);
    if j == 0 {
        assert(s.subrange(s.len() as int, s.len() as int) =~= t.subrange(
            t.len() as int,
            t.len() as int,
        ));
    } else {
        let a = label_text(s.drop_last());
        let c = s.last();
        let b = label_char_text(c);
        assert(t == a + b);
        assert(verbatim_char(t[t.len() - 1]));
        assert(t[t.len() - 1] == b[b.len() - 1]);
        assert(label_safe(c));
        assert(b == seq![c]);
        assert forall|i: int| a.len() - (j - 1) <= i < a.len() implies verbatim_char(
            #[trigger] a[i],
        ) by {
            assert(a[i] == t[i]);
        }
        lemma_label_suffix(s.drop_last(), (j - 1) as nat);
        let sp = s.drop_last();
        assert(s.subrange(s.len() - j, s.len() as int) =~= sp.subrange(
            sp.len() - (j - 1),
            sp.len() as int,
        ).push(c));
        assert(t.subrange(t.len() - j, t.len() as int) =~= a.subrange(
            a.len() - (j - 1),
            a.len() as int,
        ).push(c));
    }
}

/// A text of characters shown as they are occurs in a written label only
/// where it occurs in the label.
pub proof fn lemma_label_keeps_pattern(s: Seq<char>, p: Seq<char>)
    requires
        p.len() > 0,
        forall|i: int| 0 <= i < p.len() ==> verbatim_char(#[trigger] p[i]),
        crate::text::contains_seq(label_text(s), p),
    ensures
        crate::text::contains_seq(s, p),
    decreases s.len(),
{
    let t = label_text(s);
    let q = choose|q: int| crate::text::occurs_at(t, p, q);
    assert(crate::text::occurs_at(t, p, q));
    if s.len() == 0 {
        assert(false);
    } else {
        let sp = s.drop_last();
        let a = label_text(sp);
        let c = s.last();
        let b = label_char_text(c);
        assert(t == a + b);
        if q + p.len() <= a.len() {
            assert(a.subrange(q, q + p.len()) =~= t.subrange(q, q + p.len()));
            assert(crate::text::occurs_at(a, p, q));
            lemma_label_keeps_pattern(sp, p);
            let k = choose|k: int| crate::text::occurs_at(sp, p, k);
            assert(s.subrange(k, k + p.len()) =~= sp.subrange(k, k + p.len()));
            assert(crate::text::occurs_at(s, p, k));
        } else {
            let last = q + p.len() - 1;
            assert(t.subrange(q, q + p.len())[p.len() - 1] == t[last]);
            assert(verbatim_char(p[p.len() - 1]));
            assert(t[last] == b[last - a.len()]);
            assert(label_safe(c));
            assert(b == seq![c]);
            assert(last == t.len() - 1);
            assert forall|i: int| t.len() - p.len() <= i < t.len() implies verbatim_char(
                #[trigger] t[i],
            ) by {
                assert(t.subrange(q, q + p.len())[i - q] == t[i]);
            }
            lemma_label_suffix(s, p.len());
            assert(t.subrange(t.len() - p.len(), t.len() as int) =~= p);
            assert(crate::text::occurs_at(s, p, s.len() - p.len()));
        }
    }
}

/// One `/IndexEntry (label|start)` line.
pub open spec fn index_entry_text(e: (Seq<char>, nat)) -> Seq<char> {
    "\n/IndexEntry ("@ + label_text(e.0) + "|"@ + decimal(e.1) + ")"@
}

/// One `/DestEntry (name|page|label)` line.
pub open spec fn dest_entry_text(e: (Seq<char>, nat, Seq<char>)) -> Seq<char> {
    "\n/DestEntry ("@ + e.0 + "|"@ + decimal(e.1) + "|"@ + label_text(e.2) + ")"@
}

/// The mathematical content of index entries.
pub open spec fn index_view(entries: Seq<(String, usize)>) -> Seq<(Seq<char>, nat)> {
    entries.map_values(|e: (String, usize)| (e.0@, e.1 as nat))
}

/// The mathematical content of destination entries.
pub open spec fn dest_view(entries: Seq<(String, usize, String)>) -> Seq<(Seq<char>, nat, Seq<char>)> {
    entries.map_values(|e: (String, usize, String)| (e.0@, e.1 as nat, e.2@))
}

/// The mathematical content of link or outline entries.
pub open spec fn triple_view(entries: Seq<(String, String, String)>) -> Seq<
    (Seq<char>, Seq<char>, Seq<char>),
> {
    entries.map_values(|e: (String, String, String)| (e.0@, e.1@, e.2@))
}

fn write_index_entry(out: &mut Vec<u8>, name: &String, page: usize)
    ensures
        final(out)@ == old(out)@ + encode_utf8(index_entry_text((name@, page as nat))),
{
    let label = encode_label(name.as_str());
    push_str_bytes(out, "\n/IndexEntry (");
    push_str_bytes(out, label.as_str());
    push_str_bytes(out, "|");
    push_decimal(out, page as u64);
    push_str_bytes(out, ")");
    proof {
        let a = "\n/IndexEntry ("@;
        let l = label_text(name@);
        lemma_encode_concat(a, l);
        lemma_encode_concat(a + l, "|"@);
        lemma_encode_concat(a + l + "|"@, decimal(page as nat));
        lemma_encode_concat(a + l + "|"@ + decimal(page as nat), ")"@);
    }
}

fn write_dest_entry(out: &mut Vec<u8>, e: &(String, usize, String))
    ensures
        final(out)@ == old(out)@ + encode_utf8(dest_entry_text((e.0@, e.1 as nat, e.2@))),
{
    let label = encode_label(e.2.as_str());
    push_str_bytes(out, "\n/DestEntry (");
    push_str_bytes(out, e.0.as_str());
    push_str_bytes(out, "|");
    push_decimal(out, e.1 as u64);
    push_str_bytes(out, "|");
    push_str_bytes(out, label.as_str());
    push_str_bytes(out, ")");
    proof {
        let a = "\n/DestEntry ("@;
        let l = label_text(e.2@);
        lemma_encode_concat(a, e.0@);
        lemma_encode_concat(a + e.0@, "|"@);
        lemma_encode_concat(a + e.0@ + "|"@, decimal(e.1 as nat));
        lemma_encode_concat(a + e.0@ + "|"@ + decimal(e.1 as nat), "|"@);
        lemma_encode_concat(a + e.0@ + "|"@ + decimal(e.1 as nat) + "|"@, l);
        lemma_encode_concat(a + e.0@ + "|"@ + decimal(e.1 as nat) + "|"@ + l, ")"@);
    }
}

/// The text of the index entries appended after a merged document.
pub open spec fn index_entries_text(entries: Seq<(Seq<char>, nat)>) -> Seq<char>
    decreases entries.len(),
{
    if entries.len() == 0 {
        seq![]
    } else {
        index_entries_text(entries.drop_last()) + index_entry_text(entries.last())
    }
}

/// The text of the destination entries appended after a merged document.
pub open spec fn dest_entries_text(entries: Seq<(Seq<char>, nat, Seq<char>)>) -> Seq<char>
    decreases entries.len(),
{
    if entries.len() == 0 {
        seq![]
    } else {
        dest_entries_text(entries.drop_last()) + dest_entry_text(entries.last())
    }
}

/// The rotation of each of `n` pages when the pages listed in `rotated`
/// (1-based) are turned by `degrees`.
pub open spec fn rotation_list(n: nat, rotated: Seq<usize>, degrees: i32) -> Seq<Option<i32>> {
    Seq::new(
        n,
        |i: int|
            if rotated.contains((i + 1) as usize) {
                Some(degrees)
            } else {
                None
            },
    )
}

/// Writes a document of `page_count` pages of 200 by 200 points, the
/// `i`-th rotated by `per_page_rotation[i]` where that is given.
pub fn write_pdf_with_page_rotations(
    page_count: usize,
    version: &str,
    per_page_rotation: &[Option<i32>],
) -> (out: Vec<u8>)
    requires
        page_count + 3 <= usize::MAX,
    ensures
        out@ == encode_utf8(
            document_text(version@, simple_pages(page_count as nat, per_page_rotation@)),
        ),
{
    let mut pages: Vec<PageBox> = Vec::new();
    let mut i: usize = 0;
    while i < page_count
        invariant
            0 <= i <= page_count,
            pages@ == simple_pages(i as nat, per_page_rotation@),
        decreases page_count - i,
    {
        let rotate = if i < per_page_rotation.len() {
            per_page_rotation[i]
        } else {
            None
        };
        pages.push((200, 200, rotate));
        i = i + 1;
        assert(pages@ =~= simple_pages(i as nat, per_page_rotation@));
    }
    write_document(version, pages.as_slice())
}

proof fn lemma_push_contains(s: Seq<usize>, x: usize, y: usize)
    ensures
        s.push(x).contains(y) <==> s.contains(y) || x == y,
{
    if s.contains(y) {
        let w = choose|w: int| 0 <= w < s.len() && s[w] == y;
        assert(s.push(x)[w] == y);
    }
    if x == y {
        assert(s.push(x)[s.len() as int] == y);
    }
    if s.push(x).contains(y) && x != y {
        let w = choose|w: int| 0 <= w < s.len() + 1 && s.push(x)[w] == y;
        assert(s[w] == y);
    }
}

/// Writes a document of `page_count` pages in which the pages listed in
/// `rotated_pages` (1-based; others are ignored) are turned by `degrees`.
pub fn write_rotated_simple_pdf(
    page_count: usize,
    version: &str,
    rotated_pages: &[usize],
    degrees: i32,
) -> (out: Vec<u8>)
    requires
        page_count + 3 <= usize::MAX,
    ensures
        out@ == encode_utf8(
            document_text(
                version@,
                simple_pages(
                    page_count as nat,
                    rotation_list(page_count as nat, rotated_pages@, degrees),
                ),
            ),
        ),
{
    let mut per_page: Vec<Option<i32>> = Vec::new();
    let mut i: usize = 0;
    while i < page_count
        invariant
            0 <= i <= page_count,
            per_page@ == Seq::new(i as nat, |k: int| None::<i32>),
        decreases page_count - i,
    {
        per_page.push(None);
        i = i + 1;
        assert(per_page@ =~= Seq::new(i as nat, |k: int| None::<i32>));
    }
    let mut j: usize = 0;
    while j < rotated_pages.len()
        invariant
            0 <= j <= rotated_pages@.len(),
            per_page@.len() == page_count,
            forall|k: int|
                0 <= k < page_count ==> #[trigger] per_page@[k] == if rotated_pages@.take(
                    j as int,
                ).contains((k + 1) as usize) {
                    Some(degrees)
                } else {
                    None
                },
        decreases rotated_pages@.len() - j,
    {
        let page = rotated_pages[j];
        if page >= 1 && page <= page_count {
            per_page.set(page - 1, Some(degrees));
        }
        proof {
            assert(rotated_pages@.take(j + 1) == rotated_pages@.take(j as int).push(page));
            assert forall|k: int| 0 <= k < page_count implies #[trigger] per_page@[k] == if rotated_pages@.take(
                j + 1,
            ).contains((k + 1) as usize) {
                Some(degrees)
            } else {
                None
            } by {
                lemma_push_contains(rotated_pages@.take(j as int), page, (k + 1) as usize);
            }
        }
        j = j + 1;
    }
    proof {
        assert(rotated_pages@.take(rotated_pages@.len() as int) == rotated_pages@);
        assert(per_page@ =~= rotation_list(page_count as nat, rotated_pages@, degrees));
        assert(simple_pages(page_count as nat, per_page@) =~= simple_pages(
            page_count as nat,
            rotation_list(page_count as nat, rotated_pages@, degrees),
        ));
    }
    write_pdf_with_page_rotations(page_count, version, per_page.as_slice())
}

/// Writes a document of `page_count` pages followed by the given title and
/// author fields.
pub fn write_simple_pdf_with_metadata(
    page_count: usize,
    version: &str,
    title: Option<&str>,
    author: Option<&str>,
) -> (out: Vec<u8>)
    requires
        page_count + 3 <= usize::MAX,
    ensures
        out@ == encode_utf8(
            document_text(version@, simple_pages(page_count as nat, seq![])) + metadata_text(
                match title {
                    Some(t) => Some(t@),
                    None => None,
                },
                match author {
                    Some(a) => Some(a@),
                    None => None,
                },
            ),
        ),
{
    let unrotated: Vec<usize> = Vec::new();
    let mut bytes = write_rotated_simple_pdf(page_count, version, unrotated.as_slice(), 0);
    let ghost doc = document_text(version@, simple_pages(page_count as nat, seq![]));
    proof {
        let empty: Seq<usize> = unrotated@;
        assert(rotation_list(page_count as nat, empty, 0) =~= Seq::new(
            page_count as nat,
            |i: int| None::<i32>,
        ));
        assert(simple_pages(page_count as nat, rotation_list(page_count as nat, empty, 0))
            =~= simple_pages(page_count as nat, seq![]));
    }
    let ghost mut text = doc;
    if let Some(t) = title {
        let Ghost(t1) = emit_str(&mut bytes, "\n/Title (", Ghost(text));
        let Ghost(t2) = emit_str(&mut bytes, t, Ghost(t1));
        let Ghost(t3) = emit_str(&mut bytes, ")", Ghost(t2));
        proof {
            text = t3;
        }
    }
    if let Some(a) = author {
        let Ghost(t1) = emit_str(&mut bytes, "\n/Author (", Ghost(text));
        let Ghost(t2) = emit_str(&mut bytes, a, Ghost(t1));
        let Ghost(t3) = emit_str(&mut bytes, ")", Ghost(t2));
        proof {
            text = t3;
        }
    }
    proof {
        let mt = match title {
            Some(t) => Some(t@),
            None => None::<Seq<char>>,
        };
        let ma = match author {
            Some(a) => Some(a@),
            None => None::<Seq<char>>,
        };
        assert(text =~= doc + metadata_text(mt, ma));
    }
    bytes
}

/// Writes a document of `page_count` blank pages with the given version.
pub fn write_simple_pdf(page_count: usize, version: &str) -> (out: Vec<u8>)
    requires
        page_count + 3 <= usize::MAX,
    ensures
        out@ == simple_pdf_bytes(page_count as nat, version@),
{
    let out = write_simple_pdf_with_metadata(page_count, version, None, None);
    assert(metadata_text(None, None) =~= Seq::<char>::empty());
    assert(document_text(version@, simple_pages(page_count as nat, seq![])) + Seq::<char>::empty()
        =~= document_text(version@, simple_pages(page_count as nat, seq![])));
    out
}

/// Writes a one-page document whose page is `width` by `height` points.
pub fn write_single_page_pdf_with_size(version: &str, width: i32, height: i32) -> (out: Vec<u8>)
    ensures
        out@ == encode_utf8(document_text(version@, seq![(width, height, None)])),
{
    let mut pages: Vec<PageBox> = Vec::new();
    pages.push((width, height, None));
    write_document(version, pages.as_slice())
}

/// What a one-page document holds before its page's width: the header,
/// the catalog, the page tree, and its page object up to the media box
/// numbers.
pub open spec fn sized_head(version: Seq<char>) -> Seq<char> {
    header_text(version) + catalog_text() + pages_text(1) + decimal(3)
        + " 0 obj\n<< /Type /Page /Parent 2 0 R /MediaBox [0 0 "@
}

/// What a one-page document holds between its page object and the offset
/// of its cross-reference table.
pub open spec fn sized_tail(version: Seq<char>) -> Seq<char> {
    "xref\n0 "@ + decimal(4) + "\n0000000000 65535 f \n"@ + xref_entries(
        version,
        objects(simple_pages(1, seq![])),
        3,
    ) + "trailer\n<< /Root 1 0 R /Size "@ + decimal(4) + " >>\nstartxref\n"@
}

/// The objects of a one-page document up to its page object.
pub open spec fn sized_body(version: Seq<char>, width: i32, height: i32) -> Seq<char> {
    sized_head(version) + decimal_i32(width) + " "@ + decimal_i32(height) + "]"@
        + " >>\nendobj\n"@
}

/// A one-page document of any size is the same text around its page's
/// width and height: what comes before them, what comes after them up to
/// the cross-reference offset, and the closing line do not depend on the
/// size; only the two numbers and that offset do. At 200 by 200 points it
/// is the simple one-page document.
pub proof fn law_sized_page_is_simple_page_resized(version: Seq<char>, width: i32, height: i32)
    ensures
        document_text(version, seq![(width, height, None)]) == sized_body(version, width, height)
            + sized_tail(version) + decimal(byte_len(sized_body(version, width, height)))
            + "\n%%EOF\n"@,
        document_text(version, seq![(width, height, None)]) == document_text(
            version,
            simple_pages(1, seq![]).update(0, (width, height, None)),
        ),
        width == 200 && height == 200 ==> encode_utf8(
            document_text(version, seq![(width, height, None)]),
        ) == simple_pdf_bytes(1, version),
{
    let pages: Seq<PageBox> = seq![(width, height, None)];
    let simple = simple_pages(1, seq![]);
    let objs = objects(pages);
    let objs1 = objects(simple);
    assert(objs.len() == 3);
    assert(objs[0] == catalog_text());
    assert(objs[1] == pages_text(1));
    assert(objs1[0] == catalog_text());
    assert(objs1[1] == pages_text(1));
    assert(objs.take(0) =~= objs1.take(0));
    assert(objs.take(1) =~= objs1.take(1));
    assert(objs.take(2) =~= objs1.take(2));
    assert(xref_entries(version, objs, 0) == xref_entries(version, objs1, 0));
    assert(xref_entries(version, objs, 1) == xref_entries(version, objs1, 1));
    assert(xref_entries(version, objs, 2) == xref_entries(version, objs1, 2));
    assert(xref_entries(version, objs, 3) == xref_entries(version, objs1, 3));
    assert(objs.take(0).flatten() =~= Seq::<char>::empty());
    lemma_prefix_step(version, objs, 0);
    lemma_prefix_step(version, objs, 1);
    lemma_prefix_step(version, objs, 2);
    assert(prefix_text(version, objs, 0) =~= header_text(version));
    assert(objs[2] == page_text(3, (width, height, None)));
    assert(rotate_text(None) =~= Seq::<char>::empty());
    let body = prefix_text(version, objs, 3);
    assert(body =~= sized_body(version, width, height));
    assert(objs.take(3) =~= objs);
    assert(document_text(version, pages) =~= sized_body(version, width, height) + sized_tail(
        version,
    ) + decimal(byte_len(sized_body(version, width, height))) + "\n%%EOF\n"@);
    assert(simple.update(0, (width, height, None)) =~= pages);
    if width == 200 && height == 200 {
        assert(simple =~= pages);
    }
}

/// Writing a simple document with metadata writes the simple document and
/// then the fields; with neither field it writes the simple document.
pub proof fn law_metadata_follows_simple_document(
    n: nat,
    version: Seq<char>,
    title: Option<Seq<char>>,
    author: Option<Seq<char>>,
)
    ensures
        encode_utf8(document_text(version, simple_pages(n, seq![])) + metadata_text(title, author))
            == simple_pdf_bytes(n, version) + encode_utf8(metadata_text(title, author)),
        title is None && author is None ==> encode_utf8(
            document_text(version, simple_pages(n, seq![])) + metadata_text(title, author),
        ) == simple_pdf_bytes(n, version),
{
    lemma_encode_concat(document_text(version, simple_pages(n, seq![])), metadata_text(title, author));
    if title is None && author is None {
        assert(metadata_text(title, author) =~= Seq::<char>::empty());
        assert(encode_utf8(Seq::<char>::empty()) =~= Seq::<u8>::empty());
        assert(simple_pdf_bytes(n, version) + Seq::<u8>::empty() =~= simple_pdf_bytes(n, version));
    }
}

/// Rotating listed pages of a simple document of `n` pages is writing it
/// with one rotation per page: `degrees` on each page whose number is
/// listed, none on the others (listed numbers outside `1..=n` change
/// nothing).
pub proof fn law_rotated_pages_are_page_rotations(
    n: nat,
    version: Seq<char>,
    rotated: Seq<usize>,
    degrees: i32,
    r: Seq<Option<i32>>,
)
    requires
        r.len() == n,
        forall|i: int|
            0 <= i < n ==> #[trigger] r[i] == if rotated.contains((i + 1) as usize) {
                Some(degrees)
            } else {
                None
            },
    ensures
        rotation_list(n, rotated, degrees) == r,
        document_text(version, simple_pages(n, rotation_list(n, rotated, degrees)))
            == document_text(version, simple_pages(n, r)),
{
    assert(rotation_list(n, rotated, degrees) =~= r);
}

/// Appends one `/IndexEntry (name|start)` line per entry.
pub fn write_pdf_with_index_entries(bytes: Vec<u8>, entries: &[(String, usize)]) -> (out: Vec<
    u8,
>)
    ensures
        out@ == bytes@ + encode_utf8(index_entries_text(index_view(entries@))),
{
    let mut bytes = bytes;
    let ghost start = bytes@;
    let ghost mut text: Seq<char> = seq![];
    let mut i: usize = 0;
    while i < entries.len()
        invariant
            0 <= i <= entries@.len(),
            text == index_entries_text(index_view(entries@.take(i as int))),
            bytes@ == start + encode_utf8(text),
        decreases entries@.len() - i,
    {
        let ghost piece = index_entry_text((entries@[i as int].0@, entries@[i as int].1 as nat));
        write_index_entry(&mut bytes, &entries[i].0, entries[i].1);
        proof {
            assert(entries@.take(i + 1).drop_last() == entries@.take(i as int));
            assert(index_view(entries@.take(i + 1)).drop_last() =~= index_view(entries@.take(i as int)));
            lemma_encode_concat(text, piece);
            text = text + piece;
        }
        i = i + 1;
    }
    assert(entries@.take(entries@.len() as int) == entries@);
    bytes
}

/// Appends one `/DestEntry (name|page|label)` line per entry.
pub fn write_pdf_with_dest_entries(bytes: Vec<u8>, entries: &[(String, usize, String)]) -> (out:
    Vec<u8>)
    ensures
        out@ == bytes@ + encode_utf8(dest_entries_text(dest_view(entries@))),
{
    let mut bytes = bytes;
    let ghost start = bytes@;
    let ghost mut text: Seq<char> = seq![];
    let mut i: usize = 0;
    while i < entries.len()
        invariant
            0 <= i <= entries@.len(),
            text == dest_entries_text(dest_view(entries@.take(i as int))),
            bytes@ == start + encode_utf8(text),
        decreases entries@.len() - i,
    {
        let ghost piece = dest_entry_text((entries@[i as int].0@, entries@[i as int].1 as nat, entries@[i as int].2@));
        write_dest_entry(&mut bytes, &entries[i]);
        proof {
            assert(entries@.take(i + 1).drop_last() == entries@.take(i as int));
            assert(dest_view(entries@.take(i + 1)).drop_last() =~= dest_view(entries@.take(i as int)));
            lemma_encode_concat(text, piece);
            text = text + piece;
        }
        i = i + 1;
    }
    assert(entries@.take(entries@.len() as int) == entries@);
    bytes
}

/// One `<keyword>(a|b|label)` line, as the link and outline entries are
/// written.
pub open spec fn triple_entry_text(keyword: Seq<char>, e: (Seq<char>, Seq<char>, Seq<char>)) -> Seq<
    char,
> {
    "\n"@ + keyword + "("@ + e.0 + "|"@ + e.1 + "|"@ + label_text(e.2) + ")"@
}

pub open spec fn triple_entries_text(keyword: Seq<char>, entries: Seq<(Seq<char>, Seq<char>, Seq<char>)>) -> Seq<
    char,
>
    decreases entries.len(),
{
    if entries.len() == 0 {
        seq![]
    } else {
        triple_entries_text(keyword, entries.drop_last()) + triple_entry_text(
            keyword,
            entries.last(),
        )
    }
}

fn write_triple_entry(out: &mut Vec<u8>, keyword: &str, e: &(String, String, String))
    ensures
        final(out)@ == old(out)@ + encode_utf8(triple_entry_text(keyword@, (e.0@, e.1@, e.2@))),
{
    let label = encode_label(e.2.as_str());
    let label = encode_label(e.2.as_str());
    let ghost base = out@;
    assert(out@ == base + encode_utf8(Seq::<char>::empty()));
    let Ghost(t) = put_str(out, "\n", Ghost(base), Ghost(Seq::<char>::empty()));
    let Ghost(t) = put_str(out, keyword, Ghost(base), Ghost(t));
    let Ghost(t) = put_str(out, "(", Ghost(base), Ghost(t));
    let Ghost(t) = put_str(out, e.0.as_str(), Ghost(base), Ghost(t));
    let Ghost(t) = put_str(out, "|", Ghost(base), Ghost(t));
    let Ghost(t) = put_str(out, e.1.as_str(), Ghost(base), Ghost(t));
    let Ghost(t) = put_str(out, "|", Ghost(base), Ghost(t));
    let Ghost(t) = put_str(out, label.as_str(), Ghost(base), Ghost(t));
    let Ghost(t) = put_str(out, ")", Ghost(base), Ghost(t));
    assert(t =~= triple_entry_text(keyword@, (e.0@, e.1@, e.2@)));
}

/// Appends one `<keyword>(a|b|c)` line per entry.
pub fn write_triple_entries(bytes: Vec<u8>, keyword: &str, entries: &[(String, String, String)]) -> (out:
    Vec<u8>)
    ensures
        out@ == bytes@ + encode_utf8(triple_entries_text(keyword@, triple_view(entries@))),
{
    let mut bytes = bytes;
    let ghost start = bytes@;
    let ghost mut text: Seq<char> = seq![];
    let mut i: usize = 0;
    while i < entries.len()
        invariant
            0 <= i <= entries@.len(),
            text == triple_entries_text(keyword@, triple_view(entries@.take(i as int))),
            bytes@ == start + encode_utf8(text),
        decreases entries@.len() - i,
    {
        let ghost piece = triple_entry_text(keyword@, (entries@[i as int].0@, entries@[i as int].1@, entries@[i as int].2@));
        write_triple_entry(&mut bytes, keyword, &entries[i]);
        proof {
            assert(entries@.take(i + 1).drop_last() == entries@.take(i as int));
            assert(triple_view(entries@.take(i + 1)).drop_last() =~= triple_view(entries@.take(i as int)));
            lemma_encode_concat(text, piece);
            text = text + piece;
        }
        i = i + 1;
    }
    assert(entries@.take(entries@.len() as int) == entries@);
    bytes
}

/// Entries that point at each destination in turn: the `i`-th is named
/// `<prefix><i + 1>` and carries the destination's name and label.
pub open spec fn numbered_entries(
    prefix: Seq<char>,
    dest_entries: Seq<(String, usize, String)>,
    r: Seq<(String, String, String)>,
) -> bool {
    &&& r.len() == dest_entries.len()
    &&& forall|i: int|
        0 <= i < r.len() ==> {
            &&& (#[trigger] r[i]).0@ == prefix + decimal((i + 1) as nat)
            &&& r[i].1@ == dest_entries[i].0@
            &&& r[i].2@ == dest_entries[i].2@
        }
}

/// Builds the entries of `numbered_entries`.
pub fn number_entries(prefix: &str, dest_entries: &[(String, usize, String)]) -> (r: Vec<
    (String, String, String),
>)
    ensures
        numbered_entries(prefix@, dest_entries@, r@),
{
    let mut out: Vec<(String, String, String)> = Vec::new();
    let mut i: usize = 0;
    while i < dest_entries.len()
        invariant
            0 <= i <= dest_entries@.len(),
            numbered_entries(prefix@, dest_entries@.take(i as int), out@),
        decreases dest_entries@.len() - i,
    {
        let mut name: Vec<char> = Vec::new();
        crate::text::push_str_chars(&mut name, prefix);
        let d = decimal_chars((i + 1) as u64);
        crate::text::push_chars(&mut name, &d);
        let e = &dest_entries[i];
        out.push((string_from_chars(name.as_slice()), e.0.clone(), e.2.clone()));
        i = i + 1;
    }
    assert(dest_entries@.take(dest_entries@.len() as int) == dest_entries@);
    out
}

} // verus!
