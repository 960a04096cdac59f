//! Reading back the rotation of each written page. The text is cut at
//! each `endobj`; every page object declares its own rotation.
use vstd::prelude::*;

use crate::inspect::{
    is_page_object, lemma_ws_pos_at, page_rotations, rotation_entry, rotation_value,
};
use crate::readback::{
    calm, lemma_decimal_calm, lemma_decimal_i32_calm, lemma_document_parts, lemma_find_concat,
    lemma_find_skip, lemma_join_calm, lemma_literals_calm, lemma_object_literals,
    lemma_quiet_concat, lemma_quiet_no_marker, lemma_quiet_tail, lemma_slash_free_calm,
    lemma_slash_free_quiet, lemma_tail_of_long, lemma_trailer_calm, plain_version, quiet,
    quiet_from, slash_free, trailer_text,
};
use crate::text::{
    contains_seq, decimal, decimal_i32, decimal_pad10, digit_char, digit_value, digits_value,
    find_from, is_digit, is_ws, lemma_contains_find, lemma_decimal_ascii, occurs_at, parse_i32,
    trim_start,
};
use crate::write::{
    catalog_text, dest_entries_text, dest_entry_text, document_text, header_text,
    index_entries_text, index_entry_text, kid_ref, kids_text, label_text, objects, page_text, pages_text,
    prefix_text, rotate_text, triple_entries_text, triple_entry_text, xref_entries, PageBox,
};

verus! {

pub proof fn lemma_digits_value_decimal(n: nat)
    ensures
        digits_value(decimal(n)) == n,
    decreases n,
{
    lemma_decimal_ascii(n);
    if n < 10 {
        let s = decimal(n);
        assert(s.drop_last() =~= Seq::<char>::empty());
        assert(digit_value(digit_char(n)) == n);
        assert(digits_value(s) == digits_value(s.drop_last()) * 10 + digit_value(s.last()));
        assert(digits_value(s.drop_last()) == 0);
    } else {
        lemma_digits_value_decimal(n / 10);
        let s = decimal(n);
        assert(s.drop_last() == decimal(n / 10));
        assert(s.last() == digit_char(n % 10));
        assert(digit_value(digit_char(n % 10)) == n % 10);
        assert((n / 10) * 10 + n % 10 == n) by (nonlinear_arith);
        assert(digits_value(s) == digits_value(s.drop_last()) * 10 + digit_value(s.last()));
    }
}

/// Reading a written number gives the number back.
pub proof fn lemma_parse_decimal_i32(d: i32)
    ensures
        parse_i32(decimal_i32(d)) == Some(d),
{
    if d < 0 {
        let m = (-d) as nat;
        lemma_decimal_ascii(m);
        lemma_digits_value_decimal(m);
        let s = decimal_i32(d);
        assert(s.drop_first() =~= decimal(m));
    } else {
        lemma_decimal_ascii(d as nat);
        lemma_digits_value_decimal(d as nat);
        assert(is_digit(decimal(d as nat)[0]));
    }
}

// ---------------------------------------------------------------------
// Occurrences, checked character by character
// ---------------------------------------------------------------------

/// `p` matches `s` at `i` from its `j`-th character on.
pub open spec fn chars_match(s: Seq<char>, p: Seq<char>, i: int, j: nat) -> bool
    decreases p.len() - j,
{
    if j >= p.len() {
        true
    } else {
        0 <= i + j < s.len() && s[i + j] == p[j as int] && chars_match(s, p, i, j + 1)
    }
}

/// `p` occurs nowhere in `s` from `i` on.
pub open spec fn absent_from(s: Seq<char>, p: Seq<char>, i: nat) -> bool
    decreases s.len() + 1 - i,
{
    if i + p.len() > s.len() {
        true
    } else {
        !chars_match(s, p, i as int, 0) && absent_from(s, p, i + 1)
    }
}

proof fn lemma_chars_match(s: Seq<char>, p: Seq<char>, i: int, j: nat)
    requires
        0 <= i,
        i + p.len() <= s.len(),
        j <= p.len(),
    ensures
        chars_match(s, p, i, j) <==> forall|k: int| j <= k < p.len() ==> s[i + k] == p[k],
    decreases p.len() - j,
{
    if j < p.len() {
        lemma_chars_match(s, p, i, j + 1);
    }
}

proof fn lemma_match_occurs(s: Seq<char>, p: Seq<char>, i: int)
    requires
        0 <= i,
        i + p.len() <= s.len(),
    ensures
        chars_match(s, p, i, 0) <==> occurs_at(s, p, i),
{
    lemma_chars_match(s, p, i, 0);
    if chars_match(s, p, i, 0) {
        assert(s.subrange(i, i + p.len()) =~= p);
    }
    if occurs_at(s, p, i) {
        assert forall|k: int| 0 <= k < p.len() implies s[i + k] == p[k] by {
            assert(s.subrange(i, i + p.len())[k] == s[i + k]);
        }
    }
}

proof fn lemma_absent_from(s: Seq<char>, p: Seq<char>, i: nat)
    requires
        absent_from(s, p, i),
    ensures
        forall|k: int| i <= k ==> !occurs_at(s, p, k),
    decreases s.len() + 1 - i,
{
    if i + p.len() <= s.len() {
        lemma_match_occurs(s, p, i as int);
        lemma_absent_from(s, p, i + 1);
    }
}

/// A pattern found absent character by character does not occur.
pub proof fn lemma_absent(s: Seq<char>, p: Seq<char>)
    requires
        absent_from(s, p, 0),
    ensures
        !contains_seq(s, p),
{
    lemma_absent_from(s, p, 0);
}

/// A pattern that occurs in a part occurs in the whole.
pub proof fn lemma_contains_within(a: Seq<char>, b: Seq<char>, c: Seq<char>, p: Seq<char>)
    requires
        contains_seq(b, p),
    ensures
        contains_seq(a + b + c, p),
{
    let k = choose|k: int| occurs_at(b, p, k);
    let t = a + b + c;
    assert(t.subrange(a.len() + k, a.len() + k + p.len()) =~= b.subrange(k, k + p.len()));
    assert(occurs_at(t, p, a.len() + k));
}

// ---------------------------------------------------------------------
// Cutting at `endobj`
// ---------------------------------------------------------------------

/// `s` holds no `endobj`.
pub open spec fn e_free(s: Seq<char>) -> bool {
    !contains_seq(s, "endobj"@)
}

/// `c` cannot be the last character of a part of `endobj` cut at a join.
pub open spec fn ends_clear(c: char) -> bool {
    !(c == 'e' || c == 'n' || c == 'd' || c == 'o' || c == 'b')
}

/// `c` cannot be the first character of a part of `endobj` cut at a join.
pub open spec fn starts_clear(c: char) -> bool {
    !(c == 'n' || c == 'd' || c == 'o' || c == 'b' || c == 'j')
}

/// Joining texts without `endobj` gives none where the join cannot cut it.
pub proof fn lemma_e_join(a: Seq<char>, b: Seq<char>)
    requires
        e_free(a),
        e_free(b),
        (a.len() > 0 && ends_clear(a.last())) || (b.len() > 0 && starts_clear(b[0])),
    ensures
        e_free(a + b),
{
    reveal_strlit("endobj");
    let e = "endobj"@;
    let t = a + b;
    assert forall|p: int| !occurs_at(t, e, p) by {
        if occurs_at(t, e, p) {
            let w = t.subrange(p, p + 6);
            if p + 6 <= a.len() {
                assert(a.subrange(p, p + 6) =~= w);
                assert(occurs_at(a, e, p));
            } else if p >= a.len() {
                assert(b.subrange(p - a.len(), p - a.len() + 6) =~= w);
                assert(occurs_at(b, e, p - a.len()));
            } else {
                let k = a.len() - 1 - p;
                assert(w[k] == a.last());
                assert(w[k + 1] == b[0]);
                if k == 0 {
                } else if k == 1 {
                } else if k == 2 {
                } else if k == 3 {
                } else {
                    assert(k == 4);
                }
            }
        }
    }
}

/// Where the first `endobj` stands right after `x`, the text is cut there.
pub proof fn lemma_cut(x: Seq<char>, z: Seq<char>)
    requires
        e_free(x),
    ensures
        page_rotations(x + "endobj"@ + z) == rotation_entry(x) + page_rotations(z),
{
    reveal_strlit("endobj");
    let e = "endobj"@;
    let t = x + e + z;
    assert forall|p: int| 0 <= p < x.len() implies !occurs_at(t, e, p) by {
        if occurs_at(t, e, p) {
            let w = t.subrange(p, p + 6);
            if p + 6 <= x.len() {
                assert(x.subrange(p, p + 6) =~= w);
                assert(occurs_at(x, e, p));
            } else {
                let k = x.len() - p;
                assert(w[k] == t[x.len() as int]);
                assert(t[x.len() as int] == 'e');
                if k == 1 {
                } else if k == 2 {
                } else if k == 3 {
                } else if k == 4 {
                } else {
                    assert(k == 5);
                }
            }
        }
    }
    assert(t.subrange(x.len() as int, x.len() + 6int) =~= e);
    assert(occurs_at(t, e, x.len() as int));
    lemma_find_skip(t, e, 0, x.len());
    assert(find_from(t, e, x.len()) == Some(x.len()));
    assert(t.take(x.len() as int) =~= x);
    assert(t.skip(x.len() + 6int) =~= z);
}

/// A text without `endobj` is one piece.
pub proof fn lemma_uncut(x: Seq<char>)
    requires
        e_free(x),
    ensures
        page_rotations(x) == rotation_entry(x),
{
    reveal_strlit("endobj");
    lemma_contains_find(x, "endobj"@);
}

/// Joining texts without `endobj`, where the join cannot cut one.
pub proof fn lemma_e_join2(a: Seq<char>, b: Seq<char>)
    requires
        e_free(a),
        e_free(b),
        b.len() == 0 || starts_clear(b[0]) || (a.len() > 0 && ends_clear(a.last())),
    ensures
        e_free(a + b),
{
    if b.len() == 0 {
        assert(a + b =~= a);
    } else {
        lemma_e_join(a, b);
    }
}

/// The rotations read from `p`, then objects with the given bodies (each
/// followed by `endobj` and a line break), then `tail`.
pub open spec fn rot_list(p: Seq<char>, cores: Seq<Seq<char>>, tail: Seq<char>) -> Seq<
    Option<i32>,
>
    decreases cores.len(),
{
    if cores.len() == 0 {
        rotation_entry(p + tail)
    } else {
        rotation_entry(p + cores[0]) + rot_list("\n"@, cores.drop_first(), tail)
    }
}

/// Cutting a text of objects at each `endobj` gives one piece per object.
pub proof fn lemma_cut_objects(
    p: Seq<char>,
    cores: Seq<Seq<char>>,
    objs: Seq<Seq<char>>,
    tail: Seq<char>,
)
    requires
        objs.len() == cores.len(),
        forall|k: int| 0 <= k < cores.len() ==> #[trigger] objs[k] == cores[k] + "endobj\n"@,
        cores.len() > 0 ==> e_free(p + cores[0]),
        forall|k: int| 1 <= k < cores.len() ==> e_free("\n"@ + #[trigger] cores[k]),
        cores.len() == 0 ==> e_free(p + tail),
        cores.len() > 0 ==> e_free("\n"@ + tail),
    ensures
        page_rotations(p + objs.flatten() + tail) == rot_list(p, cores, tail),
    decreases cores.len(),
{
    reveal_strlit("endobj\n");
    reveal_strlit("endobj");
    reveal_strlit("\n");
    if cores.len() == 0 {
        assert(objs.flatten() =~= Seq::<char>::empty());
        assert(p + objs.flatten() + tail =~= p + tail);
        lemma_uncut(p + tail);
    } else {
        let rest = objs.drop_first();
        let rc = cores.drop_first();
        assert(objs[0] == cores[0] + "endobj\n"@);
        assert(objs.flatten() == objs[0] + rest.flatten());
        assert(p + objs.flatten() + tail =~= (p + cores[0]) + "endobj"@ + ("\n"@ + rest.flatten()
            + tail));
        lemma_cut(p + cores[0], "\n"@ + rest.flatten() + tail);
        assert forall|k: int| 0 <= k < rc.len() implies #[trigger] rest[k] == rc[k] + "endobj\n"@ by {
            assert(objs[k + 1] == cores[k + 1] + "endobj\n"@);
        }
        assert forall|k: int| 1 <= k < rc.len() implies e_free("\n"@ + #[trigger] rc[k]) by {
            assert(e_free("\n"@ + cores[k + 1]));
        }
        if rc.len() > 0 {
            assert(e_free("\n"@ + cores[1]));
        }
        lemma_cut_objects("\n"@, rc, rest, tail);
    }
}

// ---------------------------------------------------------------------
// The objects of a written document
// ---------------------------------------------------------------------

/// The catalog object before its `endobj`.
pub open spec fn catalog_core() -> Seq<char> {
    "1 0 obj\n<< /Type /Catalog /Pages 2 0 R >>\n"@
}

/// The page tree object before its `endobj`.
pub open spec fn pages_core(n: nat) -> Seq<char> {
    "2 0 obj\n<< /Type /Pages /Kids ["@ + kids_text(n) + "] /Count "@ + decimal(n) + " >>\n"@
}

/// A page object before its `endobj`.
pub open spec fn page_core(id: nat, p: PageBox) -> Seq<char> {
    decimal(id) + " 0 obj\n<< /Type /Page /Parent 2 0 R /MediaBox [0 0 "@ + decimal_i32(p.0)
        + " "@ + decimal_i32(p.1) + "]"@ + rotate_text(p.2) + " >>\n"@
}

/// The objects of a document, each before its `endobj`.
pub open spec fn object_cores(pages: Seq<PageBox>) -> Seq<Seq<char>> {
    seq![catalog_core(), pages_core(pages.len())] + Seq::new(
        pages.len(),
        |i: int| page_core((i + 3) as nat, pages[i]),
    )
}

proof fn lemma_objects_cores(pages: Seq<PageBox>)
    ensures
        objects(pages).len() == object_cores(pages).len(),
        forall|k: int|
            0 <= k < objects(pages).len() ==> #[trigger] objects(pages)[k] == object_cores(
                pages,
            )[k] + "endobj\n"@,
{
    reveal_strlit("1 0 obj\n<< /Type /Catalog /Pages 2 0 R >>\nendobj\n");
    reveal_strlit("1 0 obj\n<< /Type /Catalog /Pages 2 0 R >>\n");
    reveal_strlit("endobj\n");
    reveal_strlit(" >>\nendobj\n");
    reveal_strlit(" >>\n");
    assert(catalog_text() =~= catalog_core() + "endobj\n"@);
    assert(" >>\nendobj\n"@ =~= " >>\n"@ + "endobj\n"@);
    let n = pages.len();
    assert forall|k: int| 0 <= k < objects(pages).len() implies #[trigger] objects(pages)[k]
        == object_cores(pages)[k] + "endobj\n"@ by {
        if k == 1 {
            assert(pages_text(n) =~= pages_core(n) + "endobj\n"@);
        } else if k >= 2 {
            let id = (k - 2 + 3) as nat;
            let pg = pages[k - 2];
            assert(page_text(id, pg) =~= page_core(id, pg) + "endobj\n"@);
        }
    }
}

// ---------------------------------------------------------------------
// No `endobj` inside the objects
// ---------------------------------------------------------------------

/// `s` holds no `e`.
pub open spec fn no_e(s: Seq<char>) -> bool {
    forall|i: int| 0 <= i < s.len() ==> s[i] != 'e'
}

pub proof fn lemma_no_e(s: Seq<char>)
    requires
        no_e(s),
    ensures
        e_free(s),
{
    reveal_strlit("endobj");
    assert forall|p: int| !occurs_at(s, "endobj"@, p) by {
        if occurs_at(s, "endobj"@, p) {
            assert(s.subrange(p, p + 6)[0] == s[p]);
        }
    }
}

/// Decimal numbers hold no `endobj`, and start and end with a digit or a
/// sign.
proof fn lemma_number_e_free(n: nat, d: i32)
    ensures
        e_free(decimal(n)),
        ends_clear(decimal(n).last()),
        e_free(decimal_i32(d)),
        ends_clear(decimal_i32(d).last()),
        e_free(decimal_pad10(n)),
        starts_clear(decimal_pad10(n)[0]),
        decimal(n).len() > 0,
        decimal_i32(d).len() > 0,
{
    lemma_decimal_ascii(n);
    assert(is_digit(decimal(n)[decimal(n).len() - 1]));
    assert(no_e(decimal(n))) by {
        assert forall|i: int| 0 <= i < decimal(n).len() implies decimal(n)[i] != 'e' by {
            assert(is_digit(decimal(n)[i]));
        }
    }
    lemma_no_e(decimal(n));
    let m = if d < 0 {
        (-d) as nat
    } else {
        d as nat
    };
    lemma_decimal_ascii(m);
    let s = decimal_i32(d);
    assert(no_e(s)) by {
        assert forall|i: int| 0 <= i < s.len() implies s[i] != 'e' by {
            if d < 0 {
                if i > 0 {
                    assert(s[i] == decimal(m)[i - 1]);
                    assert(is_digit(decimal(m)[i - 1]));
                }
            } else {
                assert(is_digit(decimal(m)[i]));
            }
        }
    }
    lemma_no_e(s);
    assert(is_digit(decimal(m)[decimal(m).len() - 1]));
    if d < 0 {
        assert(s.last() == decimal(m).last());
    }
    let z = decimal_pad10(n);
    assert(no_e(z) && z.len() > 0 && (z[0] == '0' || is_digit(z[0]))) by {
        let dd = decimal(n);
        if dd.len() < 10 {
            let zs = Seq::new((10 - dd.len()) as nat, |k: int| '0');
            assert(z == zs + dd);
            assert forall|i: int| 0 <= i < z.len() implies z[i] != 'e' by {
                if i >= zs.len() {
                    assert(z[i] == dd[i - zs.len()]);
                    assert(is_digit(dd[i - zs.len()]));
                }
            }
        } else {
            assert forall|i: int| 0 <= i < z.len() implies z[i] != 'e' by {
                assert(is_digit(dd[i]));
            }
            assert(is_digit(dd[0]));
        }
    }
    lemma_no_e(z);
}

proof fn lemma_e_free_object_literals()
    ensures
        e_free("%PDF-"@),
        e_free("\n"@),
        e_free(catalog_core()),
        e_free("2 0 obj\n<< /Type /Pages /Kids ["@),
        e_free("] /Count "@),
        e_free(" >>\n"@),
        e_free(" 0 R"@),
        e_free(" "@),
        e_free(" 0 obj\n<< /Type /Page /Parent 2 0 R /MediaBox [0 0 "@),
        e_free("]"@),
        e_free(" /Rotate "@),
{
    reveal_strlit("endobj");
    reveal_strlit("%PDF-");
    reveal_strlit("\n");
    reveal_strlit("1 0 obj\n<< /Type /Catalog /Pages 2 0 R >>\n");
    reveal_strlit("2 0 obj\n<< /Type /Pages /Kids [");
    reveal_strlit("] /Count ");
    reveal_strlit(" >>\n");
    reveal_strlit(" 0 R");
    reveal_strlit(" ");
    reveal_strlit(" 0 obj\n<< /Type /Page /Parent 2 0 R /MediaBox [0 0 ");
    reveal_strlit("]");
    reveal_strlit(" /Rotate ");
    reveal_with_fuel(absent_from, 52);
    reveal_with_fuel(chars_match, 7);
    lemma_absent("%PDF-"@, "endobj"@);
    lemma_absent("\n"@, "endobj"@);
    lemma_absent(catalog_core(), "endobj"@);
    lemma_absent("2 0 obj\n<< /Type /Pages /Kids ["@, "endobj"@);
    lemma_absent("] /Count "@, "endobj"@);
    lemma_absent(" >>\n"@, "endobj"@);
    lemma_absent(" 0 R"@, "endobj"@);
    lemma_absent(" "@, "endobj"@);
    lemma_absent(" 0 obj\n<< /Type /Page /Parent 2 0 R /MediaBox [0 0 "@, "endobj"@);
    lemma_absent("]"@, "endobj"@);
    lemma_absent(" /Rotate "@, "endobj"@);
}

proof fn lemma_e_free_trailer_literals()
    ensures
        e_free("xref\n0 "@),
        e_free("\n0000000000 65535 f \n"@),
        e_free(" 00000 n \n"@),
        e_free("trailer\n<< /Root 1 0 R /Size "@),
        e_free(" >>\nstartxref\n"@),
        e_free("\n%%EOF\n"@),
{
    reveal_strlit("endobj");
    reveal_strlit("xref\n0 ");
    reveal_strlit("\n0000000000 65535 f \n");
    reveal_strlit(" 00000 n \n");
    reveal_strlit("trailer\n<< /Root 1 0 R /Size ");
    reveal_strlit(" >>\nstartxref\n");
    reveal_strlit("\n%%EOF\n");
    reveal_with_fuel(absent_from, 32);
    reveal_with_fuel(chars_match, 7);
    lemma_absent("xref\n0 "@, "endobj"@);
    lemma_absent("\n0000000000 65535 f \n"@, "endobj"@);
    lemma_absent(" 00000 n \n"@, "endobj"@);
    lemma_absent("trailer\n<< /Root 1 0 R /Size "@, "endobj"@);
    lemma_absent(" >>\nstartxref\n"@, "endobj"@);
    lemma_absent("\n%%EOF\n"@, "endobj"@);
}

proof fn lemma_kids_e_free(n: nat)
    ensures
        e_free(kids_text(n)),
        kids_text(n).len() > 0 ==> ends_clear(kids_text(n).last()),
    decreases n,
{
    lemma_e_free_object_literals();
    reveal_strlit(" 0 R");
    reveal_strlit(" ");
    if n == 0 {
        lemma_no_e(kids_text(n));
    } else {
        lemma_number_e_free(n + 2, 0);
        lemma_e_join2(decimal(n + 2), " 0 R"@);
        if n > 1 {
            lemma_kids_e_free((n - 1) as nat);
            lemma_e_join2(kids_text((n - 1) as nat), " "@);
            lemma_e_join2(kids_text((n - 1) as nat) + " "@, kid_ref(n + 2));
        } else {
            lemma_number_e_free(3, 0);
            lemma_e_join2(decimal(3), " 0 R"@);
        }
    }
}

proof fn lemma_xref_e_free(version: Seq<char>, objs: Seq<Seq<char>>, k: nat)
    ensures
        e_free(xref_entries(version, objs, k)),
    decreases k,
{
    reveal_strlit(" 00000 n \n");
    lemma_e_free_trailer_literals();
    if k == 0 {
        lemma_no_e(xref_entries(version, objs, k));
    } else {
        let prev = xref_entries(version, objs, (k - 1) as nat);
        let n = crate::write::byte_len(prefix_text(version, objs, k - 1));
        lemma_xref_e_free(version, objs, (k - 1) as nat);
        lemma_number_e_free(n, 0);
        lemma_e_join2(prev, decimal_pad10(n));
        lemma_e_join2(prev + decimal_pad10(n), " 00000 n \n"@);
    }
}

/// The trailer holds no `endobj`.
proof fn lemma_trailer_e_free(version: Seq<char>, pages: Seq<PageBox>)
    ensures
        e_free(trailer_text(version, pages)),
        trailer_text(version, pages).len() > 0,
        ends_clear(trailer_text(version, pages).last()),
{
    let objs = objects(pages);
    let body = prefix_text(version, objs, objs.len() as int);
    let size = objs.len() + 1;
    let x = crate::write::byte_len(body);
    lemma_e_free_trailer_literals();
    reveal_strlit("xref\n0 ");
    reveal_strlit("\n0000000000 65535 f \n");
    reveal_strlit("trailer\n<< /Root 1 0 R /Size ");
    reveal_strlit(" >>\nstartxref\n");
    reveal_strlit("\n%%EOF\n");
    lemma_number_e_free(size, 0);
    lemma_number_e_free(x, 0);
    lemma_xref_e_free(version, objs, objs.len());
    let xe = xref_entries(version, objs, objs.len());
    let s1 = "xref\n0 "@ + decimal(size);
    lemma_e_join2("xref\n0 "@, decimal(size));
    let s2 = s1 + "\n0000000000 65535 f \n"@;
    lemma_e_join2(s1, "\n0000000000 65535 f \n"@);
    let s3 = s2 + xe;
    lemma_e_join2(s2, xe);
    let s4 = s3 + "trailer\n<< /Root 1 0 R /Size "@;
    lemma_e_join2(s3, "trailer\n<< /Root 1 0 R /Size "@);
    let s5 = s4 + decimal(size);
    lemma_e_join2(s4, decimal(size));
    let s6 = s5 + " >>\nstartxref\n"@;
    lemma_e_join2(s5, " >>\nstartxref\n"@);
    let s7 = s6 + decimal(x);
    lemma_e_join2(s6, decimal(x));
    lemma_e_join2(s7, "\n%%EOF\n"@);
}

/// The page tree object holds no `endobj`.
proof fn lemma_pages_core_e_free(n: nat)
    ensures
        e_free("\n"@ + pages_core(n)),
{
    lemma_e_free_object_literals();
    reveal_strlit("\n");
    reveal_strlit("2 0 obj\n<< /Type /Pages /Kids [");
    reveal_strlit("] /Count ");
    reveal_strlit(" >>\n");
    lemma_kids_e_free(n);
    lemma_number_e_free(n, 0);
    let a = "2 0 obj\n<< /Type /Pages /Kids ["@;
    lemma_e_join2(a, kids_text(n));
    lemma_e_join2(a + kids_text(n), "] /Count "@);
    lemma_e_join2(a + kids_text(n) + "] /Count "@, decimal(n));
    lemma_e_join2(a + kids_text(n) + "] /Count "@ + decimal(n), " >>\n"@);
    lemma_e_join2("\n"@, pages_core(n));
}

/// A page object holds no `endobj`.
proof fn lemma_page_core_e_free(id: nat, p: PageBox)
    ensures
        e_free("\n"@ + page_core(id, p)),
{
    lemma_e_free_object_literals();
    reveal_strlit("\n");
    reveal_strlit(" 0 obj\n<< /Type /Page /Parent 2 0 R /MediaBox [0 0 ");
    reveal_strlit(" ");
    reveal_strlit("]");
    reveal_strlit(" /Rotate ");
    reveal_strlit(" >>\n");
    let lit = " 0 obj\n<< /Type /Page /Parent 2 0 R /MediaBox [0 0 "@;
    lemma_number_e_free(id, p.0);
    lemma_number_e_free(id, p.1);
    let r = rotate_text(p.2);
    match p.2 {
        Some(d) => {
            lemma_number_e_free(id, d);
            lemma_e_join2(" /Rotate "@, decimal_i32(d));
        },
        None => {
            lemma_no_e(r);
        },
    }
    let s1 = decimal(id) + lit;
    lemma_e_join2(decimal(id), lit);
    let s2 = s1 + decimal_i32(p.0);
    lemma_e_join2(s1, decimal_i32(p.0));
    let s3 = s2 + " "@;
    lemma_e_join2(s2, " "@);
    let s4 = s3 + decimal_i32(p.1);
    lemma_e_join2(s3, decimal_i32(p.1));
    let s5 = s4 + "]"@;
    lemma_e_join2(s4, "]"@);
    let s6 = s5 + r;
    lemma_e_join2(s5, r);
    lemma_e_join2(s6, " >>\n"@);
    lemma_e_join2("\n"@, page_core(id, p));
}

/// The header and the catalog hold no `endobj`.
proof fn lemma_head_e_free(version: Seq<char>)
    requires
        e_free(version),
    ensures
        e_free(header_text(version) + catalog_core()),
{
    lemma_e_free_object_literals();
    reveal_strlit("%PDF-");
    reveal_strlit("\n");
    lemma_e_join2("%PDF-"@, version);
    lemma_e_join2("%PDF-"@ + version, "\n"@);
    lemma_e_join2(header_text(version), catalog_core());
}

// ---------------------------------------------------------------------
// What each piece declares
// ---------------------------------------------------------------------

proof fn lemma_marker_literals()
    ensures
        !contains_seq(catalog_core(), "/Type /Page"@),
        contains_seq("2 0 obj\n<< /Type /Pages /Kids ["@, "/Type /Pages"@),
        contains_seq(" 0 obj\n<< /Type /Page /Parent 2 0 R /MediaBox [0 0 "@, "/Type /Page"@),
        !contains_seq(" 0 obj\n<< /Type /Page /Parent 2 0 R /MediaBox [0 0 "@, "/Type /Pages"@),
        quiet(" "@, 'R', 'o'),
        quiet("]"@, 'R', 'o'),
        quiet(" >>\n"@, 'R', 'o'),
        calm(" >>\n"@),
        " 0 obj\n<< /Type /Page /Parent 2 0 R /MediaBox [0 0 "@.len() >= 11,
{
    reveal_strlit("1 0 obj\n<< /Type /Catalog /Pages 2 0 R >>\n");
    reveal_strlit("2 0 obj\n<< /Type /Pages /Kids [");
    reveal_strlit(" 0 obj\n<< /Type /Page /Parent 2 0 R /MediaBox [0 0 ");
    reveal_strlit("/Type /Page");
    reveal_strlit("/Type /Pages");
    reveal_strlit(" ");
    reveal_strlit("]");
    reveal_strlit(" >>\n");
    reveal_with_fuel(absent_from, 52);
    reveal_with_fuel(chars_match, 13);
    reveal_with_fuel(quiet_from, 52);
    lemma_absent(catalog_core(), "/Type /Page"@);
    lemma_absent(" 0 obj\n<< /Type /Page /Parent 2 0 R /MediaBox [0 0 "@, "/Type /Pages"@);
    let l1 = "2 0 obj\n<< /Type /Pages /Kids ["@;
    assert(l1.subrange(11, 23) =~= "/Type /Pages"@);
    assert(occurs_at(l1, "/Type /Pages"@, 11));
    let l2 = " 0 obj\n<< /Type /Page /Parent 2 0 R /MediaBox [0 0 "@;
    assert(l2.subrange(10, 21) =~= "/Type /Page"@);
    assert(occurs_at(l2, "/Type /Page"@, 10));
}

proof fn lemma_page_literal_no_rotate()
    ensures
        quiet(" 0 obj\n<< /Type /Page /Parent 2 0 R /MediaBox [0 0 "@, 'R', 'o'),
{
    reveal_strlit(" 0 obj\n<< /Type /Page /Parent 2 0 R /MediaBox [0 0 ");
    reveal_with_fuel(quiet_from, 53);
}

/// The characters of a written number are a sign or digits.
proof fn lemma_number_chars(d: i32)
    ensures
        forall|i: int|
            0 <= i < decimal_i32(d).len() ==> #[trigger] decimal_i32(d)[i] == '-' || is_digit(
                decimal_i32(d)[i],
            ),
        decimal_i32(d).len() > 0,
        slash_free(decimal_i32(d)),
{
    let m = if d < 0 {
        (-d) as nat
    } else {
        d as nat
    };
    lemma_decimal_ascii(m);
    let s = decimal_i32(d);
    assert forall|i: int| 0 <= i < s.len() implies #[trigger] s[i] == '-' || is_digit(s[i]) by {
        if d < 0 {
            if i > 0 {
                assert(s[i] == decimal(m)[i - 1]);
            }
        }
    }
}

proof fn lemma_head_entry(version: Seq<char>)
    requires
        !contains_seq(version, "/Type /Page"@),
    ensures
        rotation_entry(header_text(version) + catalog_core()) == Seq::<Option<i32>>::empty(),
{
    let h = header_text(version);
    let pat = "/Type /Page"@;
    reveal_strlit("/Type /Page");
    reveal_strlit("%PDF-");
    reveal_strlit("\n");
    let a = "%PDF-"@;
    let n = "\n"@;
    assert(!contains_seq(a, pat));
    assert(!contains_seq(n, pat));
    crate::readback::lemma_no_marker_join(a, version, pat);
    crate::readback::lemma_no_marker_join(a + version, n, pat);
    lemma_marker_literals();
    assert(h.last() == '\n');
    crate::readback::lemma_no_marker_join(h, catalog_core(), pat);
}

proof fn lemma_pages_entry(n: nat)
    ensures
        rotation_entry("\n"@ + pages_core(n)) == Seq::<Option<i32>>::empty(),
{
    let l1 = "2 0 obj\n<< /Type /Pages /Kids ["@;
    lemma_marker_literals();
    let rest = kids_text(n) + "] /Count "@ + decimal(n) + " >>\n"@;
    assert("\n"@ + pages_core(n) =~= "\n"@ + l1 + rest);
    lemma_contains_within("\n"@, l1, rest, "/Type /Pages"@);
}

/// What follows the page object's media box.
pub open spec fn page_rest(p: PageBox) -> Seq<char> {
    decimal_i32(p.0) + " "@ + decimal_i32(p.1) + "]"@ + rotate_text(p.2) + " >>\n"@
}

proof fn lemma_page_rest_calm(p: PageBox)
    ensures
        calm(page_rest(p)),
{
    lemma_literals_calm();
    lemma_marker_literals();
    lemma_decimal_i32_calm(p.0);
    lemma_decimal_i32_calm(p.1);
    match p.2 {
        Some(d) => {
            lemma_decimal_i32_calm(d);
            lemma_join_calm(" /Rotate "@, decimal_i32(d));
        },
        None => {
            lemma_slash_free_calm(rotate_text(p.2));
        },
    }
    lemma_join_calm(decimal_i32(p.0), " "@);
    lemma_join_calm(decimal_i32(p.0) + " "@, decimal_i32(p.1));
    lemma_join_calm(decimal_i32(p.0) + " "@ + decimal_i32(p.1), "]"@);
    lemma_join_calm(decimal_i32(p.0) + " "@ + decimal_i32(p.1) + "]"@, rotate_text(p.2));
    lemma_join_calm(
        decimal_i32(p.0) + " "@ + decimal_i32(p.1) + "]"@ + rotate_text(p.2),
        " >>\n"@,
    );
}

proof fn lemma_page_is_page_object(id: nat, p: PageBox)
    ensures
        is_page_object("\n"@ + page_core(id, p)),
{
    let lit = " 0 obj\n<< /Type /Page /Parent 2 0 R /MediaBox [0 0 "@;
    let a = "\n"@ + decimal(id);
    let r = page_rest(p);
    let x = "\n"@ + page_core(id, p);
    let ps = "/Type /Pages"@;
    reveal_strlit("/Type /Pages");
    assert(x =~= a + lit + r);
    lemma_marker_literals();
    lemma_contains_within(a, lit, r, "/Type /Page"@);
    lemma_literals_calm();
    lemma_decimal_calm(id);
    lemma_join_calm("\n"@, decimal(id));
    lemma_quiet_no_marker(a, ps);
    lemma_quiet_tail(a, 'T', 'y');
    lemma_contains_find(lit, ps);
    lemma_find_concat(a, lit, ps);
    lemma_contains_find(a + lit, ps);
    lemma_object_literals();
    lemma_tail_of_long(a, lit, 'T', 'y');
    lemma_page_rest_calm(p);
    lemma_quiet_no_marker(r, ps);
    lemma_contains_find(r, ps);
    lemma_find_concat(a + lit, r, ps);
    lemma_contains_find(a + lit + r, ps);
}

proof fn lemma_page_rotation_value(id: nat, p: PageBox)
    ensures
        rotation_value("\n"@ + page_core(id, p)) == p.2,
{
    let lit = " 0 obj\n<< /Type /Page /Parent 2 0 R /MediaBox [0 0 "@;
    let ro = "/Rotate "@;
    reveal_strlit("/Rotate ");
    reveal_strlit(" /Rotate ");
    reveal_strlit(" >>\n");
    reveal_strlit("\n");
    let a = "\n"@ + decimal(id);
    let b = a + lit + decimal_i32(p.0) + " "@ + decimal_i32(p.1) + "]"@;
    let c = rotate_text(p.2) + " >>\n"@;
    let x = "\n"@ + page_core(id, p);
    assert(x =~= b + c);
    lemma_marker_literals();
    lemma_page_literal_no_rotate();
    lemma_decimal_ascii(id);
    assert(slash_free(a)) by {
        assert forall|i: int| 0 <= i < a.len() implies a[i] != '/' by {
            if i > 0 {
                assert(is_digit(decimal(id)[i - 1]));
            }
        }
    }
    lemma_slash_free_quiet(a, 'R', 'o');
    lemma_number_chars(p.0);
    lemma_number_chars(p.1);
    lemma_slash_free_quiet(decimal_i32(p.0), 'R', 'o');
    lemma_slash_free_quiet(decimal_i32(p.1), 'R', 'o');
    lemma_quiet_concat(a, lit, 'R', 'o');
    lemma_quiet_concat(a + lit, decimal_i32(p.0), 'R', 'o');
    lemma_quiet_concat(a + lit + decimal_i32(p.0), " "@, 'R', 'o');
    lemma_quiet_concat(a + lit + decimal_i32(p.0) + " "@, decimal_i32(p.1), 'R', 'o');
    lemma_quiet_concat(a + lit + decimal_i32(p.0) + " "@ + decimal_i32(p.1), "]"@, 'R', 'o');
    match p.2 {
        None => {
            assert(c =~= " >>\n"@);
            lemma_quiet_concat(b, c, 'R', 'o');
            lemma_quiet_no_marker(x, ro);
        },
        Some(d) => {
            lemma_quiet_tail(b, 'R', 'o');
            lemma_quiet_no_marker(b, ro);
            assert(!occurs_at(c, ro, 0)) by {
                assert(c.subrange(0, 8)[0] == c[0]);
            }
            assert(occurs_at(c, ro, 1)) by {
                assert(c.subrange(1, 9) =~= ro);
            }
            reveal_with_fuel(find_from, 3);
            assert(find_from(c, ro, 0) == Some(1nat));
            lemma_find_concat(b, c, ro);
            let k = decimal_i32(d).len();
            let r = x.skip(b.len() + 9int);
            assert(r =~= decimal_i32(d) + " >>\n"@);
            lemma_number_chars(d);
            assert(!is_ws(r[0])) by {
                assert(r[0] == decimal_i32(d)[0]);
            }
            assert(trim_start(r) == r);
            assert forall|i: int| 0 <= i < k implies !is_ws(#[trigger] r[i]) by {
                assert(r[i] == decimal_i32(d)[i]);
            }
            assert(r[k as int] == ' ');
            lemma_ws_pos_at(r, k as int);
            assert(r.take(k as int) =~= decimal_i32(d));
            lemma_parse_decimal_i32(d);
        },
    }
}

proof fn lemma_page_entry(id: nat, p: PageBox)
    ensures
        rotation_entry("\n"@ + page_core(id, p)) == seq![p.2],
{
    lemma_page_is_page_object(id, p);
    lemma_page_rotation_value(id, p);
}

// ---------------------------------------------------------------------
// The whole document
// ---------------------------------------------------------------------

proof fn lemma_page_entries(pages: Seq<PageBox>, j: nat, tail: Seq<char>)
    requires
        j <= pages.len(),
        rotation_entry("\n"@ + tail) == Seq::<Option<i32>>::empty(),
    ensures
        rot_list("\n"@, object_cores(pages).skip(2 + j as int), tail) == Seq::new(
            (pages.len() - j) as nat,
            |i: int| pages[j + i].2,
        ),
    decreases pages.len() - j,
{
    let cs = object_cores(pages).skip(2 + j as int);
    let n = pages.len();
    if j == n {
        assert(cs.len() == 0);
        assert(("\n"@ + tail) =~= ("\n"@ + tail));
        assert(Seq::new((n - j) as nat, |i: int| pages[j + i].2) =~= Seq::<Option<i32>>::empty());
    } else {
        assert(cs[0] == page_core((j + 3) as nat, pages[j as int]));
        assert(cs.drop_first() =~= object_cores(pages).skip(3 + j as int));
        lemma_page_entry((j + 3) as nat, pages[j as int]);
        lemma_page_entries(pages, j + 1, tail);
        assert(seq![pages[j as int].2] + Seq::new((n - (j + 1)) as nat, |i: int| pages[j + 1 + i].2)
            =~= Seq::new((n - j) as nat, |i: int| pages[j + i].2));
    }
}

/// The rotations read back from a written document, followed by text that
/// holds no marker and no `endobj`, are those of its pages.
pub proof fn lemma_rotations_read_back(version: Seq<char>, pages: Seq<PageBox>, extra: Seq<char>)
    requires
        !contains_seq(version, "/Type /Page"@),
        e_free(version),
        calm(extra),
        e_free(extra),
    ensures
        page_rotations(document_text(version, pages) + extra) == Seq::new(
            pages.len(),
            |i: int| pages[i].2,
        ),
{
    let n = pages.len();
    let h = header_text(version);
    let objs = objects(pages);
    let cores = object_cores(pages);
    let trailer = trailer_text(version, pages);
    let tail = trailer + extra;
    lemma_document_parts(version, pages);
    assert(document_text(version, pages) + extra =~= h + objs.flatten() + tail);
    lemma_objects_cores(pages);
    lemma_head_e_free(version);
    assert forall|k: int| 1 <= k < cores.len() implies e_free("\n"@ + #[trigger] cores[k]) by {
        if k == 1 {
            lemma_pages_core_e_free(n);
        } else {
            lemma_page_core_e_free((k - 2 + 3) as nat, pages[k - 2]);
        }
    }
    lemma_e_free_object_literals();
    reveal_strlit("\n");
    lemma_trailer_e_free(version, pages);
    lemma_e_join2(trailer, extra);
    lemma_e_join2("\n"@, tail);
    lemma_cut_objects(h, cores, objs, tail);
    lemma_head_entry(version);
    lemma_pages_entry(n);
    lemma_literals_calm();
    lemma_trailer_calm(version, pages);
    lemma_join_calm("\n"@, trailer);
    lemma_join_calm("\n"@ + trailer, extra);
    assert("\n"@ + tail =~= "\n"@ + trailer + extra);
    reveal_strlit("/Type /Page");
    lemma_quiet_no_marker("\n"@ + tail, "/Type /Page"@);
    assert(rotation_entry("\n"@ + tail) == Seq::<Option<i32>>::empty());
    assert(cores.drop_first().drop_first() =~= cores.skip(2));
    assert(rot_list(h, cores, tail) == rotation_entry(h + cores[0]) + rot_list(
        "\n"@,
        cores.drop_first(),
        tail,
    ));
    assert(rot_list("\n"@, cores.drop_first(), tail) == rotation_entry(
        "\n"@ + cores.drop_first()[0],
    ) + rot_list("\n"@, cores.drop_first().drop_first(), tail));
    lemma_page_entries(pages, 0, tail);
    assert(Seq::new(n, |i: int| pages[0 + i].2) =~= Seq::new(n, |i: int| pages[i].2));
    assert(Seq::<Option<i32>>::empty() + (Seq::<Option<i32>>::empty() + Seq::new(
        n,
        |i: int| pages[i].2,
    )) =~= Seq::new(n, |i: int| pages[i].2));
}

// ---------------------------------------------------------------------
// Navigation entries
// ---------------------------------------------------------------------

/// Joining texts without `endobj`, where the join cannot cut one or one
/// side is empty.
pub proof fn lemma_e_join_any(a: Seq<char>, b: Seq<char>)
    requires
        e_free(a),
        e_free(b),
        a.len() == 0 || b.len() == 0 || ends_clear(a.last()) || starts_clear(b[0]),
    ensures
        e_free(a + b),
{
    if a.len() == 0 {
        assert(a + b =~= b);
    } else {
        lemma_e_join2(a, b);
    }
}

pub proof fn lemma_entry_e_literals()
    ensures
        e_free("\n/IndexEntry ("@),
        e_free("\n/DestEntry ("@),
        e_free("|"@),
        e_free(")"@),
        e_free("("@),
        e_free("\n"@),
        e_free("/LinkAnnot "@),
        e_free("/OutlineEntry "@),
        e_free("dest-"@),
        e_free("index-"@),
        e_free("outline-"@),
{
    reveal_strlit("endobj");
    reveal_strlit("\n/IndexEntry (");
    reveal_strlit("\n/DestEntry (");
    reveal_strlit("|");
    reveal_strlit(")");
    reveal_strlit("(");
    reveal_strlit("\n");
    reveal_strlit("/LinkAnnot ");
    reveal_strlit("/OutlineEntry ");
    reveal_strlit("dest-");
    reveal_strlit("index-");
    reveal_strlit("outline-");
    reveal_with_fuel(absent_from, 17);
    reveal_with_fuel(chars_match, 7);
    lemma_absent("\n/IndexEntry ("@, "endobj"@);
    lemma_absent("\n/DestEntry ("@, "endobj"@);
    lemma_absent("|"@, "endobj"@);
    lemma_absent(")"@, "endobj"@);
    lemma_absent("("@, "endobj"@);
    lemma_absent("\n"@, "endobj"@);
    lemma_absent("/LinkAnnot "@, "endobj"@);
    lemma_absent("/OutlineEntry "@, "endobj"@);
    lemma_absent("dest-"@, "endobj"@);
    lemma_absent("index-"@, "endobj"@);
    lemma_absent("outline-"@, "endobj"@);
}

/// A name followed by a number, as `dest-3`, holds no `endobj`.
pub proof fn lemma_numbered_e_free(prefix: Seq<char>, n: nat)
    requires
        e_free(prefix),
        prefix.len() > 0,
        prefix.last() == '-',
    ensures
        e_free(prefix + decimal(n)),
{
    lemma_number_e_free(n, 0);
    lemma_e_join2(prefix, decimal(n));
}

/// A written label holds `endobj` only where the label holds it.
pub proof fn lemma_label_e_free(s: Seq<char>)
    requires
        e_free(s),
    ensures
        e_free(label_text(s)),
{
    reveal_strlit("endobj");
    let p = "endobj"@;
    if contains_seq(label_text(s), p) {
        assert forall|i: int| 0 <= i < p.len() implies crate::write::verbatim_char(#[trigger] p[i]) by {}
        crate::write::lemma_label_keeps_pattern(s, p);
    }
}

pub proof fn lemma_index_entries_e_free(entries: Seq<(Seq<char>, nat)>)
    requires
        forall|k: int| 0 <= k < entries.len() ==> e_free(#[trigger] entries[k].0),
    ensures
        e_free(index_entries_text(entries)),
        index_entries_text(entries).len() == 0 || index_entries_text(entries).last() == ')',
    decreases entries.len(),
{
    reveal_strlit("\n/IndexEntry (");
    reveal_strlit("|");
    reveal_strlit(")");
    if entries.len() == 0 {
        lemma_no_e(index_entries_text(entries));
    } else {
        let e = entries.last();
        lemma_index_entries_e_free(entries.drop_last());
        lemma_entry_e_literals();
        assert(e_free(entries[entries.len() - 1].0));
        lemma_number_e_free(e.1, 0);
        let l = label_text(e.0);
        lemma_label_e_free(e.0);
        let a = "\n/IndexEntry ("@;
        lemma_e_join_any(a, l);
        lemma_e_join_any(a + l, "|"@);
        lemma_e_join_any(a + l + "|"@, decimal(e.1));
        lemma_e_join_any(a + l + "|"@ + decimal(e.1), ")"@);
        lemma_e_join_any(index_entries_text(entries.drop_last()), index_entry_text(e));
    }
}

pub proof fn lemma_dest_entries_e_free(entries: Seq<(Seq<char>, nat, Seq<char>)>)
    requires
        forall|k: int|
            0 <= k < entries.len() ==> e_free(#[trigger] entries[k].0) && e_free(entries[k].2),
    ensures
        e_free(dest_entries_text(entries)),
        dest_entries_text(entries).len() == 0 || dest_entries_text(entries).last() == ')',
    decreases entries.len(),
{
    reveal_strlit("\n/DestEntry (");
    reveal_strlit("|");
    reveal_strlit(")");
    if entries.len() == 0 {
        lemma_no_e(dest_entries_text(entries));
    } else {
        let e = entries.last();
        lemma_dest_entries_e_free(entries.drop_last());
        lemma_entry_e_literals();
        assert(e_free(entries[entries.len() - 1].0));
        lemma_number_e_free(e.1, 0);
        let a = "\n/DestEntry ("@;
        lemma_e_join_any(a, e.0);
        lemma_e_join_any(a + e.0, "|"@);
        lemma_e_join_any(a + e.0 + "|"@, decimal(e.1));
        lemma_e_join_any(a + e.0 + "|"@ + decimal(e.1), "|"@);
        let l = label_text(e.2);
        lemma_label_e_free(e.2);
        lemma_e_join_any(a + e.0 + "|"@ + decimal(e.1) + "|"@, l);
        lemma_e_join_any(a + e.0 + "|"@ + decimal(e.1) + "|"@ + l, ")"@);
        lemma_e_join_any(dest_entries_text(entries.drop_last()), dest_entry_text(e));
    }
}

pub proof fn lemma_triple_entries_e_free(
    keyword: Seq<char>,
    entries: Seq<(Seq<char>, Seq<char>, Seq<char>)>,
)
    requires
        e_free(keyword),
        forall|k: int|
            0 <= k < entries.len() ==> e_free(#[trigger] entries[k].0) && e_free(entries[k].1)
                && e_free(entries[k].2),
    ensures
        e_free(triple_entries_text(keyword, entries)),
        triple_entries_text(keyword, entries).len() == 0 || triple_entries_text(
            keyword,
            entries,
        ).last() == ')',
    decreases entries.len(),
{
    reveal_strlit("\n");
    reveal_strlit("(");
    reveal_strlit("|");
    reveal_strlit(")");
    if entries.len() == 0 {
        lemma_no_e(triple_entries_text(keyword, entries));
    } else {
        let e = entries.last();
        lemma_triple_entries_e_free(keyword, entries.drop_last());
        lemma_entry_e_literals();
        assert(e_free(entries[entries.len() - 1].0));
        let a = "\n"@;
        lemma_e_join_any(a, keyword);
        lemma_e_join_any(a + keyword, "("@);
        lemma_e_join_any(a + keyword + "("@, e.0);
        lemma_e_join_any(a + keyword + "("@ + e.0, "|"@);
        lemma_e_join_any(a + keyword + "("@ + e.0 + "|"@, e.1);
        lemma_e_join_any(a + keyword + "("@ + e.0 + "|"@ + e.1, "|"@);
        let l = label_text(e.2);
        lemma_label_e_free(e.2);
        lemma_e_join_any(a + keyword + "("@ + e.0 + "|"@ + e.1 + "|"@, l);
        lemma_e_join_any(a + keyword + "("@ + e.0 + "|"@ + e.1 + "|"@ + l, ")"@);
        lemma_e_join_any(
            triple_entries_text(keyword, entries.drop_last()),
            triple_entry_text(keyword, e),
        );
    }
}

} // verus!
