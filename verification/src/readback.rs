//! Reading back what the writer wrote. Every marker that inspection looks
//! for starts with `/`, so what a written text holds is settled by where
//! its slashes stand and by the two characters after each.
use vstd::prelude::*;

use crate::inspect::{count_from, count_pages, info_value, page_at, pdf_version};
use crate::text::{all_digits, decimal, decimal_i32, decimal_pad10, is_digit, lemma_decimal_ascii};
use crate::write::{
    catalog_text, dest_entries_text, dest_entry_text, document_text, index_entries_text,
    index_entry_text, kid_ref, label_text, lemma_label_keeps_pattern, metadata_text, triple_entries_text, triple_entry_text, kids_text, lemma_prefix_step, objects, page_text,
    pages_text, prefix_text, rotate_text, xref_entries, PageBox, header_text,
};
use crate::text::{
    char_pos, contains_seq, find_from, is_ws, lemma_char_pos, lemma_char_pos_at, lemma_contains_find,
    lemma_find_from, occurs_at, trim, trim_end, trim_start,
};

verus! {

// ---------------------------------------------------------------------
// Slashes and the two characters after them
// ---------------------------------------------------------------------

/// Position `i` of `s` does not start `/xy`: it holds no slash, or the two
/// characters after the slash are in `s` and are not `x`, `y`.
pub open spec fn quiet_at(s: Seq<char>, x: char, y: char, i: int) -> bool {
    s[i] != '/' || (i + 2 < s.len() && !(s[i + 1] == x && s[i + 2] == y))
}

/// No position of `s` from `i` on starts `/xy`.
pub open spec fn quiet_from(s: Seq<char>, x: char, y: char, i: nat) -> bool
    decreases s.len() - i,
{
    if i >= s.len() {
        true
    } else {
        quiet_at(s, x, y, i as int) && quiet_from(s, x, y, i + 1)
    }
}

/// No position of `s` starts `/xy`.
pub open spec fn quiet(s: Seq<char>, x: char, y: char) -> bool {
    quiet_from(s, x, y, 0)
}

/// Where the last eleven characters of `s` start.
pub open spec fn tail_start(s: Seq<char>) -> nat {
    if s.len() >= 11 {
        (s.len() - 11) as nat
    } else {
        0
    }
}

/// None of the last eleven positions of `s` starts `/xy`.
pub open spec fn quiet_tail(s: Seq<char>, x: char, y: char) -> bool {
    quiet_from(s, x, y, tail_start(s))
}

/// `s` holds no slash.
pub open spec fn slash_free(s: Seq<char>) -> bool {
    forall|i: int| 0 <= i < s.len() ==> s[i] != '/'
}

pub proof fn lemma_quiet_from(s: Seq<char>, x: char, y: char, i: nat)
    ensures
        quiet_from(s, x, y, i) <==> forall|j: int| i <= j < s.len() ==> quiet_at(s, x, y, j),
    decreases s.len() - i,
{
    if i < s.len() {
        lemma_quiet_from(s, x, y, i + 1);
    }
}

pub proof fn lemma_slash_free_quiet(s: Seq<char>, x: char, y: char)
    requires
        slash_free(s),
    ensures
        quiet(s, x, y),
        quiet_tail(s, x, y),
{
    lemma_quiet_from(s, x, y, 0);
    lemma_quiet_from(s, x, y, tail_start(s));
}

pub proof fn lemma_quiet_tail(s: Seq<char>, x: char, y: char)
    requires
        quiet(s, x, y),
    ensures
        quiet_tail(s, x, y),
{
    lemma_quiet_from(s, x, y, 0);
    lemma_quiet_from(s, x, y, tail_start(s));
}

/// Quiet texts stay quiet when joined.
pub proof fn lemma_quiet_concat(a: Seq<char>, b: Seq<char>, x: char, y: char)
    requires
        quiet(a, x, y),
        quiet(b, x, y),
    ensures
        quiet(a + b, x, y),
{
    lemma_quiet_from(a, x, y, 0);
    lemma_quiet_from(b, x, y, 0);
    lemma_quiet_from(a + b, x, y, 0);
    assert forall|j: int| 0 <= j < (a + b).len() implies quiet_at(a + b, x, y, j) by {
        if j < a.len() {
            assert(quiet_at(a, x, y, j));
        } else {
            assert(quiet_at(b, x, y, j - a.len()));
        }
    }
}

/// A quiet text after a text with a quiet tail leaves a quiet tail.
pub proof fn lemma_tail_then_quiet(a: Seq<char>, b: Seq<char>, x: char, y: char)
    requires
        quiet_tail(a, x, y),
        quiet(b, x, y),
    ensures
        quiet_tail(a + b, x, y),
{
    lemma_quiet_from(a, x, y, tail_start(a));
    lemma_quiet_from(b, x, y, 0);
    lemma_quiet_from(a + b, x, y, tail_start(a + b));
    assert forall|j: int| tail_start(a + b) <= j < (a + b).len() implies quiet_at(
        a + b,
        x,
        y,
        j,
    ) by {
        if j < a.len() {
            assert(quiet_at(a, x, y, j));
        } else {
            assert(quiet_at(b, x, y, j - a.len()));
        }
    }
}

/// A long text with a quiet tail gives its quiet tail to any join it ends.
pub proof fn lemma_tail_of_long(a: Seq<char>, b: Seq<char>, x: char, y: char)
    requires
        quiet_tail(b, x, y),
        b.len() >= 11,
    ensures
        quiet_tail(a + b, x, y),
{
    lemma_quiet_from(b, x, y, tail_start(b));
    lemma_quiet_from(a + b, x, y, tail_start(a + b));
    assert forall|j: int| tail_start(a + b) <= j < (a + b).len() implies quiet_at(
        a + b,
        x,
        y,
        j,
    ) by {
        assert(quiet_at(b, x, y, j - a.len()));
    }
}

// ---------------------------------------------------------------------
// Page markers in joined texts
// ---------------------------------------------------------------------

proof fn lemma_count_shift(a: Seq<char>, b: Seq<char>, i: nat)
    requires
        i >= a.len(),
    ensures
        count_from(a + b, i) == count_from(b, (i - a.len()) as nat),
    decreases (a + b).len() - i,
{
    if i < (a + b).len() {
        let t = a + b;
        let k = i - a.len();
        let ii = i as int;
        assert(page_at(t, i as int) == page_at(b, k)) by {
            if i + 11 <= t.len() {
                assert(t[i as int] == b[k]);
                assert(t[ii + 1] == b[k + 1]);
                assert(t[ii + 2] == b[k + 2]);
                assert(t[ii + 3] == b[k + 3]);
                assert(t[ii + 4] == b[k + 4]);
                assert(t[ii + 5] == b[k + 5]);
                assert(t[ii + 6] == b[k + 6]);
                assert(t[ii + 7] == b[k + 7]);
                assert(t[ii + 8] == b[k + 8]);
                assert(t[ii + 9] == b[k + 9]);
                assert(t[ii + 10] == b[k + 10]);
                if i + 11 < t.len() {
                    assert(t[ii + 11] == b[k + 11]);
                }
            }
        }
        lemma_count_shift(a, b, i + 1);
    }
}

proof fn lemma_count_prefix(a: Seq<char>, b: Seq<char>, i: nat)
    requires
        i <= a.len(),
        quiet_tail(a, 'T', 'y'),
    ensures
        count_from(a + b, i) == count_from(a, i) + count_from(b, 0),
    decreases a.len() - i,
{
    let t = a + b;
    let ii = i as int;
    if i == a.len() {
        lemma_count_shift(a, b, i);
    } else {
        lemma_quiet_from(a, 'T', 'y', tail_start(a));
        assert(page_at(t, i as int) == page_at(a, i as int)) by {
            if i + 12 <= a.len() {
                assert(t[i as int] == a[i as int]);
                assert(t[ii + 1] == a[ii + 1]);
                assert(t[ii + 2] == a[ii + 2]);
                assert(t[ii + 3] == a[ii + 3]);
                assert(t[ii + 4] == a[ii + 4]);
                assert(t[ii + 5] == a[ii + 5]);
                assert(t[ii + 6] == a[ii + 6]);
                assert(t[ii + 7] == a[ii + 7]);
                assert(t[ii + 8] == a[ii + 8]);
                assert(t[ii + 9] == a[ii + 9]);
                assert(t[ii + 10] == a[ii + 10]);
                assert(t[ii + 11] == a[ii + 11]);
            } else {
                assert(quiet_at(a, 'T', 'y', i as int));
                assert(t[i as int] == a[i as int]);
                if a[i as int] == '/' {
                    assert(t[ii + 1] == a[ii + 1]);
                    assert(t[ii + 2] == a[ii + 2]);
                }
            }
        }
        lemma_count_prefix(a, b, i + 1);
    }
}

/// Page markers of a join are those of its parts, where the first part
/// has a quiet tail.
pub proof fn lemma_count_concat(a: Seq<char>, b: Seq<char>)
    requires
        quiet_tail(a, 'T', 'y'),
    ensures
        count_pages(a + b) == count_pages(a) + count_pages(b),
{
    lemma_count_prefix(a, b, 0);
}

proof fn lemma_count_quiet_from(s: Seq<char>, i: nat)
    requires
        quiet_from(s, 'T', 'y', i),
    ensures
        count_from(s, i) == 0,
    decreases s.len() - i,
{
    if i < s.len() {
        lemma_count_quiet_from(s, i + 1);
    }
}

/// A text in which no slash starts `/Ty` has no page marker.
pub proof fn lemma_count_quiet(s: Seq<char>)
    requires
        quiet(s, 'T', 'y'),
    ensures
        count_pages(s) == 0,
{
    lemma_count_quiet_from(s, 0);
}

// ---------------------------------------------------------------------
// Other markers in joined texts
// ---------------------------------------------------------------------

/// A marker `/xy...` does not occur in a text where no slash starts `/xy`.
pub proof fn lemma_quiet_no_marker(s: Seq<char>, p: Seq<char>)
    requires
        p.len() >= 3,
        p[0] == '/',
        quiet(s, p[1], p[2]),
    ensures
        !contains_seq(s, p),
        find_from(s, p, 0) is None,
{
    lemma_quiet_from(s, p[1], p[2], 0);
    assert forall|i: int| !occurs_at(s, p, i) by {
        if occurs_at(s, p, i) {
            assert(s.subrange(i, i + p.len())[0] == s[i]);
            assert(s.subrange(i, i + p.len())[1] == s[i + 1]);
            assert(s.subrange(i, i + p.len())[2] == s[i + 2]);
            assert(quiet_at(s, p[1], p[2], i));
        }
    }
    lemma_find_from(s, p, 0);
    if let Some(k) = find_from(s, p, 0) {
        assert(occurs_at(s, p, k as int));
    }
}

/// Where a marker `/xy...` of at most twelve characters follows a text
/// with a quiet tail and no occurrence, its first occurrence in the join is
/// its first occurrence in the second part, shifted.
pub proof fn lemma_find_concat(a: Seq<char>, b: Seq<char>, p: Seq<char>)
    requires
        3 <= p.len() <= 12,
        p[0] == '/',
        quiet_tail(a, p[1], p[2]),
        !contains_seq(a, p),
    ensures
        find_from(a + b, p, 0) == match find_from(b, p, 0) {
            Some(k) => Some(k + a.len()),
            None => None::<nat>,
        },
{
    let t = a + b;
    lemma_quiet_from(a, p[1], p[2], tail_start(a));
    assert forall|i: int| 0 <= i < a.len() implies !occurs_at(t, p, i) by {
        if occurs_at(t, p, i) {
            if i + p.len() <= a.len() {
                assert(a.subrange(i, i + p.len()) =~= t.subrange(i, i + p.len()));
                assert(occurs_at(a, p, i));
            } else {
                assert(t.subrange(i, i + p.len())[0] == t[i]);
                assert(t.subrange(i, i + p.len())[1] == t[i + 1]);
                assert(t.subrange(i, i + p.len())[2] == t[i + 2]);
                assert(quiet_at(a, p[1], p[2], i));
                assert(t[i] == a[i]);
                if a[i] == '/' {
                    assert(t[i + 1] == a[i + 1]);
                    assert(t[i + 2] == a[i + 2]);
                }
            }
        }
    }
    lemma_find_skip(t, p, 0, a.len());
    lemma_find_shift_to(a, b, p, a.len());
}

/// Positions before `k` without an occurrence can be skipped.
pub proof fn lemma_find_skip(t: Seq<char>, p: Seq<char>, i: nat, k: nat)
    requires
        i <= k,
        forall|j: int| i <= j < k ==> !occurs_at(t, p, j),
    ensures
        find_from(t, p, i) == find_from(t, p, k),
    decreases k - i,
{
    if i < k {
        if i + p.len() > t.len() {
            lemma_find_from(t, p, k);
            if let Some(m) = find_from(t, p, k) {
                assert(false);
            }
        } else {
            lemma_find_skip(t, p, i + 1, k);
        }
    }
}

/// Searching the join from inside its second part is searching the second
/// part.
proof fn lemma_find_shift_to(a: Seq<char>, b: Seq<char>, p: Seq<char>, i: nat)
    requires
        i >= a.len(),
    ensures
        find_from(a + b, p, i) == match find_from(b, p, (i - a.len()) as nat) {
            Some(k) => Some(k + a.len()),
            None => None::<nat>,
        },
    decreases (a + b).len() + 1 - i,
{
    let t = a + b;
    let k = i - a.len();
    if i + p.len() <= t.len() {
        assert(t.subrange(i as int, i + p.len() as int) =~= b.subrange(k, k + p.len()));
        if !occurs_at(t, p, i as int) {
            lemma_find_shift_to(a, b, p, i + 1);
        }
    }
}

// ---------------------------------------------------------------------
// Pieces of written text
// ---------------------------------------------------------------------

/// A piece that holds none of the markers `/En`, `/Ti`, `/Au`, and whose
/// tail cannot start a page marker.
pub open spec fn fits(s: Seq<char>) -> bool {
    &&& quiet(s, 'E', 'n')
    &&& quiet(s, 'T', 'i')
    &&& quiet(s, 'A', 'u')
    &&& quiet_tail(s, 'T', 'y')
}

/// A piece that holds no marker at all.
pub open spec fn calm(s: Seq<char>) -> bool {
    fits(s) && quiet(s, 'T', 'y')
}

pub proof fn lemma_slash_free_calm(s: Seq<char>)
    requires
        slash_free(s),
    ensures
        calm(s),
{
    lemma_slash_free_quiet(s, 'E', 'n');
    lemma_slash_free_quiet(s, 'T', 'i');
    lemma_slash_free_quiet(s, 'A', 'u');
    lemma_slash_free_quiet(s, 'T', 'y');
}

/// Joining pieces: the page markers add up, and the join is a piece.
pub proof fn lemma_join(a: Seq<char>, b: Seq<char>)
    requires
        fits(a),
        fits(b),
        b.len() >= 11 || quiet(b, 'T', 'y'),
    ensures
        fits(a + b),
        count_pages(a + b) == count_pages(a) + count_pages(b),
        quiet(b, 'T', 'y') ==> count_pages(a + b) == count_pages(a),
{
    if quiet(b, 'T', 'y') {
        lemma_count_quiet(b);
    }
    lemma_quiet_concat(a, b, 'E', 'n');
    lemma_quiet_concat(a, b, 'T', 'i');
    lemma_quiet_concat(a, b, 'A', 'u');
    if b.len() >= 11 {
        lemma_tail_of_long(a, b, 'T', 'y');
    } else {
        lemma_tail_then_quiet(a, b, 'T', 'y');
    }
    lemma_count_concat(a, b);
}

/// Joining calm pieces gives a calm piece.
pub proof fn lemma_join_calm(a: Seq<char>, b: Seq<char>)
    requires
        calm(a),
        calm(b),
    ensures
        calm(a + b),
{
    lemma_join(a, b);
    lemma_quiet_concat(a, b, 'T', 'y');
}

#[verifier::spinoff_prover]
#[verifier::rlimit(40)]
proof fn lemma_catalog()
    ensures
        fits(catalog_text()),
        count_pages(catalog_text()) == 0,
        catalog_text().len() >= 11,
{
    reveal_strlit("1 0 obj\n<< /Type /Catalog /Pages 2 0 R >>\nendobj\n");
    reveal_with_fuel(count_from, 52);
    reveal_with_fuel(quiet_from, 52);
}

proof fn lemma_digits_calm(s: Seq<char>)
    requires
        all_digits(s),
    ensures
        calm(s),
{
    assert forall|i: int| 0 <= i < s.len() implies s[i] != '/' by {
        assert(is_digit(s[i]));
    }
    lemma_slash_free_calm(s);
}

pub proof fn lemma_decimal_calm(n: nat)
    ensures
        calm(decimal(n)),
{
    lemma_decimal_ascii(n);
    lemma_digits_calm(decimal(n));
}

pub proof fn lemma_decimal_i32_calm(n: i32)
    ensures
        calm(decimal_i32(n)),
{
    if n < 0 {
        let d = decimal((-n) as nat);
        lemma_decimal_ascii((-n) as nat);
        let s = seq!['-'] + d;
        assert forall|i: int| 0 <= i < s.len() implies s[i] != '/' by {
            if i > 0 {
                assert(s[i] == d[i - 1]);
                assert(is_digit(d[i - 1]));
            }
        }
        lemma_slash_free_calm(s);
    } else {
        lemma_decimal_calm(n as nat);
    }
}

proof fn lemma_pad10_calm(n: nat)
    ensures
        calm(decimal_pad10(n)),
{
    let d = decimal(n);
    lemma_decimal_ascii(n);
    let s = decimal_pad10(n);
    assert forall|i: int| 0 <= i < s.len() implies s[i] != '/' by {
        if d.len() < 10 {
            let z = Seq::new((10 - d.len()) as nat, |k: int| '0');
            assert(s == z + d);
            if i >= z.len() {
                assert(s[i] == d[i - z.len()]);
                assert(is_digit(d[i - z.len()]));
            }
        } else {
            assert(is_digit(d[i]));
        }
    }
    lemma_slash_free_calm(s);
}

pub proof fn lemma_literals_calm()
    ensures
        calm(" 0 R"@),
        calm(" "@),
        calm("] /Count "@),
        calm(" >>\nendobj\n"@),
        " >>\nendobj\n"@.len() == 11,
        calm("]"@),
        calm(" /Rotate "@),
        calm("%PDF-"@),
        calm("\n"@),
{
    reveal_strlit(" 0 R");
    reveal_strlit(" ");
    reveal_strlit("] /Count ");
    reveal_strlit(" >>\nendobj\n");
    reveal_strlit("]");
    reveal_strlit(" /Rotate ");
    reveal_strlit("%PDF-");
    reveal_strlit("\n");
    reveal_with_fuel(quiet_from, 12);
}

proof fn lemma_tail_literals_calm()
    ensures
        calm("xref\n0 "@),
        calm("\n0000000000 65535 f \n"@),
        calm(" 00000 n \n"@),
        calm("trailer\n<< /Root 1 0 R /Size "@),
        calm(" >>\nstartxref\n"@),
        calm("\n%%EOF\n"@),
{
    reveal_strlit("xref\n0 ");
    reveal_strlit("\n0000000000 65535 f \n");
    reveal_strlit(" 00000 n \n");
    reveal_strlit("trailer\n<< /Root 1 0 R /Size ");
    reveal_strlit(" >>\nstartxref\n");
    reveal_strlit("\n%%EOF\n");
    reveal_with_fuel(quiet_from, 32);
}

pub proof fn lemma_object_literals()
    ensures
        fits("2 0 obj\n<< /Type /Pages /Kids ["@),
        count_pages("2 0 obj\n<< /Type /Pages /Kids ["@) == 0,
        fits(" 0 obj\n<< /Type /Page /Parent 2 0 R /MediaBox [0 0 "@),
        count_pages(" 0 obj\n<< /Type /Page /Parent 2 0 R /MediaBox [0 0 "@) == 1,
        " 0 obj\n<< /Type /Page /Parent 2 0 R /MediaBox [0 0 "@.len() >= 11,
{
    reveal_strlit("2 0 obj\n<< /Type /Pages /Kids [");
    reveal_strlit(" 0 obj\n<< /Type /Page /Parent 2 0 R /MediaBox [0 0 ");
    reveal_with_fuel(count_from, 52);
    reveal_with_fuel(quiet_from, 52);
}

pub proof fn lemma_kids_calm(n: nat)
    ensures
        calm(kids_text(n)),
    decreases n,
{
    lemma_literals_calm();
    if n == 0 {
        lemma_slash_free_calm(kids_text(n));
    } else {
        lemma_decimal_calm(n + 2);
        lemma_join_calm(decimal(n + 2), " 0 R"@);
        if n == 1 {
            lemma_decimal_calm(3);
            lemma_join_calm(decimal(3), " 0 R"@);
        } else {
            lemma_kids_calm((n - 1) as nat);
            lemma_join_calm(kids_text((n - 1) as nat), " "@);
            lemma_join_calm(kids_text((n - 1) as nat) + " "@, kid_ref(n + 2));
        }
    }
}

proof fn lemma_pages_object(n: nat)
    ensures
        fits(pages_text(n)),
        count_pages(pages_text(n)) == 0,
        pages_text(n).len() >= 11,
{
    lemma_literals_calm();
    lemma_object_literals();
    lemma_kids_calm(n);
    lemma_decimal_calm(n);
    let a = "2 0 obj\n<< /Type /Pages /Kids ["@;
    lemma_join(a, kids_text(n));
    lemma_join(a + kids_text(n), "] /Count "@);
    lemma_join(a + kids_text(n) + "] /Count "@, decimal(n));
    lemma_join(a + kids_text(n) + "] /Count "@ + decimal(n), " >>\nendobj\n"@);
}

proof fn lemma_page_object(id: nat, p: PageBox)
    ensures
        fits(page_text(id, p)),
        count_pages(page_text(id, p)) == 1,
        page_text(id, p).len() >= 11,
{
    lemma_literals_calm();
    lemma_object_literals();
    lemma_decimal_calm(id);
    lemma_decimal_i32_calm(p.0);
    lemma_decimal_i32_calm(p.1);
    let a = " 0 obj\n<< /Type /Page /Parent 2 0 R /MediaBox [0 0 "@;
    let r = rotate_text(p.2);
    match p.2 {
        Some(d) => {
            lemma_decimal_i32_calm(d);
            lemma_join_calm(" /Rotate "@, decimal_i32(d));
        },
        None => {
            lemma_slash_free_calm(r);
        },
    }
    let s1 = decimal(id) + a;
    lemma_count_quiet(decimal(id));
    lemma_join(decimal(id), a);
    let s2 = s1 + decimal_i32(p.0);
    lemma_join(s1, decimal_i32(p.0));
    let s3 = s2 + " "@;
    lemma_join(s2, " "@);
    let s4 = s3 + decimal_i32(p.1);
    lemma_join(s3, decimal_i32(p.1));
    let s5 = s4 + "]"@;
    lemma_join(s4, "]"@);
    let s6 = s5 + r;
    lemma_join(s5, r);
    lemma_join(s6, " >>\nendobj\n"@);
}

proof fn lemma_xref_calm(version: Seq<char>, objs: Seq<Seq<char>>, k: nat)
    ensures
        calm(xref_entries(version, objs, k)),
    decreases k,
{
    if k == 0 {
        lemma_slash_free_calm(xref_entries(version, objs, k));
    } else {
        let prev = xref_entries(version, objs, (k - 1) as nat);
        let pad = decimal_pad10(crate::write::byte_len(prefix_text(version, objs, k - 1)));
        lemma_xref_calm(version, objs, (k - 1) as nat);
        lemma_pad10_calm(crate::write::byte_len(prefix_text(version, objs, k - 1)));
        lemma_tail_literals_calm();
        lemma_join_calm(prev, pad);
        lemma_join_calm(prev + pad, " 00000 n \n"@);
    }
}

/// The text before object `j` of a document: its header and first `j`
/// objects.
proof fn lemma_body(version: Seq<char>, pages: Seq<PageBox>, j: int)
    requires
        slash_free(version),
        0 <= j <= objects(pages).len(),
    ensures
        fits(prefix_text(version, objects(pages), j)),
        count_pages(prefix_text(version, objects(pages), j)) == if j <= 2 {
            0
        } else {
            j - 2
        },
    decreases j,
{
    let objs = objects(pages);
    if j == 0 {
        lemma_literals_calm();
        lemma_slash_free_calm(version);
        lemma_join_calm("%PDF-"@, version);
        lemma_join_calm("%PDF-"@ + version, "\n"@);
        assert(objs.take(0) =~= Seq::<Seq<char>>::empty());
        assert(prefix_text(version, objs, 0) =~= header_text(version));
        lemma_count_quiet(header_text(version));
    } else {
        lemma_body(version, pages, j - 1);
        lemma_prefix_step(version, objs, j - 1);
        let prev = prefix_text(version, objs, j - 1);
        if j - 1 == 0 {
            lemma_catalog();
            assert(objs[0] == catalog_text());
            lemma_join(prev, catalog_text());
        } else if j - 1 == 1 {
            lemma_pages_object(pages.len());
            assert(objs[1] == pages_text(pages.len()));
            lemma_join(prev, pages_text(pages.len()));
        } else {
            let k = j - 3;
            lemma_page_object((k + 3) as nat, pages[k]);
            assert(objs[j - 1] == page_text((k + 3) as nat, pages[k]));
            lemma_join(prev, page_text((k + 3) as nat, pages[k]));
        }
    }
}

/// A written document holds one page marker per page, and none of the
/// other markers inspection looks for.
#[verifier::spinoff_prover]
pub proof fn lemma_document(version: Seq<char>, pages: Seq<PageBox>)
    requires
        slash_free(version),
    ensures
        fits(document_text(version, pages)),
        count_pages(document_text(version, pages)) == pages.len(),
        document_text(version, pages).subrange(0, header_text(version).len() as int)
            == header_text(version),
{
    let objs = objects(pages);
    let body = prefix_text(version, objs, objs.len() as int);
    let size = objs.len() + 1;
    lemma_body(version, pages, objs.len() as int);
    lemma_tail_literals_calm();
    lemma_decimal_calm(size);
    lemma_decimal_calm(crate::write::byte_len(body));
    lemma_xref_calm(version, objs, objs.len());
    let s1 = body + "xref\n0 "@;
    lemma_join(body, "xref\n0 "@);
    let s2 = s1 + decimal(size);
    lemma_join(s1, decimal(size));
    let s3 = s2 + "\n0000000000 65535 f \n"@;
    lemma_join(s2, "\n0000000000 65535 f \n"@);
    let s4 = s3 + xref_entries(version, objs, objs.len());
    lemma_join(s3, xref_entries(version, objs, objs.len()));
    let s5 = s4 + "trailer\n<< /Root 1 0 R /Size "@;
    lemma_join(s4, "trailer\n<< /Root 1 0 R /Size "@);
    let s6 = s5 + decimal(size);
    lemma_join(s5, decimal(size));
    let s7 = s6 + " >>\nstartxref\n"@;
    lemma_join(s6, " >>\nstartxref\n"@);
    let s8 = s7 + decimal(crate::write::byte_len(body));
    lemma_join(s7, decimal(crate::write::byte_len(body)));
    lemma_join(s8, "\n%%EOF\n"@);
    lemma_document_head(version, pages);
}

/// What follows the objects of a document: its cross-reference table and
/// trailer.
pub open spec fn trailer_text(version: Seq<char>, pages: Seq<PageBox>) -> Seq<char> {
    let objs = objects(pages);
    let body = prefix_text(version, objs, objs.len() as int);
    let size = objs.len() + 1;
    "xref\n0 "@ + decimal(size) + "\n0000000000 65535 f \n"@ + xref_entries(
        version,
        objs,
        objs.len(),
    ) + "trailer\n<< /Root 1 0 R /Size "@ + decimal(size) + " >>\nstartxref\n"@ + decimal(
        crate::write::byte_len(body),
    ) + "\n%%EOF\n"@
}

/// A document is its header, its objects, then its trailer.
pub proof fn lemma_document_parts(version: Seq<char>, pages: Seq<PageBox>)
    ensures
        document_text(version, pages) == header_text(version) + objects(pages).flatten()
            + trailer_text(version, pages),
{
    let objs = objects(pages);
    assert(objs.take(objs.len() as int) =~= objs);
    assert(document_text(version, pages) =~= header_text(version) + objects(pages).flatten()
        + trailer_text(version, pages));
}

/// The trailer holds no marker.
pub proof fn lemma_trailer_calm(version: Seq<char>, pages: Seq<PageBox>)
    ensures
        calm(trailer_text(version, pages)),
{
    let objs = objects(pages);
    let body = prefix_text(version, objs, objs.len() as int);
    let size = objs.len() + 1;
    lemma_tail_literals_calm();
    lemma_decimal_calm(size);
    lemma_decimal_calm(crate::write::byte_len(body));
    lemma_xref_calm(version, objs, objs.len());
    let s1 = "xref\n0 "@ + decimal(size);
    lemma_join_calm("xref\n0 "@, decimal(size));
    let s2 = s1 + "\n0000000000 65535 f \n"@;
    lemma_join_calm(s1, "\n0000000000 65535 f \n"@);
    let s3 = s2 + xref_entries(version, objs, objs.len());
    lemma_join_calm(s2, xref_entries(version, objs, objs.len()));
    let s4 = s3 + "trailer\n<< /Root 1 0 R /Size "@;
    lemma_join_calm(s3, "trailer\n<< /Root 1 0 R /Size "@);
    let s5 = s4 + decimal(size);
    lemma_join_calm(s4, decimal(size));
    let s6 = s5 + " >>\nstartxref\n"@;
    lemma_join_calm(s5, " >>\nstartxref\n"@);
    let s7 = s6 + decimal(crate::write::byte_len(body));
    lemma_join_calm(s6, decimal(crate::write::byte_len(body)));
    lemma_join_calm(s7, "\n%%EOF\n"@);
}

/// A written document starts with its header.
proof fn lemma_document_head(version: Seq<char>, pages: Seq<PageBox>)
    ensures
        document_text(version, pages).subrange(0, header_text(version).len() as int)
            == header_text(version),
{
    let objs = objects(pages);
    let body = prefix_text(version, objs, objs.len() as int);
    let h = header_text(version);
    assert(body.subrange(0, h.len() as int) =~= h);
    assert(document_text(version, pages).subrange(0, h.len() as int) =~= h);
}

// ---------------------------------------------------------------------
// The header and the metadata fields
// ---------------------------------------------------------------------

/// A version that reads back as written: not empty, without whitespace at
/// either end, on one line, without slashes.
pub open spec fn plain_version(v: Seq<char>) -> bool {
    &&& v.len() > 0
    &&& trim(v) == v
    &&& forall|i: int| 0 <= i < v.len() ==> v[i] != '\n' && v[i] != '/'
}

proof fn lemma_trim_start_shape(s: Seq<char>)
    ensures
        trim_start(s).len() <= s.len(),
        trim_start(s) == s.skip(s.len() - trim_start(s).len()),
        trim_start(s).len() > 0 ==> !is_ws(trim_start(s)[0]),
    decreases s.len(),
{
    if s.len() > 0 && is_ws(s[0]) {
        lemma_trim_start_shape(s.drop_first());
        assert(s.drop_first().skip(s.drop_first().len() - trim_start(s).len()) =~= s.skip(
            s.len() - trim_start(s).len(),
        ));
    } else {
        assert(s.skip(0) =~= s);
    }
}

proof fn lemma_trim_end_shape(s: Seq<char>)
    ensures
        trim_end(s).len() <= s.len(),
        trim_end(s) == s.take(trim_end(s).len() as int),
        trim_end(s).len() > 0 ==> !is_ws(trim_end(s).last()),
    decreases s.len(),
{
    if s.len() > 0 && is_ws(s.last()) {
        lemma_trim_end_shape(s.drop_last());
        assert(s.drop_last().take(trim_end(s).len() as int) =~= s.take(
            trim_end(s).len() as int,
        ));
    } else {
        assert(s.take(s.len() as int) =~= s);
    }
}

/// Trimming keeps a run of the characters of `s`, and trimming again
/// changes nothing.
pub proof fn lemma_trim_shape(s: Seq<char>)
    ensures
        trim(trim(s)) == trim(s),
        forall|i: int|
            #![trigger trim(s)[i]]
            0 <= i < trim(s).len() ==> exists|j: int| 0 <= j < s.len() && #[trigger] s[j] == trim(
                s,
            )[i],
{
    let u = trim_start(s);
    let w = trim_end(u);
    lemma_trim_start_shape(s);
    lemma_trim_end_shape(u);
    let k = s.len() - u.len();
    assert forall|i: int| #![trigger w[i]] 0 <= i < w.len() implies exists|j: int|
        0 <= j < s.len() && #[trigger] s[j] == w[i] by {
        assert(w[i] == u[i]);
        assert(u[i] == s[k + i]);
    }
    if w.len() > 0 {
        assert(w[0] == u[0]);
        assert(trim_start(w) == w);
    } else {
        assert(trim_start(w) == w);
    }
    assert(trim_end(w) == w);
}

/// The version that inspection reads is not empty, is trimmed and is on
/// one line.
pub proof fn lemma_read_version(t: Seq<char>)
    requires
        pdf_version(t) is Some,
    ensures
        pdf_version(t)->0.len() > 0,
        trim(pdf_version(t)->0) == pdf_version(t)->0,
        forall|i: int|
            0 <= i < pdf_version(t)->0.len() ==> #[trigger] pdf_version(t)->0[i] != '\n',
{
    let line = t.take(char_pos(t, '\n') as int);
    let body = line.skip(5);
    lemma_char_pos(t, '\n');
    lemma_trim_shape(body);
    assert forall|i: int| 0 <= i < trim(body).len() implies #[trigger] trim(body)[i] != '\n' by {
        let j = choose|j: int| 0 <= j < body.len() && #[trigger] body[j] == trim(body)[i];
        assert(body[j] == t[j + 5]);
    }
}

/// A field value that inspection reads is not empty, is trimmed and holds
/// no `)`.
pub proof fn lemma_read_field(t: Seq<char>, key: Seq<char>)
    requires
        info_value(t, key) is Some,
    ensures
        info_value(t, key)->0.len() > 0,
        trim(info_value(t, key)->0) == info_value(t, key)->0,
        forall|i: int|
            0 <= i < info_value(t, key)->0.len() ==> #[trigger] info_value(t, key)->0[i] != ')',
{
    let token = "/"@ + key + " ("@;
    let s = find_from(t, token, 0)->0;
    let rest = t.skip((s + token.len()) as int);
    let e = char_pos(rest, ')');
    let body = rest.take(e as int);
    lemma_char_pos(rest, ')');
    lemma_trim_shape(body);
    assert forall|i: int| 0 <= i < trim(body).len() implies #[trigger] trim(body)[i] != ')' by {
        let j = choose|j: int| 0 <= j < body.len() && #[trigger] body[j] == trim(body)[i];
        assert(body[j] == rest[j]);
    }
}

/// A text that starts with the header of `v` has version `v`.
pub proof fn lemma_version_reads_back(v: Seq<char>, t: Seq<char>)
    requires
        v.len() > 0,
        trim(v) == v,
        forall|i: int| 0 <= i < v.len() ==> v[i] != '\n',
        t.len() >= header_text(v).len(),
        t.subrange(0, header_text(v).len() as int) == header_text(v),
    ensures
        pdf_version(t) == Some(v),
{
    reveal_strlit("%PDF-");
    reveal_strlit("\n");
    let h = header_text(v);
    let k: int = 5 + v.len() as int;
    assert(t.subrange(0, h.len() as int)[k] == t[k]);
    assert(h[k] == '\n');
    assert forall|i: int| 0 <= i < k implies t[i] != '\n' by {
        assert(t.subrange(0, h.len() as int)[i] == t[i]);
        if i >= 5 {
            assert(h[i] == v[i - 5]);
        }
    }
    lemma_char_pos_at(t, '\n', k);
    let line = t.take(k);
    assert(line =~= "%PDF-"@ + v);
    assert(line.take(5) =~= "%PDF-"@);
    assert(line.skip(5) =~= v);
}

/// The title part of the metadata fields.
pub open spec fn title_part(title: Option<Seq<char>>) -> Seq<char> {
    match title {
        Some(t) => "\n/Title ("@ + t + ")"@,
        None => seq![],
    }
}

/// The author part of the metadata fields.
pub open spec fn author_part(author: Option<Seq<char>>) -> Seq<char> {
    match author {
        Some(a) => "\n/Author ("@ + a + ")"@,
        None => seq![],
    }
}

proof fn lemma_field_literals()
    ensures
        quiet("\n/Title ("@, 'T', 'y'),
        quiet("\n/Title ("@, 'E', 'n'),
        quiet("\n/Title ("@, 'A', 'u'),
        quiet("\n/Author ("@, 'T', 'y'),
        quiet("\n/Author ("@, 'E', 'n'),
        quiet("\n/Author ("@, 'T', 'i'),
        calm(")"@),
{
    reveal_strlit("\n/Title (");
    reveal_strlit("\n/Author (");
    reveal_strlit(")");
    reveal_with_fuel(quiet_from, 12);
}

// ---------------------------------------------------------------------
// Navigation entries
// ---------------------------------------------------------------------

pub proof fn lemma_entry_literals()
    ensures
        calm("\n/IndexEntry ("@),
        calm("\n/DestEntry ("@),
        calm("|"@),
        calm("("@),
        calm("/LinkAnnot "@),
        calm("/OutlineEntry "@),
        calm("dest-"@),
        calm("index-"@),
        calm("outline-"@),
{
    reveal_strlit("\n/IndexEntry (");
    reveal_strlit("\n/DestEntry (");
    reveal_strlit("|");
    reveal_strlit("(");
    reveal_strlit("/LinkAnnot ");
    reveal_strlit("/OutlineEntry ");
    reveal_strlit("dest-");
    reveal_strlit("index-");
    reveal_strlit("outline-");
    reveal_with_fuel(quiet_from, 16);
}

/// A name followed by a number, as `dest-3`, holds no marker.
pub proof fn lemma_numbered_name_calm(prefix: Seq<char>, n: nat)
    requires
        calm(prefix),
    ensures
        calm(prefix + decimal(n)),
{
    lemma_decimal_calm(n);
    lemma_join_calm(prefix, decimal(n));
}

/// A written label holds a slash only where the label holds one.
pub proof fn lemma_label_slash_free(s: Seq<char>)
    requires
        slash_free(s),
    ensures
        slash_free(label_text(s)),
{
    let t = label_text(s);
    assert forall|i: int| 0 <= i < t.len() implies t[i] != '/' by {
        if t[i] == '/' {
            let p = seq!['/'];
            assert(t.subrange(i, i + 1) =~= p);
            assert(occurs_at(t, p, i));
            lemma_label_keeps_pattern(s, p);
            let k = choose|k: int| occurs_at(s, p, k);
            assert(s.subrange(k, k + 1)[0] == s[k]);
        }
    }
}

pub proof fn lemma_index_entries_calm(entries: Seq<(Seq<char>, nat)>)
    requires
        forall|k: int| 0 <= k < entries.len() ==> slash_free(#[trigger] entries[k].0),
    ensures
        calm(index_entries_text(entries)),
    decreases entries.len(),
{
    if entries.len() == 0 {
        lemma_slash_free_calm(index_entries_text(entries));
    } else {
        let e = entries.last();
        lemma_index_entries_calm(entries.drop_last());
        lemma_entry_literals();
        lemma_literals_calm();
        lemma_field_literals();
        assert(slash_free(entries[entries.len() - 1].0));
        let l = label_text(e.0);
        lemma_label_slash_free(e.0);
        lemma_slash_free_calm(l);
        lemma_decimal_calm(e.1);
        let a = "\n/IndexEntry ("@;
        lemma_join_calm(a, l);
        lemma_join_calm(a + l, "|"@);
        lemma_join_calm(a + l + "|"@, decimal(e.1));
        lemma_join_calm(a + l + "|"@ + decimal(e.1), ")"@);
        lemma_join_calm(index_entries_text(entries.drop_last()), index_entry_text(e));
    }
}

pub proof fn lemma_dest_entries_calm(entries: Seq<(Seq<char>, nat, Seq<char>)>)
    requires
        forall|k: int|
            0 <= k < entries.len() ==> calm(#[trigger] entries[k].0) && slash_free(entries[k].2),
    ensures
        calm(dest_entries_text(entries)),
    decreases entries.len(),
{
    if entries.len() == 0 {
        lemma_slash_free_calm(dest_entries_text(entries));
    } else {
        let e = entries.last();
        lemma_dest_entries_calm(entries.drop_last());
        lemma_entry_literals();
        lemma_field_literals();
        assert(calm(entries[entries.len() - 1].0));
        let l = label_text(e.2);
        lemma_label_slash_free(e.2);
        lemma_slash_free_calm(l);
        lemma_decimal_calm(e.1);
        let a = "\n/DestEntry ("@;
        lemma_join_calm(a, e.0);
        lemma_join_calm(a + e.0, "|"@);
        lemma_join_calm(a + e.0 + "|"@, decimal(e.1));
        lemma_join_calm(a + e.0 + "|"@ + decimal(e.1), "|"@);
        lemma_join_calm(a + e.0 + "|"@ + decimal(e.1) + "|"@, l);
        lemma_join_calm(a + e.0 + "|"@ + decimal(e.1) + "|"@ + l, ")"@);
        lemma_join_calm(dest_entries_text(entries.drop_last()), dest_entry_text(e));
    }
}

pub proof fn lemma_triple_entries_calm(
    keyword: Seq<char>,
    entries: Seq<(Seq<char>, Seq<char>, Seq<char>)>,
)
    requires
        calm(keyword),
        forall|k: int|
            0 <= k < entries.len() ==> calm(#[trigger] entries[k].0) && calm(entries[k].1)
                && slash_free(entries[k].2),
    ensures
        calm(triple_entries_text(keyword, entries)),
    decreases entries.len(),
{
    if entries.len() == 0 {
        lemma_slash_free_calm(triple_entries_text(keyword, entries));
    } else {
        let e = entries.last();
        assert forall|k: int| 0 <= k < entries.drop_last().len() implies calm(
            #[trigger] entries.drop_last()[k].0,
        ) && calm(entries.drop_last()[k].1) && slash_free(entries.drop_last()[k].2) by {
            assert(entries.drop_last()[k] == entries[k]);
        }
        lemma_triple_entries_calm(keyword, entries.drop_last());
        lemma_entry_literals();
        lemma_literals_calm();
        lemma_field_literals();
        assert(calm(entries[entries.len() - 1].0));
        let l = label_text(e.2);
        lemma_label_slash_free(e.2);
        lemma_slash_free_calm(l);
        let a = "\n"@;
        lemma_join_calm(a, keyword);
        lemma_join_calm(a + keyword, "("@);
        lemma_join_calm(a + keyword + "("@, e.0);
        lemma_join_calm(a + keyword + "("@ + e.0, "|"@);
        lemma_join_calm(a + keyword + "("@ + e.0 + "|"@, e.1);
        lemma_join_calm(a + keyword + "("@ + e.0 + "|"@ + e.1, "|"@);
        lemma_join_calm(a + keyword + "("@ + e.0 + "|"@ + e.1 + "|"@, l);
        lemma_join_calm(a + keyword + "("@ + e.0 + "|"@ + e.1 + "|"@ + l, ")"@);
        lemma_join_calm(triple_entries_text(keyword, entries.drop_last()), triple_entry_text(keyword, e));
    }
}

pub proof fn lemma_empty_calm()
    ensures
        calm(Seq::<char>::empty()),
{
    lemma_slash_free_calm(Seq::<char>::empty());
}

/// What a document followed by text holding no marker reads back as.
pub proof fn lemma_document_then_calm(version: Seq<char>, pages: Seq<PageBox>, extra: Seq<char>)
    requires
        plain_version(version),
        calm(extra),
    ensures
        pdf_version(document_text(version, pages) + extra) == Some(version),
        count_pages(document_text(version, pages) + extra) == pages.len(),
        !contains_seq(document_text(version, pages) + extra, "/Encrypt"@),
        info_value(document_text(version, pages) + extra, "Title"@) is None,
        info_value(document_text(version, pages) + extra, "Author"@) is None,
{
    let doc = document_text(version, pages);
    let t = doc + extra;
    lemma_document(version, pages);
    let h = header_text(version);
    assert(t.subrange(0, h.len() as int) =~= doc.subrange(0, h.len() as int));
    lemma_version_reads_back(version, t);
    lemma_count_concat(doc, extra);
    lemma_count_quiet(extra);
    lemma_quiet_concat(doc, extra, 'E', 'n');
    lemma_quiet_concat(doc, extra, 'T', 'i');
    lemma_quiet_concat(doc, extra, 'A', 'u');
    reveal_strlit("/Encrypt");
    reveal_strlit("/");
    reveal_strlit("Title");
    reveal_strlit("Author");
    reveal_strlit(" (");
    lemma_quiet_no_marker(t, "/Encrypt"@);
    lemma_quiet_no_marker(t, "/"@ + "Title"@ + " ("@);
    lemma_quiet_no_marker(t, "/"@ + "Author"@ + " ("@);
}

// ---------------------------------------------------------------------
// Documents whose version and fields may hold slashes
// ---------------------------------------------------------------------

/// `s` holds none of the markers that reading a document looks for.
pub open spec fn marker_free(s: Seq<char>) -> bool {
    &&& !contains_seq(s, "/Encrypt"@)
    &&& !contains_seq(s, "/Type /Page"@)
    &&& !contains_seq(s, "/Title ("@)
    &&& !contains_seq(s, "/Author ("@)
}

/// A version that reads back as written: not empty, without whitespace at
/// either end, on one line, and holding none of the markers.
pub open spec fn clear_version(v: Seq<char>) -> bool {
    &&& v.len() > 0
    &&& trim(v) == v
    &&& forall|i: int| 0 <= i < v.len() ==> v[i] != '\n'
    &&& marker_free(v)
}

/// A title or author whose value is read back: without `)` and holding
/// none of the markers.
pub open spec fn clear_field(f: Option<Seq<char>>) -> bool {
    match f {
        Some(t) => marker_free(t) && forall|i: int| 0 <= i < t.len() ==> t[i] != ')',
        None => true,
    }
}

/// What is read back of a title or author that was written: the value,
/// trimmed, or nothing where it trims to nothing.
pub open spec fn field_read(f: Option<Seq<char>>) -> Option<Seq<char>> {
    match f {
        Some(t) => if trim(t).len() > 0 {
            Some(trim(t))
        } else {
            None
        },
        None => None,
    }
}

/// Text without slashes holds none of the markers.
pub proof fn lemma_slash_free_marker_free(s: Seq<char>)
    requires
        slash_free(s),
    ensures
        marker_free(s),
{
    reveal_strlit("/Encrypt");
    reveal_strlit("/Type /Page");
    reveal_strlit("/Title (");
    reveal_strlit("/Author (");
    lemma_slash_free_calm(s);
    lemma_quiet_no_marker(s, "/Encrypt"@);
    lemma_quiet_no_marker(s, "/Type /Page"@);
    lemma_quiet_no_marker(s, "/Title ("@);
    lemma_quiet_no_marker(s, "/Author ("@);
}

/// An occurrence of `p` in `a + b` that starts inside `a` lies in `a`,
/// where the join cannot be crossed: one side is empty, or the last
/// character of `a` is not in `p` but as its last, or the first character
/// of `b` is not in `p` but as its first.
pub proof fn lemma_no_cross(a: Seq<char>, b: Seq<char>, p: Seq<char>)
    requires
        !contains_seq(a, p),
        a.len() == 0 || b.len() == 0 || (forall|i: int| 0 <= i < p.len() - 1 ==> p[i] != a.last())
            || (forall|i: int| 1 <= i < p.len() ==> p[i] != b[0]),
    ensures
        forall|q: int| q < a.len() ==> !occurs_at(a + b, p, q),
{
    let t = a + b;
    assert forall|q: int| q < a.len() implies !occurs_at(t, p, q) by {
        if occurs_at(t, p, q) {
            if q + p.len() <= a.len() {
                assert(a.subrange(q, q + p.len()) =~= t.subrange(q, q + p.len()));
                assert(occurs_at(a, p, q));
            } else {
                let i = a.len() - 1 - q;
                let j = a.len() - q;
                assert(t.subrange(q, q + p.len())[i] == t[a.len() - 1]);
                assert(t[a.len() - 1] == a.last());
                assert(t.subrange(q, q + p.len())[j] == t[a.len() as int]);
                assert(t[a.len() as int] == b[0]);
            }
        }
    }
}

/// Joining texts without `p` where the join cannot be crossed gives a text
/// without `p`.
pub proof fn lemma_no_marker_join(a: Seq<char>, b: Seq<char>, p: Seq<char>)
    requires
        !contains_seq(a, p),
        !contains_seq(b, p),
        a.len() == 0 || b.len() == 0 || (forall|i: int| 0 <= i < p.len() - 1 ==> p[i] != a.last())
            || (forall|i: int| 1 <= i < p.len() ==> p[i] != b[0]),
    ensures
        !contains_seq(a + b, p),
{
    lemma_no_cross(a, b, p);
    let t = a + b;
    assert forall|q: int| !occurs_at(t, p, q) by {
        if q >= a.len() && occurs_at(t, p, q) {
            assert(b.subrange(q - a.len(), q - a.len() + p.len()) =~= t.subrange(q, q + p.len()));
            assert(occurs_at(b, p, q - a.len()));
        }
    }
}

/// A page marker is an occurrence of `/Type /Page`.
proof fn lemma_page_at_occurs(t: Seq<char>, i: int)
    requires
        page_at(t, i),
    ensures
        occurs_at(t, "/Type /Page"@, i),
{
    reveal_strlit("/Type /Page");
    assert(t.subrange(i, i + 11) =~= "/Type /Page"@);
}

proof fn lemma_count_none_from(t: Seq<char>, i: nat, k: nat)
    requires
        i <= k,
        forall|q: int| i <= q < k ==> !occurs_at(t, "/Type /Page"@, q),
    ensures
        count_from(t, i) == count_from(t, k),
    decreases k - i,
{
    if i < k {
        if page_at(t, i as int) {
            lemma_page_at_occurs(t, i as int);
        }
        lemma_count_none_from(t, i + 1, k);
        if i >= t.len() {
            assert(count_from(t, i) == 0);
            if i + 1 <= k {
                assert(count_from(t, i + 1) == 0);
            }
        }
    }
}

/// A text without `/Type /Page` has no page marker.
pub proof fn lemma_count_none(t: Seq<char>)
    requires
        !contains_seq(t, "/Type /Page"@),
    ensures
        count_pages(t) == 0,
{
    lemma_count_none_from(t, 0, t.len());
}

/// Where no `/Type /Page` starts in `a`, the page markers of `a + b` are
/// those of `b`.
pub proof fn lemma_count_after(a: Seq<char>, b: Seq<char>)
    requires
        forall|q: int| q < a.len() ==> !occurs_at(a + b, "/Type /Page"@, q),
    ensures
        count_pages(a + b) == count_pages(b),
{
    lemma_count_none_from(a + b, 0, a.len());
    lemma_count_shift(a, b, a.len());
}

/// Where `p` starts nowhere in `a`, its first occurrence in `a + b` is its
/// first occurrence in `b`, shifted.
pub proof fn lemma_find_after(a: Seq<char>, b: Seq<char>, p: Seq<char>)
    requires
        forall|q: int| q < a.len() ==> !occurs_at(a + b, p, q),
    ensures
        find_from(a + b, p, 0) == match find_from(b, p, 0) {
            Some(k) => Some(k + a.len()),
            None => None::<nat>,
        },
{
    lemma_find_skip(a + b, p, 0, a.len());
    lemma_find_shift_to(a, b, p, a.len());
}

/// The objects of a document, without its header: one page marker per
/// page object, and none of the other markers.
proof fn lemma_objects_fit(pages: Seq<PageBox>, j: int)
    requires
        0 <= j <= objects(pages).len(),
    ensures
        fits(objects(pages).take(j).flatten()),
        count_pages(objects(pages).take(j).flatten()) == if j <= 2 {
            0
        } else {
            j - 2
        },
    decreases j,
{
    let objs = objects(pages);
    if j == 0 {
        assert(objs.take(0) =~= Seq::<Seq<char>>::empty());
        assert(objs.take(0).flatten() =~= Seq::<char>::empty());
        lemma_empty_calm();
        lemma_count_quiet(Seq::<char>::empty());
    } else {
        lemma_objects_fit(pages, j - 1);
        let prev = objs.take(j - 1).flatten();
        assert(objs.take(j) == objs.take(j - 1).push(objs[j - 1]));
        objs.take(j - 1).lemma_flatten_push(objs[j - 1]);
        if j - 1 == 0 {
            lemma_catalog();
            assert(objs[0] == catalog_text());
            lemma_join(prev, catalog_text());
        } else if j - 1 == 1 {
            lemma_pages_object(pages.len());
            assert(objs[1] == pages_text(pages.len()));
            lemma_join(prev, pages_text(pages.len()));
        } else {
            let k = j - 3;
            lemma_page_object((k + 3) as nat, pages[k]);
            assert(objs[j - 1] == page_text((k + 3) as nat, pages[k]));
            lemma_join(prev, page_text((k + 3) as nat, pages[k]));
        }
    }
}

/// What follows the header of a written document, whatever its version:
/// one page marker per page, none of the other markers, and a last line
/// break.
pub proof fn lemma_after_header(version: Seq<char>, pages: Seq<PageBox>)
    ensures
        ({
            let r = objects(pages).flatten() + trailer_text(version, pages);
            &&& document_text(version, pages) == header_text(version) + r
            &&& fits(r)
            &&& count_pages(r) == pages.len()
            &&& r.len() > 0
            &&& r.last() == '\n'
        }),
{
    let objs = objects(pages);
    let tr = trailer_text(version, pages);
    let r = objs.flatten() + tr;
    lemma_document_parts(version, pages);
    assert(document_text(version, pages) =~= header_text(version) + r);
    lemma_objects_fit(pages, objs.len() as int);
    assert(objs.take(objs.len() as int) =~= objs);
    lemma_trailer_calm(version, pages);
    lemma_join(objs.flatten(), tr);
    reveal_strlit("\n%%EOF\n");
    assert(tr.last() == '\n');
    assert(r.last() == tr.last());
}

/// The literal pieces around the metadata fields, and the boundaries
/// between them.
proof fn lemma_meta_literals()
    ensures
        marker_free("%PDF-"@),
        marker_free("\n"@),
        marker_free(")"@),
        !contains_seq("\n/Title ("@, "/Encrypt"@),
        !contains_seq("\n/Title ("@, "/Type /Page"@),
        !contains_seq("\n/Title ("@, "/Author ("@),
        !contains_seq("\n/Author ("@, "/Encrypt"@),
        !contains_seq("\n/Author ("@, "/Type /Page"@),
        !contains_seq("\n/Author ("@, "/Title ("@),
{
    reveal_strlit("%PDF-");
    reveal_strlit("\n");
    reveal_strlit(")");
    reveal_strlit("\n/Title (");
    reveal_strlit("\n/Author (");
    reveal_strlit("/Encrypt");
    reveal_strlit("/Type /Page");
    reveal_strlit("/Title (");
    reveal_strlit("/Author (");
    reveal_with_fuel(crate::rotations::absent_from, 12);
    reveal_with_fuel(crate::rotations::chars_match, 3);
    crate::rotations::lemma_absent("\n/Title ("@, "/Encrypt"@);
    crate::rotations::lemma_absent("\n/Title ("@, "/Type /Page"@);
    crate::rotations::lemma_absent("\n/Title ("@, "/Author ("@);
    crate::rotations::lemma_absent("\n/Author ("@, "/Encrypt"@);
    crate::rotations::lemma_absent("\n/Author ("@, "/Type /Page"@);
    crate::rotations::lemma_absent("\n/Author ("@, "/Title ("@);
    crate::rotations::lemma_absent("%PDF-"@, "/Encrypt"@);
    crate::rotations::lemma_absent("%PDF-"@, "/Type /Page"@);
    crate::rotations::lemma_absent("%PDF-"@, "/Title ("@);
    crate::rotations::lemma_absent("%PDF-"@, "/Author ("@);
    crate::rotations::lemma_absent("\n"@, "/Encrypt"@);
    crate::rotations::lemma_absent("\n"@, "/Type /Page"@);
    crate::rotations::lemma_absent("\n"@, "/Title ("@);
    crate::rotations::lemma_absent("\n"@, "/Author ("@);
    crate::rotations::lemma_absent(")"@, "/Encrypt"@);
    crate::rotations::lemma_absent(")"@, "/Type /Page"@);
    crate::rotations::lemma_absent(")"@, "/Title ("@);
    crate::rotations::lemma_absent(")"@, "/Author ("@);
}


/// The header of a version without markers holds none, and ends with a
/// line break.
proof fn lemma_header_marker_free(v: Seq<char>)
    requires
        marker_free(v),
    ensures
        marker_free(header_text(v)),
        header_text(v).len() > 0,
        header_text(v).last() == '\n',
{
    lemma_meta_literals();
    reveal_strlit("%PDF-");
    reveal_strlit("\n");
    reveal_strlit("/Encrypt");
    reveal_strlit("/Type /Page");
    reveal_strlit("/Title (");
    reveal_strlit("/Author (");
    let a = "%PDF-"@;
    let n = "\n"@;
    lemma_no_marker_join(a, v, "/Encrypt"@);
    lemma_no_marker_join(a, v, "/Type /Page"@);
    lemma_no_marker_join(a, v, "/Title ("@);
    lemma_no_marker_join(a, v, "/Author ("@);
    lemma_no_marker_join(a + v, n, "/Encrypt"@);
    lemma_no_marker_join(a + v, n, "/Type /Page"@);
    lemma_no_marker_join(a + v, n, "/Title ("@);
    lemma_no_marker_join(a + v, n, "/Author ("@);
}

/// The title part of a field without `)` or markers holds none of the
/// markers but its own, and ends with `)` when it is written.
proof fn lemma_title_part_clear(title: Option<Seq<char>>)
    requires
        clear_field(title),
    ensures
        !contains_seq(title_part(title), "/Encrypt"@),
        !contains_seq(title_part(title), "/Type /Page"@),
        !contains_seq(title_part(title), "/Author ("@),
        title_part(title).len() == 0 || title_part(title).last() == ')',
{
    lemma_meta_literals();
    reveal_strlit("\n/Title (");
    reveal_strlit(")");
    reveal_strlit("/Encrypt");
    reveal_strlit("/Type /Page");
    reveal_strlit("/Author (");
    if let Some(x) = title {
        let l = "\n/Title ("@;
        let c = ")"@;
        lemma_no_marker_join(l, x, "/Encrypt"@);
        lemma_no_marker_join(l, x, "/Type /Page"@);
        lemma_no_marker_join(l, x, "/Author ("@);
        lemma_no_marker_join(l + x, c, "/Encrypt"@);
        lemma_no_marker_join(l + x, c, "/Type /Page"@);
        lemma_no_marker_join(l + x, c, "/Author ("@);
    } else {
        assert(!contains_seq(Seq::<char>::empty(), "/Encrypt"@));
        assert(!contains_seq(Seq::<char>::empty(), "/Type /Page"@));
        assert(!contains_seq(Seq::<char>::empty(), "/Author ("@));
    }
}

/// The author part of a field without `)` or markers holds none of the
/// markers but its own, and starts with a line break when it is written.
proof fn lemma_author_part_clear(author: Option<Seq<char>>)
    requires
        clear_field(author),
    ensures
        !contains_seq(author_part(author), "/Encrypt"@),
        !contains_seq(author_part(author), "/Type /Page"@),
        !contains_seq(author_part(author), "/Title ("@),
        author_part(author).len() == 0 || author_part(author)[0] == '\n',
{
    lemma_meta_literals();
    reveal_strlit("\n/Author (");
    reveal_strlit(")");
    reveal_strlit("/Encrypt");
    reveal_strlit("/Type /Page");
    reveal_strlit("/Title (");
    if let Some(x) = author {
        let l = "\n/Author ("@;
        let c = ")"@;
        lemma_no_marker_join(l, x, "/Encrypt"@);
        lemma_no_marker_join(l, x, "/Type /Page"@);
        lemma_no_marker_join(l, x, "/Title ("@);
        lemma_no_marker_join(l + x, c, "/Encrypt"@);
        lemma_no_marker_join(l + x, c, "/Type /Page"@);
        lemma_no_marker_join(l + x, c, "/Title ("@);
    } else {
        assert(!contains_seq(Seq::<char>::empty(), "/Encrypt"@));
        assert(!contains_seq(Seq::<char>::empty(), "/Type /Page"@));
        assert(!contains_seq(Seq::<char>::empty(), "/Title ("@));
    }
}

/// Reading a field whose value, followed by `)`, stands after its marker.
proof fn lemma_field_value_read(t: Seq<char>, key: Seq<char>, s: nat, v: Seq<char>)
    requires
        forall|i: int| 0 <= i < v.len() ==> v[i] != ')',
        find_from(t, "/"@ + key + " ("@, 0) == Some(s),
        s + ("/"@ + key + " ("@).len() + v.len() < t.len(),
        t.skip((s + ("/"@ + key + " ("@).len()) as int).take(v.len() as int + 1) == v + ")"@,
    ensures
        info_value(t, key) == field_read(Some(v)),
{
    reveal_strlit(")");
    let token = "/"@ + key + " ("@;
    let rest = t.skip((s + token.len()) as int);
    assert(rest.take(v.len() as int + 1)[v.len() as int] == rest[v.len() as int]);
    assert forall|i: int| 0 <= i < v.len() implies rest[i] != ')' by {
        assert(rest.take(v.len() as int + 1)[i] == rest[i]);
    }
    lemma_char_pos_at(rest, ')', v.len() as int);
    assert(rest.take(v.len() as int) =~= v);
}

/// What is read of a written document followed by its metadata fields,
/// where the version and the fields hold no marker.
#[verifier::spinoff_prover]
#[verifier::rlimit(60)]
pub proof fn lemma_written_text(
    version: Seq<char>,
    pages: Seq<PageBox>,
    title: Option<Seq<char>>,
    author: Option<Seq<char>>,
)
    requires
        clear_version(version),
        clear_field(title),
        clear_field(author),
    ensures
        ({
            let t = document_text(version, pages) + metadata_text(title, author);
            &&& pdf_version(t) == Some(version)
            &&& count_pages(t) == pages.len()
            &&& !contains_seq(t, "/Encrypt"@)
            &&& info_value(t, "Title"@) == field_read(title)
            &&& info_value(t, "Author"@) == field_read(author)
        }),
{
    let h = header_text(version);
    let r = objects(pages).flatten() + trailer_text(version, pages);
    let tp = title_part(title);
    let ap = author_part(author);
    let m = tp + ap;
    lemma_after_header(version, pages);
    assert(metadata_text(title, author) =~= m);
    let t = document_text(version, pages) + metadata_text(title, author);
    let hr = h + r;
    assert(t =~= hr + m);
    assert(t =~= h + (r + m));
    lemma_header_marker_free(version);
    lemma_title_part_clear(title);
    lemma_author_part_clear(author);
    lemma_meta_literals();
    reveal_strlit("/Encrypt");
    reveal_strlit("/Type /Page");
    reveal_strlit("/Title (");
    reveal_strlit("/Author (");
    reveal_strlit("/");
    reveal_strlit("Title");
    reveal_strlit("Author");
    reveal_strlit(" (");
    reveal_strlit("\n/Title (");
    reveal_strlit("\n/Author (");
    reveal_strlit(")");
    let enc = "/Encrypt"@;
    let pg = "/Type /Page"@;
    let ttok = "/Title ("@;
    let atok = "/Author ("@;
    assert("/"@ + "Title"@ + " ("@ =~= ttok);
    assert("/"@ + "Author"@ + " ("@ =~= atok);
    lemma_quiet_no_marker(r, enc);
    lemma_quiet_no_marker(r, ttok);
    lemma_quiet_no_marker(r, atok);
    assert(hr.last() == '\n');
    // The version.
    let hl = h.len() as int;
    assert(t.subrange(0, hl) =~= h);
    lemma_version_reads_back(version, t);
    // Encryption.
    lemma_no_marker_join(h, r, enc);
    lemma_no_marker_join(tp, ap, enc);
    lemma_no_marker_join(hr, m, enc);
    // Pages.
    lemma_no_marker_join(tp, ap, pg);
    lemma_count_none(m);
    lemma_no_cross(h, r + m, pg);
    lemma_count_after(h, r + m);
    lemma_count_concat(r, m);
    // The title.
    lemma_no_marker_join(h, r, ttok);
    lemma_no_cross(hr, m, ttok);
    lemma_find_after(hr, m, ttok);
    match title {
        Some(x) => {
            assert(tp == "\n/Title ("@ + x + ")"@);
            assert(m[0] == '\n');
            assert(!occurs_at(m, ttok, 0)) by {
                assert(m.subrange(0, 8)[0] == m[0]);
            }
            assert(occurs_at(m, ttok, 1)) by {
                assert(m.subrange(1, 9) =~= ttok);
            }
            reveal_with_fuel(find_from, 3);
            assert(find_from(m, ttok, 0) == Some(1nat));
            let s = hr.len() + 1;
            assert(t.skip(s + 8int).take(x.len() as int + 1) =~= x + ")"@);
            lemma_field_value_read(t, "Title"@, s as nat, x);
        },
        None => {
            assert(m =~= ap);
            lemma_contains_find(m, ttok);
        },
    }
    // The author.
    let p = hr + tp;
    assert(t =~= p + ap);
    lemma_no_marker_join(h, r, atok);
    lemma_no_marker_join(hr, tp, atok);
    lemma_no_cross(p, ap, atok);
    lemma_find_after(p, ap, atok);
    match author {
        Some(x) => {
            assert(ap == "\n/Author ("@ + x + ")"@);
            assert(ap[0] == '\n');
            assert(!occurs_at(ap, atok, 0)) by {
                assert(ap.subrange(0, 9)[0] == ap[0]);
            }
            assert(occurs_at(ap, atok, 1)) by {
                assert(ap.subrange(1, 10) =~= atok);
            }
            reveal_with_fuel(find_from, 3);
            assert(find_from(ap, atok, 0) == Some(1nat));
            let s = p.len() + 1;
            assert(t.skip(s + 9int).take(x.len() as int + 1) =~= x + ")"@);
            lemma_field_value_read(t, "Author"@, s as nat, x);
        },
        None => {
            lemma_contains_find(ap, atok);
        },
    }
}

/// The version of a text that starts with the header `%PDF-<v>` on its
/// first line is `v` trimmed, or none where `v` trims to nothing,
/// whatever follows the header.
pub proof fn law_header_gives_trimmed_version(v: Seq<char>, rest: Seq<char>)
    requires
        forall|i: int| 0 <= i < v.len() ==> v[i] != '\n',
    ensures
        pdf_version(header_text(v) + rest) == if trim(v).len() > 0 {
            Some(trim(v))
        } else {
            None::<Seq<char>>
        },
{
    reveal_strlit("%PDF-");
    reveal_strlit("\n");
    let t = header_text(v) + rest;
    let k: int = 5 + v.len() as int;
    assert(t[k] == '\n');
    assert forall|i: int| 0 <= i < k implies t[i] != '\n' by {
        if i >= 5 {
            assert(t[i] == v[i - 5]);
        }
    }
    lemma_char_pos_at(t, '\n', k);
    let line = t.take(k);
    assert(line =~= "%PDF-"@ + v);
    assert(line.take(5) =~= "%PDF-"@);
    assert(line.skip(5) =~= v);
}

/// A text that starts with a title field `/Title (<v>)` has title `v`
/// trimmed, or none where `v` trims to nothing, whatever follows; likewise
/// an author field.
pub proof fn law_first_field_gives_trimmed_value(v: Seq<char>, rest: Seq<char>)
    requires
        forall|i: int| 0 <= i < v.len() ==> v[i] != ')',
    ensures
        info_value("/Title ("@ + v + ")"@ + rest, "Title"@) == field_read(Some(v)),
        info_value("/Author ("@ + v + ")"@ + rest, "Author"@) == field_read(Some(v)),
{
    reveal_strlit("/Title (");
    reveal_strlit("/Author (");
    reveal_strlit("/");
    reveal_strlit("Title");
    reveal_strlit("Author");
    reveal_strlit(" (");
    reveal_strlit(")");
    let tt = "/Title ("@ + v + ")"@ + rest;
    let ttok = "/"@ + "Title"@ + " ("@;
    assert(ttok =~= "/Title ("@);
    assert(tt.subrange(0, 8) =~= ttok);
    reveal_with_fuel(find_from, 2);
    assert(find_from(tt, ttok, 0) == Some(0nat));
    assert(tt.skip(8).take(v.len() as int + 1) =~= v + ")"@);
    lemma_field_value_read(tt, "Title"@, 0, v);
    let at = "/Author ("@ + v + ")"@ + rest;
    let atok = "/"@ + "Author"@ + " ("@;
    assert(atok =~= "/Author ("@);
    assert(at.subrange(0, 9) =~= atok);
    assert(find_from(at, atok, 0) == Some(0nat));
    assert(at.skip(9).take(v.len() as int + 1) =~= v + ")"@);
    lemma_field_value_read(at, "Author"@, 0, v);
}

} // verus!
