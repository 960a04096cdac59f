//! Page-range expressions such as `1,3-5,8`.
use vstd::prelude::*;
use std::collections::HashSet;

use crate::error::PdfError;
use crate::text::{
    char_pos, chars_of, decimal, decimal_chars, find_char, lemma_char_pos, lemma_char_pos_at,
    parse_usize,
    parse_usize_range, push_chars, push_range, push_str_chars, string_from_chars, trim, trim_range,
    all_ws, is_ws, lemma_trim_around, lemma_trim_end_concat, lemma_trim_end_split,
    lemma_trim_start_concat, lemma_trim_start_split, trim_end, trim_start,
};

verus! {

broadcast use vstd::std_specs::hash::group_hash_axioms;

/// `acc` with `p` added at the end, unless it is already there.
pub open spec fn add_page(acc: Seq<usize>, p: usize) -> Seq<usize> {
    if acc.contains(p) {
        acc
    } else {
        acc.push(p)
    }
}

/// `acc` with the pages `start..=end` added in order, each only once.
pub open spec fn add_span(acc: Seq<usize>, start: int, end: int) -> Seq<usize>
    decreases end - start + 1,
{
    if start > end {
        acc
    } else {
        add_span(add_page(acc, start as usize), start + 1, end)
    }
}

pub open spec fn not_a_page_reason(token: Seq<char>) -> Seq<char> {
    "`"@ + token + "` is not a positive page number"@
}

pub open spec fn exceeds_reason(page: usize, max_page: usize) -> Seq<char> {
    "page "@ + decimal(page as nat) + " exceeds max page "@ + decimal(max_page as nat)
}

/// A page number: a positive integer (`Err` holds the reason).
pub open spec fn positive_page(token: Seq<char>) -> Result<usize, Seq<char>> {
    match parse_usize(token) {
        None => Err(not_a_page_reason(token)),
        Some(p) => if p == 0 {
            Err("page numbers must start at 1"@)
        } else {
            Ok(p)
        },
    }
}

/// The effect of one comma-separated token (already trimmed): a single
/// page or a span `a-b`, each bounded by `max_page`.
pub open spec fn apply_token(token: Seq<char>, max_page: usize, acc: Seq<usize>) -> Result<
    Seq<usize>,
    Seq<char>,
> {
    if token.len() == 0 {
        Err("contains empty segment"@)
    } else {
        let d = char_pos(token, '-');
        if d < token.len() {
            match positive_page(trim(token.take(d as int))) {
                Err(e) => Err(e),
                Ok(start) => match positive_page(trim(token.skip(d + 1int))) {
                    Err(e) => Err(e),
                    Ok(end) => if start > end {
                        Err("range start must be <= end"@)
                    } else if end > max_page {
                        Err(exceeds_reason(end, max_page))
                    } else {
                        Ok(add_span(acc, start as int, end as int))
                    },
                },
            }
        } else {
            match positive_page(token) {
                Err(e) => Err(e),
                Ok(p) => if p > max_page {
                    Err(exceeds_reason(p, max_page))
                } else {
                    Ok(add_page(acc, p))
                },
            }
        }
    }
}

/// The tokens of `rest` (separated by `,`) applied in order.
pub open spec fn ranges_from(rest: Seq<char>, max_page: usize, acc: Seq<usize>) -> Result<
    Seq<usize>,
    Seq<char>,
>
    decreases rest.len(),
{
    let k = char_pos(rest, ',');
    proof {
        lemma_char_pos(rest, ',');
    }
    match apply_token(trim(rest.take(k as int)), max_page, acc) {
        Err(e) => Err(e),
        Ok(a) => if k < rest.len() {
            ranges_from(rest.skip(k + 1int), max_page, a)
        } else {
            Ok(a)
        },
    }
}

/// The pages that a range expression selects, in first-mention order and
/// each once, or the reason why the expression is rejected.
pub open spec fn spec_parse_page_ranges(input: Seq<char>, max_page: usize) -> Result<
    Seq<usize>,
    Seq<char>,
> {
    let t = trim(input);
    if t.len() == 0 {
        Err("range cannot be empty"@)
    } else if max_page == 0 {
        Err("max page must be greater than zero"@)
    } else {
        ranges_from(t, max_page, seq![])
    }
}

/// Every page lies in `1..=max_page` and none occurs twice.
pub open spec fn valid_pages(s: Seq<usize>, max_page: usize) -> bool {
    &&& forall|i: int| 0 <= i < s.len() ==> 1 <= #[trigger] s[i] <= max_page
    &&& s.no_duplicates()
}

proof fn lemma_add_page_valid(acc: Seq<usize>, p: usize, max_page: usize)
    requires
        valid_pages(acc, max_page),
        1 <= p <= max_page,
    ensures
        valid_pages(add_page(acc, p), max_page),
        add_page(acc, p).contains(p),
        forall|x: usize| acc.contains(x) ==> add_page(acc, p).contains(x),
        forall|x: usize| add_page(acc, p).contains(x) ==> acc.contains(x) || x == p,
{
    if !acc.contains(p) {
        assert(acc.push(p)[acc.len() as int] == p);
        assert forall|x: usize| acc.contains(x) implies acc.push(p).contains(x) by {
            let i = choose|i: int| 0 <= i < acc.len() && acc[i] == x;
            assert(acc.push(p)[i] == x);
        }
    }
}

proof fn lemma_add_span_valid(acc: Seq<usize>, start: int, end: int, max_page: usize)
    requires
        valid_pages(acc, max_page),
        1 <= start,
        end <= max_page,
    ensures
        valid_pages(add_span(acc, start, end), max_page),
    decreases end - start + 1,
{
    if start <= end {
        lemma_add_page_valid(acc, start as usize, max_page);
        lemma_add_span_valid(add_page(acc, start as usize), start + 1, end, max_page);
    }
}

proof fn lemma_apply_token_valid(token: Seq<char>, max_page: usize, acc: Seq<usize>)
    requires
        valid_pages(acc, max_page),
    ensures
        apply_token(token, max_page, acc) matches Ok(a) ==> valid_pages(a, max_page),
{
    if token.len() > 0 {
        let d = char_pos(token, '-');
        if d < token.len() {
            if let Ok(start) = positive_page(trim(token.take(d as int))) {
                if let Ok(end) = positive_page(trim(token.skip(d + 1int))) {
                    if start <= end && end <= max_page {
                        lemma_add_span_valid(acc, start as int, end as int, max_page);
                    }
                }
            }
        } else if let Ok(p) = positive_page(token) {
            if p <= max_page {
                lemma_add_page_valid(acc, p, max_page);
            }
        }
    }
}

proof fn lemma_ranges_from_valid(rest: Seq<char>, max_page: usize, acc: Seq<usize>)
    requires
        valid_pages(acc, max_page),
    ensures
        ranges_from(rest, max_page, acc) matches Ok(a) ==> valid_pages(a, max_page),
    decreases rest.len(),
{
    let k = char_pos(rest, ',');
    lemma_char_pos(rest, ',');
    lemma_apply_token_valid(trim(rest.take(k as int)), max_page, acc);
    if let Ok(a) = apply_token(trim(rest.take(k as int)), max_page, acc) {
        if k < rest.len() {
            lemma_ranges_from_valid(rest.skip(k + 1int), max_page, a);
        }
    }
}

/// Whatever a range expression selects lies within `1..=max_page`, and no
/// page is selected twice.
pub proof fn lemma_parsed_pages_valid(input: Seq<char>, max_page: usize)
    ensures
        spec_parse_page_ranges(input, max_page) matches Ok(pages) ==> valid_pages(
            pages,
            max_page,
        ),
{
    let t = trim(input);
    if t.len() > 0 && max_page > 0 {
        assert(valid_pages(Seq::<usize>::empty(), max_page));
        lemma_ranges_from_valid(t, max_page, seq![]);
    }
}

proof fn lemma_add_span_grows(acc: Seq<usize>, start: int, end: int)
    ensures
        add_span(acc, start, end).len() >= acc.len(),
        start <= end ==> add_span(acc, start, end).len() >= 1,
    decreases end - start + 1,
{
    if start <= end {
        lemma_add_span_grows(add_page(acc, start as usize), start + 1, end);
    }
}

proof fn lemma_ranges_from_nonempty(rest: Seq<char>, max_page: usize, acc: Seq<usize>)
    ensures
        ranges_from(rest, max_page, acc) matches Ok(a) ==> a.len() >= 1,
    decreases rest.len(),
{
    let k = char_pos(rest, ',');
    lemma_char_pos(rest, ',');
    let token = trim(rest.take(k as int));
    if token.len() > 0 {
        let d = char_pos(token, '-');
        if d < token.len() {
            if let Ok(start) = positive_page(trim(token.take(d as int))) {
                if let Ok(end) = positive_page(trim(token.skip(d + 1int))) {
                    lemma_add_span_grows(acc, start as int, end as int);
                }
            }
        }
    }
    if let Ok(a) = apply_token(token, max_page, acc) {
        if k < rest.len() {
            lemma_ranges_from_nonempty(rest.skip(k + 1int), max_page, a);
        }
    }
}

/// A range expression that is accepted selects at least one page.
pub proof fn lemma_parsed_pages_nonempty(input: Seq<char>, max_page: usize)
    ensures
        spec_parse_page_ranges(input, max_page) matches Ok(pages) ==> pages.len() >= 1,
{
    let t = trim(input);
    if t.len() > 0 && max_page > 0 {
        lemma_ranges_from_nonempty(t, max_page, seq![]);
    }
}

/// A selection of distinct pages from `1..=max_page` has at most
/// `max_page` pages.
pub proof fn lemma_valid_pages_len(s: Seq<usize>, max_page: usize)
    requires
        valid_pages(s, max_page),
    ensures
        s.len() <= max_page,
{
    let f = |x: usize| x as int;
    let si = s.map_values(f);
    s.lemma_no_duplicates_injective(f);
    si.unique_seq_to_set();
    assert forall|x: int| si.to_set().contains(x) implies vstd::set_lib::set_int_range(
        1,
        max_page + 1,
    ).contains(x) by {
        let i = choose|i: int| 0 <= i < si.len() && si[i] == x;
        assert(1 <= s[i] <= max_page);
    }
    vstd::set_lib::lemma_int_range(1, max_page + 1);
    vstd::set_lib::lemma_len_subset(si.to_set(), vstd::set_lib::set_int_range(1, max_page + 1));
}

/// A fresh `String` with the characters of a string literal.
fn lit(s: &str) -> (r: String)
    ensures
        r@ == s@,
{
    String::from_str(s)
}

/// Parses `c[lo..hi]` as a page number.
fn parse_positive_page(c: &Vec<char>, lo: usize, hi: usize) -> (r: Result<usize, String>)
    requires
        lo <= hi <= c@.len(),
    ensures
        match r {
            Ok(p) => positive_page(c@.subrange(lo as int, hi as int)) == Ok::<usize, Seq<char>>(p),
            Err(e) => positive_page(c@.subrange(lo as int, hi as int)) == Err::<usize, Seq<char>>(
                e@,
            ),
        },
{
    match parse_usize_range(c, lo, hi) {
        None => {
            let mut m: Vec<char> = Vec::new();
            push_str_chars(&mut m, "`");
            push_range(&mut m, c, lo, hi);
            push_str_chars(&mut m, "` is not a positive page number");
            Err(string_from_chars(m.as_slice()))
        },
        Some(p) => {
            if p == 0 {
                Err(lit("page numbers must start at 1"))
            } else {
                Ok(p)
            }
        },
    }
}

fn exceeds_message(page: usize, max_page: usize) -> (r: String)
    ensures
        r@ == exceeds_reason(page, max_page),
{
    let mut m: Vec<char> = Vec::new();
    push_str_chars(&mut m, "page ");
    let d = decimal_chars(page as u64);
    push_chars(&mut m, &d);
    push_str_chars(&mut m, " exceeds max page ");
    let d2 = decimal_chars(max_page as u64);
    push_chars(&mut m, &d2);
    string_from_chars(m.as_slice())
}

/// Adds `p` to the selection unless it is already selected.
fn add_page_exec(acc: &mut Vec<usize>, seen: &mut HashSet<usize>, p: usize)
    requires
        old(seen)@ == old(acc)@.to_set(),
    ensures
        final(acc)@ == add_page(old(acc)@, p),
        final(seen)@ == final(acc)@.to_set(),
{
    proof {
        assert(old(acc)@.to_set().contains(p) <==> old(acc)@.contains(p));
    }
    if seen.insert(p) {
        acc.push(p);
        proof {
            old(acc)@.lemma_push_to_set_commute(p);
        }
    }
}

/// Applies one token `c[a..b]` (already trimmed) to the selection.
fn apply_token_exec(
    c: &Vec<char>,
    a: usize,
    b: usize,
    max_page: usize,
    acc: &mut Vec<usize>,
    seen: &mut HashSet<usize>,
) -> (r: Result<(), String>)
    requires
        a <= b <= c@.len(),
        old(seen)@ == old(acc)@.to_set(),
    ensures
        match r {
            Ok(()) => apply_token(c@.subrange(a as int, b as int), max_page, old(acc)@) == Ok::<
                Seq<usize>,
                Seq<char>,
            >(final(acc)@),
            Err(e) => apply_token(c@.subrange(a as int, b as int), max_page, old(acc)@) == Err::<
                Seq<usize>,
                Seq<char>,
            >(e@),
        },
        final(seen)@ == final(acc)@.to_set(),
{
    let ghost tok = c@.subrange(a as int, b as int);
    if a == b {
        return Err(lit("contains empty segment"));
    }
    let d = find_char(c, a, b, '-');
    if d < b {
        proof {
            assert(tok.take(d - a) == c@.subrange(a as int, d as int));
            assert(tok.skip(d - a + 1) == c@.subrange(d + 1, b as int));
        }
        let (s0, s1) = trim_range(c, a, d);
        let start = match parse_positive_page(c, s0, s1) {
            Ok(p) => p,
            Err(e) => return Err(e),
        };
        let (e0, e1) = trim_range(c, d + 1, b);
        let end = match parse_positive_page(c, e0, e1) {
            Ok(p) => p,
            Err(e) => return Err(e),
        };
        if start > end {
            return Err(lit("range start must be <= end"));
        }
        if end > max_page {
            return Err(exceeds_message(end, max_page));
        }
        assert(apply_token(tok, max_page, old(acc)@) == Ok::<Seq<usize>, Seq<char>>(
            add_span(old(acc)@, start as int, end as int),
        ));
        let mut p = start;
        loop
            invariant
                start <= p <= end,
                tok == c@.subrange(a as int, b as int),
                apply_token(tok, max_page, old(acc)@) == Ok::<Seq<usize>, Seq<char>>(
                    add_span(old(acc)@, start as int, end as int),
                ),
                seen@ == acc@.to_set(),
                add_span(old(acc)@, start as int, end as int) == add_span(
                    acc@,
                    p as int,
                    end as int,
                ),
            decreases end - p,
        {
            let ghost prev = acc@;
            add_page_exec(acc, seen, p);
            assert(add_span(prev, p as int, end as int) == add_span(acc@, p + 1, end as int));
            if p == end {
                assert(add_span(acc@, p + 1, end as int) == acc@);
                assert(add_span(old(acc)@, start as int, end as int) == acc@);
                return Ok(());
            }
            p = p + 1;
        }
    } else {
        let page = match parse_positive_page(c, a, b) {
            Ok(p) => p,
            Err(e) => return Err(e),
        };
        if page > max_page {
            return Err(exceeds_message(page, max_page));
        }
        add_page_exec(acc, seen, page);
        Ok(())
    }
}

/// Parses the range expression `c[lo..hi]`; `Err` holds the reason.
pub fn parse_ranges_chars(c: &Vec<char>, lo: usize, hi: usize, max_page: usize) -> (r: Result<
    Vec<usize>,
    String,
>)
    requires
        lo <= hi <= c@.len(),
    ensures
        match r {
            Ok(v) => spec_parse_page_ranges(c@.subrange(lo as int, hi as int), max_page) == Ok::<
                Seq<usize>,
                Seq<char>,
            >(v@),
            Err(e) => spec_parse_page_ranges(c@.subrange(lo as int, hi as int), max_page) == Err::<
                Seq<usize>,
                Seq<char>,
            >(e@),
        },
{
    let (t0, t1) = trim_range(c, lo, hi);
    if t0 == t1 {
        return Err(lit("range cannot be empty"));
    }
    if max_page == 0 {
        return Err(lit("max page must be greater than zero"));
    }
    let mut result: Vec<usize> = Vec::new();
    let mut seen: HashSet<usize> = HashSet::new();
    let mut pos = t0;
    proof {
        assert(result@.to_set() =~= Set::<usize>::empty());
    }
    loop
        invariant
            t0 <= pos <= t1 <= c@.len(),
            seen@ == result@.to_set(),
            spec_parse_page_ranges(c@.subrange(lo as int, hi as int), max_page) == ranges_from(
                c@.subrange(pos as int, t1 as int),
                max_page,
                result@,
            ),
        decreases t1 - pos,
    {
        let ghost rest = c@.subrange(pos as int, t1 as int);
        let k = find_char(c, pos, t1, ',');
        proof {
            assert(rest.take(k - pos) == c@.subrange(pos as int, k as int));
            assert(k < t1 ==> rest.skip(k - pos + 1) == c@.subrange(k + 1, t1 as int));
        }
        let (a, b) = trim_range(c, pos, k);
        match apply_token_exec(c, a, b, max_page, &mut result, &mut seen) {
            Err(e) => return Err(e),
            Ok(()) => {},
        }
        if k == t1 {
            return Ok(result);
        }
        pos = k + 1;
    }
}

/// Parses a page-range expression such as `1,3-5,8` against a document of
/// `max_page` pages. Pages are 1-based; the result lists the selected pages
/// in the order they are first mentioned, each once.
pub fn parse_page_ranges(input: &str, max_page: usize) -> (r: Result<Vec<usize>, PdfError>)
    ensures
        match r {
            Ok(v) => spec_parse_page_ranges(input@, max_page) == Ok::<Seq<usize>, Seq<char>>(v@),
            Err(PdfError::InvalidPageRange { input: i, reason }) => {
                &&& i@ == input@
                &&& spec_parse_page_ranges(input@, max_page) == Err::<Seq<usize>, Seq<char>>(
                    reason@,
                )
            },
            Err(_) => false,
        },
        r matches Ok(v) ==> valid_pages(v@, max_page),
{
    let c = chars_of(input);
    proof {
        assert(c@.subrange(0, c@.len() as int) == c@);
        lemma_parsed_pages_valid(input@, max_page);
    }
    match parse_ranges_chars(&c, 0, c.len(), max_page) {
        Ok(v) => Ok(v),
        Err(reason) => Err(PdfError::InvalidPageRange { input: String::from_str(input), reason }),
    }
}

// ---------------------------------------------------------------------
// Joining range expressions
// ---------------------------------------------------------------------

/// `acc` extended by the pages of `s` in order, each added only where it
/// is not there yet.
pub open spec fn merge_pages(acc: Seq<usize>, s: Seq<usize>) -> Seq<usize>
    decreases s.len(),
{
    if s.len() == 0 {
        acc
    } else {
        add_page(merge_pages(acc, s.drop_last()), s.last())
    }
}

/// The pages of `s`, each at its first occurrence, in order.
pub open spec fn first_occurrences(s: Seq<usize>) -> Seq<usize> {
    merge_pages(seq![], s)
}

proof fn lemma_merge_concat(acc: Seq<usize>, u: Seq<usize>, v: Seq<usize>)
    ensures
        merge_pages(acc, u + v) == merge_pages(merge_pages(acc, u), v),
    decreases v.len(),
{
    if v.len() == 0 {
        assert(u + v =~= u);
    } else {
        assert((u + v).drop_last() =~= u + v.drop_last());
        assert((u + v).last() == v.last());
        lemma_merge_concat(acc, u, v.drop_last());
    }
}

proof fn lemma_add_page_contains(m: Seq<usize>, c: usize)
    ensures
        forall|x: usize| add_page(m, c).contains(x) <==> (m.contains(x) || x == c),
{
    assert forall|x: usize| add_page(m, c).contains(x) <==> (m.contains(x) || x == c) by {
        if !m.contains(c) {
            let t = m.push(c);
            if t.contains(x) {
                let i = choose|i: int| 0 <= i < t.len() && t[i] == x;
                if i < m.len() {
                    assert(m[i] == x);
                }
            }
            if m.contains(x) {
                let i = choose|i: int| 0 <= i < m.len() && m[i] == x;
                assert(t[i] == x);
            }
            if x == c {
                assert(t[m.len() as int] == c);
            }
        }
    }
}

proof fn lemma_merge_contains(acc: Seq<usize>, s: Seq<usize>)
    ensures
        forall|x: usize|
            merge_pages(acc, s).contains(x) <==> (acc.contains(x) || s.contains(x)),
    decreases s.len(),
{
    if s.len() > 0 {
        lemma_merge_contains(acc, s.drop_last());
        lemma_add_page_contains(merge_pages(acc, s.drop_last()), s.last());
        assert forall|x: usize| s.contains(x) <==> (s.drop_last().contains(x) || x == s.last()) by {
            if s.contains(x) {
                let i = choose|i: int| 0 <= i < s.len() && s[i] == x;
                if i < s.len() - 1 {
                    assert(s.drop_last()[i] == x);
                }
            }
            if s.drop_last().contains(x) {
                let i = choose|i: int| 0 <= i < s.drop_last().len() && s.drop_last()[i] == x;
                assert(s[i] == x);
            }
            if x == s.last() {
                assert(s[s.len() - 1] == x);
            }
        }
    }
}

/// Merging a sequence of pages merges its first occurrences.
proof fn lemma_merge_first(acc: Seq<usize>, s: Seq<usize>)
    ensures
        merge_pages(acc, s) == merge_pages(acc, first_occurrences(s)),
    decreases s.len(),
{
    if s.len() > 0 {
        let sp = s.drop_last();
        let c = s.last();
        let d = first_occurrences(sp);
        lemma_merge_first(acc, sp);
        lemma_merge_contains(seq![], sp);
        lemma_merge_contains(acc, d);
        if d.contains(c) {
            assert(first_occurrences(s) == d);
        } else {
            assert(first_occurrences(s) == d.push(c));
            assert(d.push(c).drop_last() =~= d);
        }
    }
}

/// The pages `start..=end`, in order.
pub open spec fn span(start: int, end: int) -> Seq<usize> {
    Seq::new(if start <= end { (end - start + 1) as nat } else { 0 }, |i: int| (start + i) as usize)
}

proof fn lemma_add_span_merge(acc: Seq<usize>, start: int, end: int)
    ensures
        add_span(acc, start, end) == merge_pages(acc, span(start, end)),
    decreases end - start + 1,
{
    if start > end {
        assert(span(start, end) =~= Seq::<usize>::empty());
    } else {
        lemma_add_span_merge(add_page(acc, start as usize), start + 1, end);
        let one = seq![start as usize];
        assert(one.drop_last() =~= Seq::<usize>::empty());
        assert(merge_pages(acc, one.drop_last()) == acc);
        assert(one.last() == start as usize);
        assert(merge_pages(acc, one) == add_page(acc, start as usize));
        lemma_merge_concat(acc, one, span(start + 1, end));
        assert(one + span(start + 1, end) =~= span(start, end));
    }
}

/// The effect of a token on any pages selected so far is to merge in what
/// it selects on its own.
proof fn lemma_apply_token_acc(token: Seq<char>, max_page: usize, acc: Seq<usize>)
    ensures
        apply_token(token, max_page, acc) == match apply_token(token, max_page, seq![]) {
            Ok(z) => Ok::<Seq<usize>, Seq<char>>(merge_pages(acc, z)),
            Err(e) => Err(e),
        },
        apply_token(token, max_page, seq![]) matches Ok(z) ==> first_occurrences(z) == z,
{
    if token.len() > 0 {
        let d = char_pos(token, '-');
        if d < token.len() {
            if let Ok(start) = positive_page(trim(token.take(d as int))) {
                if let Ok(end) = positive_page(trim(token.skip(d + 1int))) {
                    lemma_add_span_merge(acc, start as int, end as int);
                    lemma_add_span_merge(seq![], start as int, end as int);
                    lemma_merge_first(acc, span(start as int, end as int));
                    lemma_merge_first(seq![], span(start as int, end as int));
                }
            }
        } else {
            if let Ok(p) = positive_page(token) {
                let one = seq![p];
                assert(one.drop_last() =~= Seq::<usize>::empty());
                assert(add_page(seq![], p) =~= one);
                assert(merge_pages(acc, one.drop_last()) == acc);
                assert(merge_pages(seq![], one.drop_last()) == Seq::<usize>::empty());
                assert(one.last() == p);
                assert(merge_pages(acc, one) == add_page(acc, p));
                assert(merge_pages(seq![], one) == add_page(seq![], p));
            }
        }
    }
}

/// The pages a range expression selects on top of pages selected before
/// are those it selects on its own, merged in.
proof fn lemma_ranges_from_acc(rest: Seq<char>, max_page: usize, acc: Seq<usize>)
    ensures
        ranges_from(rest, max_page, acc) == match ranges_from(rest, max_page, seq![]) {
            Ok(y) => Ok::<Seq<usize>, Seq<char>>(merge_pages(acc, y)),
            Err(e) => Err(e),
        },
        ranges_from(rest, max_page, seq![]) matches Ok(y) ==> first_occurrences(y) == y,
    decreases rest.len(),
{
    let k = char_pos(rest, ',');
    lemma_char_pos(rest, ',');
    let token = trim(rest.take(k as int));
    lemma_apply_token_acc(token, max_page, acc);
    if let Ok(z) = apply_token(token, max_page, seq![]) {
        if k < rest.len() {
            let r = rest.skip(k + 1int);
            lemma_ranges_from_acc(r, max_page, merge_pages(acc, z));
            lemma_ranges_from_acc(r, max_page, z);
            if let Ok(yr) = ranges_from(r, max_page, seq![]) {
                lemma_merge_concat(acc, z, yr);
                lemma_merge_first(acc, z + yr);
                lemma_merge_concat(seq![], z, yr);
                lemma_merge_first(seq![], z + yr);
            }
        }
    }
}

/// Joining two expressions with a comma: the tokens of the first, then
/// those of the second.
proof fn lemma_ranges_from_join(a: Seq<char>, b: Seq<char>, max_page: usize, acc: Seq<usize>)
    ensures
        ranges_from(a + seq![','] + b, max_page, acc) == match ranges_from(a, max_page, acc) {
            Ok(x) => ranges_from(b, max_page, x),
            Err(e) => Err(e),
        },
    decreases a.len(),
{
    let t = a + seq![','] + b;
    let ka = char_pos(a, ',');
    lemma_char_pos(a, ',');
    assert forall|i: int| 0 <= i < ka implies t[i] != ',' by {
        assert(t[i] == a[i]);
    }
    if ka < a.len() {
        assert(t[ka as int] == a[ka as int]);
        lemma_char_pos_at(t, ',', ka as int);
        assert(t.take(ka as int) =~= a.take(ka as int));
        assert(t.skip(ka + 1int) =~= a.skip(ka + 1int) + seq![','] + b);
        let token = trim(a.take(ka as int));
        if let Ok(x) = apply_token(token, max_page, acc) {
            lemma_ranges_from_join(a.skip(ka + 1int), b, max_page, x);
        }
    } else {
        assert(t[a.len() as int] == ',');
        lemma_char_pos_at(t, ',', a.len() as int);
        assert(t.take(a.len() as int) =~= a);
        assert(a.take(ka as int) =~= a);
        assert(t.skip(a.len() + 1int) =~= b);
    }
}

/// Whitespace after the last token changes nothing.
proof fn lemma_ranges_from_trailing_ws(y: Seq<char>, w: Seq<char>, max_page: usize, acc: Seq<usize>)
    requires
        all_ws(w),
    ensures
        ranges_from(y + w, max_page, acc) == ranges_from(y, max_page, acc),
    decreases y.len(),
{
    let t = y + w;
    let ky = char_pos(y, ',');
    lemma_char_pos(y, ',');
    assert(!is_ws(','));
    assert forall|i: int| 0 <= i < ky implies t[i] != ',' by {
        assert(t[i] == y[i]);
    }
    if ky < y.len() {
        assert(t[ky as int] == y[ky as int]);
        lemma_char_pos_at(t, ',', ky as int);
        assert(t.take(ky as int) =~= y.take(ky as int));
        assert(t.skip(ky + 1int) =~= y.skip(ky + 1int) + w);
        if let Ok(a) = apply_token(trim(y.take(ky as int)), max_page, acc) {
            lemma_ranges_from_trailing_ws(y.skip(ky + 1int), w, max_page, a);
        }
    } else {
        assert forall|i: int| 0 <= i < t.len() implies t[i] != ',' by {
            if i >= y.len() {
                assert(t[i] == w[i - y.len()]);
                assert(is_ws(w[i - y.len()]));
            } else {
                assert(t[i] == y[i]);
            }
        }
        lemma_char_pos_at(t, ',', t.len() as int);
        assert(t.take(t.len() as int) =~= y + w);
        assert(y.take(ky as int) =~= y);
        lemma_trim_around(Seq::<char>::empty(), y, w);
    }
}

/// Whitespace before the first token changes nothing.
proof fn lemma_ranges_from_leading_ws(w: Seq<char>, y: Seq<char>, max_page: usize, acc: Seq<usize>)
    requires
        all_ws(w),
    ensures
        ranges_from(w + y, max_page, acc) == ranges_from(y, max_page, acc),
{
    let t = w + y;
    let ky = char_pos(y, ',');
    lemma_char_pos(y, ',');
    assert(!is_ws(','));
    let k = w.len() + ky;
    assert forall|i: int| 0 <= i < k implies t[i] != ',' by {
        if i < w.len() {
            assert(t[i] == w[i]);
            assert(is_ws(w[i]));
        } else {
            assert(t[i] == y[i - w.len()]);
        }
    }
    if ky < y.len() {
        assert(t[k as int] == y[ky as int]);
    }
    lemma_char_pos_at(t, ',', k as int);
    assert(t.take(k as int) =~= w + y.take(ky as int));
    lemma_trim_around(w, y.take(ky as int), Seq::<char>::empty());
    if ky < y.len() {
        assert(t.skip(k + 1int) =~= y.skip(ky + 1int));
    }
}

/// Joining two accepted range expressions with a comma selects the pages
/// of the first, then those of the second, each page at its first
/// occurrence.
pub proof fn law_comma_joins_selections(a: Seq<char>, b: Seq<char>, max_page: usize)
    requires
        spec_parse_page_ranges(a, max_page) is Ok,
        spec_parse_page_ranges(b, max_page) is Ok,
    ensures
        spec_parse_page_ranges(a + seq![','] + b, max_page) == Ok::<Seq<usize>, Seq<char>>(
            first_occurrences(
                spec_parse_page_ranges(a, max_page)->Ok_0 + spec_parse_page_ranges(
                    b,
                    max_page,
                )->Ok_0,
            ),
        ),
{
    let x = spec_parse_page_ranges(a, max_page)->Ok_0;
    let y = spec_parse_page_ranges(b, max_page)->Ok_0;
    let ta = trim(a);
    let tb = trim(b);
    let sa = trim_start(a);
    let c = seq![','];
    // The joined text trims to `sa , eb`.
    assert(trim_end(Seq::<char>::empty()) =~= Seq::<char>::empty());
    assert(sa.len() > 0);
    lemma_trim_start_concat(a, c + b);
    assert(a + c + b =~= a + (c + b));
    assert(sa + (c + b) =~= (sa + c) + b);
    lemma_trim_start_split(b);
    let tsb = trim_start(b);
    let wb = b.take(b.len() - tsb.len());
    lemma_trim_end_concat(wb, tsb);
    let eb = trim_end(b);
    assert(eb == wb + tb);
    lemma_trim_end_concat(sa + c, b);
    let j = trim(a + c + b);
    assert(j == sa + c + eb);
    // The first part reads as `a`, the second as `b` on top of it.
    lemma_ranges_from_join(sa, eb, max_page, seq![]);
    lemma_trim_end_split(sa);
    let wa = sa.skip(ta.len() as int);
    lemma_ranges_from_trailing_ws(ta, wa, max_page, seq![]);
    lemma_ranges_from_leading_ws(wb, tb, max_page, x);
    lemma_ranges_from_acc(tb, max_page, x);
    lemma_ranges_from_acc(ta, max_page, seq![]);
    lemma_merge_concat(seq![], x, y);
}

// ---------------------------------------------------------------------
// What single spans and pages select
// ---------------------------------------------------------------------

/// A written number reads back as itself.
pub proof fn lemma_parse_decimal(n: nat)
    requires
        n <= usize::MAX,
    ensures
        parse_usize(decimal(n)) == Some(n as usize),
        decimal(n).len() > 0,
        forall|i: int|
            0 <= i < decimal(n).len() ==> crate::text::is_digit(#[trigger] decimal(n)[i]),
{
    crate::text::lemma_decimal_ascii(n);
    crate::rotations::lemma_digits_value_decimal(n);
    assert(crate::text::is_digit(decimal(n)[0]));
}

/// A text that starts and ends with a character that is not whitespace is
/// its own trim.
proof fn lemma_trim_fixed(x: Seq<char>)
    requires
        x.len() > 0,
        !is_ws(x[0]),
        !is_ws(x.last()),
    ensures
        trim(x) == x,
{
}

/// Pages `start..=end` listed once each: merging them into nothing gives
/// them back.
proof fn lemma_span_first(start: int, end: int, k: int)
    requires
        1 <= start,
        end <= usize::MAX,
        0 <= k <= span(start, end).len(),
    ensures
        merge_pages(seq![], span(start, end).take(k)) == span(start, end).take(k),
    decreases k,
{
    let sp = span(start, end);
    if k > 0 {
        lemma_span_first(start, end, k - 1);
        assert(sp.take(k).drop_last() =~= sp.take(k - 1));
        assert(sp.take(k).last() == sp[k - 1]);
        assert(!sp.take(k - 1).contains(sp[k - 1])) by {
            if sp.take(k - 1).contains(sp[k - 1]) {
                let j = choose|j: int| 0 <= j < k - 1 && #[trigger] sp.take(k - 1)[j] == sp[k - 1];
                assert(sp.take(k - 1)[j] == sp[j]);
            }
        }
        assert(sp.take(k - 1).push(sp[k - 1]) =~= sp.take(k));
    } else {
        assert(sp.take(0) =~= Seq::<usize>::empty());
    }
}

/// A decimal number holds no whitespace, comma or dash.
proof fn lemma_decimal_plain(n: nat)
    requires
        n <= usize::MAX,
    ensures
        forall|i: int|
            0 <= i < decimal(n).len() ==> !is_ws(#[trigger] decimal(n)[i]) && decimal(n)[i] != ','
                && decimal(n)[i] != '-',
{
    lemma_parse_decimal(n);
    assert forall|i: int| 0 <= i < decimal(n).len() implies !is_ws(#[trigger] decimal(n)[i])
        && decimal(n)[i] != ',' && decimal(n)[i] != '-' by {
        assert(crate::text::is_digit(decimal(n)[i]));
    }
}

/// A span `start-end` of positive numbers with `start <= end` selects
/// exactly the pages `start..=end` when `end` is at most `max_page`;
/// otherwise it is refused because `end` exceeds `max_page`. A span whose
/// start is past its end is refused. Nothing is selected past `max_page`.
pub proof fn law_span_selects_exactly_its_pages(start: nat, end: nat, max_page: usize)
    requires
        1 <= start <= usize::MAX,
        1 <= end <= usize::MAX,
    ensures
        spec_parse_page_ranges(decimal(start) + seq!['-'] + decimal(end), max_page) == if max_page
            == 0 {
            Err::<Seq<usize>, Seq<char>>("max page must be greater than zero"@)
        } else if start > end {
            Err::<Seq<usize>, Seq<char>>("range start must be <= end"@)
        } else if end <= max_page {
            Ok::<Seq<usize>, Seq<char>>(span(start as int, end as int))
        } else {
            Err::<Seq<usize>, Seq<char>>(exceeds_reason(end as usize, max_page))
        },
{
    let ds = decimal(start);
    let de = decimal(end);
    let input = ds + seq!['-'] + de;
    lemma_parse_decimal(start);
    lemma_parse_decimal(end);
    lemma_decimal_plain(start);
    lemma_decimal_plain(end);
    assert(input[0] == ds[0]);
    assert(input.last() == de.last());
    assert(!is_ws(de[de.len() - 1]));
    lemma_trim_fixed(input);
    assert(trim(input) == input);
    if max_page > 0 {
        assert forall|i: int| 0 <= i < input.len() implies input[i] != ',' by {
            if i < ds.len() {
                assert(input[i] == ds[i]);
            } else if i > ds.len() {
                assert(input[i] == de[i - ds.len() - 1]);
            }
        }
        lemma_char_pos_at(input, ',', input.len() as int);
        assert(input.take(input.len() as int) =~= input);
        assert forall|i: int| 0 <= i < ds.len() implies input[i] != '-' by {
            assert(input[i] == ds[i]);
        }
        lemma_char_pos_at(input, '-', ds.len() as int);
        assert(input.take(ds.len() as int) =~= ds);
        assert(input.skip(ds.len() + 1int) =~= de);
        assert(!is_ws(ds[ds.len() - 1]));
        lemma_trim_fixed(ds);
        lemma_trim_fixed(de);
        if start <= end && end <= max_page {
            lemma_add_span_merge(seq![], start as int, end as int);
            let sp = span(start as int, end as int);
            lemma_span_first(start as int, end as int, sp.len() as int);
            assert(sp.take(sp.len() as int) =~= sp);
        }
    }
}

/// A single page number selects exactly that page when it is at least 1
/// and at most `max_page`; 0 is refused as no page, and a number past
/// `max_page` because it exceeds it.
pub proof fn law_page_selects_exactly_itself(p: nat, max_page: usize)
    requires
        p <= usize::MAX,
    ensures
        spec_parse_page_ranges(decimal(p), max_page) == if max_page == 0 {
            Err::<Seq<usize>, Seq<char>>("max page must be greater than zero"@)
        } else if p == 0 {
            Err::<Seq<usize>, Seq<char>>("page numbers must start at 1"@)
        } else if p <= max_page {
            Ok::<Seq<usize>, Seq<char>>(seq![p as usize])
        } else {
            Err::<Seq<usize>, Seq<char>>(exceeds_reason(p as usize, max_page))
        },
{
    let d = decimal(p);
    lemma_parse_decimal(p);
    lemma_decimal_plain(p);
    assert(!is_ws(d[d.len() - 1]));
    lemma_trim_fixed(d);
    if max_page > 0 {
        lemma_char_pos_at(d, ',', d.len() as int);
        lemma_char_pos_at(d, '-', d.len() as int);
        assert(d.take(d.len() as int) =~= d);
        assert(add_page(seq![], p as usize) =~= seq![p as usize]);
    }
}

} // verus!
