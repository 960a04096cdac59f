//! Splitting a document into parts: one per page, one per range, or one
//! per chunk of pages.
use vstd::prelude::*;

use crate::error::PdfError;
use crate::inspect::PdfInfo;
use crate::ops::{ascii_lower, to_ascii_lower};
use crate::ranges::{
    lemma_parsed_pages_nonempty, lemma_parsed_pages_valid, lemma_valid_pages_len, parse_ranges_chars, spec_parse_page_ranges,
};
use crate::text::{
    char_pos, chars_of, find_char, lemma_char_pos, matches_at, parse_usize, parse_usize_range,
    string_of_range, trim, trim_range, decimal,
};
use crate::write::{simple_pdf_bytes, write_simple_pdf};

verus! {

/// Why a split mode is rejected.
pub enum SplitFailure {
    /// The mode is not `single`, `range:<ranges>` or `chunk:<size>`.
    Mode,
    /// A range group was rejected: the group, and the reason.
    Range(Seq<char>, Seq<char>),
}

/// `s` with ASCII upper-case letters turned to lower case.
pub open spec fn lower_seq(s: Seq<char>) -> Seq<char> {
    Seq::new(s.len(), |i: int| ascii_lower(s[i]))
}

/// One group per page.
pub open spec fn single_groups(max_page: usize) -> Seq<Seq<usize>> {
    Seq::new(max_page as nat, |i: int| seq![(i + 1) as usize])
}

/// The pages `1..=max_page` in consecutive groups of `size` (the last one
/// shorter when `size` does not divide `max_page`).
pub open spec fn chunk_groups(max_page: usize, size: usize) -> Seq<Seq<usize>> {
    Seq::new(
        ((max_page + size - 1) / (size as int)) as nat,
        |g: int|
            Seq::new(
                (if max_page - g * size < size {
                    max_page - g * size
                } else {
                    size as int
                }) as nat,
                |j: int| (g * size + j + 1) as usize,
            ),
    )
}

/// The groups of a `range:` mode: each comma-separated token is a page
/// range expression of its own.
pub open spec fn range_groups(rest: Seq<char>, max_page: usize, acc: Seq<Seq<usize>>) -> Result<
    Seq<Seq<usize>>,
    SplitFailure,
>
    decreases rest.len(),
{
    let k = char_pos(rest, ',');
    proof {
        lemma_char_pos(rest, ',');
    }
    let token = trim(rest.take(k as int));
    if token.len() == 0 {
        Err(SplitFailure::Mode)
    } else {
        match spec_parse_page_ranges(token, max_page) {
            Err(reason) => Err(SplitFailure::Range(token, reason)),
            Ok(g) => if k < rest.len() {
                range_groups(rest.skip(k + 1int), max_page, acc.push(g))
            } else {
                Ok(acc.push(g))
            },
        }
    }
}

/// The page groups a split mode asks for (case is ignored).
pub open spec fn split_groups(by: Seq<char>, max_page: usize) -> Result<
    Seq<Seq<usize>>,
    SplitFailure,
> {
    let lower = lower_seq(trim(by));
    if lower == "single"@ {
        Ok(single_groups(max_page))
    } else if lower.len() >= 6 && lower.take(6) == "range:"@ {
        range_groups(lower.skip(6), max_page, seq![])
    } else if lower.len() >= 6 && lower.take(6) == "chunk:"@ {
        match parse_usize(lower.skip(6)) {
            Some(size) => if size == 0 {
                Err(SplitFailure::Mode)
            } else {
                Ok(chunk_groups(max_page, size))
            },
            None => Err(SplitFailure::Mode),
        }
    } else {
        Err(SplitFailure::Mode)
    }
}

/// Every group has at most `max_page` pages.
pub open spec fn groups_bounded(groups: Seq<Seq<usize>>, max_page: usize) -> bool {
    forall|k: int| 0 <= k < groups.len() ==> (#[trigger] groups[k]).len() <= max_page
}

proof fn lemma_range_groups_bounded(rest: Seq<char>, max_page: usize, acc: Seq<Seq<usize>>)
    requires
        groups_bounded(acc, max_page),
    ensures
        range_groups(rest, max_page, acc) matches Ok(g) ==> groups_bounded(g, max_page),
    decreases rest.len(),
{
    let k = char_pos(rest, ',');
    lemma_char_pos(rest, ',');
    let token = trim(rest.take(k as int));
    if token.len() > 0 {
        lemma_parsed_pages_valid(token, max_page);
        if let Ok(g) = spec_parse_page_ranges(token, max_page) {
            lemma_valid_pages_len(g, max_page);
            assert(groups_bounded(acc.push(g), max_page));
            if k < rest.len() {
                lemma_range_groups_bounded(rest.skip(k + 1int), max_page, acc.push(g));
            }
        }
    }
}

/// Every group has at least one page.
pub open spec fn groups_nonempty(groups: Seq<Seq<usize>>) -> bool {
    forall|k: int| 0 <= k < groups.len() ==> (#[trigger] groups[k]).len() >= 1
}

proof fn lemma_range_groups_nonempty(rest: Seq<char>, max_page: usize, acc: Seq<Seq<usize>>)
    requires
        groups_nonempty(acc),
    ensures
        range_groups(rest, max_page, acc) matches Ok(g) ==> groups_nonempty(g),
    decreases rest.len(),
{
    let k = char_pos(rest, ',');
    lemma_char_pos(rest, ',');
    let token = trim(rest.take(k as int));
    if token.len() > 0 {
        lemma_parsed_pages_nonempty(token, max_page);
        if let Ok(g) = spec_parse_page_ranges(token, max_page) {
            assert(groups_nonempty(acc.push(g)));
            if k < rest.len() {
                lemma_range_groups_nonempty(rest.skip(k + 1int), max_page, acc.push(g));
            }
        }
    }
}

/// Every group a split mode asks for has at least one page.
pub proof fn lemma_split_groups_nonempty(by: Seq<char>, max_page: usize)
    ensures
        split_groups(by, max_page) matches Ok(groups) ==> groups_nonempty(groups),
{
    let lower = lower_seq(trim(by));
    if lower == "single"@ {
    } else if lower.len() >= 6 && lower.take(6) == "range:"@ {
        lemma_range_groups_nonempty(lower.skip(6), max_page, seq![]);
    } else if lower.len() >= 6 && lower.take(6) == "chunk:"@ {
        if let Some(size) = parse_usize(lower.skip(6)) {
            if size > 0 && max_page > 0 {
                let groups = chunk_groups(max_page, size);
                lemma_chunk_count(max_page as int, size as int);
                assert forall|g: int| 0 <= g < groups.len() implies (#[trigger] groups[g]).len()
                    >= 1 by {
                    lemma_chunk_start(g, size as int, max_page as int);
                }
            } else if size > 0 {
                assert((max_page + size - 1) / (size as int) == 0) by (nonlinear_arith)
                    requires
                        max_page == 0,
                        size >= 1,
                ;
            }
        }
    }
}

/// The comma-separated parts of `s`, in order (one part where it holds no
/// comma).
pub open spec fn comma_parts(s: Seq<char>) -> Seq<Seq<char>>
    decreases s.len(),
{
    let k = char_pos(s, ',');
    proof {
        lemma_char_pos(s, ',');
    }
    if k < s.len() {
        seq![s.take(k as int)] + comma_parts(s.skip(k + 1int))
    } else {
        seq![s]
    }
}

/// The groups that range parts ask for, each part trimmed and read as a
/// page range expression of its own: the first part that is empty rejects
/// the mode, the first part that is not a range expression gives its
/// reason, whichever comes first.
pub open spec fn parts_groups(parts: Seq<Seq<char>>, max_page: usize) -> Result<
    Seq<Seq<usize>>,
    SplitFailure,
>
    decreases parts.len(),
{
    if parts.len() == 0 {
        Ok(seq![])
    } else {
        let token = trim(parts[0]);
        if token.len() == 0 {
            Err(SplitFailure::Mode)
        } else {
            match spec_parse_page_ranges(token, max_page) {
                Err(reason) => Err(SplitFailure::Range(token, reason)),
                Ok(g) => match parts_groups(parts.drop_first(), max_page) {
                    Ok(gs) => Ok(seq![g] + gs),
                    Err(e) => Err(e),
                },
            }
        }
    }
}

proof fn lemma_range_groups_parts(rest: Seq<char>, max_page: usize, acc: Seq<Seq<usize>>)
    ensures
        range_groups(rest, max_page, acc) == match parts_groups(comma_parts(rest), max_page) {
            Ok(gs) => Ok(acc + gs),
            Err(e) => Err(e),
        },
    decreases rest.len(),
{
    let k = char_pos(rest, ',');
    lemma_char_pos(rest, ',');
    let parts = comma_parts(rest);
    let token = trim(rest.take(k as int));
    assert(parts[0] == rest.take(k as int));
    if k < rest.len() {
        assert(parts.drop_first() =~= comma_parts(rest.skip(k + 1int)));
        if token.len() > 0 {
            if let Ok(g) = spec_parse_page_ranges(token, max_page) {
                lemma_range_groups_parts(rest.skip(k + 1int), max_page, acc.push(g));
                if let Ok(gs) = parts_groups(parts.drop_first(), max_page) {
                    assert(acc.push(g) + gs =~= acc + (seq![g] + gs));
                }
            }
        }
    } else {
        assert(parts.drop_first() =~= Seq::<Seq<char>>::empty());
        if let Ok(g) = spec_parse_page_ranges(token, max_page) {
            assert(acc.push(g) =~= acc + (seq![g] + Seq::<Seq<usize>>::empty()));
        }
    }
}

proof fn lemma_parts_groups_each(parts: Seq<Seq<char>>, max_page: usize)
    ensures
        parts_groups(parts, max_page) matches Ok(gs) ==> {
            &&& gs.len() == parts.len()
            &&& forall|i: int|
                0 <= i < parts.len() ==> spec_parse_page_ranges(trim(#[trigger] parts[i]), max_page)
                    == Ok::<Seq<usize>, Seq<char>>(gs[i])
        },
    decreases parts.len(),
{
    if parts.len() > 0 {
        lemma_parts_groups_each(parts.drop_first(), max_page);
        if let Ok(gs) = parts_groups(parts, max_page) {
            let rest = parts_groups(parts.drop_first(), max_page)->Ok_0;
            assert forall|i: int| 0 <= i < parts.len() implies spec_parse_page_ranges(
                trim(#[trigger] parts[i]),
                max_page,
            ) == Ok::<Seq<usize>, Seq<char>>(gs[i]) by {
                if i > 0 {
                    assert(parts[i] == parts.drop_first()[i - 1]);
                    assert(gs[i] == rest[i - 1]);
                }
            }
        }
    }
}

/// Splitting by ranges reads each comma-separated part of what follows
/// `range:` as a page range expression of its own: the parts give one
/// group each, in order, unless a part is empty (the mode is rejected) or
/// is not a range expression (its reason is given), whichever comes first.
pub proof fn law_range_split_reads_each_part(by: Seq<char>, max_page: usize, rest: Seq<char>)
    requires
        lower_seq(trim(by)) == "range:"@ + rest,
    ensures
        split_groups(by, max_page) == parts_groups(comma_parts(rest), max_page),
        split_groups(by, max_page) matches Ok(gs) ==> {
            &&& gs.len() == comma_parts(rest).len()
            &&& forall|i: int|
                0 <= i < gs.len() ==> spec_parse_page_ranges(
                    trim(#[trigger] comma_parts(rest)[i]),
                    max_page,
                ) == Ok::<Seq<usize>, Seq<char>>(gs[i])
        },
{
    reveal_strlit("range:");
    reveal_strlit("single");
    let lower = lower_seq(trim(by));
    assert(lower.take(6) =~= "range:"@);
    assert(lower.skip(6) =~= rest);
    assert(lower != "single"@) by {
        if lower == "single"@ {
            assert(lower[0] == 's');
        }
    }
    lemma_range_groups_parts(rest, max_page, seq![]);
    if let Ok(gs) = parts_groups(comma_parts(rest), max_page) {
        assert(Seq::<Seq<usize>>::empty() + gs =~= gs);
    }
    lemma_parts_groups_each(comma_parts(rest), max_page);
}

/// Splitting one page per part (`single` in any case) gives one group per
/// page, the `k`-th holding page `k + 1`.
pub proof fn law_single_split_gives_each_page(by: Seq<char>, max_page: usize)
    requires
        lower_seq(trim(by)) == "single"@,
    ensures
        split_groups(by, max_page) matches Ok(gs) && gs.len() == max_page && forall|k: int|
            0 <= k < gs.len() ==> #[trigger] gs[k] == seq![(k + 1) as usize],
{
}

/// Splitting by chunks of `n` pages (`chunk:<n>` in any case, `n >= 1`)
/// cuts the pages `1..=max_page` into consecutive groups of exactly `n`
/// pages, the last one shorter where `n` does not divide `max_page`.
pub proof fn law_chunk_split_cuts_runs_of_its_size(by: Seq<char>, max_page: usize, n: nat)
    requires
        1 <= n <= usize::MAX,
        lower_seq(trim(by)) == "chunk:"@ + decimal(n),
    ensures
        split_groups(by, max_page) matches Ok(gs) && {
            &&& gs == chunk_groups(max_page, n as usize)
            &&& gs.flatten() == all_pages(max_page as nat)
            &&& forall|g: int, j: int|
                0 <= g < gs.len() && 0 <= j < gs[g].len() ==> #[trigger] gs[g][j] == (g * n + j
                    + 1) as usize
            &&& forall|g: int| 0 <= g < gs.len() - 1 ==> (#[trigger] gs[g]).len() == n
            &&& forall|g: int| 0 <= g < gs.len() ==> 1 <= (#[trigger] gs[g]).len() <= n
        },
{
    reveal_strlit("chunk:");
    reveal_strlit("range:");
    reveal_strlit("single");
    let lower = lower_seq(trim(by));
    crate::ranges::lemma_parse_decimal(n);
    assert(lower.len() >= 7);
    assert(lower.take(6) =~= "chunk:"@);
    assert(lower.skip(6) =~= decimal(n));
    assert(lower != "single"@);
    assert(lower.take(6) != "range:"@) by {
        assert(lower.take(6)[0] == 'c');
    }
    let size = n as usize;
    let gs = chunk_groups(max_page, size);
    law_chunk_split_keeps_every_page(max_page, size);
    if max_page > 0 {
        lemma_chunk_count(max_page as int, n as int);
        assert forall|g: int| 0 <= g < gs.len() implies 1 <= (#[trigger] gs[g]).len() <= n by {
            lemma_chunk_start(g, n as int, max_page as int);
        }
        assert forall|g: int| 0 <= g < gs.len() - 1 implies (#[trigger] gs[g]).len() == n by {
            lemma_chunk_start(g + 1, n as int, max_page as int);
            assert((g + 1) * n == g * n + n) by (nonlinear_arith);
        }
    } else {
        assert((max_page + size - 1) / (size as int) == 0) by (nonlinear_arith)
            requires
                max_page == 0,
                size >= 1,
        ;
    }
}

/// The pages `1..=n`, in order.
pub open spec fn all_pages(n: nat) -> Seq<usize> {
    Seq::new(n, |i: int| (i + 1) as usize)
}

/// Splitting one page per part keeps every page once, in order.
pub proof fn law_single_split_keeps_every_page(max_page: usize)
    ensures
        single_groups(max_page).flatten() == all_pages(max_page as nat),
{
    lemma_single_prefix(max_page, max_page as nat);
    assert(single_groups(max_page).take(max_page as int) =~= single_groups(max_page));
}

proof fn lemma_single_prefix(max_page: usize, g: nat)
    requires
        g <= max_page,
    ensures
        single_groups(max_page).take(g as int).flatten() == all_pages(g),
    decreases g,
{
    let groups = single_groups(max_page);
    if g == 0 {
        assert(groups.take(0) =~= Seq::<Seq<usize>>::empty());
        assert(all_pages(0) =~= Seq::<usize>::empty());
    } else {
        lemma_single_prefix(max_page, (g - 1) as nat);
        assert(groups.take(g as int) =~= groups.take(g - 1).push(groups[g - 1]));
        groups.take(g - 1).lemma_flatten_push(groups[g - 1]);
        assert(all_pages(g) =~= all_pages((g - 1) as nat) + groups[g - 1]);
    }
}

/// Splitting into chunks keeps every page once, in order.
pub proof fn law_chunk_split_keeps_every_page(max_page: usize, size: usize)
    requires
        size >= 1,
    ensures
        chunk_groups(max_page, size).flatten() == all_pages(max_page as nat),
{
    let groups = chunk_groups(max_page, size);
    if max_page == 0 {
        assert((max_page + size - 1) / (size as int) == 0) by (nonlinear_arith)
            requires
                max_page == 0,
                size >= 1,
        ;
        assert(groups =~= Seq::<Seq<usize>>::empty());
        assert(all_pages(0) =~= Seq::<usize>::empty());
    } else {
        lemma_chunk_count(max_page as int, size as int);
        let count = groups.len();
        lemma_chunk_prefix(max_page, size, count);
        let q = (max_page - 1) / (size as int);
        vstd::arithmetic::div_mod::lemma_fundamental_div_mod(max_page - 1, size as int);
        vstd::arithmetic::div_mod::lemma_mod_pos_bound(max_page - 1, size as int);
        assert((q + 1) * size >= max_page) by (nonlinear_arith)
            requires
                max_page - 1 == size * q + (max_page - 1) % (size as int),
                (max_page - 1) % (size as int) < size,
        ;
        assert(groups.take(count as int) =~= groups);
    }
}

/// The first `g` chunks hold the first pages, in order.
proof fn lemma_chunk_prefix(max_page: usize, size: usize, g: nat)
    requires
        size >= 1,
        max_page >= 1,
        g <= chunk_groups(max_page, size).len(),
    ensures
        chunk_groups(max_page, size).take(g as int).flatten() == all_pages(
            if g * size < max_page {
                (g * size) as nat
            } else {
                max_page as nat
            },
        ),
    decreases g,
{
    let groups = chunk_groups(max_page, size);
    lemma_chunk_count(max_page as int, size as int);
    if g == 0 {
        assert(groups.take(0) =~= Seq::<Seq<usize>>::empty());
        assert(all_pages(0) =~= Seq::<usize>::empty());
    } else {
        let h = (g - 1) as nat;
        lemma_chunk_prefix(max_page, size, h);
        lemma_chunk_start(h as int, size as int, max_page as int);
        assert(h * size <= max_page - 1);
        assert(groups.take(g as int) =~= groups.take(h as int).push(groups[h as int]));
        groups.take(h as int).lemma_flatten_push(groups[h as int]);
        let start = h * size;
        let len = if max_page - start < size {
            max_page - start
        } else {
            size as int
        };
        assert(g * size == start + size) by (nonlinear_arith)
            requires
                g == h + 1,
                start == h * size,
        ;
        assert(all_pages((start + len) as nat) =~= all_pages(start as nat) + groups[h as int]);
    }
}

fn mode_error(by: &str) -> (r: PdfError)
    ensures
        r matches PdfError::InvalidSplitMode { mode } && mode@ == by@,
{
    PdfError::InvalidSplitMode { mode: String::from_str(by) }
}

/// Lower-cases `c[a..b]`.
fn lower_range(c: &Vec<char>, a: usize, b: usize) -> (r: Vec<char>)
    requires
        a <= b <= c@.len(),
    ensures
        r@ == lower_seq(c@.subrange(a as int, b as int)),
{
    let mut r: Vec<char> = Vec::new();
    let mut i = a;
    while i < b
        invariant
            a <= i <= b <= c@.len(),
            r@ == lower_seq(c@.subrange(a as int, i as int)),
        decreases b - i,
    {
        r.push(to_ascii_lower(c[i]));
        i = i + 1;
        assert(r@ =~= lower_seq(c@.subrange(a as int, i as int)));
    }
    r
}

/// The contents of a vector of groups.
pub open spec fn groups_view(v: Seq<Vec<usize>>) -> Seq<Seq<usize>> {
    Seq::new(v.len(), |k: int| v[k]@)
}

proof fn lemma_chunk_count(max: int, size: int)
    requires
        max >= 1,
        size >= 1,
    ensures
        (max + size - 1) / size == (max - 1) / size + 1,
{
    let q = (max - 1) / size;
    let r = (max - 1) % size;
    vstd::arithmetic::div_mod::lemma_fundamental_div_mod(max - 1, size);
    vstd::arithmetic::div_mod::lemma_mod_pos_bound(max - 1, size);
    assert(max + size - 1 == (q + 1) * size + r) by (nonlinear_arith)
        requires
            max - 1 == size * q + r,
    ;
    vstd::arithmetic::div_mod::lemma_fundamental_div_mod_converse(max + size - 1, size, q + 1, r);
}

proof fn lemma_chunk_start(g: int, size: int, max: int)
    requires
        0 <= g <= (max - 1) / size,
        size >= 1,
        max >= 1,
    ensures
        g * size <= max - 1,
{
    vstd::arithmetic::div_mod::lemma_fundamental_div_mod(max - 1, size);
    vstd::arithmetic::div_mod::lemma_mod_pos_bound(max - 1, size);
    vstd::arithmetic::mul::lemma_mul_inequality(g, (max - 1) / size, size);
    assert(((max - 1) / size) * size == size * ((max - 1) / size)) by (nonlinear_arith);
}

/// The groups of `chunk_groups(max_page, size)`.
fn chunk_groups_exec(max_page: usize, size: usize) -> (r: Vec<Vec<usize>>)
    requires
        size > 0,
    ensures
        groups_view(r@) == chunk_groups(max_page, size),
{
    let ghost target = chunk_groups(max_page, size);
    let count = if max_page == 0 {
        0
    } else {
        (max_page - 1) / size + 1
    };
    proof {
        if max_page >= 1 {
            lemma_chunk_count(max_page as int, size as int);
        } else {
            assert((size - 1) / (size as int) == 0) by (nonlinear_arith)
                requires
                    size >= 1,
            ;
        }
    }
    assert(target.len() == count);
    let mut groups: Vec<Vec<usize>> = Vec::new();
    let mut g: usize = 0;
    while g < count
        invariant
            size > 0,
            g <= count,
            count == target.len(),
            max_page >= 1 ==> count == (max_page - 1) / (size as int) + 1,
            max_page == 0 ==> count == 0,
            target == chunk_groups(max_page, size),
            groups_view(groups@) == target.take(g as int),
        decreases count - g,
    {
        proof {
            lemma_chunk_start(g as int, size as int, max_page as int);
        }
        let start = g * size;
        let end = if max_page - start < size {
            max_page
        } else {
            start + size
        };
        let mut group: Vec<usize> = Vec::new();
        let mut p = start;
        while p < end
            invariant
                start <= p <= end <= max_page,
                group@ == Seq::new((p - start) as nat, |j: int| (start + j + 1) as usize),
            decreases end - p,
        {
            group.push(p + 1);
            p = p + 1;
            assert(group@ =~= Seq::new((p - start) as nat, |j: int| (start + j + 1) as usize));
        }
        assert(group@ =~= target[g as int]);
        let ghost before = groups@;
        assert(groups_view(before).len() == g);
        assert(before.len() == g);
        groups.push(group);
        proof {
            assert forall|k: int| 0 <= k < g + 1 implies groups_view(groups@)[k] == target.take(
                g + 1,
            )[k] by {
                if k < g {
                    assert(groups@[k] == before[k]);
                    assert(groups_view(before)[k] == target.take(g as int)[k]);
                }
            }
            assert(groups_view(groups@) =~= target.take(g + 1));
        }
        g = g + 1;
    }
    assert(target.take(count as int) == target);
    groups
}

/// One group per page.
fn single_groups_exec(max_page: usize) -> (r: Vec<Vec<usize>>)
    ensures
        groups_view(r@) == single_groups(max_page),
{
    let mut groups: Vec<Vec<usize>> = Vec::new();
    let mut i: usize = 0;
    while i < max_page
        invariant
            0 <= i <= max_page,
            groups_view(groups@) == single_groups(i as usize),
        decreases max_page - i,
    {
        let mut g: Vec<usize> = Vec::new();
        g.push(i + 1);
        let ghost before = groups@;
        assert(groups_view(before).len() == i);
        groups.push(g);
        proof {
            assert forall|k: int| 0 <= k < i + 1 implies groups_view(groups@)[k] == single_groups(
                (i + 1) as usize,
            )[k] by {
                if k < i {
                    assert(groups@[k] == before[k]);
                    assert(groups_view(before)[k] == single_groups(i as usize)[k]);
                } else {
                    assert(groups@[k]@ =~= seq![(i + 1) as usize]);
                }
            }
            assert(groups_view(groups@) =~= single_groups((i + 1) as usize));
        }
        i = i + 1;
    }
    groups
}

/// Reads a split mode: `single`, `range:<ranges>` (one group per
/// comma-separated range) or `chunk:<size>`, in any case.
pub fn parse_split_groups(by: &str, max_page: usize) -> (r: Result<Vec<Vec<usize>>, PdfError>)
    ensures
        match split_groups(by@, max_page) {
            Ok(groups) => r matches Ok(v) && groups_view(v@) == groups,
            Err(SplitFailure::Mode) => r matches Err(PdfError::InvalidSplitMode { mode }) && mode@
                == by@,
            Err(SplitFailure::Range(input, reason)) => r matches Err(
                PdfError::InvalidPageRange { input: i, reason: r2 },
            ) && i@ == input && r2@ == reason,
        },
        r matches Ok(v) ==> groups_bounded(groups_view(v@), max_page),
{
    proof {
        reveal_strlit("single");
        reveal_strlit("range:");
        reveal_strlit("chunk:");
    }
    let c = chars_of(by);
    let (a, b) = trim_range(&c, 0, c.len());
    assert(c@.subrange(0, c@.len() as int) == c@);
    let lower = lower_range(&c, a, b);
    let ghost lw = lower@;
    assert(lw == lower_seq(trim(by@)));
    let n = lower.len();
    let single = chars_of("single");
    if n == 6 && matches_at(&lower, 0, &single) {
        assert(lower@.subrange(0, 6) == lower@);
        let groups = single_groups_exec(max_page);
        assert(groups_bounded(groups_view(groups@), max_page));
        return Ok(groups);
    }
    assert(lw != "single"@) by {
        if lw == "single"@ {
            assert(lw.subrange(0, 6) == lw);
        }
    }
    let range = chars_of("range:");
    if matches_at(&lower, 0, &range) {
        assert(lw.take(6) == lower@.subrange(0, 6));
        assert(lw.skip(6) == lower@.subrange(6, n as int));
        let mut groups: Vec<Vec<usize>> = Vec::new();
        let mut pos: usize = 6;
        proof {
            assert(groups_view(groups@) =~= Seq::<Seq<usize>>::empty());
        }
        loop
            invariant
                6 <= pos <= n == lower@.len(),
                lw == lower@,
                split_groups(by@, max_page) == range_groups(
                    lower@.subrange(pos as int, n as int),
                    max_page,
                    groups_view(groups@),
                ),
                groups_bounded(groups_view(groups@), max_page),
            decreases n - pos,
        {
            let ghost rest = lower@.subrange(pos as int, n as int);
            let k = find_char(&lower, pos, n, ',');
            proof {
                assert(rest.take(k - pos) == lower@.subrange(pos as int, k as int));
                assert(k < n ==> rest.skip(k - pos + 1) == lower@.subrange(k + 1, n as int));
            }
            let (ta, tb) = trim_range(&lower, pos, k);
            if ta == tb {
                return Err(mode_error(by));
            }
            let group = match parse_ranges_chars(&lower, ta, tb, max_page) {
                Ok(g) => g,
                Err(reason) => {
                    return Err(
                        PdfError::InvalidPageRange {
                            input: string_of_range(&lower, ta, tb),
                            reason,
                        },
                    );
                },
            };
            proof {
                lemma_parsed_pages_valid(lower@.subrange(ta as int, tb as int), max_page);
                lemma_valid_pages_len(group@, max_page);
            }
            let ghost before = groups@;
            assert(groups_view(before).len() == before.len());
            groups.push(group);
            proof {
                assert(groups_view(groups@) =~= groups_view(before).push(group@));
            }
            if k == n {
                return Ok(groups);
            }
            pos = k + 1;
        }
    }
    let chunk = chars_of("chunk:");
    if matches_at(&lower, 0, &chunk) {
        assert(lw.take(6) == lower@.subrange(0, 6));
        assert(lw.skip(6) == lower@.subrange(6, n as int));
        assert(lw.take(6) != "range:"@);
        match parse_usize_range(&lower, 6, n) {
            Some(size) => {
                if size == 0 {
                    return Err(mode_error(by));
                }
                let groups = chunk_groups_exec(max_page, size);
                proof {
                    assert forall|k: int| 0 <= k < groups_view(groups@).len() implies (
                    #[trigger] groups_view(groups@)[k]).len() <= max_page by {
                        assert(groups_view(groups@)[k] == chunk_groups(max_page, size)[k]);
                        if max_page >= 1 {
                            lemma_chunk_count(max_page as int, size as int);
                            lemma_chunk_start(k, size as int, max_page as int);
                        } else {
                            assert((size - 1) / (size as int) == 0) by (nonlinear_arith)
                                requires
                                    size >= 1,
                            ;
                        }
                    }
                }
                return Ok(groups);
            },
            None => return Err(mode_error(by)),
        }
    }
    proof {
        if lw.len() >= 6 {
            assert(lw.take(6) == lower@.subrange(0, 6));
        }
    }
    Err(mode_error(by))
}

/// The parts of a document split by `by`: one document per group, with as
/// many pages as the group.
pub fn split_pdf(info: &PdfInfo, by: &str) -> (r: Result<Vec<Vec<u8>>, PdfError>)
    requires
        info.page_count + 3 <= usize::MAX,
    ensures
        match split_groups(by@, info.page_count) {
            Ok(groups) => r matches Ok(parts) && parts@.len() == groups.len() && forall|k: int|
                0 <= k < groups.len() ==> (#[trigger] parts@[k])@ == simple_pdf_bytes(
                    groups[k].len(),
                    info.version@,
                ),
            Err(SplitFailure::Mode) => r matches Err(PdfError::InvalidSplitMode { mode }) && mode@
                == by@,
            Err(SplitFailure::Range(input, reason)) => r matches Err(
                PdfError::InvalidPageRange { input: i, reason: r2 },
            ) && i@ == input && r2@ == reason,
        },
{
    let groups = match parse_split_groups(by, info.page_count) {
        Ok(g) => g,
        Err(e) => return Err(e),
    };
    let mut parts: Vec<Vec<u8>> = Vec::new();
    let mut k: usize = 0;
    while k < groups.len()
        invariant
            0 <= k <= groups@.len(),
            info.page_count + 3 <= usize::MAX,
            groups_bounded(groups_view(groups@), info.page_count),
            parts@.len() == k,
            forall|j: int|
                0 <= j < k ==> (#[trigger] parts@[j])@ == simple_pdf_bytes(
                    groups_view(groups@)[j].len(),
                    info.version@,
                ),
        decreases groups@.len() - k,
    {
        assert(groups_view(groups@)[k as int] == groups@[k as int]@);
        let part = write_simple_pdf(groups[k].len(), info.version.as_str());
        parts.push(part);
        k = k + 1;
    }
    Ok(parts)
}

} // verus!
