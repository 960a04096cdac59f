//! Character-level helpers shared by the parsers and the writers:
//! Unicode whitespace and trimming, searching, decimal numbers and
//! building strings and byte buffers.
use vstd::prelude::*;

verus! {

// ---------------------------------------------------------------------
// Whitespace and trimming
// ---------------------------------------------------------------------

/// The Unicode `White_Space` property, which `char::is_whitespace` and
/// `str::trim` use.
pub open spec fn is_ws(c: char) -> bool {
    let v = c as u32;
    (0x09 <= v && v <= 0x0d) || v == 0x20 || v == 0x85 || v == 0xa0 || v == 0x1680 || (0x2000
        <= v && v <= 0x200a) || v == 0x2028 || v == 0x2029 || v == 0x202f || v == 0x205f || v
        == 0x3000
}

pub fn is_whitespace(c: char) -> (b: bool)
    ensures
        b == is_ws(c),
{
    let v = c as u32;
    (0x09 <= v && v <= 0x0d) || v == 0x20 || v == 0x85 || v == 0xa0 || v == 0x1680 || (0x2000
        <= v && v <= 0x200a) || v == 0x2028 || v == 0x2029 || v == 0x202f || v == 0x205f || v
        == 0x3000
}

/// `s` without its leading whitespace.
pub open spec fn trim_start(s: Seq<char>) -> Seq<char>
    decreases s.len(),
{
    if s.len() > 0 && is_ws(s[0]) {
        trim_start(s.drop_first())
    } else {
        s
    }
}

/// `s` without its trailing whitespace.
pub open spec fn trim_end(s: Seq<char>) -> Seq<char>
    decreases s.len(),
{
    if s.len() > 0 && is_ws(s.last()) {
        trim_end(s.drop_last())
    } else {
        s
    }
}

/// `s` without leading and trailing whitespace, as `str::trim` gives it.
pub open spec fn trim(s: Seq<char>) -> Seq<char> {
    trim_end(trim_start(s))
}

/// Every character of `w` is whitespace.
pub open spec fn all_ws(w: Seq<char>) -> bool {
    forall|i: int| 0 <= i < w.len() ==> is_ws(#[trigger] w[i])
}

/// Leading whitespace is dropped by `trim_start`.
pub proof fn lemma_trim_start_ws(w: Seq<char>, s: Seq<char>)
    requires
        all_ws(w),
    ensures
        trim_start(w + s) == trim_start(s),
    decreases w.len(),
{
    if w.len() > 0 {
        assert((w + s)[0] == w[0]);
        assert((w + s).drop_first() =~= w.drop_first() + s);
        lemma_trim_start_ws(w.drop_first(), s);
    } else {
        assert(w + s =~= s);
    }
}

/// Trailing whitespace is dropped by `trim_end`.
pub proof fn lemma_trim_end_ws(s: Seq<char>, w: Seq<char>)
    requires
        all_ws(w),
    ensures
        trim_end(s + w) == trim_end(s),
    decreases w.len(),
{
    if w.len() > 0 {
        assert((s + w).last() == w.last());
        assert((s + w).drop_last() =~= s + w.drop_last());
        lemma_trim_end_ws(s, w.drop_last());
    } else {
        assert(s + w =~= s);
    }
}

/// What follows text that is not all whitespace is kept by `trim_start`.
pub proof fn lemma_trim_start_concat(s: Seq<char>, c: Seq<char>)
    ensures
        trim_start(s + c) == if trim_start(s).len() > 0 {
            trim_start(s) + c
        } else {
            trim_start(c)
        },
    decreases s.len(),
{
    if s.len() == 0 {
        assert(s + c =~= c);
    } else if is_ws(s[0]) {
        assert((s + c)[0] == s[0]);
        assert((s + c).drop_first() =~= s.drop_first() + c);
        lemma_trim_start_concat(s.drop_first(), c);
    } else {
        assert((s + c)[0] == s[0]);
    }
}

/// What precedes text that is not all whitespace is kept by `trim_end`.
pub proof fn lemma_trim_end_concat(c: Seq<char>, s: Seq<char>)
    requires
        trim_end(s).len() > 0,
    ensures
        trim_end(c + s) == c + trim_end(s),
    decreases s.len(),
{
    assert(s.len() > 0);
    assert((c + s).last() == s.last());
    if is_ws(s.last()) {
        assert((c + s).drop_last() =~= c + s.drop_last());
        lemma_trim_end_concat(c, s.drop_last());
    }
}

/// A text is its trimmed end followed by whitespace.
pub proof fn lemma_trim_end_split(x: Seq<char>)
    ensures
        trim_end(x).len() <= x.len(),
        x == trim_end(x) + x.skip(trim_end(x).len() as int),
        all_ws(x.skip(trim_end(x).len() as int)),
    decreases x.len(),
{
    if x.len() > 0 && is_ws(x.last()) {
        lemma_trim_end_split(x.drop_last());
        let t = trim_end(x);
        let d = x.drop_last();
        assert(d == t + d.skip(t.len() as int));
        assert(x =~= d.push(x.last()));
        assert(x.skip(t.len() as int) =~= d.skip(t.len() as int).push(x.last()));
        assert(d.push(x.last()) =~= t + d.skip(t.len() as int).push(x.last()));
    } else {
        assert(x.skip(x.len() as int) =~= Seq::<char>::empty());
        assert(x =~= x + Seq::<char>::empty());
    }
}

/// A text is whitespace followed by its trimmed start.
pub proof fn lemma_trim_start_split(x: Seq<char>)
    ensures
        trim_start(x).len() <= x.len(),
        x == x.take(x.len() - trim_start(x).len()) + trim_start(x),
        all_ws(x.take(x.len() - trim_start(x).len())),
    decreases x.len(),
{
    if x.len() > 0 && is_ws(x[0]) {
        lemma_trim_start_split(x.drop_first());
        let t = trim_start(x);
        let k = x.len() - t.len();
        let d = x.drop_first();
        assert(d == d.take(k - 1) + t);
        assert(x =~= seq![x[0]] + d);
        assert(x.take(k) =~= seq![x[0]] + d.take(k - 1));
        assert(seq![x[0]] + d =~= seq![x[0]] + d.take(k - 1) + t);
    } else {
        assert(x.take(0) =~= Seq::<char>::empty());
        assert(x =~= Seq::<char>::empty() + x);
    }
}

/// Whitespace around a text does not change how it trims.
pub proof fn lemma_trim_around(w: Seq<char>, t: Seq<char>, v: Seq<char>)
    requires
        all_ws(w),
        all_ws(v),
    ensures
        trim(w + t) == trim(t),
        trim(t + v) == trim(t),
{
    lemma_trim_start_ws(w, t);
    lemma_trim_start_concat(t, v);
    if trim_start(t).len() > 0 {
        lemma_trim_end_ws(trim_start(t), v);
    } else {
        lemma_trim_start_ws(v, Seq::<char>::empty());
        assert(v + Seq::<char>::empty() =~= v);
        assert(trim_start(Seq::<char>::empty()) =~= Seq::<char>::empty());
    }
}

/// Finds the bounds of the trimmed part of `c[lo..hi]`.
pub fn trim_range(c: &Vec<char>, lo: usize, hi: usize) -> (r: (usize, usize))
    requires
        lo <= hi <= c@.len(),
    ensures
        lo <= r.0 <= r.1 <= hi,
        c@.subrange(r.0 as int, r.1 as int) == trim(c@.subrange(lo as int, hi as int)),
{
    let mut a = lo;
    while a < hi && is_whitespace(c[a])
        invariant
            lo <= a <= hi <= c@.len(),
            trim_start(c@.subrange(lo as int, hi as int)) == trim_start(
                c@.subrange(a as int, hi as int),
            ),
        decreases hi - a,
    {
        assert(c@.subrange(a as int, hi as int).drop_first() == c@.subrange(a + 1, hi as int));
        a = a + 1;
    }
    let mut b = hi;
    while b > a && is_whitespace(c[b - 1])
        invariant
            lo <= a <= b <= hi <= c@.len(),
            trim_start(c@.subrange(lo as int, hi as int)) == c@.subrange(a as int, hi as int),
            trim(c@.subrange(lo as int, hi as int)) == trim_end(c@.subrange(a as int, b as int)),
        decreases b - a,
    {
        assert(c@.subrange(a as int, b as int).drop_last() == c@.subrange(a as int, b - 1));
        b = b - 1;
    }
    (a, b)
}

// ---------------------------------------------------------------------
// Searching
// ---------------------------------------------------------------------

/// Index of the first `x` in `s`, or `s.len()` where there is none.
pub open spec fn char_pos(s: Seq<char>, x: char) -> nat
    decreases s.len(),
{
    if s.len() == 0 {
        0
    } else if s[0] == x {
        0
    } else {
        1 + char_pos(s.drop_first(), x)
    }
}

pub proof fn lemma_char_pos(s: Seq<char>, x: char)
    ensures
        char_pos(s, x) <= s.len(),
        char_pos(s, x) < s.len() ==> s[char_pos(s, x) as int] == x,
        forall|i: int| 0 <= i < char_pos(s, x) ==> s[i] != x,
    decreases s.len(),
{
    if s.len() > 0 && s[0] != x {
        lemma_char_pos(s.drop_first(), x);
        assert forall|i: int| 0 <= i < char_pos(s, x) implies s[i] != x by {
            if i > 0 {
                assert(s[i] == s.drop_first()[i - 1]);
            }
        }
    }
}

/// `char_pos` is determined by where the first `x` stands.
pub proof fn lemma_char_pos_at(s: Seq<char>, x: char, k: int)
    requires
        0 <= k <= s.len(),
        k < s.len() ==> s[k] == x,
        forall|i: int| 0 <= i < k ==> s[i] != x,
    ensures
        char_pos(s, x) == k,
    decreases s.len(),
{
    if s.len() > 0 && k > 0 {
        assert forall|i: int| 0 <= i < k - 1 implies s.drop_first()[i] != x by {
            assert(s.drop_first()[i] == s[i + 1]);
        }
        lemma_char_pos_at(s.drop_first(), x, k - 1);
    }
}

/// Finds the first `x` in `c[lo..hi]`; gives `hi` where there is none.
pub fn find_char(c: &Vec<char>, lo: usize, hi: usize, x: char) -> (r: usize)
    requires
        lo <= hi <= c@.len(),
    ensures
        lo <= r <= hi,
        r - lo == char_pos(c@.subrange(lo as int, hi as int), x),
{
    let mut i = lo;
    while i < hi && c[i] != x
        invariant
            lo <= i <= hi <= c@.len(),
            forall|j: int| lo <= j < i ==> c@[j] != x,
        decreases hi - i,
    {
        i = i + 1;
    }
    proof {
        let s = c@.subrange(lo as int, hi as int);
        assert forall|j: int| 0 <= j < i - lo implies s[j] != x by {
            assert(s[j] == c@[lo + j]);
        }
        lemma_char_pos_at(s, x, i - lo);
    }
    i
}

/// `p` occurs in `t` at position `i`.
pub open spec fn occurs_at(t: Seq<char>, p: Seq<char>, i: int) -> bool {
    0 <= i && i + p.len() <= t.len() && t.subrange(i, i + p.len()) == p
}

/// `p` occurs somewhere in `t`.
pub open spec fn contains_seq(t: Seq<char>, p: Seq<char>) -> bool {
    exists|i: int| occurs_at(t, p, i)
}

/// The first position at or after `i` where `p` occurs in `t`.
pub open spec fn find_from(t: Seq<char>, p: Seq<char>, i: nat) -> Option<nat>
    decreases t.len() + 1 - i,
{
    if i + p.len() > t.len() {
        None
    } else if occurs_at(t, p, i as int) {
        Some(i)
    } else {
        find_from(t, p, i + 1)
    }
}

pub proof fn lemma_find_from(t: Seq<char>, p: Seq<char>, i: nat)
    ensures
        find_from(t, p, i) matches Some(k) ==> {
            &&& i <= k
            &&& k + p.len() <= t.len()
            &&& occurs_at(t, p, k as int)
            &&& forall|j: int| i <= j < k ==> !occurs_at(t, p, j)
        },
        find_from(t, p, i) is None ==> forall|j: int| i <= j ==> !occurs_at(t, p, j),
    decreases t.len() + 1 - i,
{
    if i + p.len() <= t.len() && !occurs_at(t, p, i as int) {
        lemma_find_from(t, p, i + 1);
    }
}

pub proof fn lemma_contains_find(t: Seq<char>, p: Seq<char>)
    ensures
        contains_seq(t, p) <==> find_from(t, p, 0) is Some,
{
    lemma_find_from(t, p, 0);
    if let Some(k) = find_from(t, p, 0) {
        assert(occurs_at(t, p, k as int));
    }
}

/// Whether `p` occurs in `c` at position `i`.
pub fn matches_at(c: &Vec<char>, i: usize, p: &Vec<char>) -> (b: bool)
    ensures
        b == occurs_at(c@, p@, i as int),
{
    let n = c.len();
    if i > n || p.len() > n - i {
        return false;
    }
    let mut j: usize = 0;
    while j < p.len()
        invariant
            n == c@.len(),
            i + p@.len() <= n,
            0 <= j <= p@.len(),
            forall|k: int| 0 <= k < j ==> c@[i + k] == p@[k],
        decreases p@.len() - j,
    {
        if c[i + j] != p[j] {
            assert(c@.subrange(i as int, i + p@.len())[j as int] != p@[j as int]);
            return false;
        }
        j = j + 1;
    }
    assert(c@.subrange(i as int, i + p@.len()) =~= p@);
    true
}

/// The first position at or after `from` where `p` occurs in `c`.
pub fn find_seq(c: &Vec<char>, p: &Vec<char>, from: usize) -> (r: Option<usize>)
    ensures
        r matches Some(k) ==> find_from(c@, p@, from as nat) == Some(k as nat),
        r is None ==> find_from(c@, p@, from as nat) is None,
{
    let n = c.len();
    let mut i = from;
    loop
        invariant
            n == c@.len(),
            from <= i,
            find_from(c@, p@, from as nat) == find_from(c@, p@, i as nat),
        decreases c@.len() + 1 - i,
    {
        if i > n || p.len() > n - i {
            return None;
        }
        if matches_at(c, i, p) {
            return Some(i);
        }
        assert(p@.len() > 0) by {
            if p@.len() == 0 {
                assert(c@.subrange(i as int, i as int) =~= p@);
            }
        }
        i = i + 1;
    }
}

/// Whether `p` occurs anywhere in `c`.
pub fn contains_chars(c: &Vec<char>, p: &Vec<char>) -> (b: bool)
    ensures
        b == contains_seq(c@, p@),
{
    proof {
        lemma_contains_find(c@, p@);
    }
    find_seq(c, p, 0).is_some()
}

// ---------------------------------------------------------------------
// Decimal numbers
// ---------------------------------------------------------------------

pub open spec fn is_digit(c: char) -> bool {
    '0' <= c && c <= '9'
}

pub open spec fn digit_value(c: char) -> nat {
    (c as u32 - '0' as u32) as nat
}

pub open spec fn digit_char(d: nat) -> char {
    ((d + 48) as u8) as char
}

/// The value of a string of decimal digits (0 for the empty string).
pub open spec fn digits_value(s: Seq<char>) -> nat
    decreases s.len(),
{
    if s.len() == 0 {
        0
    } else {
        digits_value(s.drop_last()) * 10 + digit_value(s.last())
    }
}

pub open spec fn all_digits(s: Seq<char>) -> bool {
    forall|i: int| 0 <= i < s.len() ==> is_digit(#[trigger] s[i])
}

/// The decimal representation of `n`, without leading zeros.
pub open spec fn decimal(n: nat) -> Seq<char>
    decreases n,
{
    if n < 10 {
        seq![digit_char(n)]
    } else {
        decimal(n / 10).push(digit_char(n % 10))
    }
}

/// The decimal representation of a signed number, with a `-` where it is
/// negative.
pub open spec fn decimal_i32(n: i32) -> Seq<char> {
    if n < 0 {
        seq!['-'] + decimal((-n) as nat)
    } else {
        decimal(n as nat)
    }
}

/// `n` in decimal, padded with zeros on the left to ten characters, as the
/// format `{:010}` gives it.
pub open spec fn decimal_pad10(n: nat) -> Seq<char> {
    let d = decimal(n);
    if d.len() < 10 {
        Seq::new((10 - d.len()) as nat, |i: int| '0') + d
    } else {
        d
    }
}

pub proof fn lemma_decimal_ascii(n: nat)
    ensures
        decimal(n).len() >= 1,
        all_digits(decimal(n)),
        forall|i: int| 0 <= i < decimal(n).len() ==> (#[trigger] decimal(n)[i] as u32) < 128,
    decreases n,
{
    if n >= 10 {
        lemma_decimal_ascii(n / 10);
    }
}

/// What `str::parse::<usize>` accepts: an optional `+`, then at least one
/// decimal digit, with a value that fits in `usize`.
pub open spec fn parse_usize(s: Seq<char>) -> Option<usize> {
    let d = if s.len() > 0 && s[0] == '+' {
        s.drop_first()
    } else {
        s
    };
    if d.len() > 0 && all_digits(d) && digits_value(d) <= usize::MAX {
        Some(digits_value(d) as usize)
    } else {
        None
    }
}

/// What `str::parse::<i32>` accepts: an optional `+` or `-`, then at least
/// one decimal digit, with a value that fits in `i32`.
pub open spec fn parse_i32(s: Seq<char>) -> Option<i32> {
    let neg = s.len() > 0 && s[0] == '-';
    let d = if s.len() > 0 && (s[0] == '+' || s[0] == '-') {
        s.drop_first()
    } else {
        s
    };
    if d.len() > 0 && all_digits(d) {
        if neg && digits_value(d) <= 0x8000_0000 {
            Some((-(digits_value(d) as int)) as i32)
        } else if !neg && digits_value(d) <= 0x7fff_ffff {
            Some(digits_value(d) as i32)
        } else {
            None
        }
    } else {
        None
    }
}

/// Reads the digits of `c[lo..hi]`, giving up (with `None`) once the value
/// exceeds `limit`.
fn read_digits(c: &Vec<char>, lo: usize, hi: usize, limit: u64) -> (r: Option<u64>)
    requires
        lo <= hi <= c@.len(),
        limit >= 9,
    ensures
        r matches Some(v) ==> {
            &&& all_digits(c@.subrange(lo as int, hi as int))
            &&& v == digits_value(c@.subrange(lo as int, hi as int))
            &&& v <= limit
        },
        r is None ==> !(all_digits(c@.subrange(lo as int, hi as int)) && digits_value(
            c@.subrange(lo as int, hi as int),
        ) <= limit),
{
    let mut v: u64 = 0;
    let mut i = lo;
    while i < hi
        invariant
            lo <= i <= hi <= c@.len(),
            limit >= 9,
            all_digits(c@.subrange(lo as int, i as int)),
            v == digits_value(c@.subrange(lo as int, i as int)),
            v <= limit,
        decreases hi - i,
    {
        let ch = c[i];
        let ghost s = c@.subrange(lo as int, i + 1);
        assert(s.drop_last() == c@.subrange(lo as int, i as int));
        if !('0' <= ch && ch <= '9') {
            proof {
                lemma_digits_prefix(c@.subrange(lo as int, hi as int), i - lo);
                assert(c@.subrange(lo as int, hi as int)[i - lo] == ch);
            }
            return None;
        }
        let d = (ch as u32 - '0' as u32) as u64;
        if v > (limit - d) / 10 {
            proof {
                lemma_digits_prefix(c@.subrange(lo as int, hi as int), i + 1 - lo);
                assert(c@.subrange(lo as int, hi as int).take(i + 1 - lo) == s);
            }
            return None;
        }
        v = v * 10 + d;
        i = i + 1;
    }
    Some(v)
}

/// The value of a digit string is at least the value of each of its
/// prefixes.
proof fn lemma_digits_prefix(s: Seq<char>, k: int)
    requires
        0 <= k <= s.len(),
    ensures
        all_digits(s) ==> all_digits(s.take(k)) && digits_value(s.take(k)) <= digits_value(s),
    decreases s.len() - k,
{
    if all_digits(s) && k < s.len() {
        lemma_digits_prefix(s, k + 1);
        assert(s.take(k + 1).drop_last() == s.take(k));
        assert(all_digits(s.take(k)));
    }
    if k == s.len() {
        assert(s.take(k) == s);
    }
}

/// Parses `c[lo..hi]` as `str::parse::<usize>` does.
pub fn parse_usize_range(c: &Vec<char>, lo: usize, hi: usize) -> (r: Option<usize>)
    requires
        lo <= hi <= c@.len(),
    ensures
        r == parse_usize(c@.subrange(lo as int, hi as int)),
{
    let ghost s = c@.subrange(lo as int, hi as int);
    let start = if lo < hi && c[lo] == '+' {
        lo + 1
    } else {
        lo
    };
    assert(s.len() > 0 && s[0] == '+' ==> s.drop_first() == c@.subrange(start as int, hi as int));
    if start == hi {
        return None;
    }
    match read_digits(c, start, hi, usize::MAX as u64) {
        Some(v) => Some(v as usize),
        None => None,
    }
}

/// Parses `c[lo..hi]` as `str::parse::<i32>` does.
pub fn parse_i32_range(c: &Vec<char>, lo: usize, hi: usize) -> (r: Option<i32>)
    requires
        lo <= hi <= c@.len(),
    ensures
        r == parse_i32(c@.subrange(lo as int, hi as int)),
{
    let ghost s = c@.subrange(lo as int, hi as int);
    let neg = lo < hi && c[lo] == '-';
    let start = if lo < hi && (c[lo] == '+' || c[lo] == '-') {
        lo + 1
    } else {
        lo
    };
    assert(s.len() > 0 && (s[0] == '+' || s[0] == '-') ==> s.drop_first() == c@.subrange(
        start as int,
        hi as int,
    ));
    if start == hi {
        return None;
    }
    let limit: u64 = if neg {
        0x8000_0000
    } else {
        0x7fff_ffff
    };
    match read_digits(c, start, hi, limit) {
        Some(v) => {
            if neg {
                Some((0 - (v as i64)) as i32)
            } else {
                Some(v as i32)
            }
        },
        None => None,
    }
}

/// The decimal digits of `n`.
pub fn decimal_chars(n: u64) -> (r: Vec<char>)
    ensures
        r@ == decimal(n as nat),
    decreases n,
{
    if n < 10 {
        let mut v = Vec::new();
        v.push(((n as u8) + 48u8) as char);
        v
    } else {
        let mut v = decimal_chars(n / 10);
        v.push((((n % 10) as u8) + 48u8) as char);
        v
    }
}

/// The decimal representation of a signed number.
pub fn decimal_i32_chars(n: i32) -> (r: Vec<char>)
    ensures
        r@ == decimal_i32(n),
{
    if n < 0 {
        let mut v = Vec::new();
        v.push('-');
        let mut d = decimal_chars((0 - (n as i64)) as u64);
        v.append(&mut d);
        v
    } else {
        decimal_chars(n as u64)
    }
}

// ---------------------------------------------------------------------
// Building strings and byte buffers
// ---------------------------------------------------------------------

/// Collects characters into a `String` (std's `FromIterator<char>`).
#[verifier::external_body]
pub(crate) fn string_from_chars(v: &[char]) -> (s: String)
    ensures
        s@ == v@,
{
    v.iter().collect()
}

/// The characters of a string slice.
pub fn chars_of(s: &str) -> (v: Vec<char>)
    ensures
        v@ == s@,
{
    let mut v: Vec<char> = Vec::new();
    for c in it: s.chars()
        invariant
            v@ == it.seq().take(it.index() as int),
    {
        v.push(c);
    }
    v
}

/// Appends characters to a character vector.
pub fn push_chars(out: &mut Vec<char>, s: &Vec<char>)
    ensures
        final(out)@ == old(out)@ + s@,
{
    let mut i: usize = 0;
    while i < s.len()
        invariant
            0 <= i <= s@.len(),
            out@ == old(out)@ + s@.take(i as int),
        decreases s@.len() - i,
    {
        out.push(s[i]);
        i = i + 1;
        assert(s@.take(i as int) == s@.take(i - 1).push(s@[i - 1]));
    }
    assert(s@.take(s@.len() as int) == s@);
}

/// Appends `c[lo..hi]` to a character vector.
pub fn push_range(out: &mut Vec<char>, c: &Vec<char>, lo: usize, hi: usize)
    requires
        lo <= hi <= c@.len(),
    ensures
        final(out)@ == old(out)@ + c@.subrange(lo as int, hi as int),
{
    let mut i = lo;
    while i < hi
        invariant
            lo <= i <= hi <= c@.len(),
            out@ == old(out)@ + c@.subrange(lo as int, i as int),
        decreases hi - i,
    {
        out.push(c[i]);
        i = i + 1;
        assert(c@.subrange(lo as int, i as int) == c@.subrange(lo as int, i - 1).push(
            c@[i - 1],
        ));
    }
}

/// A `String` holding `c[lo..hi]`.
pub fn string_of_range(c: &Vec<char>, lo: usize, hi: usize) -> (s: String)
    requires
        lo <= hi <= c@.len(),
    ensures
        s@ == c@.subrange(lo as int, hi as int),
{
    let mut v: Vec<char> = Vec::new();
    push_range(&mut v, c, lo, hi);
    string_from_chars(v.as_slice())
}

/// Appends the characters of a string slice to a character vector.
pub fn push_str_chars(out: &mut Vec<char>, s: &str)
    ensures
        final(out)@ == old(out)@ + s@,
{
    let v = chars_of(s);
    push_chars(out, &v);
}

/// Appends the UTF-8 encoding of `s` to a byte buffer.
pub fn push_str_bytes(out: &mut Vec<u8>, s: &str)
    ensures
        final(out)@ == old(out)@ + vstd::utf8::encode_utf8(s@),
{
    let b = s.as_bytes();
    let mut i: usize = 0;
    while i < b.len()
        invariant
            0 <= i <= b@.len(),
            b@ == vstd::utf8::encode_utf8(s@),
            out@ == old(out)@ + b@.take(i as int),
        decreases b@.len() - i,
    {
        out.push(b[i]);
        i = i + 1;
        assert(b@.take(i as int) == b@.take(i - 1).push(b@[i - 1]));
    }
    assert(b@.take(b@.len() as int) == b@);
}

} // verus!
