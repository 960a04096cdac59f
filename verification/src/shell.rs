//! The interactive shell: what a typed line asks for.
use vstd::prelude::*;

use crate::inspect::{find_ws, ws_pos};
use crate::text::{chars_of, is_whitespace, is_ws, string_of_range, trim_start};

verus! {

pub proof fn lemma_trim_start_len(s: Seq<char>)
    ensures
        trim_start(s).len() <= s.len(),
        trim_start(s).len() > 0 ==> !is_ws(trim_start(s)[0]),
    decreases s.len(),
{
    if s.len() > 0 && is_ws(s[0]) {
        lemma_trim_start_len(s.drop_first());
    }
}

pub proof fn lemma_ws_pos_bound(s: Seq<char>)
    ensures
        ws_pos(s) <= s.len(),
        s.len() > 0 && !is_ws(s[0]) ==> ws_pos(s) >= 1,
    decreases s.len(),
{
    if s.len() > 0 && !is_ws(s[0]) {
        lemma_ws_pos_bound(s.drop_first());
    }
}

/// The words of a line: its runs of characters between whitespace.
pub open spec fn words(s: Seq<char>) -> Seq<Seq<char>>
    decreases s.len(),
{
    let t = trim_start(s);
    proof {
        lemma_trim_start_len(s);
        lemma_ws_pos_bound(t);
    }
    if t.len() == 0 {
        seq![]
    } else {
        let k = ws_pos(t);
        seq![t.take(k as int)] + words(t.skip(k as int))
    }
}

/// The view of each string.
pub open spec fn strings_view(v: Seq<String>) -> Seq<Seq<char>> {
    v.map_values(|s: String| s@)
}

/// Splits a line into its words.
pub fn split_words(line: &str) -> (r: Vec<String>)
    ensures
        strings_view(r@) == words(line@),
{
    let c = chars_of(line);
    let n = c.len();
    let mut out: Vec<String> = Vec::new();
    let mut i: usize = 0;
    assert(c@.subrange(0, n as int) =~= c@);
    loop
        invariant
            c@ == line@,
            n == c@.len(),
            i <= n,
            words(c@) == strings_view(out@) + words(c@.subrange(i as int, n as int)),
        decreases n - i,
    {
        let ghost rest = c@.subrange(i as int, n as int);
        let mut a = i;
        while a < n && is_whitespace(c[a])
            invariant
                i <= a <= n == c@.len(),
                trim_start(rest) == trim_start(c@.subrange(a as int, n as int)),
            decreases n - a,
        {
            assert(c@.subrange(a as int, n as int).drop_first() =~= c@.subrange(
                a + 1,
                n as int,
            ));
            a = a + 1;
        }
        let ghost t = c@.subrange(a as int, n as int);
        assert(trim_start(t) == t);
        if a == n {
            assert(t.len() == 0);
            assert(trim_start(rest).len() == 0);
            assert(words(rest) =~= Seq::<Seq<char>>::empty());
            assert(strings_view(out@) + Seq::<Seq<char>>::empty() =~= strings_view(out@));
            return out;
        }
        let b = find_ws(&c, a, n);
        assert(!is_ws(t[0]));
        assert(t.take(b - a) =~= c@.subrange(a as int, b as int));
        assert(t.skip(b - a) =~= c@.subrange(b as int, n as int));
        let ghost before = out@;
        out.push(string_of_range(&c, a, b));
        assert(strings_view(out@) =~= strings_view(before).push(c@.subrange(a as int, b as int)));
        i = b;
    }
}

/// What a line typed into the shell asks for.
pub enum ShellAction {
    /// Leave the shell (`quit` or `exit`).
    Quit,
    /// Show the commands (`help`).
    Help,
    /// Nothing was typed.
    Skip,
    /// Run the command given by these words.
    Run(Vec<String>),
}

/// What a line of the shell asks for, decided by its first word.
pub open spec fn shell_choice(line: Seq<char>) -> u8 {
    let w = words(line);
    if w.len() == 0 {
        2
    } else if w[0] == "quit"@ || w[0] == "exit"@ {
        0
    } else if w[0] == "help"@ {
        1
    } else {
        3
    }
}

/// Whether a string holds exactly the characters of `lit`.
fn is_word(s: &String, lit: &str) -> (b: bool)
    ensures
        b == (s@ == lit@),
{
    let a = chars_of(s.as_str());
    let l = chars_of(lit);
    if a.len() != l.len() {
        return false;
    }
    let mut i: usize = 0;
    while i < a.len()
        invariant
            a@ == s@,
            l@ == lit@,
            a@.len() == l@.len(),
            0 <= i <= a@.len(),
            forall|j: int| 0 <= j < i ==> a@[j] == l@[j],
        decreases a@.len() - i,
    {
        if a[i] != l[i] {
            assert(a@[i as int] != l@[i as int]);
            return false;
        }
        i = i + 1;
    }
    assert(a@ =~= l@);
    true
}

/// Decides what a line of the shell asks for.
pub fn shell_action(line: &str) -> (r: ShellAction)
    ensures
        shell_choice(line@) == 0 ==> r is Quit,
        shell_choice(line@) == 1 ==> r is Help,
        shell_choice(line@) == 2 ==> r is Skip,
        shell_choice(line@) == 3 ==> (r matches ShellAction::Run(w) && strings_view(w@) == words(
            line@,
        )),
{
    let w = split_words(line);
    if w.len() == 0 {
        return ShellAction::Skip;
    }
    assert(strings_view(w@)[0] == w@[0]@);
    if is_word(&w[0], "quit") || is_word(&w[0], "exit") {
        ShellAction::Quit
    } else if is_word(&w[0], "help") {
        ShellAction::Help
    } else {
        ShellAction::Run(w)
    }
}

} // verus!
