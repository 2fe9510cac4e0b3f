//! The syntax of patterns: which characters are operators, which are literal
//! symbols, and which patterns are rejected.
//!
//! A pattern is a list of alternatives separated by `|`. An alternative is
//! either a run of literal symbols or one group in parentheses, which holds a
//! pattern again. A group may be empty, and so may the whole pattern.

use vstd::prelude::*;
use vstd::string::*;
use crate::error::{BuildError, SyntaxReason};

verus! {

/// Characters of syntax that is not implemented: character classes,
/// quantifiers, escapes and anchors.
pub open spec fn is_unsupported(c: char) -> bool {
    c == '[' || c == ']' || c == '*' || c == '+' || c == '?' || c == '\\' || c == '^' || c == '$'
}

/// Characters that stand for themselves.
pub open spec fn is_literal(c: char) -> bool {
    c != '(' && c != ')' && c != '|' && !is_unsupported(c)
}

/// The positions of the groups that are open after the first `n` characters,
/// outermost first.
pub open spec fn open_groups(p: Seq<char>, n: int) -> Seq<int>
    decreases n,
{
    if n <= 0 {
        Seq::empty()
    } else {
        let before = open_groups(p, n - 1);
        if p[n - 1] == '(' {
            before.push(n - 1)
        } else if p[n - 1] == ')' && before.len() > 0 {
            before.drop_last()
        } else {
            before
        }
    }
}

/// What is wrong with the character at position `i`, judged by its
/// neighbours and by the groups that are open in front of it.
pub open spec fn error_at(p: Seq<char>, i: int) -> Option<BuildError> {
    let c = p[i];
    let index = i as usize;
    if is_unsupported(c) {
        Some(BuildError::UnsupportedConstruct { index, character: c })
    } else if c == '(' {
        if i > 0 && (is_literal(p[i - 1]) || p[i - 1] == ')') {
            Some(BuildError::Syntax { index, reason: SyntaxReason::GroupInSequence })
        } else {
            None
        }
    } else if c == ')' {
        if open_groups(p, i).len() == 0 {
            Some(BuildError::Syntax { index, reason: SyntaxReason::UnmatchedClose })
        } else {
            None
        }
    } else if c == '|' {
        if i == 0 || p[i - 1] == '(' || p[i - 1] == '|' {
            Some(BuildError::Syntax { index, reason: SyntaxReason::LeadingAlternation })
        } else if i + 1 == p.len() || p[i + 1] == ')' || p[i + 1] == '|' {
            Some(BuildError::Syntax { index, reason: SyntaxReason::TrailingAlternation })
        } else {
            None
        }
    } else {
        if i > 0 && p[i - 1] == ')' {
            Some(BuildError::Syntax { index, reason: SyntaxReason::GroupInSequence })
        } else {
            None
        }
    }
}

/// The error of the first offending character among the first `n`.
pub open spec fn first_error(p: Seq<char>, n: int) -> Option<BuildError>
    decreases n,
{
    if n <= 0 {
        None
    } else {
        match first_error(p, n - 1) {
            Some(e) => Some(e),
            None => error_at(p, n - 1),
        }
    }
}

/// Why the pattern is rejected, if it is: the error of its first offending
/// character; where no character offends but a group is left open, the
/// innermost such group.
pub open spec fn syntax_error(p: Seq<char>) -> Option<BuildError> {
    match first_error(p, p.len() as int) {
        Some(e) => Some(e),
        None => if open_groups(p, p.len() as int).len() > 0 {
            Some(
                BuildError::Syntax {
                    index: open_groups(p, p.len() as int).last() as usize,
                    reason: SyntaxReason::UnclosedGroup,
                },
            )
        } else {
            None
        },
    }
}

/// Whether the character belongs to syntax that is not implemented.
pub fn unsupported(c: char) -> (b: bool)
    ensures
        b == is_unsupported(c),
{
    c == '[' || c == ']' || c == '*' || c == '+' || c == '?' || c == '\\' || c == '^' || c == '$'
}

/// Whether the character stands for itself.
pub fn literal(c: char) -> (b: bool)
    ensures
        b == is_literal(c),
{
    c != '(' && c != ')' && c != '|' && !unsupported(c)
}

/// The characters of a text, in order.
pub fn pattern_chars(text: &str) -> (chars: Vec<char>)
    ensures
        chars@ == text@,
{
    let n = text.unicode_len();
    let mut chars: Vec<char> = Vec::new();
    let mut i: usize = 0;
    while i < n
        invariant
            n == text@.len(),
            i <= n,
            chars@ == text@.subrange(0, i as int),
        decreases n - i,
    {
        chars.push(text.get_char(i));
        assert(chars@ =~= text@.subrange(0, i + 1));
        i += 1;
    }
    assert(chars@ =~= text@);
    chars
}

/// Judges the character at position `i`, given how many groups are open in
/// front of it.
fn check_at(p: &Vec<char>, i: usize, depth: usize) -> (r: Option<BuildError>)
    requires
        i < p@.len(),
        depth == open_groups(p@, i as int).len(),
    ensures
        r == error_at(p@, i as int),
{
    let n = p.len();
    let c = p[i];
    if unsupported(c) {
        Some(BuildError::UnsupportedConstruct { index: i, character: c })
    } else if c == '(' {
        if i > 0 && (literal(p[i - 1]) || p[i - 1] == ')') {
            Some(BuildError::Syntax { index: i, reason: SyntaxReason::GroupInSequence })
        } else {
            None
        }
    } else if c == ')' {
        if depth == 0 {
            Some(BuildError::Syntax { index: i, reason: SyntaxReason::UnmatchedClose })
        } else {
            None
        }
    } else if c == '|' {
        if i == 0 || p[i - 1] == '(' || p[i - 1] == '|' {
            Some(BuildError::Syntax { index: i, reason: SyntaxReason::LeadingAlternation })
        } else if i + 1 == n || p[i + 1] == ')' || p[i + 1] == '|' {
            Some(BuildError::Syntax { index: i, reason: SyntaxReason::TrailingAlternation })
        } else {
            None
        }
    } else {
        if i > 0 && p[i - 1] == ')' {
            Some(BuildError::Syntax { index: i, reason: SyntaxReason::GroupInSequence })
        } else {
            None
        }
    }
}

/// Accepts the pattern or names what is wrong with it.
pub fn check_pattern(p: &Vec<char>) -> (r: Result<(), BuildError>)
    ensures
        syntax_error(p@) is Some ==> r == Err::<(), BuildError>(syntax_error(p@)->Some_0),
        syntax_error(p@) is None ==> r is Ok,
{
    let n = p.len();
    let mut opens: Vec<usize> = Vec::new();
    let mut i: usize = 0;
    while i < n
        invariant
            n == p@.len(),
            i <= n,
            first_error(p@, i as int) is None,
            opens@.len() == open_groups(p@, i as int).len(),
            forall|k: int|
                0 <= k < opens@.len() ==> opens@[k] as int == #[trigger] open_groups(
                    p@,
                    i as int,
                )[k],
        decreases n - i,
    {
        match check_at(p, i, opens.len()) {
            Some(e) => {
                proof {
                    lemma_first_error_stays(p@, i as int + 1, n as int);
                }
                return Err(e);
            },
            None => {},
        }
        let c = p[i];
        if c == '(' {
            opens.push(i);
        } else if c == ')' {
            opens.pop();
        }
        i += 1;
    }
    if opens.len() > 0 {
        Err(
            BuildError::Syntax {
                index: opens[opens.len() - 1],
                reason: SyntaxReason::UnclosedGroup,
            },
        )
    } else {
        Ok(())
    }
}

/// An error among the first `n` characters is still the first error among the
/// first `m`, for `m` beyond `n`.
pub proof fn lemma_first_error_stays(p: Seq<char>, n: int, m: int)
    requires
        0 <= n <= m,
        first_error(p, n) is Some,
    ensures
        first_error(p, m) == first_error(p, n),
    decreases m - n,
{
    if n < m {
        lemma_first_error_stays(p, n, m - 1);
    }
}

/// Where the run of literal symbols that ends in front of position `n` starts;
/// `n` itself where no literal symbol stands in front of it.
pub open spec fn run_start(p: Seq<char>, n: int) -> int
    decreases n,
{
    if n <= 0 {
        0
    } else if !is_literal(p[n - 1]) {
        n
    } else {
        run_start(p, n - 1)
    }
}

/// The characters from `x` up to, not including, `y` are a whole alternative
/// of literal symbols: all of them are literal, and the run goes on neither in
/// front of `x` nor from `y` on.
pub open spec fn is_run_at(p: Seq<char>, x: int, y: int) -> bool {
    &&& 0 <= x < y <= p.len()
    &&& forall|t: int| x <= t < y ==> is_literal(#[trigger] p[t])
    &&& (x == 0 || !is_literal(p[x - 1]))
    &&& (y == p.len() || !is_literal(p[y]))
}

/// `s` is one of the runs of literal symbols of `p` that end within the first
/// `n` characters.
pub open spec fn run_before(p: Seq<char>, n: int, s: Seq<char>) -> bool {
    exists|x: int, y: int| y <= n && #[trigger] is_run_at(p, x, y) && s == p.subrange(x, y)
}

/// The words that a pattern stands for: its runs of literal symbols. In an
/// accepted pattern each of them is one alternative.
pub open spec fn stands_for(p: Seq<char>, s: Seq<char>) -> bool {
    run_before(p, p.len() as int, s)
}

/// The start of a run lies where the literal symbols in front of `n` begin.
pub proof fn lemma_run_start(p: Seq<char>, n: int)
    requires
        0 <= n <= p.len(),
    ensures
        0 <= run_start(p, n) <= n,
        forall|t: int| run_start(p, n) <= t < n ==> is_literal(#[trigger] p[t]),
        run_start(p, n) == 0 || !is_literal(p[run_start(p, n) - 1]),
    decreases n,
{
    if n > 0 && is_literal(p[n - 1]) {
        lemma_run_start(p, n - 1);
    }
}

/// No other position than `run_start` begins the literal symbols in front of `n`.
pub proof fn lemma_run_start_unique(p: Seq<char>, x: int, n: int)
    requires
        0 <= x <= n <= p.len(),
        forall|t: int| x <= t < n ==> is_literal(#[trigger] p[t]),
        x == 0 || !is_literal(p[x - 1]),
    ensures
        x == run_start(p, n),
    decreases n,
{
    if n > 0 && is_literal(p[n - 1]) {
        if x == n {
            assert(!is_literal(p[x - 1]));
        } else {
            lemma_run_start_unique(p, x, n - 1);
        }
    } else if x < n {
        assert(is_literal(p[n - 1]));
    }
}

/// How the runs that end within a prefix grow with one more character: only
/// a literal symbol that is the last of its run adds one, the run that it ends.
pub proof fn lemma_runs_step(p: Seq<char>, n: int, s: Seq<char>)
    requires
        0 < n <= p.len(),
    ensures
        run_before(p, n, s) <==> run_before(p, n - 1, s) || (is_literal(p[n - 1]) && (n == p.len()
            || !is_literal(p[n])) && s == p.subrange(run_start(p, n), n)),
{
    lemma_run_start(p, n);
    if run_before(p, n, s) {
        let (x, y) = choose|x: int, y: int|
            y <= n && #[trigger] is_run_at(p, x, y) && s == p.subrange(x, y);
        if y == n {
            assert(is_literal(p[n - 1]));
            lemma_run_start_unique(p, x, n);
        } else {
            assert(y <= n - 1 && is_run_at(p, x, y));
        }
    }
    if run_before(p, n - 1, s) {
        let (x, y) = choose|x: int, y: int|
            y <= n - 1 && #[trigger] is_run_at(p, x, y) && s == p.subrange(x, y);
        assert(y <= n && is_run_at(p, x, y));
    }
    if is_literal(p[n - 1]) && (n == p.len() || !is_literal(p[n])) && s == p.subrange(
        run_start(p, n),
        n,
    ) {
        assert(is_run_at(p, run_start(p, n), n));
    }
}

/// No character of an accepted pattern offends.
pub proof fn lemma_no_error_at(p: Seq<char>, i: int)
    requires
        0 <= i < p.len(),
        syntax_error(p) is None,
    ensures
        error_at(p, i) is None,
        first_error(p, i) is None,
        first_error(p, i + 1) is None,
{
    if first_error(p, i + 1) is Some {
        lemma_first_error_stays(p, i + 1, p.len() as int);
    }
}

} // verus!
