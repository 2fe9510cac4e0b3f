//! Families of patterns and what their automata accept: a single word, a
//! choice between words, and a pattern in parentheses.

use vstd::prelude::*;
use crate::chain::chain;
use crate::counting::{ids_used, law_identifiers_taken};
use crate::laws::law_accepts_what_pattern_stands_for;
use crate::pattern::{
    error_at, first_error, is_literal, is_run_at, lemma_first_error_stays, lemma_no_error_at,
    lemma_run_start_unique,
    open_groups, stands_for, syntax_error,
};
use crate::nfa::NfaView;
use crate::scan::{
    built, end_upcoming, ends_term, finished, groups, lemma_close_shaped, lemma_one_operand_left,
    lemma_reduce_shaped, lemma_scan_shaped, scan, Scan, Symbol,
};
use crate::soundness::lemma_scan_sound;

verus! {

/// Every character of `w` is a literal symbol.
pub open spec fn all_literal(w: Seq<char>) -> bool {
    forall|i: int| 0 <= i < w.len() ==> is_literal(#[trigger] w[i])
}

/// A pattern of literal symbols has no offending character and opens no group.
pub proof fn lemma_word_accepted(p: Seq<char>, n: int)
    requires
        all_literal(p),
        0 <= n <= p.len(),
    ensures
        first_error(p, n) is None,
        open_groups(p, n).len() == 0,
    decreases n,
{
    if n > 0 {
        lemma_word_accepted(p, n - 1);
        assert(is_literal(p[n - 1]));
        if n - 1 > 0 {
            assert(is_literal(p[n - 2]));
        }
    }
}

/// A pattern of one literal symbol or more stands for itself alone.
pub proof fn lemma_word_stands_for_itself(p: Seq<char>, s: Seq<char>)
    requires
        all_literal(p),
        p.len() > 0,
    ensures
        stands_for(p, s) <==> s == p,
{
    let n = p.len() as int;
    if stands_for(p, s) {
        let (x, y) = choose|x: int, y: int|
            y <= n && #[trigger] is_run_at(p, x, y) && s == p.subrange(x, y);
        if x > 0 {
            assert(is_literal(p[x - 1]));
        }
        if y < n {
            assert(is_literal(p[y]));
        }
        assert(p.subrange(0, n) =~= p);
    }
    if s == p {
        assert(is_run_at(p, 0, n));
        assert(p.subrange(0, n) =~= p);
    }
}

/// The scan of a pattern of literal symbols pushes no marker.
pub proof fn lemma_word_pushes_nothing(p: Seq<char>, n: int, first: nat)
    requires
        all_literal(p),
        0 <= n <= p.len(),
    ensures
        scan(p, n, first).symbols == Scan::start(first).symbols,
    decreases n,
{
    if n > 0 {
        lemma_word_pushes_nothing(p, n - 1, first);
        assert(is_literal(p[n - 1]));
    }
}

/// The automaton of a pattern of one literal symbol or more is the finished
/// chain of its symbols: two states for each symbol behind the initial state,
/// with consecutive identifiers, and the last state alone accepting.
pub proof fn law_word_is_chain(p: Seq<char>, first: nat)
    requires
        all_literal(p),
        p.len() > 0,
    ensures
        syntax_error(p) is None,
        built(p, first) == chain(p, first, true),
{
    let n = p.len() as int;
    lemma_word_accepted(p, n);
    lemma_scan_sound(p, n, first);
    lemma_word_pushes_nothing(p, n, first);
    lemma_run_start_unique(p, 0, n);
    law_identifiers_taken(p, first);
    lemma_word_ids(p, n);
    assert(p.subrange(0, n) =~= p);
    assert(is_literal(p[n - 1]));
}

/// A pattern of literal symbols takes two identifiers for each symbol, and one.
pub proof fn lemma_word_ids(p: Seq<char>, n: int)
    requires
        all_literal(p),
        0 <= n <= p.len(),
    ensures
        ids_used(p, n) == 1 + 2 * n,
    decreases n,
{
    if n > 0 {
        lemma_word_ids(p, n - 1);
        assert(is_literal(p[n - 1]));
    }
}

/// A pattern of one literal symbol or more is accepted, and its automaton
/// accepts that word and no other.
pub proof fn law_word(p: Seq<char>, first: nat, s: Seq<char>)
    requires
        all_literal(p),
        p.len() > 0,
    ensures
        syntax_error(p) is None,
        built(p, first).accepts(s) <==> s == p,
{
    lemma_word_accepted(p, p.len() as int);
    lemma_word_stands_for_itself(p, s);
    law_accepts_what_pattern_stands_for(p, first, s);
}

/// The pattern that offers the words as alternatives, in their order.
pub open spec fn alternation(words: Seq<Seq<char>>) -> Seq<char>
    decreases words.len(),
{
    if words.len() == 0 {
        Seq::empty()
    } else if words.len() == 1 {
        words[0]
    } else {
        alternation(words.drop_last()) + seq!['|'] + words.last()
    }
}

/// Each word has one symbol or more, all of them literal.
pub open spec fn all_words(words: Seq<Seq<char>>) -> bool {
    forall|k: int| 0 <= k < words.len() ==> (#[trigger] words[k]).len() > 0 && all_literal(words[k])
}

/// A pattern without groups: literal symbols and `|`, where each `|` stands
/// between two literal symbols.
pub open spec fn flat(q: Seq<char>) -> bool {
    &&& q.len() > 0
    &&& is_literal(q[0])
    &&& is_literal(q.last())
    &&& forall|i: int| 0 <= i < q.len() ==> is_literal(#[trigger] q[i]) || q[i] == '|'
    &&& forall|i: int|
        0 < i < q.len() - 1 && #[trigger] q[i] == '|' ==> is_literal(q[i - 1]) && is_literal(
            q[i + 1],
        )
}

/// An alternation of words is a pattern without groups.
pub proof fn lemma_alternation_flat(words: Seq<Seq<char>>)
    requires
        words.len() >= 1,
        all_words(words),
    ensures
        flat(alternation(words)),
    decreases words.len(),
{
    if words.len() == 1 {
        let w = words[0];
        assert(all_literal(w));
        assert(is_literal(w[0]));
        assert(is_literal(w[w.len() - 1]));
    } else {
        let shorter = words.drop_last();
        assert forall|k: int| 0 <= k < shorter.len() implies (#[trigger] shorter[k]).len() > 0
            && all_literal(shorter[k]) by {
            assert(shorter[k] == words[k]);
        }
        lemma_alternation_flat(shorter);
        let q = alternation(shorter);
        let w = words.last();
        let longer = alternation(words);
        let at = q.len() as int;
        assert(all_literal(w));
        assert(longer.len() == at + 1 + w.len());
        assert forall|i: int| 0 <= i < longer.len() implies is_literal(#[trigger] longer[i])
            || longer[i] == '|' by {
            if i < at {
                assert(longer[i] == q[i]);
            } else if i > at {
                assert(longer[i] == w[i - at - 1]);
            }
        }
        assert(longer[0] == q[0]);
        assert(longer.last() == w[w.len() - 1]);
        assert forall|i: int| 0 < i < longer.len() - 1 && #[trigger] longer[i] == '|' implies is_literal(
            longer[i - 1],
        ) && is_literal(longer[i + 1]) by {
            if i < at {
                assert(longer[i] == q[i]);
                assert(longer[i - 1] == q[i - 1]);
                if i + 1 < at {
                    assert(longer[i + 1] == q[i + 1]);
                } else {
                    assert(q[i] == q.last());
                }
            } else if i == at {
                assert(longer[i - 1] == q.last());
                assert(longer[i + 1] == w[0]);
            } else {
                assert(longer[i] == w[i - at - 1]);
            }
        }
    }
}

/// A pattern without groups has no offending character and opens no group.
pub proof fn lemma_flat_accepted(q: Seq<char>, n: int)
    requires
        flat(q),
        0 <= n <= q.len(),
    ensures
        first_error(q, n) is None,
        open_groups(q, n).len() == 0,
    decreases n,
{
    if n > 0 {
        lemma_flat_accepted(q, n - 1);
        let i = n - 1;
        assert(is_literal(q[i]) || q[i] == '|');
        if i > 0 {
            assert(is_literal(q[i - 1]) || q[i - 1] == '|');
        }
        if q[i] == '|' {
            assert(0 < i < q.len() - 1);
        }
        assert(error_at(q, i) is None);
    }
}

/// A pattern without groups followed by `|` and one more word stands for
/// what it stood for, and for that word.
pub proof fn lemma_one_more_word(q: Seq<char>, w: Seq<char>, s: Seq<char>)
    requires
        flat(q),
        w.len() > 0,
        all_literal(w),
    ensures
        stands_for(q + seq!['|'] + w, s) <==> stands_for(q, s) || s == w,
{
    let longer = q + seq!['|'] + w;
    let at = q.len() as int;
    let end = longer.len() as int;
    assert(longer[at] == '|');
    assert forall|t: int| 0 <= t < at implies #[trigger] longer[t] == q[t] by {}
    assert forall|t: int| at < t < end implies #[trigger] longer[t] == w[t - at - 1] by {}
    if stands_for(longer, s) {
        let (x, y) = choose|x: int, y: int|
            y <= end && #[trigger] is_run_at(longer, x, y) && s == longer.subrange(x, y);
        if y <= at {
            assert(is_run_at(q, x, y)) by {
                assert forall|t: int| x <= t < y implies is_literal(#[trigger] q[t]) by {
                    assert(is_literal(longer[t]));
                }
                if x > 0 {
                    assert(longer[x - 1] == q[x - 1]);
                }
                if y < at {
                    assert(longer[y] == q[y]);
                }
            }
            assert(longer.subrange(x, y) =~= q.subrange(x, y));
        } else {
            if x <= at {
                assert(is_literal(longer[at]));
            }
            if x > at + 1 {
                assert(longer[x - 1] == w[x - 1 - at - 1]);
                assert(is_literal(w[x - 1 - at - 1]));
            }
            if y < end {
                assert(longer[y] == w[y - at - 1]);
                assert(is_literal(w[y - at - 1]));
            }
            assert(longer.subrange(at + 1, end) =~= w);
        }
    }
    if stands_for(q, s) {
        let (x, y) = choose|x: int, y: int|
            y <= at && #[trigger] is_run_at(q, x, y) && s == q.subrange(x, y);
        assert(is_run_at(longer, x, y)) by {
            assert forall|t: int| x <= t < y implies is_literal(#[trigger] longer[t]) by {
                assert(is_literal(q[t]));
            }
            if x > 0 {
                assert(longer[x - 1] == q[x - 1]);
            }
            if y < at {
                assert(longer[y] == q[y]);
            }
        }
        assert(longer.subrange(x, y) =~= q.subrange(x, y));
    }
    if s == w {
        assert(is_run_at(longer, at + 1, end)) by {
            assert forall|t: int| at + 1 <= t < end implies is_literal(#[trigger] longer[t]) by {
                assert(is_literal(w[t - at - 1]));
            }
        }
        assert(longer.subrange(at + 1, end) =~= w);
    }
}

/// An alternation of words stands for exactly those words.
pub proof fn lemma_alternation_stands_for(words: Seq<Seq<char>>, s: Seq<char>)
    requires
        words.len() >= 1,
        all_words(words),
    ensures
        stands_for(alternation(words), s) <==> words.contains(s),
    decreases words.len(),
{
    if words.len() == 1 {
        lemma_word_stands_for_itself(words[0], s);
        if words.contains(s) {
            let k = choose|k: int| 0 <= k < words.len() && words[k] == s;
            assert(k == 0);
        }
        if s == words[0] {
            assert(words.contains(s));
        }
    } else {
        let shorter = words.drop_last();
        assert forall|k: int| 0 <= k < shorter.len() implies (#[trigger] shorter[k]).len() > 0
            && all_literal(shorter[k]) by {
            assert(shorter[k] == words[k]);
        }
        lemma_alternation_stands_for(shorter, s);
        lemma_alternation_flat(shorter);
        lemma_one_more_word(alternation(shorter), words.last(), s);
        if shorter.contains(s) {
            let k = choose|k: int| 0 <= k < shorter.len() && shorter[k] == s;
            assert(words[k] == s);
        }
        if words.contains(s) {
            let k = choose|k: int| 0 <= k < words.len() && words[k] == s;
            if k < words.len() - 1 {
                assert(shorter[k] == s);
            }
        }
        if s == words.last() {
            assert(words[words.len() - 1] == s);
        }
    }
}

/// An alternation of words, each of one literal symbol or more, is accepted,
/// and its automaton accepts exactly those words.
pub proof fn law_alternation(words: Seq<Seq<char>>, first: nat, s: Seq<char>)
    requires
        words.len() >= 1,
        all_words(words),
    ensures
        syntax_error(alternation(words)) is None,
        built(alternation(words), first).accepts(s) <==> words.contains(s),
{
    let q = alternation(words);
    lemma_alternation_flat(words);
    lemma_flat_accepted(q, q.len() as int);
    lemma_alternation_stands_for(words, s);
    law_accepts_what_pattern_stands_for(q, first, s);
}

/// The pattern `p` as one group: in parentheses.
pub open spec fn grouped(p: Seq<char>) -> Seq<char> {
    seq!['('] + p + seq![')']
}

/// Inside the parentheses one group more is open than in the pattern alone.
pub proof fn lemma_grouped_depth(p: Seq<char>, n: int)
    requires
        0 <= n <= p.len(),
        first_error(p, n) is None,
    ensures
        open_groups(grouped(p), n + 1).len() == open_groups(p, n).len() + 1,
    decreases n,
{
    let g = grouped(p);
    if n == 0 {
        assert(g[0] == '(');
        assert(open_groups(g, 0).len() == 0);
    } else {
        lemma_grouped_depth(p, n - 1);
        assert(g[n] == p[n - 1]);
        assert(error_at(p, n - 1) is None);
    }
}

/// No character of an accepted pattern offends inside the parentheses either.
pub proof fn lemma_grouped_no_error(p: Seq<char>, n: int)
    requires
        0 <= n <= p.len(),
        syntax_error(p) is None,
    ensures
        first_error(p, n) is None,
        first_error(grouped(p), n + 1) is None,
    decreases n,
{
    let g = grouped(p);
    if first_error(p, n) is Some {
        lemma_first_error_stays(p, n, p.len() as int);
    }
    if n == 0 {
        assert(g[0] == '(');
        assert(first_error(g, 0) is None);
        assert(error_at(g, 0) is None);
    } else {
        lemma_grouped_no_error(p, n - 1);
        let i = n - 1;
        assert(error_at(p, i) is None);
        assert(g[n] == p[i]);
        assert(g[n - 1] == if i == 0 {
            '('
        } else {
            p[i - 1]
        });
        assert(g[n + 1] == if n == p.len() {
            ')'
        } else {
            p[n]
        });
        lemma_grouped_depth(p, i);
        assert(error_at(g, n) is None);
    }
}

/// An accepted pattern in parentheses is accepted.
pub proof fn lemma_grouped_accepted(p: Seq<char>)
    requires
        syntax_error(p) is None,
    ensures
        syntax_error(grouped(p)) is None,
{
    let g = grouped(p);
    let n = p.len() as int;
    lemma_grouped_no_error(p, n);
    lemma_grouped_depth(p, n);
    assert(g[n + 1] == ')');
    assert(error_at(g, n + 1) is None);
    assert(first_error(g, n + 2) is None);
    assert(open_groups(g, n + 2).len() == 0);
}

/// A pattern in parentheses stands for what it stands for without them.
pub proof fn lemma_grouped_stands_for(p: Seq<char>, s: Seq<char>)
    ensures
        stands_for(grouped(p), s) <==> stands_for(p, s),
{
    let g = grouped(p);
    let n = p.len() as int;
    assert(g[0] == '(');
    assert(g[n + 1] == ')');
    assert forall|t: int| 0 <= t < n implies #[trigger] g[t + 1] == p[t] by {}
    if stands_for(g, s) {
        let (x, y) = choose|x: int, y: int|
            y <= n + 2 && #[trigger] is_run_at(g, x, y) && s == g.subrange(x, y);
        if x == 0 {
            assert(is_literal(g[0]));
        }
        if y == n + 2 {
            assert(is_literal(g[n + 1]));
        }
        assert(is_run_at(p, x - 1, y - 1)) by {
            assert forall|t: int| x - 1 <= t < y - 1 implies is_literal(#[trigger] p[t]) by {
                assert(is_literal(g[t + 1]));
            }
            if x - 1 > 0 {
                assert(g[(x - 2) + 1] == p[x - 2]);
            }
            if y - 1 < n {
                assert(g[(y - 1) + 1] == p[y - 1]);
            }
        }
        assert(g.subrange(x, y) =~= p.subrange(x - 1, y - 1));
    }
    if stands_for(p, s) {
        let (x, y) = choose|x: int, y: int|
            y <= n && #[trigger] is_run_at(p, x, y) && s == p.subrange(x, y);
        assert(is_run_at(g, x + 1, y + 1)) by {
            assert forall|t: int| x + 1 <= t < y + 1 implies is_literal(#[trigger] g[t]) by {
                assert(g[(t - 1) + 1] == p[t - 1]);
                assert(is_literal(p[t - 1]));
            }
            if x > 0 {
                assert(g[(x - 1) + 1] == p[x - 1]);
            }
            if y < n {
                assert(g[y + 1] == p[y]);
            }
        }
        assert(g.subrange(x + 1, y + 1) =~= p.subrange(x, y));
    }
}

/// An accepted pattern in parentheses is accepted, and its automaton accepts
/// what the automaton of the pattern without them accepts.
pub proof fn law_group(p: Seq<char>, first: nat, other: nat, s: Seq<char>)
    requires
        syntax_error(p) is None,
    ensures
        syntax_error(grouped(p)) is None,
        built(grouped(p), first).accepts(s) <==> built(p, other).accepts(s),
{
    lemma_grouped_accepted(p);
    lemma_grouped_stands_for(p, s);
    law_accepts_what_pattern_stands_for(grouped(p), first, s);
    law_accepts_what_pattern_stands_for(p, other, s);
}

/// A scan with the marker of one more enclosing group at the bottom of the
/// operator stack, and the automaton of one state with the identifier `first`
/// at the bottom of the operand stack.
pub open spec fn enclosed(st: Scan, first: nat) -> Scan {
    Scan {
        symbols: seq![Symbol::LeftParen] + st.symbols,
        operands: seq![NfaView::single(first)] + st.operands,
        upcoming: st.upcoming,
    }
}

/// Reducing goes on above the first group marker: what lies below it stays.
pub proof fn lemma_enclosed_reduce(st: Scan, first: nat)
    requires
        st.shaped(),
    ensures
        enclosed(st, first).reduce() == enclosed(st.reduce(), first),
    decreases st.symbols.len(),
{
    let big = enclosed(st, first);
    assert(big.symbols.last() == st.symbols.last());
    if st.symbols.last() == Symbol::Or {
        let k = st.operands.len() as int;
        let once = st.reduce_once();
        assert(once.symbols[0] == st.symbols[0]);
        assert(big.reduce_once().symbols =~= enclosed(once, first).symbols);
        assert(big.reduce_once().operands =~= enclosed(once, first).operands);
        lemma_enclosed_reduce(once, first);
    }
}

/// Each character moves the enclosed scan on as it moves the scan itself on.
pub proof fn lemma_enclosed_step(st: Scan, first: nat, c: char, ends: bool)
    requires
        st.shaped(),
        c == ')' ==> groups(st.symbols) >= 2,
    ensures
        enclosed(st, first).step(c, ends) == enclosed(st.step(c, ends), first),
{
    let big = enclosed(st, first);
    if c == '(' || c == '|' {
        let marker = if c == '(' {
            Symbol::LeftParen
        } else {
            Symbol::Or
        };
        assert(big.begin(marker).symbols =~= enclosed(st.begin(marker), first).symbols);
        assert(big.begin(marker).operands =~= enclosed(st.begin(marker), first).operands);
    } else if c == ')' {
        lemma_enclosed_reduce(st, first);
        lemma_reduce_shaped(st);
        lemma_close_shaped(st);
        let r = st.reduce();
        assert(enclosed(r, first).leave().symbols =~= enclosed(r.leave(), first).symbols);
        assert(enclosed(r, first).leave().operands =~= enclosed(r.leave(), first).operands);
    } else {
        assert(big.literal(c, ends).operands =~= enclosed(st.literal(c, ends), first).operands);
    }
}

/// Inside the parentheses the scan is the scan of the pattern alone, begun
/// one identifier later and enclosed.
pub proof fn lemma_grouped_scan(p: Seq<char>, n: int, first: nat)
    requires
        0 <= n <= p.len(),
        syntax_error(p) is None,
    ensures
        scan(grouped(p), n + 1, first) == enclosed(scan(p, n, first + 1), first),
    decreases n,
{
    let g = grouped(p);
    if n == 0 {
        assert(g[0] == '(');
        let opened = Scan::start(first).begin(Symbol::LeftParen);
        assert(scan(g, 0, first) == Scan::start(first));
        assert(opened.symbols =~= enclosed(Scan::start(first + 1), first).symbols);
        assert(opened.operands =~= enclosed(Scan::start(first + 1), first).operands);
    } else {
        lemma_grouped_scan(p, n - 1, first);
        lemma_no_error_at(p, n - 1);
        lemma_scan_shaped(p, n - 1, first + 1);
        assert(g[n] == p[n - 1]);
        assert(g[n + 1] == if n == p.len() {
            ')'
        } else {
            p[n]
        });
        assert(ends_term(g, n) == ends_term(p, n - 1));
        lemma_enclosed_step(scan(p, n - 1, first + 1), first, p[n - 1], ends_term(p, n - 1));
    }
}

/// The automaton of an accepted pattern in parentheses is the automaton of
/// the pattern without them, built one identifier later: the group takes the
/// first identifier for the operand that its value displaces.
pub proof fn law_group_is_inner(p: Seq<char>, first: nat)
    requires
        syntax_error(p) is None,
    ensures
        syntax_error(grouped(p)) is None,
        built(grouped(p), first) == built(p, first + 1),
        end_upcoming(grouped(p), first) == end_upcoming(p, first + 1),
{
    let g = grouped(p);
    let n = p.len() as int;
    lemma_grouped_accepted(p);
    lemma_grouped_scan(p, n, first);
    let inner = scan(p, n, first + 1);
    lemma_scan_shaped(p, n, first + 1);
    lemma_enclosed_reduce(inner, first);
    lemma_one_operand_left(p, first + 1);
    let end = finished(p, first + 1);
    assert(g[n + 1] == ')');
    let left = enclosed(end, first).leave();
    assert(scan(g, n + 2, first) == left);
    assert(left.symbols =~= seq![Symbol::LeftParen]);
    assert(left.operands =~= seq![end.operands[0]]);
    assert(left.reduce() == left);
}

} // verus!
