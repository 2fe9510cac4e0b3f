//! How many identifiers a build takes.

use vstd::prelude::*;
use crate::pattern::{first_error, syntax_error};
use crate::scan::{
    end_upcoming, finished, lemma_one_operand_left, lemma_reduce_shaped, lemma_scan_shaped, scan,
    Scan, Symbol,
};

verus! {

/// The identifiers that one character takes: one for the fresh automaton of a
/// `(`; two for a `|`, one for its fresh automaton and one for the state that
/// later merges the alternatives; two for a literal symbol; none for a `)`.
pub open spec fn ids_for(c: char) -> nat {
    if c == '(' {
        1
    } else if c == ')' {
        0
    } else {
        2
    }
}

/// The identifiers that the first `n` characters take, with the one of the
/// automaton that every build starts with.
pub open spec fn ids_used(p: Seq<char>, n: int) -> nat
    decreases n,
{
    if n <= 0 {
        1
    } else {
        ids_used(p, n - 1) + ids_for(p[n - 1])
    }
}

/// The identifiers that building the pattern takes.
pub open spec fn ids_needed(p: Seq<char>) -> nat {
    ids_used(p, p.len() as int)
}

/// How many alternation markers the operator stack holds.
pub open spec fn pending(symbols: Seq<Symbol>) -> nat
    decreases symbols.len(),
{
    if symbols.len() == 0 {
        0
    } else {
        pending(symbols.drop_last()) + if symbols.last() == Symbol::Or {
            1nat
        } else {
            0nat
        }
    }
}

/// Pushing a marker counts it, if it is an alternation marker.
pub proof fn lemma_pending_push(symbols: Seq<Symbol>, marker: Symbol)
    ensures
        pending(symbols.push(marker)) == pending(symbols) + if marker == Symbol::Or {
            1nat
        } else {
            0nat
        },
{
    assert(symbols.push(marker).drop_last() =~= symbols);
}

/// Each reduction takes one identifier and one alternation marker.
pub proof fn lemma_reduce_pending(st: Scan)
    ensures
        st.reduce().upcoming + pending(st.reduce().symbols) == st.upcoming + pending(st.symbols),
    decreases st.symbols.len(),
{
    if st.symbols.len() > 0 && st.symbols.last() == Symbol::Or {
        lemma_reduce_pending(st.reduce_once());
    }
}

/// After a prefix without an offending character, the identifiers taken so
/// far and those that the waiting alternations will still take add up to what
/// the characters of the prefix take.
pub proof fn lemma_scan_ids(p: Seq<char>, n: int, first: nat)
    requires
        0 <= n <= p.len(),
        first_error(p, n) is None,
    ensures
        scan(p, n, first).upcoming + pending(scan(p, n, first).symbols) == first + ids_used(p, n),
    decreases n,
{
    if n <= 0 {
        let st = Scan::start(first);
        assert(st.symbols.drop_last() =~= Seq::<Symbol>::empty());
        assert(pending(st.symbols.drop_last()) == 0);
    } else {
        lemma_scan_ids(p, n - 1, first);
        lemma_scan_shaped(p, n - 1, first);
        let st = scan(p, n - 1, first);
        let c = p[n - 1];
        if c == '(' {
            lemma_pending_push(st.symbols, Symbol::LeftParen);
        } else if c == '|' {
            lemma_pending_push(st.symbols, Symbol::Or);
        } else if c == ')' {
            lemma_reduce_pending(st);
            lemma_reduce_shaped(st);
        } else {
        }
    }
}

/// Building an accepted pattern takes one identifier for the automaton it
/// starts with, one for each `(`, and two for each `|` and each literal symbol.
pub proof fn law_identifiers_taken(p: Seq<char>, first: nat)
    requires
        syntax_error(p) is None,
    ensures
        end_upcoming(p, first) == first + ids_needed(p),
{
    let n = p.len() as int;
    let st = scan(p, n, first);
    lemma_scan_ids(p, n, first);
    lemma_reduce_pending(st);
    lemma_one_operand_left(p, first);
    let symbols = finished(p, first).symbols;
    assert(symbols.drop_last() =~= Seq::<Symbol>::empty());
    assert(pending(symbols.drop_last()) == 0);
}

/// Longer prefixes take no fewer identifiers.
pub proof fn lemma_ids_used_grows(p: Seq<char>, n: int, m: int)
    requires
        n <= m,
    ensures
        ids_used(p, n) <= ids_used(p, m),
    decreases m - n,
{
    if n < m {
        lemma_ids_used_grows(p, n, m - 1);
    }
}

/// Counts the identifiers that building the pattern takes; nothing, if they
/// are more than there are machine integers.
pub fn count_ids(p: &Vec<char>) -> (r: Option<usize>)
    ensures
        ids_needed(p@) <= usize::MAX ==> r == Some(ids_needed(p@) as usize),
        ids_needed(p@) > usize::MAX ==> r is None,
{
    let n = p.len();
    let mut total: usize = 1;
    let mut i: usize = 0;
    while i < n
        invariant
            n == p@.len(),
            i <= n,
            total == ids_used(p@, i as int),
        decreases n - i,
    {
        let c = p[i];
        let step: usize = if c == '(' {
            1
        } else if c == ')' {
            0
        } else {
            2
        };
        match total.checked_add(step) {
            Some(sum) => {
                total = sum;
            },
            None => {
                proof {
                    lemma_ids_used_grows(p@, i as int + 1, n as int);
                }
                return None;
            },
        }
        i += 1;
    }
    Some(total)
}

} // verus!
