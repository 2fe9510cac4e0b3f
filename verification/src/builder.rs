//! Building an automaton from a pattern: the scan with two stacks.

use vstd::prelude::*;
use crate::counting::{count_ids, ids_needed, law_identifiers_taken};
use crate::error::BuildError;
use crate::ids::IDAllocator;
use crate::laws::{
    law_accepts_what_pattern_stands_for, law_built_well_formed, law_every_state_reachable,
};
use crate::nfa::{NfaView, Transition, NFA};
use crate::pattern::{
    check_pattern, lemma_no_error_at, open_groups, pattern_chars, stands_for, syntax_error,
};
use crate::scan::{
    built, end_upcoming, ends_term, lemma_close_shaped, lemma_reduce_shaped,
    lemma_reduce_upcoming, lemma_scan_shaped, lemma_scan_upcoming, scan, Scan, Symbol,
};
use crate::token::Token;

verus! {

/// The operand stack as a sequence of mathematical automata.
pub open spec fn operand_views(operands: Seq<NFA>) -> Seq<NfaView> {
    Seq::new(operands.len(), |k: int| operands[k]@)
}

/// The two stacks and the allocator, read as a state of the scan.
pub open spec fn scan_of(symbols: Seq<Symbol>, operands: Seq<NFA>, ids: IDAllocator) -> Scan {
    Scan { symbols, operands: operand_views(operands), upcoming: ids.upcoming() }
}

/// Extends `nfa` by the literal symbol `c`: two new states, an epsilon
/// transition from the state that was last to the first of them, and a
/// transition on `c` between them. Fails when `ids` has fewer than two
/// identifiers left.
fn push_literal(nfa: &mut NFA, c: char, accepting: bool, ids: &mut IDAllocator) -> (r: Result<
    (),
    BuildError,
>)
    requires
        old(nfa)@.states.len() >= 1,
    ensures
        old(ids).remaining() >= 2 ==> r is Ok && final(nfa)@ == old(nfa)@.with_literal(
            c,
            old(ids).upcoming(),
            accepting,
        ) && final(ids).upcoming() == old(ids).upcoming() + 2,
        old(ids).remaining() < 2 ==> r == Err::<(), BuildError>(BuildError::AllocatorExhausted)
            && old(ids).upcoming() <= final(ids).upcoming(),
{
    let n = nfa.states().len();
    let state1 = match nfa.add_state(ids, false) {
        Ok(id) => id,
        Err(e) => {
            return Err(e);
        },
    };
    let state2 = match nfa.add_state(ids, accepting) {
        Ok(id) => id,
        Err(e) => {
            return Err(e);
        },
    };
    nfa.add_transition(n - 1, Transition::Epsilon, state1);
    nfa.add_transition(n, Transition::Char(c), state2);
    Ok(())
}

/// Reduces for as long as an alternation marker is on top of the operator
/// stack: the marker and the two operands on top go, and the upper operand
/// merged with the lower one is pushed. Fails when `ids` runs out on the way.
fn reduce_stacks(symbols: &mut Vec<Symbol>, operands: &mut Vec<NFA>, ids: &mut IDAllocator) -> (r:
    Result<(), BuildError>)
    requires
        scan_of(old(symbols)@, old(operands)@, *old(ids)).shaped(),
    ensures
        scan_of(old(symbols)@, old(operands)@, *old(ids)).reduce().upcoming <= usize::MAX ==> r is Ok
            && scan_of(final(symbols)@, final(operands)@, *final(ids)) == scan_of(
            old(symbols)@,
            old(operands)@,
            *old(ids),
        ).reduce(),
        scan_of(old(symbols)@, old(operands)@, *old(ids)).reduce().upcoming > usize::MAX ==> r
            == Err::<(), BuildError>(BuildError::AllocatorExhausted) && old(ids).upcoming()
            <= final(ids).upcoming(),
{
    let ghost goal = scan_of(symbols@, operands@, *ids).reduce();
    loop
        invariant
            scan_of(symbols@, operands@, *ids).shaped(),
            scan_of(symbols@, operands@, *ids).reduce() == goal,
            goal == scan_of(old(symbols)@, old(operands)@, *old(ids)).reduce(),
            old(ids).upcoming() <= ids.upcoming(),
        decreases symbols@.len(),
    {
        let ghost st = scan_of(symbols@, operands@, *ids);
        proof {
            ids.lemma_upcoming_bounded();
            lemma_reduce_upcoming(st);
        }
        let k = symbols.len();
        match symbols[k - 1] {
            Symbol::LeftParen => {
                return Ok(());
            },
            Symbol::Or => {},
        }
        proof {
            lemma_reduce_upcoming(st.reduce_once());
        }
        symbols.pop();
        let mut upper = operands.pop().unwrap();
        let lower = operands.pop().unwrap();
        match upper.merge_other(lower, ids) {
            Ok(()) => {},
            Err(e) => {
                return Err(e);
            },
        }
        operands.push(upper);
        proof {
            let now = scan_of(symbols@, operands@, *ids);
            assert(now.operands =~= st.reduce_once().operands);
            assert(now.symbols =~= st.reduce_once().symbols);
            assert(now.symbols[0] == st.symbols[0]);
        }
    }
}

impl NFA {
    /// Builds the automaton of the pattern `p`, taking the identifiers of its
    /// states from `ids`.
    ///
    /// The pattern is scanned from left to right inside one enclosing group.
    /// A `(` and a `|` each push a marker and a fresh automaton. A literal
    /// symbol extends the automaton on top by two states; the second is
    /// accepting if the symbol is the last of its alternative. A `)` merges the
    /// alternatives of its group into one automaton, which takes the place of
    /// the fresh automaton that was on top when the group was opened. At the
    /// end the alternatives of the enclosing group are merged, and the one
    /// automaton that is left is the result.
    ///
    /// A pattern with a syntax error is rejected with that error; positions
    /// count the characters of `p` from zero. Otherwise the build fails only when
    /// `ids` cannot supply every state. No failure takes an identifier.
    pub fn new_from_pattern(p: &Vec<char>, ids: &mut IDAllocator) -> (r: Result<NFA, BuildError>)
        ensures
            syntax_error(p@) is Some ==> r == Err::<NFA, BuildError>(syntax_error(p@)->Some_0),
            syntax_error(p@) is None && ids_needed(p@) > old(ids).remaining() ==> r == Err::<
                NFA,
                BuildError,
            >(BuildError::AllocatorExhausted),
            syntax_error(p@) is None && ids_needed(p@) <= old(ids).remaining() ==> r is Ok,
            r is Err ==> final(ids).upcoming() == old(ids).upcoming(),
            r is Ok ==> r->Ok_0@ == built(p@, old(ids).upcoming()),
            r is Ok ==> final(ids).upcoming() == old(ids).upcoming() + ids_needed(p@),
            r is Ok ==> r->Ok_0.wf() && r->Ok_0@.all_reachable(),
            r is Ok ==> r->Ok_0@.ids_within(old(ids).upcoming(), final(ids).upcoming()),
            r is Ok ==> forall|s: Seq<char>| #[trigger] r->Ok_0@.accepts(s) <==> stands_for(p@, s),
    {
        proof {
            ids.lemma_upcoming_bounded();
            if syntax_error(p@) is None {
                law_identifiers_taken(p@, ids.upcoming());
                law_built_well_formed(p@, ids.upcoming());
                law_every_state_reachable(p@, ids.upcoming());
                assert forall|s: Seq<char>| #[trigger]
                    built(p@, ids.upcoming()).accepts(s) <==> stands_for(p@, s) by {
                    law_accepts_what_pattern_stands_for(p@, ids.upcoming(), s);
                }
            }
        }
        match check_pattern(p) {
            Ok(()) => {},
            Err(e) => {
                return Err(e);
            },
        }
        match count_ids(p) {
            Some(needed) => {
                if needed > usize::MAX - ids.peek() {
                    return Err(BuildError::AllocatorExhausted);
                }
            },
            None => {
                return Err(BuildError::AllocatorExhausted);
            },
        }
        let n = p.len();
        let ghost first = ids.upcoming();
        proof {
            lemma_scan_upcoming(p@, 0, n as int, first);
            lemma_reduce_upcoming(scan(p@, n as int, first));
        }
        let mut symbols: Vec<Symbol> = Vec::new();
        let mut operands: Vec<NFA> = Vec::new();
        symbols.push(Symbol::LeftParen);
        match NFA::new(ids) {
            Ok(fresh) => {
                operands.push(fresh);
            },
            Err(e) => {
                return Err(e);
            },
        }
        assert(scan_of(symbols@, operands@, *ids).operands =~= scan(p@, 0, first).operands);
        let mut i: usize = 0;
        while i < n
            invariant
                n == p@.len(),
                i <= n,
                syntax_error(p@) is None,
                first == old(ids).upcoming(),
                end_upcoming(p@, first) == first + ids_needed(p@),
                end_upcoming(p@, first) <= usize::MAX,
                scan_of(symbols@, operands@, *ids) == scan(p@, i as int, first),
            decreases n - i,
        {
            let ghost st = scan(p@, i as int, first);
            proof {
                ids.lemma_upcoming_bounded();
                lemma_no_error_at(p@, i as int);
                lemma_scan_shaped(p@, i as int, first);
                lemma_scan_upcoming(p@, 0, i as int, first);
                lemma_scan_upcoming(p@, i as int + 1, n as int, first);
                lemma_reduce_upcoming(scan(p@, n as int, first));
            }
            let c = p[i];
            if c == '(' || c == '|' {
                symbols.push(if c == '(' {
                    Symbol::LeftParen
                } else {
                    Symbol::Or
                });
                match NFA::new(ids) {
                    Ok(fresh) => {
                        operands.push(fresh);
                    },
                    Err(e) => {
                        return Err(e);
                    },
                }
                assert(scan_of(symbols@, operands@, *ids).operands =~= st.step(
                    c,
                    ends_term(p@, i as int),
                ).operands);
            } else if c == ')' {
                proof {
                    assert(open_groups(p@, i as int).len() > 0);
                    lemma_reduce_shaped(st);
                    lemma_close_shaped(st);
                }
                match reduce_stacks(&mut symbols, &mut operands, ids) {
                    Ok(()) => {},
                    Err(e) => {
                        return Err(e);
                    },
                }
                assert(scan_of(symbols@, operands@, *ids) == st.reduce());
                assert(operand_views(operands@).len() == operands@.len());
                assert(operands@.len() >= 2);
                symbols.pop();
                let group = operands.pop().unwrap();
                operands.pop();
                operands.push(group);
                assert(scan_of(symbols@, operands@, *ids).operands =~= st.close().operands);
                assert(scan_of(symbols@, operands@, *ids).symbols =~= st.close().symbols);
            } else {
                let accepting = i + 1 == n || p[i + 1] == '|' || p[i + 1] == ')';
                let mut top = operands.pop().unwrap();
                match push_literal(&mut top, c, accepting, ids) {
                    Ok(()) => {},
                    Err(e) => {
                        return Err(e);
                    },
                }
                operands.push(top);
                assert(scan_of(symbols@, operands@, *ids).operands =~= st.literal(
                    c,
                    accepting,
                ).operands);
            }
            i += 1;
        }
        proof {
            lemma_scan_shaped(p@, n as int, first);
            lemma_reduce_shaped(scan(p@, n as int, first));
        }
        match reduce_stacks(&mut symbols, &mut operands, ids) {
            Ok(()) => {},
            Err(e) => {
                return Err(e);
            },
        }
        Ok(operands.pop().unwrap())
    }

    /// Builds the automaton of the token's pattern, as `new_from_pattern` does
    /// of its characters.
    pub fn new_from_token(token: &Token, ids: &mut IDAllocator) -> (r: Result<NFA, BuildError>)
        ensures
            syntax_error(token.value@) is Some ==> r == Err::<NFA, BuildError>(
                syntax_error(token.value@)->Some_0,
            ),
            syntax_error(token.value@) is None && ids_needed(token.value@) > old(ids).remaining()
                ==> r == Err::<NFA, BuildError>(BuildError::AllocatorExhausted),
            syntax_error(token.value@) is None && ids_needed(token.value@) <= old(ids).remaining()
                ==> r is Ok,
            r is Err ==> final(ids).upcoming() == old(ids).upcoming(),
            r is Ok ==> r->Ok_0@ == built(token.value@, old(ids).upcoming()),
            r is Ok ==> final(ids).upcoming() == old(ids).upcoming() + ids_needed(token.value@),
            r is Ok ==> r->Ok_0.wf() && r->Ok_0@.all_reachable(),
            r is Ok ==> r->Ok_0@.ids_within(old(ids).upcoming(), final(ids).upcoming()),
            r is Ok ==> forall|s: Seq<char>| #[trigger]
                r->Ok_0@.accepts(s) <==> stands_for(token.value@, s),
    {
        let p = pattern_chars(token.value.as_str());
        NFA::new_from_pattern(&p, ids)
    }
}

} // verus!
