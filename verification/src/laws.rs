//! What holds of every automaton that is built from an accepted pattern.

use vstd::prelude::*;
use crate::pattern::{stands_for, syntax_error};
use crate::scan::{
    built, end_upcoming, finished, lemma_one_operand_left, lemma_reduce_upcoming, scan,
};
use crate::soundness::{lemma_reduce_accepts, lemma_reduce_consistent, lemma_scan_sound};

verus! {

/// The automaton of an accepted pattern keeps the invariant of automata: its
/// identifiers are pairwise distinct, its initial state is one of its states,
/// and every transition leads to one of its states. Its identifiers are among
/// those that the build took.
pub proof fn law_built_well_formed(p: Seq<char>, first: nat)
    requires
        syntax_error(p) is None,
    ensures
        built(p, first).wf(),
        built(p, first).ids_within(first, end_upcoming(p, first)),
        first < end_upcoming(p, first),
{
    let st = scan(p, p.len() as int, first);
    lemma_scan_sound(p, p.len() as int, first);
    lemma_reduce_consistent(st, first);
    lemma_reduce_upcoming(st);
    lemma_one_operand_left(p, first);
    assert(finished(p, first).operands[0] == built(p, first));
}

/// Every state of the automaton of an accepted pattern can be reached from
/// its initial state.
pub proof fn law_every_state_reachable(p: Seq<char>, first: nat)
    requires
        syntax_error(p) is None,
    ensures
        built(p, first).all_reachable(),
{
    let st = scan(p, p.len() as int, first);
    lemma_scan_sound(p, p.len() as int, first);
    lemma_reduce_consistent(st, first);
    lemma_one_operand_left(p, first);
    assert(finished(p, first).operands[0] == built(p, first));
}

/// Every accepting state of the automaton of an accepted pattern can be
/// reached from its initial state.
pub proof fn law_accepting_states_reachable(p: Seq<char>, first: nat, i: int)
    requires
        syntax_error(p) is None,
        0 <= i < built(p, first).states.len(),
        built(p, first).states[i].accepting,
    ensures
        built(p, first).reachable(built(p, first).states[i].id),
{
    law_every_state_reachable(p, first);
}

/// The automaton of an accepted pattern accepts exactly the words that the
/// pattern stands for: its runs of literal symbols.
pub proof fn law_accepts_what_pattern_stands_for(p: Seq<char>, first: nat, s: Seq<char>)
    requires
        syntax_error(p) is None,
    ensures
        built(p, first).accepts(s) <==> stands_for(p, s),
{
    let st = scan(p, p.len() as int, first);
    let end = finished(p, first);
    lemma_scan_sound(p, p.len() as int, first);
    lemma_reduce_accepts(st, first, s);
    lemma_one_operand_left(p, first);
    assert(end.operands[0] == built(p, first));
    assert(st.accepts(s) <==> stands_for(p, s));
    if end.accepts(s) {
        let j = choose|j: int| 0 <= j < end.operands.len() && (#[trigger] end.operands[j]).accepts(s);
        assert(j == 0);
    }
    if built(p, first).accepts(s) {
        assert(end.operands[0].accepts(s));
    }
}

/// Two patterns built one after the other from the same allocator share no
/// identifier, and every identifier of the second automaton is greater than
/// every identifier of the first.
pub proof fn law_later_build_has_greater_ids(p: Seq<char>, q: Seq<char>, first: nat)
    requires
        syntax_error(p) is None,
        syntax_error(q) is None,
    ensures
        built(p, first).disjoint(built(q, end_upcoming(p, first))),
        forall|i: int, j: int|
            0 <= i < built(p, first).states.len() && 0 <= j < built(
                q,
                end_upcoming(p, first),
            ).states.len() ==> (#[trigger] built(p, first).states[i]).id < (#[trigger] built(
                q,
                end_upcoming(p, first),
            ).states[j]).id,
{
    law_built_well_formed(p, first);
    law_built_well_formed(q, end_upcoming(p, first));
}

} // verus!
