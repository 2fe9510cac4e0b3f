//! The automaton of a run of literal symbols: a chain of states, two for
//! each symbol behind the initial state.

use vstd::prelude::*;
use crate::nfa::{NfaView, StateView, Transition};

verus! {

/// The label of the one transition that leaves position `j` of the chain:
/// epsilon at an even position, the next symbol at an odd one.
pub open spec fn chain_label(w: Seq<char>, j: int) -> Transition {
    if j % 2 == 0 {
        Transition::Epsilon
    } else {
        Transition::Char(w[j / 2])
    }
}

/// The transitions of the state at position `j` of the chain for `w` whose
/// first identifier is `first`: one to the next state, none from the last state.
pub open spec fn chain_edges(w: Seq<char>, first: nat, j: int) -> Seq<(Transition, nat)> {
    if j >= 2 * w.len() {
        Seq::empty()
    } else {
        Seq::empty().push((chain_label(w, j), (first + j + 1) as nat))
    }
}

/// The state at position `j` of the chain. Only the state behind the last
/// symbol can be accepting, and it is if `done` says so.
pub open spec fn chain_state(w: Seq<char>, first: nat, done: bool, j: int) -> StateView {
    StateView {
        id: (first + j) as nat,
        transitions: chain_edges(w, first, j),
        accepting: done && j > 0 && j == 2 * w.len(),
    }
}

/// The chain for the symbols `w`, with consecutive identifiers from `first` on.
pub open spec fn chain(w: Seq<char>, first: nat, done: bool) -> NfaView {
    NfaView {
        states: Seq::new((2 * w.len() + 1) as nat, |j: int| chain_state(w, first, done, j)),
        initial: first,
    }
}

/// The chain for no symbol is the automaton of one state.
pub proof fn lemma_chain_empty(first: nat, done: bool)
    ensures
        chain(Seq::empty(), first, done) == NfaView::single(first),
{
    assert(chain(Seq::empty(), first, done).states =~~= NfaView::single(first).states);
}

/// Extending the unfinished chain for `w` by the symbol `c` gives the chain
/// for `w` followed by `c`.
pub proof fn lemma_chain_extend(w: Seq<char>, first: nat, c: char, done: bool)
    ensures
        chain(w, first, false).with_literal(c, first + 2 * w.len() + 1, done) == chain(
            w.push(c),
            first,
            done,
        ),
{
    let old_chain = chain(w, first, false);
    let longer = old_chain.with_literal(c, first + 2 * w.len() + 1, done);
    let goal = chain(w.push(c), first, done);
    assert(longer.states.len() == goal.states.len());
    assert forall|j: int| 0 <= j < goal.states.len() implies longer.states[j] == goal.states[j] by {
        assert(longer.states[j].transitions =~= goal.states[j].transitions);
    }
    assert(longer.states =~= goal.states);
}

/// From each state of the chain but the last, exactly one transition leaves:
/// to the next state.
pub proof fn lemma_chain_edge(
    w: Seq<char>,
    first: nat,
    done: bool,
    j: int,
    label: Transition,
    to: nat,
)
    requires
        0 <= j <= 2 * w.len(),
    ensures
        chain(w, first, done).has_edge((first + j) as nat, label, to) <==> j < 2 * w.len() && to
            == first + j + 1 && label == chain_label(w, j),
{
    let x = chain(w, first, done);
    let from = (first + j) as nat;
    if x.has_edge(from, label, to) {
        let (i, k) = choose|i: int, k: int| #[trigger] x.edge_at(i, k, from, label, to);
        assert(i == j);
    }
    if j < 2 * w.len() && to == first + j + 1 && label == chain_label(w, j) {
        assert(x.edge_at(j, 0, from, label, to));
    }
}

/// A run of the chain moves on by one position with each move and reads the
/// symbols that lie between its two ends.
pub proof fn lemma_chain_run(
    w: Seq<char>,
    first: nat,
    done: bool,
    j: int,
    s: Seq<char>,
    to: nat,
    n: nat,
)
    requires
        0 <= j <= 2 * w.len(),
        chain(w, first, done).reaches((first + j) as nat, s, to, n),
    ensures
        j + n <= 2 * w.len(),
        to == first + j + n,
        s == w.subrange(j / 2, (j + n) / 2),
    decreases n,
{
    let x = chain(w, first, done);
    let from = (first + j) as nat;
    if n == 0 {
        assert(s =~= w.subrange(j / 2, (j + n) / 2));
    } else {
        let (mid, rest) = choose|mid: nat, rest: Seq<char>|
            #[trigger] x.moves(from, s, mid, rest) && x.reaches(mid, rest, to, (n - 1) as nat);
        lemma_chain_edge(w, first, done, j, Transition::Epsilon, mid);
        if s.len() > 0 {
            lemma_chain_edge(w, first, done, j, Transition::Char(s[0]), mid);
        }
        assert(mid == first + j + 1);
        lemma_chain_run(w, first, done, j + 1, rest, to, (n - 1) as nat);
        if j % 2 == 0 {
            assert(rest == s);
        } else {
            assert(s[0] == w[j / 2]);
            assert(s =~= seq![s[0]] + s.drop_first());
            assert(s =~= w.subrange(j / 2, (j + n) / 2));
        }
    }
}

/// From each position of the chain a run leads to each later position.
pub proof fn lemma_chain_reach(w: Seq<char>, first: nat, done: bool, i: int, j: int)
    requires
        0 <= i <= j <= 2 * w.len(),
    ensures
        chain(w, first, done).reaches(
            (first + i) as nat,
            w.subrange(i / 2, j / 2),
            (first + j) as nat,
            (j - i) as nat,
        ),
    decreases j - i,
{
    let x = chain(w, first, done);
    let from = (first + i) as nat;
    let s = w.subrange(i / 2, j / 2);
    if i < j {
        let mid = (first + i + 1) as nat;
        lemma_chain_reach(w, first, done, i + 1, j);
        lemma_chain_edge(w, first, done, i, chain_label(w, i), mid);
        let rest = w.subrange((i + 1) / 2, j / 2);
        if i % 2 == 0 {
            assert(rest =~= s);
            assert(x.moves(from, s, mid, rest));
        } else {
            assert(s.len() > 0);
            assert(s[0] == w[i / 2]);
            assert(rest =~= s.drop_first());
            assert(x.moves(from, s, mid, s.drop_first()));
        }
    }
}

/// Each transition of the chain leads to the state at the next position.
pub proof fn lemma_chain_target(w: Seq<char>, first: nat, j: int, k: int)
    requires
        0 <= j,
        0 <= k < chain_edges(w, first, j).len(),
    ensures
        j < 2 * w.len(),
        chain_edges(w, first, j)[k].1 == first + j + 1,
{
}

/// The chain keeps the invariant, its identifiers are the `2 * |w| + 1`
/// consecutive ones from `first` on, and each of its states can be reached.
pub proof fn lemma_chain_wf(w: Seq<char>, first: nat, done: bool)
    ensures
        chain(w, first, done).wf(),
        chain(w, first, done).ids_within(first, first + 2 * w.len() + 1),
        chain(w, first, done).all_reachable(),
{
    let x = chain(w, first, done);
    assert(x.states[0].id == first);
    assert forall|i: int, k: int|
        0 <= i < x.states.len() && 0 <= k < x.states[i].transitions.len() implies x.has_id(
        (#[trigger] x.states[i].transitions[k]).1,
    ) by {
        lemma_chain_target(w, first, i, k);
        assert(x.states[i + 1].id == first + i + 1);
    }
    assert forall|j: int| 0 <= j < x.states.len() implies x.reachable(
        (#[trigger] x.states[j]).id,
    ) by {
        lemma_chain_reach(w, first, done, 0, j);
        assert(x.reaches(x.initial, w.subrange(0, j / 2), x.states[j].id, j as nat));
    }
}

/// A finished chain for one symbol or more accepts its symbols and nothing
/// else; an unfinished chain accepts nothing.
pub proof fn lemma_chain_accepts(w: Seq<char>, first: nat, done: bool, s: Seq<char>)
    ensures
        chain(w, first, done).accepts(s) <==> done && w.len() > 0 && s == w,
{
    let x = chain(w, first, done);
    let last = 2 * w.len() as int;
    if x.accepts(s) {
        let (to, n) = choose|to: nat, n: nat|
            #[trigger] x.reaches(x.initial, s, to, n) && x.is_accepting(to);
        lemma_chain_run(w, first, done, 0, s, to, n);
        let i = choose|i: int| #[trigger] x.accepting_at(i, to);
        assert(i == n);
        assert(s =~= w);
    }
    if done && w.len() > 0 && s == w {
        lemma_chain_reach(w, first, done, 0, last);
        assert(w.subrange(0, last / 2) =~= w);
        assert(x.accepting_at(last, (first + last) as nat));
        assert(x.reaches(x.initial, s, (first + last) as nat, last as nat));
    }
}

} // verus!
