//! What an automaton accepts: runs along its transitions, from the initial
//! state to an accepting state.

use vstd::prelude::*;
use crate::nfa::{NfaView, Transition};

verus! {

impl NfaView {
    /// Transition number `k` of the state at position `i` leads from the state
    /// with identifier `from` to the one with identifier `to` and has the label
    /// `label`.
    pub open spec fn edge_at(self, i: int, k: int, from: nat, label: Transition, to: nat) -> bool {
        &&& 0 <= i < self.states.len()
        &&& 0 <= k < self.states[i].transitions.len()
        &&& self.states[i].id == from
        &&& self.states[i].transitions[k] == (label, to)
    }

    /// Some transition with this label leads from `from` to `to`.
    pub open spec fn has_edge(self, from: nat, label: Transition, to: nat) -> bool {
        exists|i: int, k: int| #[trigger] self.edge_at(i, k, from, label, to)
    }

    /// The state at position `i` has the identifier `id` and is accepting.
    pub open spec fn accepting_at(self, i: int, id: nat) -> bool {
        &&& 0 <= i < self.states.len()
        &&& self.states[i].id == id
        &&& self.states[i].accepting
    }

    /// Some state with this identifier is accepting.
    pub open spec fn is_accepting(self, id: nat) -> bool {
        exists|i: int| #[trigger] self.accepting_at(i, id)
    }

    /// One move from `from` to `to`: along an epsilon transition, with the
    /// whole input `s` still to read, or along a transition on the first symbol
    /// of `s`, with the symbols behind it still to read.
    pub open spec fn moves(self, from: nat, s: Seq<char>, to: nat, rest: Seq<char>) -> bool {
        ||| self.has_edge(from, Transition::Epsilon, to) && rest == s
        ||| s.len() > 0 && self.has_edge(from, Transition::Char(s[0]), to) && rest
            == s.drop_first()
    }

    /// A run of `n` moves leads from `from` to `to` and reads exactly `s`.
    pub open spec fn reaches(self, from: nat, s: Seq<char>, to: nat, n: nat) -> bool
        decreases n,
    {
        if n == 0 {
            from == to && s.len() == 0
        } else {
            exists|mid: nat, rest: Seq<char>|
                #[trigger] self.moves(from, s, mid, rest) && self.reaches(
                    mid,
                    rest,
                    to,
                    (n - 1) as nat,
                )
        }
    }

    /// The automaton accepts `s`: some run from the initial state reads
    /// exactly `s` and ends in an accepting state.
    pub open spec fn accepts(self, s: Seq<char>) -> bool {
        exists|to: nat, n: nat| #[trigger] self.reaches(self.initial, s, to, n) && self.is_accepting(to)
    }

    /// Some run leads from the initial state to the state with this identifier.
    pub open spec fn reachable(self, id: nat) -> bool {
        exists|s: Seq<char>, n: nat| #[trigger] self.reaches(self.initial, s, id, n)
    }

    /// Every state can be reached from the initial state.
    pub open spec fn all_reachable(self) -> bool {
        forall|i: int| 0 <= i < self.states.len() ==> self.reachable((#[trigger] self.states[i]).id)
    }

    /// The states of this automaton stand unchanged in `big`, from position
    /// `at` on.
    pub open spec fn sits_in(self, big: NfaView, at: int) -> bool {
        &&& 0 <= at
        &&& at + self.states.len() <= big.states.len()
        &&& forall|i: int|
            0 <= i < self.states.len() ==> big.states[at + i] == #[trigger] self.states[i]
    }
}

/// Where an automaton stands unchanged inside a larger one whose identifiers
/// are distinct, its states have the same outgoing transitions in both.
pub proof fn lemma_inner_edges(
    x: NfaView,
    big: NfaView,
    at: int,
    from: nat,
    label: Transition,
    to: nat,
)
    requires
        x.sits_in(big, at),
        big.distinct_ids(),
        x.has_id(from),
    ensures
        big.has_edge(from, label, to) <==> x.has_edge(from, label, to),
{
    if x.has_edge(from, label, to) {
        let (i, k) = choose|i: int, k: int| #[trigger] x.edge_at(i, k, from, label, to);
        assert(big.states[at + i] == x.states[i]);
        assert(big.edge_at(at + i, k, from, label, to));
    }
    if big.has_edge(from, label, to) {
        let (j, k) = choose|j: int, k: int| #[trigger] big.edge_at(j, k, from, label, to);
        let i = choose|i: int| 0 <= i < x.states.len() && (#[trigger] x.states[i]).id == from;
        assert(big.states[at + i] == x.states[i]);
        assert(j == at + i);
        assert(x.edge_at(i, k, from, label, to));
    }
}

/// A transition of a closed automaton ends at one of its states.
pub proof fn lemma_edge_stays(x: NfaView, from: nat, label: Transition, to: nat)
    requires
        x.closed(),
        x.has_edge(from, label, to),
    ensures
        x.has_id(from),
        x.has_id(to),
{
    let (i, k) = choose|i: int, k: int| #[trigger] x.edge_at(i, k, from, label, to);
    assert(x.has_id(x.states[i].transitions[k].1));
}

/// A run of a closed automaton ends at one of its states.
pub proof fn lemma_run_stays(x: NfaView, from: nat, s: Seq<char>, to: nat, n: nat)
    requires
        x.closed(),
        x.has_id(from),
        x.reaches(from, s, to, n),
    ensures
        x.has_id(to),
    decreases n,
{
    if n > 0 {
        let (mid, rest) = choose|mid: nat, rest: Seq<char>|
            #[trigger] x.moves(from, s, mid, rest) && x.reaches(mid, rest, to, (n - 1) as nat);
        if x.has_edge(from, Transition::Epsilon, mid) {
            lemma_edge_stays(x, from, Transition::Epsilon, mid);
        } else {
            lemma_edge_stays(x, from, Transition::Char(s[0]), mid);
        }
        lemma_run_stays(x, mid, rest, to, (n - 1) as nat);
    }
}

/// Where a closed automaton stands unchanged inside a larger one whose
/// identifiers are distinct, the runs that start at one of its states are the
/// same in both.
pub proof fn lemma_inner_runs(
    x: NfaView,
    big: NfaView,
    at: int,
    from: nat,
    s: Seq<char>,
    to: nat,
    n: nat,
)
    requires
        x.sits_in(big, at),
        big.distinct_ids(),
        x.closed(),
        x.has_id(from),
    ensures
        big.reaches(from, s, to, n) <==> x.reaches(from, s, to, n),
    decreases n,
{
    if n > 0 {
        if big.reaches(from, s, to, n) {
            let (mid, rest) = choose|mid: nat, rest: Seq<char>|
                #[trigger] big.moves(from, s, mid, rest) && big.reaches(
                    mid,
                    rest,
                    to,
                    (n - 1) as nat,
                );
            lemma_inner_edges(x, big, at, from, Transition::Epsilon, mid);
            if s.len() > 0 {
                lemma_inner_edges(x, big, at, from, Transition::Char(s[0]), mid);
            }
            assert(x.moves(from, s, mid, rest));
            if x.has_edge(from, Transition::Epsilon, mid) {
                lemma_edge_stays(x, from, Transition::Epsilon, mid);
            } else {
                lemma_edge_stays(x, from, Transition::Char(s[0]), mid);
            }
            lemma_inner_runs(x, big, at, mid, rest, to, (n - 1) as nat);
        }
        if x.reaches(from, s, to, n) {
            let (mid, rest) = choose|mid: nat, rest: Seq<char>|
                #[trigger] x.moves(from, s, mid, rest) && x.reaches(mid, rest, to, (n - 1) as nat);
            lemma_inner_edges(x, big, at, from, Transition::Epsilon, mid);
            if s.len() > 0 {
                lemma_inner_edges(x, big, at, from, Transition::Char(s[0]), mid);
            }
            assert(big.moves(from, s, mid, rest));
            if x.has_edge(from, Transition::Epsilon, mid) {
                lemma_edge_stays(x, from, Transition::Epsilon, mid);
            } else {
                lemma_edge_stays(x, from, Transition::Char(s[0]), mid);
            }
            lemma_inner_runs(x, big, at, mid, rest, to, (n - 1) as nat);
        }
    }
}

/// Where an automaton stands unchanged inside a larger one whose identifiers
/// are distinct, its states are accepting in both or in neither.
pub proof fn lemma_inner_accepting(x: NfaView, big: NfaView, at: int, id: nat)
    requires
        x.sits_in(big, at),
        big.distinct_ids(),
        x.has_id(id),
    ensures
        big.is_accepting(id) <==> x.is_accepting(id),
{
    let i = choose|i: int| 0 <= i < x.states.len() && (#[trigger] x.states[i]).id == id;
    assert(big.states[at + i] == x.states[i]);
    if x.is_accepting(id) {
        let i2 = choose|i2: int| #[trigger] x.accepting_at(i2, id);
        assert(big.states[at + i2] == x.states[i2]);
        assert(big.accepting_at(at + i2, id));
    }
    if big.is_accepting(id) {
        let j = choose|j: int| #[trigger] big.accepting_at(j, id);
        assert(j == at + i);
        assert(x.accepting_at(i, id));
    }
}

/// An automaton without an accepting state accepts nothing.
pub proof fn lemma_no_accepting_state(x: NfaView, s: Seq<char>)
    requires
        forall|i: int| 0 <= i < x.states.len() ==> !(#[trigger] x.states[i]).accepting,
    ensures
        !x.accepts(s),
{
    if x.accepts(s) {
        let (to, n) = choose|to: nat, n: nat|
            #[trigger] x.reaches(x.initial, s, to, n) && x.is_accepting(to);
        let i = choose|i: int| #[trigger] x.accepting_at(i, to);
        assert(x.states[i].accepting);
    }
}

} // verus!
