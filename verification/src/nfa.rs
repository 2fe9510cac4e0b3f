//! Automata: states, their outgoing transitions, and the container that owns them.

use vstd::prelude::*;
use crate::composition::{
    law_connect_clears_acceptance, lemma_connect_wf, lemma_merge_wf, lemma_single_wf,
    lemma_with_state_wf, lemma_with_transition_wf,
};
use crate::error::BuildError;
use crate::ids::IDAllocator;

verus! {

/// The label of a transition.
#[derive(Clone, Copy, Debug, PartialEq, Eq, Hash, Structural)]
pub enum Transition {
    /// Taken without reading a symbol.
    Epsilon,
    /// Taken by reading exactly this symbol.
    Char(char),
}

/// What a state holds besides its identifier.
#[derive(Debug)]
pub struct StateInner {
    /// The outgoing transitions, each with the identifier of its target, in the
    /// order in which they were added.
    pub transitions: Vec<(Transition, usize)>,
    /// Whether the state is accepting.
    pub accepting: bool,
}

/// A node of the graph.
#[derive(Debug)]
pub struct State {
    /// The state's identifier.
    pub id: usize,
    /// Its transitions and its flag.
    pub inner: StateInner,
}

/// A state as a mathematical value.
pub struct StateView {
    pub id: nat,
    pub transitions: Seq<(Transition, nat)>,
    pub accepting: bool,
}

/// An automaton as a mathematical value: its states in the order of the
/// collection, and the identifier of the initial state.
pub struct NfaView {
    pub states: Seq<StateView>,
    pub initial: nat,
}

impl StateView {
    /// A state without transitions.
    pub open spec fn bare(id: nat, accepting: bool) -> StateView {
        StateView { id, transitions: Seq::empty(), accepting }
    }

    /// This state with one more transition behind the others.
    pub open spec fn with_transition(self, label: Transition, to: nat) -> StateView {
        StateView { transitions: self.transitions.push((label, to)), ..self }
    }

    /// What sequencing makes of a state of the first automaton: an accepting
    /// state gives up its flag and gains an epsilon transition to `next`.
    pub open spec fn wired_to(self, next: nat) -> StateView {
        if self.accepting {
            StateView {
                id: self.id,
                transitions: self.transitions.push((Transition::Epsilon, next)),
                accepting: false,
            }
        } else {
            self
        }
    }
}

impl StateInner {
    /// The outgoing transitions as a sequence of labels and target identifiers.
    pub open spec fn edges(&self) -> Seq<(Transition, nat)> {
        Seq::new(
            self.transitions@.len(),
            |k: int| (self.transitions@[k].0, self.transitions@[k].1 as nat),
        )
    }

    /// A state body without transitions.
    pub fn new(accepting: bool) -> (inner: Self)
        ensures
            inner.transitions@.len() == 0,
            inner.accepting == accepting,
    {
        StateInner { transitions: Vec::new(), accepting }
    }

    /// Appends a transition with the label `trans` that leads to the state with
    /// the identifier `to`.
    pub fn add_transition(&mut self, trans: Transition, to: usize)
        ensures
            final(self).transitions@ == old(self).transitions@.push((trans, to)),
            final(self).edges() == old(self).edges().push((trans, to as nat)),
            final(self).accepting == old(self).accepting,
    {
        self.transitions.push((trans, to));
        assert(self.edges() =~= old(self).edges().push((trans, to as nat)));
    }
}

impl View for State {
    type V = StateView;

    open spec fn view(&self) -> StateView {
        StateView {
            id: self.id as nat,
            transitions: self.inner.edges(),
            accepting: self.inner.accepting,
        }
    }
}

impl State {
    /// A state without transitions whose identifier is the next one of `ids`.
    /// Fails, leaving `ids` as it is, exactly when `ids` has none left.
    pub fn new(ids: &mut IDAllocator, accepting: bool) -> (r: Result<State, BuildError>)
        ensures
            old(ids).remaining() > 0 ==> r is Ok && r->Ok_0@ == StateView::bare(
                old(ids).upcoming(),
                accepting,
            ) && final(ids).upcoming() == old(ids).upcoming() + 1,
            old(ids).remaining() == 0 ==> r == Err::<State, BuildError>(
                BuildError::AllocatorExhausted,
            ) && final(ids).upcoming() == old(ids).upcoming(),
    {
        match ids.next() {
            Ok(id) => {
                let state = State { id, inner: StateInner::new(accepting) };
                assert(state.inner.edges() =~= Seq::empty());
                Ok(state)
            },
            Err(e) => Err(e),
        }
    }
}

impl NfaView {
    /// Whether some state of the automaton has this identifier.
    pub open spec fn has_id(self, id: nat) -> bool {
        exists|i: int| 0 <= i < self.states.len() && (#[trigger] self.states[i]).id == id
    }

    /// No two states share an identifier.
    pub open spec fn distinct_ids(self) -> bool {
        forall|i: int, j: int|
            0 <= i < j < self.states.len() ==> (#[trigger] self.states[i]).id != (
            #[trigger] self.states[j]).id
    }

    /// Every transition leads to a state of the automaton.
    pub open spec fn closed(self) -> bool {
        forall|i: int, k: int|
            0 <= i < self.states.len() && 0 <= k < self.states[i].transitions.len()
                ==> self.has_id((#[trigger] self.states[i].transitions[k]).1)
    }

    /// The invariant of an automaton: identifiers are pairwise distinct, the
    /// initial state is one of the states, and no transition leaves the collection.
    pub open spec fn wf(self) -> bool {
        &&& self.distinct_ids()
        &&& self.has_id(self.initial)
        &&& self.closed()
    }

    /// Every identifier lies in the range from `low` up to, not including, `high`.
    pub open spec fn ids_within(self, low: nat, high: nat) -> bool {
        forall|i: int|
            0 <= i < self.states.len() ==> low <= (#[trigger] self.states[i]).id < high
    }

    /// The two automata share no identifier.
    pub open spec fn disjoint(self, other: NfaView) -> bool {
        forall|i: int, j: int|
            0 <= i < self.states.len() && 0 <= j < other.states.len() ==> (
            #[trigger] self.states[i]).id != (#[trigger] other.states[j]).id
    }

    /// The automaton of one state, not accepting, without transitions.
    pub open spec fn single(id: nat) -> NfaView {
        NfaView { states: seq![StateView::bare(id, false)], initial: id }
    }

    /// This automaton with one more state, without transitions, behind the others.
    pub open spec fn with_state(self, id: nat, accepting: bool) -> NfaView {
        NfaView { states: self.states.push(StateView::bare(id, accepting)), ..self }
    }

    /// This automaton with one more transition, from the state at position
    /// `from` to the state with identifier `to`.
    pub open spec fn with_transition(self, from: int, label: Transition, to: nat) -> NfaView {
        NfaView {
            states: self.states.update(from, self.states[from].with_transition(label, to)),
            ..self
        }
    }

    /// This automaton extended by one literal symbol: two new states with the
    /// identifiers `id` and `id + 1` behind the others, an epsilon transition
    /// from the state that was last so far to the first of them, and a transition
    /// on `c` from the first to the second, which is accepting as `accepting` says.
    pub open spec fn with_literal(self, c: char, id: nat, accepting: bool) -> NfaView {
        let n = self.states.len() as int;
        self.with_state(id, false).with_state(id + 1, accepting).with_transition(
            n - 1,
            Transition::Epsilon,
            id,
        ).with_transition(n, Transition::Char(c), id + 1)
    }

    /// Sequencing: every accepting state of this automaton gives up its flag and
    /// gains an epsilon transition to the initial state of `other`; the states of
    /// `other` follow behind; the initial state stays.
    pub open spec fn connect(self, other: NfaView) -> NfaView {
        NfaView {
            states: self.states.map_values(|s: StateView| s.wired_to(other.initial))
                + other.states,
            initial: self.initial,
        }
    }

    /// Alternation: a new initial state with identifier `fresh` and epsilon
    /// transitions to both former initial states stands behind the states of
    /// this automaton; the states of `other` follow behind it.
    pub open spec fn merge(self, other: NfaView, fresh: nat) -> NfaView {
        NfaView {
            states: self.states.push(
                StateView::bare(fresh, false).with_transition(
                    Transition::Epsilon,
                    self.initial,
                ).with_transition(Transition::Epsilon, other.initial),
            ) + other.states,
            initial: fresh,
        }
    }
}

/// A set of states with one of them designated as the initial state.
#[derive(Debug)]
pub struct NFA {
    states: Vec<State>,
    initial: usize,
}

impl View for NFA {
    type V = NfaView;

    closed spec fn view(&self) -> NfaView {
        NfaView {
            states: Seq::new(self.states@.len(), |i: int| self.states@[i]@),
            initial: self.initial as nat,
        }
    }
}

impl NFA {
    /// The invariant of the automaton, stated of its view.
    pub open spec fn wf(&self) -> bool {
        self@.wf()
    }

    /// The states, in the order of the collection.
    pub fn states(&self) -> (states: &Vec<State>)
        ensures
            states@.len() == self@.states.len(),
            forall|i: int| 0 <= i < states@.len() ==> (#[trigger] states@[i])@ == self@.states[i],
    {
        &self.states
    }

    /// The identifier of the initial state.
    pub fn initial(&self) -> (id: usize)
        ensures
            id as nat == self@.initial,
    {
        self.initial
    }

    /// An automaton of one state, which is not accepting, has no transitions and
    /// is the initial state. Its identifier is the next one of `ids`. Fails,
    /// leaving `ids` as it is, exactly when `ids` has none left.
    pub fn new(ids: &mut IDAllocator) -> (r: Result<NFA, BuildError>)
        ensures
            old(ids).remaining() > 0 ==> r is Ok && r->Ok_0@ == NfaView::single(
                old(ids).upcoming(),
            ) && final(ids).upcoming() == old(ids).upcoming() + 1,
            old(ids).remaining() == 0 ==> r == Err::<NFA, BuildError>(
                BuildError::AllocatorExhausted,
            ) && final(ids).upcoming() == old(ids).upcoming(),
            r is Ok ==> r->Ok_0.wf(),
    {
        match State::new(ids, false) {
            Ok(state) => {
                let initial = state.id;
                let mut states: Vec<State> = Vec::new();
                states.push(state);
                let nfa = NFA { states, initial };
                assert(nfa@.states =~= NfaView::single(old(ids).upcoming()).states);
                proof {
                    lemma_single_wf(old(ids).upcoming());
                }
                Ok(nfa)
            },
            Err(e) => Err(e),
        }
    }

    /// Appends a state without transitions whose identifier is the next one of
    /// `ids`, and returns that identifier. Fails, leaving the automaton and `ids`
    /// as they are, exactly when `ids` has none left.
    pub fn add_state(&mut self, ids: &mut IDAllocator, accepting: bool) -> (r: Result<
        usize,
        BuildError,
    >)
        ensures
            old(ids).remaining() > 0 ==> r is Ok && r->Ok_0 as nat == old(ids).upcoming()
                && final(self)@ == old(self)@.with_state(old(ids).upcoming(), accepting)
                && final(ids).upcoming() == old(ids).upcoming() + 1,
            old(ids).remaining() == 0 ==> r == Err::<usize, BuildError>(
                BuildError::AllocatorExhausted,
            ) && final(self)@ == old(self)@ && final(ids).upcoming() == old(ids).upcoming(),
            old(self).wf() && !old(self)@.has_id(old(ids).upcoming()) ==> final(self).wf(),
    {
        match State::new(ids, accepting) {
            Ok(state) => {
                let id = state.id;
                self.states.push(state);
                proof {
                    if old(self).wf() && !old(self)@.has_id(old(ids).upcoming()) {
                        lemma_with_state_wf(old(self)@, old(ids).upcoming(), accepting);
                    }
                }
                assert(self@.states =~= old(self)@.with_state(
                    old(ids).upcoming(),
                    accepting,
                ).states);
                Ok(id)
            },
            Err(e) => Err(e),
        }
    }

    /// Appends a transition with label `label` to the outgoing list of the state
    /// at position `from` of the collection; it leads to the state with
    /// identifier `to`.
    pub fn add_transition(&mut self, from: usize, label: Transition, to: usize)
        requires
            from < old(self)@.states.len(),
        ensures
            final(self)@ == old(self)@.with_transition(from as int, label, to as nat),
            old(self).wf() && old(self)@.has_id(to as nat) ==> final(self).wf(),
    {
        self.states[from].inner.add_transition(label, to);
        proof {
            if old(self).wf() && old(self)@.has_id(to as nat) {
                lemma_with_transition_wf(old(self)@, from as int, label, to as nat);
            }
        }
        assert(self@.states =~= old(self)@.with_transition(from as int, label, to as nat).states);
    }
}

impl NFA {
    /// Sequencing, "this automaton, then `other`": every state of this automaton
    /// that is accepting gives up its flag and gains an epsilon transition to the
    /// initial state of `other`, whose states are then taken over. The initial
    /// state stays.
    pub fn connect_other(&mut self, other: NFA)
        ensures
            final(self)@ == old(self)@.connect(other@),
            forall|i: int|
                0 <= i < old(self)@.states.len() ==> !(#[trigger] final(self)@.states[i]).accepting,
            old(self).wf() && other.wf() && old(self)@.disjoint(other@) ==> final(self).wf(),
    {
        let NFA { states: mut tail, initial: target } = other;
        let n = self.states.len();
        let mut i: usize = 0;
        while i < n
            invariant
                n == self.states@.len(),
                n == old(self).states@.len(),
                i <= n,
                self.initial == old(self).initial,
                forall|j: int|
                    0 <= j < i ==> (#[trigger] self.states@[j])@ == old(self).states@[j]@.wired_to(
                        target as nat,
                    ),
                forall|j: int| i <= j < n ==> #[trigger] self.states@[j] == old(self).states@[j],
            decreases n - i,
        {
            if self.states[i].inner.accepting {
                self.states[i].inner.accepting = false;
                self.states[i].inner.add_transition(Transition::Epsilon, target);
            }
            i += 1;
        }
        self.states.append(&mut tail);
        assert(self@.states =~= old(self)@.connect(other@).states);
        proof {
            law_connect_clears_acceptance(old(self)@, other@);
            if old(self).wf() && other.wf() && old(self)@.disjoint(other@) {
                lemma_connect_wf(old(self)@, other@);
            }
        }
    }

    /// Alternation, "this automaton or `other`": a new state, whose identifier is
    /// the next one of `ids`, gets epsilon transitions to the initial states of
    /// this automaton and of `other`, in that order, and becomes the initial
    /// state; the states of `other` are taken over behind it. Fails, leaving this
    /// automaton and `ids` as they are, exactly when `ids` has none left.
    pub fn merge_other(&mut self, other: NFA, ids: &mut IDAllocator) -> (r: Result<
        (),
        BuildError,
    >)
        ensures
            old(ids).remaining() > 0 ==> r is Ok && final(self)@ == old(self)@.merge(
                other@,
                old(ids).upcoming(),
            ) && final(ids).upcoming() == old(ids).upcoming() + 1,
            old(ids).remaining() == 0 ==> r == Err::<(), BuildError>(
                BuildError::AllocatorExhausted,
            ) && final(self)@ == old(self)@ && final(ids).upcoming() == old(ids).upcoming(),
            old(self).wf() && other.wf() && old(self)@.disjoint(other@) && !old(self)@.has_id(
                old(ids).upcoming(),
            ) && !other@.has_id(old(ids).upcoming()) ==> final(self).wf(),
    {
        let NFA { states: mut tail, initial: second } = other;
        let first = self.initial;
        match State::new(ids, false) {
            Ok(mut fresh) => {
                fresh.inner.add_transition(Transition::Epsilon, first);
                fresh.inner.add_transition(Transition::Epsilon, second);
                self.initial = fresh.id;
                self.states.push(fresh);
                self.states.append(&mut tail);
                assert(self@.states =~= old(self)@.merge(other@, old(ids).upcoming()).states);
                proof {
                    if old(self).wf() && other.wf() && old(self)@.disjoint(other@)
                        && !old(self)@.has_id(old(ids).upcoming()) && !other@.has_id(
                        old(ids).upcoming(),
                    ) {
                        lemma_merge_wf(old(self)@, other@, old(ids).upcoming());
                    }
                }
                Ok(())
            },
            Err(e) => Err(e),
        }
    }
}

} // verus!
