//! How alternation and sequencing act on what the automata accept.

use vstd::prelude::*;
use crate::language::{
    lemma_edge_stays, lemma_inner_accepting, lemma_inner_runs, lemma_run_stays,
};
use crate::nfa::{NfaView, Transition};

verus! {

/// The parts of a merged automaton: the first operand stands at its front,
/// the new initial state behind it, the second operand behind that.
pub proof fn lemma_merge_parts(a: NfaView, b: NfaView, fresh: nat)
    ensures
        a.sits_in(a.merge(b, fresh), 0),
        b.sits_in(a.merge(b, fresh), a.states.len() as int + 1),
        a.merge(b, fresh).states.len() == a.states.len() + 1 + b.states.len(),
        a.merge(b, fresh).states[a.states.len() as int].id == fresh,
        !a.merge(b, fresh).states[a.states.len() as int].accepting,
        a.merge(b, fresh).states[a.states.len() as int].transitions == seq![
            (Transition::Epsilon, a.initial),
            (Transition::Epsilon, b.initial),
        ],
{
    let m = a.merge(b, fresh);
    let new_state = m.states[a.states.len() as int];
    assert(new_state.transitions =~= seq![
        (Transition::Epsilon, a.initial),
        (Transition::Epsilon, b.initial),
    ]);
}

/// A state of the merged automaton is a state of one operand or the new
/// initial state.
pub proof fn lemma_merge_ids(a: NfaView, b: NfaView, fresh: nat, id: nat)
    ensures
        a.merge(b, fresh).has_id(id) <==> a.has_id(id) || b.has_id(id) || id == fresh,
{
    let m = a.merge(b, fresh);
    lemma_merge_parts(a, b, fresh);
    let n = a.states.len() as int;
    if a.has_id(id) {
        let i = choose|i: int| 0 <= i < a.states.len() && (#[trigger] a.states[i]).id == id;
        assert(m.states[0 + i] == a.states[i]);
    }
    if b.has_id(id) {
        let i = choose|i: int| 0 <= i < b.states.len() && (#[trigger] b.states[i]).id == id;
        assert(m.states[n + 1 + i] == b.states[i]);
    }
    if id == fresh {
        assert(m.states[n].id == id);
    }
    if m.has_id(id) {
        let j = choose|j: int| 0 <= j < m.states.len() && (#[trigger] m.states[j]).id == id;
        if j < n {
            assert(m.states[0 + j] == a.states[j]);
        } else if j > n {
            assert(m.states[n + 1 + (j - n - 1)] == b.states[j - n - 1]);
        }
    }
}

/// Merging two automata that share no identifier, with an identifier that
/// neither of them holds, gives an automaton that keeps the invariant.
pub proof fn lemma_merge_wf(a: NfaView, b: NfaView, fresh: nat)
    requires
        a.wf(),
        b.wf(),
        a.disjoint(b),
        !a.has_id(fresh),
        !b.has_id(fresh),
    ensures
        a.merge(b, fresh).wf(),
{
    let m = a.merge(b, fresh);
    lemma_merge_parts(a, b, fresh);
    let n = a.states.len() as int;
    assert forall|i: int, j: int| 0 <= i < j < m.states.len() implies (#[trigger] m.states[i]).id != (
    #[trigger] m.states[j]).id by {
        if i < n {
            assert(m.states[0 + i] == a.states[i]);
        } else if i > n {
            assert(m.states[n + 1 + (i - n - 1)] == b.states[i - n - 1]);
        }
        if j < n {
            assert(m.states[0 + j] == a.states[j]);
        } else if j > n {
            assert(m.states[n + 1 + (j - n - 1)] == b.states[j - n - 1]);
        }
    }
    lemma_merge_ids(a, b, fresh, fresh);
    assert forall|i: int, k: int|
        0 <= i < m.states.len() && 0 <= k < m.states[i].transitions.len() implies m.has_id(
        (#[trigger] m.states[i].transitions[k]).1,
    ) by {
        let target = m.states[i].transitions[k].1;
        lemma_merge_ids(a, b, fresh, target);
        if i < n {
            assert(m.states[0 + i] == a.states[i]);
            assert(a.has_id(a.states[i].transitions[k].1));
        } else if i > n {
            assert(m.states[n + 1 + (i - n - 1)] == b.states[i - n - 1]);
            assert(b.has_id(b.states[i - n - 1].transitions[k].1));
        } else {
        }
    }
}

/// The new initial state of a merged automaton has two epsilon transitions,
/// to the former initial states, and no other.
pub proof fn lemma_merge_fork(a: NfaView, b: NfaView, fresh: nat, label: Transition, to: nat)
    requires
        a.merge(b, fresh).distinct_ids(),
    ensures
        a.merge(b, fresh).has_edge(fresh, label, to) <==> label == Transition::Epsilon && (to
            == a.initial || to == b.initial),
{
    let m = a.merge(b, fresh);
    lemma_merge_parts(a, b, fresh);
    let n = a.states.len() as int;
    if m.has_edge(fresh, label, to) {
        let (i, k) = choose|i: int, k: int| #[trigger] m.edge_at(i, k, fresh, label, to);
        assert(m.states[n].id == fresh);
        assert(i == n);
    }
    if label == Transition::Epsilon && to == a.initial {
        assert(m.edge_at(n, 0, fresh, label, to));
    }
    if label == Transition::Epsilon && to == b.initial {
        assert(m.edge_at(n, 1, fresh, label, to));
    }
}

/// Runs of an operand are runs of the merged automaton, and the runs of the
/// merged automaton that start inside an operand are runs of that operand.
pub proof fn lemma_merge_runs(
    a: NfaView,
    b: NfaView,
    fresh: nat,
    from: nat,
    s: Seq<char>,
    to: nat,
    n: nat,
)
    requires
        a.wf(),
        b.wf(),
        a.disjoint(b),
        !a.has_id(fresh),
        !b.has_id(fresh),
    ensures
        a.has_id(from) ==> (a.merge(b, fresh).reaches(from, s, to, n) <==> a.reaches(
            from,
            s,
            to,
            n,
        )),
        b.has_id(from) ==> (a.merge(b, fresh).reaches(from, s, to, n) <==> b.reaches(
            from,
            s,
            to,
            n,
        )),
{
    lemma_merge_wf(a, b, fresh);
    lemma_merge_parts(a, b, fresh);
    if a.has_id(from) {
        lemma_inner_runs(a, a.merge(b, fresh), 0, from, s, to, n);
    }
    if b.has_id(from) {
        lemma_inner_runs(b, a.merge(b, fresh), a.states.len() as int + 1, from, s, to, n);
    }
}

/// The merged automaton accepts what either operand accepts, and nothing else.
pub proof fn law_merge_accepts(a: NfaView, b: NfaView, fresh: nat, s: Seq<char>)
    requires
        a.wf(),
        b.wf(),
        a.disjoint(b),
        !a.has_id(fresh),
        !b.has_id(fresh),
    ensures
        a.merge(b, fresh).accepts(s) <==> a.accepts(s) || b.accepts(s),
{
    let m = a.merge(b, fresh);
    lemma_merge_wf(a, b, fresh);
    lemma_merge_parts(a, b, fresh);
    let at_b = a.states.len() as int + 1;
    if m.accepts(s) {
        let (to, n) = choose|to: nat, n: nat|
            #[trigger] m.reaches(m.initial, s, to, n) && m.is_accepting(to);
        if n == 0 {
            let j = choose|j: int| #[trigger] m.accepting_at(j, to);
            assert(j == a.states.len());
            assert(false);
        } else {
            let (mid, rest) = choose|mid: nat, rest: Seq<char>|
                #[trigger] m.moves(fresh, s, mid, rest) && m.reaches(mid, rest, to, (n - 1) as nat);
            lemma_merge_fork(a, b, fresh, Transition::Epsilon, mid);
            if s.len() > 0 {
                lemma_merge_fork(a, b, fresh, Transition::Char(s[0]), mid);
            }
            assert(rest == s);
            lemma_merge_runs(a, b, fresh, mid, s, to, (n - 1) as nat);
            if mid == a.initial {
                lemma_run_stays(a, mid, s, to, (n - 1) as nat);
                lemma_inner_accepting(a, m, 0, to);
                assert(a.reaches(a.initial, s, to, (n - 1) as nat) && a.is_accepting(to));
            } else {
                lemma_run_stays(b, mid, s, to, (n - 1) as nat);
                lemma_inner_accepting(b, m, at_b, to);
                assert(b.reaches(b.initial, s, to, (n - 1) as nat) && b.is_accepting(to));
            }
        }
    }
    if a.accepts(s) {
        let (to, n) = choose|to: nat, n: nat|
            #[trigger] a.reaches(a.initial, s, to, n) && a.is_accepting(to);
        lemma_merge_runs(a, b, fresh, a.initial, s, to, n);
        lemma_run_stays(a, a.initial, s, to, n);
        lemma_inner_accepting(a, m, 0, to);
        lemma_merge_fork(a, b, fresh, Transition::Epsilon, a.initial);
        assert(m.moves(fresh, s, a.initial, s));
        assert(m.reaches(fresh, s, to, n + 1));
    }
    if b.accepts(s) {
        let (to, n) = choose|to: nat, n: nat|
            #[trigger] b.reaches(b.initial, s, to, n) && b.is_accepting(to);
        lemma_merge_runs(a, b, fresh, b.initial, s, to, n);
        lemma_run_stays(b, b.initial, s, to, n);
        lemma_inner_accepting(b, m, at_b, to);
        lemma_merge_fork(a, b, fresh, Transition::Epsilon, b.initial);
        assert(m.moves(fresh, s, b.initial, s));
        assert(m.reaches(fresh, s, to, n + 1));
    }
}

/// Where every state of both operands can be reached, every state of the
/// merged automaton can be reached.
pub proof fn lemma_merge_reachable(a: NfaView, b: NfaView, fresh: nat)
    requires
        a.wf(),
        b.wf(),
        a.disjoint(b),
        !a.has_id(fresh),
        !b.has_id(fresh),
        a.all_reachable(),
        b.all_reachable(),
    ensures
        a.merge(b, fresh).all_reachable(),
{
    let m = a.merge(b, fresh);
    lemma_merge_wf(a, b, fresh);
    lemma_merge_parts(a, b, fresh);
    let n = a.states.len() as int;
    assert forall|j: int| 0 <= j < m.states.len() implies m.reachable(
        (#[trigger] m.states[j]).id,
    ) by {
        let id = m.states[j].id;
        if j == n {
            assert(m.reaches(fresh, Seq::<char>::empty(), fresh, 0));
        } else if j < n {
            assert(m.states[0 + j] == a.states[j]);
            assert(a.reachable(a.states[j].id));
            let (s, k) = choose|s: Seq<char>, k: nat| #[trigger] a.reaches(a.initial, s, id, k);
            lemma_merge_runs(a, b, fresh, a.initial, s, id, k);
            lemma_merge_fork(a, b, fresh, Transition::Epsilon, a.initial);
            assert(m.moves(fresh, s, a.initial, s));
            assert(m.reaches(fresh, s, id, k + 1));
        } else {
            assert(m.states[n + 1 + (j - n - 1)] == b.states[j - n - 1]);
            assert(b.reachable(b.states[j - n - 1].id));
            let (s, k) = choose|s: Seq<char>, k: nat| #[trigger] b.reaches(b.initial, s, id, k);
            lemma_merge_runs(a, b, fresh, b.initial, s, id, k);
            lemma_merge_fork(a, b, fresh, Transition::Epsilon, b.initial);
            assert(m.moves(fresh, s, b.initial, s));
            assert(m.reaches(fresh, s, id, k + 1));
        }
    }
}

/// The automaton of one state keeps the invariant.
pub proof fn lemma_single_wf(id: nat)
    ensures
        NfaView::single(id).wf(),
{
    let x = NfaView::single(id);
    assert(x.states[0].id == id);
}

/// A new state with an identifier that the automaton does not hold yet keeps
/// the invariant.
pub proof fn lemma_with_state_wf(x: NfaView, id: nat, accepting: bool)
    requires
        x.wf(),
        !x.has_id(id),
    ensures
        x.with_state(id, accepting).wf(),
{
    let y = x.with_state(id, accepting);
    assert forall|i: int| 0 <= i < x.states.len() implies y.states[i] == #[trigger] x.states[i] by {}
    assert forall|t: nat| x.has_id(t) implies y.has_id(t) by {
        let i = choose|i: int| 0 <= i < x.states.len() && (#[trigger] x.states[i]).id == t;
        assert(y.states[i].id == t);
    }
    assert forall|i: int, j: int| 0 <= i < j < y.states.len() implies (#[trigger] y.states[i]).id != (
    #[trigger] y.states[j]).id by {
        assert(y.states[i] == x.states[i]);
        if j < x.states.len() {
            assert(y.states[j] == x.states[j]);
        }
    }
    assert forall|i: int, k: int|
        0 <= i < y.states.len() && 0 <= k < y.states[i].transitions.len() implies y.has_id(
        (#[trigger] y.states[i].transitions[k]).1,
    ) by {
        assert(y.states[i] == x.states[i]);
        assert(x.has_id(x.states[i].transitions[k].1));
    }
}

/// A new transition to a state of the automaton keeps the invariant.
pub proof fn lemma_with_transition_wf(x: NfaView, from: int, label: Transition, to: nat)
    requires
        x.wf(),
        0 <= from < x.states.len(),
        x.has_id(to),
    ensures
        x.with_transition(from, label, to).wf(),
{
    let y = x.with_transition(from, label, to);
    assert forall|i: int| 0 <= i < x.states.len() implies (#[trigger] y.states[i]).id
        == x.states[i].id by {}
    assert forall|t: nat| x.has_id(t) implies y.has_id(t) by {
        let i = choose|i: int| 0 <= i < x.states.len() && (#[trigger] x.states[i]).id == t;
        assert(y.states[i].id == t);
    }
    assert forall|i: int, j: int| 0 <= i < j < y.states.len() implies (#[trigger] y.states[i]).id != (
    #[trigger] y.states[j]).id by {
        assert(x.states[i].id != x.states[j].id);
    }
    assert forall|i: int, k: int|
        0 <= i < y.states.len() && 0 <= k < y.states[i].transitions.len() implies y.has_id(
        (#[trigger] y.states[i].transitions[k]).1,
    ) by {
        if i == from && k == x.states[i].transitions.len() {
        } else {
            assert(y.states[i].transitions[k] == x.states[i].transitions[k]);
            assert(x.has_id(x.states[i].transitions[k].1));
        }
    }
}

/// Sequencing leaves no state of the first automaton accepting, and takes
/// the states of the second over as they are.
pub proof fn law_connect_clears_acceptance(a: NfaView, b: NfaView)
    ensures
        a.connect(b).states.len() == a.states.len() + b.states.len(),
        forall|i: int| 0 <= i < a.states.len() ==> !(#[trigger] a.connect(b).states[i]).accepting,
        forall|i: int|
            0 <= i < a.states.len() ==> (#[trigger] a.connect(b).states[i]).id == a.states[i].id,
        b.sits_in(a.connect(b), a.states.len() as int),
{
}

/// Sequencing two automata that share no identifier keeps the invariant.
pub proof fn lemma_connect_wf(a: NfaView, b: NfaView)
    requires
        a.wf(),
        b.wf(),
        a.disjoint(b),
    ensures
        a.connect(b).wf(),
{
    let c = a.connect(b);
    let n = a.states.len() as int;
    law_connect_clears_acceptance(a, b);
    assert forall|t: nat| a.has_id(t) || b.has_id(t) implies c.has_id(t) by {
        if a.has_id(t) {
            let i = choose|i: int| 0 <= i < a.states.len() && (#[trigger] a.states[i]).id == t;
            assert(c.states[i].id == t);
        } else {
            let i = choose|i: int| 0 <= i < b.states.len() && (#[trigger] b.states[i]).id == t;
            assert(c.states[n + i] == b.states[i]);
        }
    }
    assert forall|i: int, j: int| 0 <= i < j < c.states.len() implies (#[trigger] c.states[i]).id != (
    #[trigger] c.states[j]).id by {
        if i >= n {
            assert(c.states[n + (i - n)] == b.states[i - n]);
        }
        if j >= n {
            assert(c.states[n + (j - n)] == b.states[j - n]);
        }
        if j < n {
            assert(a.states[i].id != a.states[j].id);
        }
    }
    assert forall|i: int, k: int|
        0 <= i < c.states.len() && 0 <= k < c.states[i].transitions.len() implies c.has_id(
        (#[trigger] c.states[i].transitions[k]).1,
    ) by {
        if i >= n {
            assert(c.states[n + (i - n)] == b.states[i - n]);
            assert(b.has_id(b.states[i - n].transitions[k].1));
        } else if k < a.states[i].transitions.len() {
            assert(c.states[i].transitions[k] == a.states[i].transitions[k]);
            assert(a.has_id(a.states[i].transitions[k].1));
        } else {
            assert(c.states[i].transitions[k].1 == b.initial);
        }
    }
}

/// In a sequence of two automata, the transitions that leave a state of the
/// first are its own and, if it was accepting, the new epsilon transition to
/// the initial state of the second.
pub proof fn lemma_connect_edges(a: NfaView, b: NfaView, from: nat, label: Transition, to: nat)
    requires
        a.wf(),
        b.wf(),
        a.disjoint(b),
        a.has_id(from),
    ensures
        a.connect(b).has_edge(from, label, to) <==> a.has_edge(from, label, to) || (
        a.is_accepting(from) && label == Transition::Epsilon && to == b.initial),
{
    let c = a.connect(b);
    let n = a.states.len() as int;
    law_connect_clears_acceptance(a, b);
    let at = choose|i: int| 0 <= i < a.states.len() && (#[trigger] a.states[i]).id == from;
    if c.has_edge(from, label, to) {
        let (j, k) = choose|j: int, k: int| #[trigger] c.edge_at(j, k, from, label, to);
        if j >= n {
            assert(c.states[n + (j - n)] == b.states[j - n]);
            assert(a.states[at].id != b.states[j - n].id);
        } else {
            if k < a.states[j].transitions.len() {
                assert(a.edge_at(j, k, from, label, to));
            } else {
                assert(a.accepting_at(j, from));
            }
        }
    }
    if a.has_edge(from, label, to) {
        let (i, k) = choose|i: int, k: int| #[trigger] a.edge_at(i, k, from, label, to);
        assert(c.edge_at(i, k, from, label, to));
    }
    if a.is_accepting(from) && label == Transition::Epsilon && to == b.initial {
        let i = choose|i: int| #[trigger] a.accepting_at(i, from);
        assert(c.edge_at(i, a.states[i].transitions.len() as int, from, label, to));
    }
}

/// In a sequence of two automata, the accepting states are those of the second.
pub proof fn lemma_connect_accepting(a: NfaView, b: NfaView, id: nat)
    ensures
        a.connect(b).is_accepting(id) <==> b.is_accepting(id),
{
    let c = a.connect(b);
    let n = a.states.len() as int;
    law_connect_clears_acceptance(a, b);
    if c.is_accepting(id) {
        let j = choose|j: int| #[trigger] c.accepting_at(j, id);
        assert(c.states[n + (j - n)] == b.states[j - n]);
        assert(b.accepting_at(j - n, id));
    }
    if b.is_accepting(id) {
        let i = choose|i: int| #[trigger] b.accepting_at(i, id);
        assert(c.states[n + i] == b.states[i]);
        assert(c.accepting_at(n + i, id));
    }
}

/// A run of the first automaton to a state that was accepting, and then a run
/// of the second from its initial state, make a run of the sequence.
pub proof fn lemma_connect_join(
    a: NfaView,
    b: NfaView,
    from: nat,
    s1: Seq<char>,
    via: nat,
    n1: nat,
    s2: Seq<char>,
    to: nat,
    n2: nat,
)
    requires
        a.wf(),
        b.wf(),
        a.disjoint(b),
        a.has_id(from),
        a.reaches(from, s1, via, n1),
        a.is_accepting(via),
        b.reaches(b.initial, s2, to, n2),
    ensures
        a.connect(b).reaches(from, s1 + s2, to, n1 + 1 + n2),
    decreases n1,
{
    let c = a.connect(b);
    lemma_connect_wf(a, b);
    law_connect_clears_acceptance(a, b);
    if n1 == 0 {
        lemma_connect_edges(a, b, from, Transition::Epsilon, b.initial);
        lemma_inner_runs(b, c, a.states.len() as int, b.initial, s2, to, n2);
        assert(s1 + s2 =~= s2);
        assert(c.moves(from, s1 + s2, b.initial, s2));
    } else {
        let (mid, rest) = choose|mid: nat, rest: Seq<char>| #[trigger]
            a.moves(from, s1, mid, rest) && a.reaches(mid, rest, via, (n1 - 1) as nat);
        if a.has_edge(from, Transition::Epsilon, mid) && rest == s1 {
            lemma_edge_stays(a, from, Transition::Epsilon, mid);
            lemma_connect_edges(a, b, from, Transition::Epsilon, mid);
            lemma_connect_join(a, b, mid, rest, via, (n1 - 1) as nat, s2, to, n2);
            assert(c.moves(from, s1 + s2, mid, rest + s2));
        } else {
            lemma_edge_stays(a, from, Transition::Char(s1[0]), mid);
            lemma_connect_edges(a, b, from, Transition::Char(s1[0]), mid);
            lemma_connect_join(a, b, mid, rest, via, (n1 - 1) as nat, s2, to, n2);
            assert((s1 + s2).drop_first() =~= rest + s2);
            assert(c.moves(from, s1 + s2, mid, rest + s2));
        }
    }
}

/// A run of the sequence from a state of the first automaton to a state of
/// the second splits: a run of the first to a state that was accepting, which
/// reads the first `k` symbols, and a run of the second from its initial
/// state, which reads the others.
pub proof fn lemma_connect_split(
    a: NfaView,
    b: NfaView,
    from: nat,
    s: Seq<char>,
    to: nat,
    n: nat,
) -> (cut: (int, nat, nat, nat))
    requires
        a.wf(),
        b.wf(),
        a.disjoint(b),
        a.has_id(from),
        b.has_id(to),
        a.connect(b).reaches(from, s, to, n),
    ensures
        0 <= cut.0 <= s.len(),
        a.reaches(from, s.take(cut.0), cut.1, cut.2),
        a.is_accepting(cut.1),
        b.reaches(b.initial, s.skip(cut.0), to, cut.3),
    decreases n,
{
    let c = a.connect(b);
    lemma_connect_wf(a, b);
    law_connect_clears_acceptance(a, b);
    if n == 0 {
        let i = choose|i: int| 0 <= i < a.states.len() && (#[trigger] a.states[i]).id == from;
        let j = choose|j: int| 0 <= j < b.states.len() && (#[trigger] b.states[j]).id == to;
        assert(a.states[i].id != b.states[j].id);
        (0, 0, 0, 0)
    } else {
        let (mid, rest) = choose|mid: nat, rest: Seq<char>| #[trigger]
            c.moves(from, s, mid, rest) && c.reaches(mid, rest, to, (n - 1) as nat);
        lemma_connect_edges(a, b, from, Transition::Epsilon, mid);
        if s.len() > 0 {
            lemma_connect_edges(a, b, from, Transition::Char(s[0]), mid);
        }
        if a.has_edge(from, Transition::Epsilon, mid) && rest == s {
            lemma_edge_stays(a, from, Transition::Epsilon, mid);
            let inner = lemma_connect_split(a, b, mid, rest, to, (n - 1) as nat);
            assert(a.moves(from, s.take(inner.0), mid, rest.take(inner.0)));
            (inner.0, inner.1, inner.2 + 1, inner.3)
        } else if s.len() > 0 && a.has_edge(from, Transition::Char(s[0]), mid) && rest
            == s.drop_first() {
            lemma_edge_stays(a, from, Transition::Char(s[0]), mid);
            let inner = lemma_connect_split(a, b, mid, rest, to, (n - 1) as nat);
            let k = inner.0 + 1;
            assert(s.take(k).drop_first() =~= rest.take(inner.0));
            assert(s.skip(k) =~= rest.skip(inner.0));
            assert(a.moves(from, s.take(k), mid, rest.take(inner.0)));
            (k, inner.1, inner.2 + 1, inner.3)
        } else {
            assert(a.is_accepting(from) && mid == b.initial && rest == s);
            lemma_inner_runs(b, c, a.states.len() as int, b.initial, s, to, (n - 1) as nat);
            assert(s.take(0).len() == 0);
            assert(s.skip(0) =~= s);
            (0, from, 0, (n - 1) as nat)
        }
    }
}

/// The sequence of two automata accepts `s` in two parts: the first
/// automaton accepts the first `k` symbols and the second accepts the others.
pub open spec fn accepts_in_sequence(a: NfaView, b: NfaView, s: Seq<char>, k: int) -> bool {
    &&& 0 <= k <= s.len()
    &&& a.accepts(s.take(k))
    &&& b.accepts(s.skip(k))
}

/// What the sequence of two automata accepts, it accepts in two parts.
pub proof fn lemma_connect_accepts_only(a: NfaView, b: NfaView, s: Seq<char>) -> (k: int)
    requires
        a.wf(),
        b.wf(),
        a.disjoint(b),
        a.connect(b).accepts(s),
    ensures
        accepts_in_sequence(a, b, s, k),
{
    let c = a.connect(b);
    let (to, n) = choose|to: nat, n: nat|
        #[trigger] c.reaches(c.initial, s, to, n) && c.is_accepting(to);
    lemma_connect_accepting(a, b, to);
    let j = choose|j: int| #[trigger] b.accepting_at(j, to);
    assert(b.states[j].id == to);
    let cut = lemma_connect_split(a, b, a.initial, s, to, n);
    assert(a.reaches(a.initial, s.take(cut.0), cut.1, cut.2) && a.is_accepting(cut.1));
    assert(b.reaches(b.initial, s.skip(cut.0), to, cut.3) && b.is_accepting(to));
    cut.0
}

/// What two automata accept one after the other, their sequence accepts.
pub proof fn lemma_connect_accepts_all(a: NfaView, b: NfaView, s: Seq<char>, k: int)
    requires
        a.wf(),
        b.wf(),
        a.disjoint(b),
        accepts_in_sequence(a, b, s, k),
    ensures
        a.connect(b).accepts(s),
{
    let c = a.connect(b);
    let s1 = s.take(k);
    let s2 = s.skip(k);
    let (via, n1) = choose|via: nat, n1: nat|
        #[trigger] a.reaches(a.initial, s1, via, n1) && a.is_accepting(via);
    let (to, n2) = choose|to: nat, n2: nat|
        #[trigger] b.reaches(b.initial, s2, to, n2) && b.is_accepting(to);
    lemma_connect_join(a, b, a.initial, s1, via, n1, s2, to, n2);
    lemma_connect_accepting(a, b, to);
    assert(s1 + s2 =~= s);
    assert(c.reaches(c.initial, s, to, n1 + 1 + n2) && c.is_accepting(to));
}

/// Sequencing two automata that share no identifier gives an automaton that
/// accepts the words made of a word of the first and then a word of the
/// second, and nothing else.
pub proof fn law_connect_accepts(a: NfaView, b: NfaView, s: Seq<char>)
    requires
        a.wf(),
        b.wf(),
        a.disjoint(b),
    ensures
        a.connect(b).accepts(s) <==> exists|k: int| #[trigger] accepts_in_sequence(a, b, s, k),
{
    if a.connect(b).accepts(s) {
        let k = lemma_connect_accepts_only(a, b, s);
    }
    if exists|k: int| #[trigger] accepts_in_sequence(a, b, s, k) {
        let k = choose|k: int| #[trigger] accepts_in_sequence(a, b, s, k);
        lemma_connect_accepts_all(a, b, s, k);
    }
}

} // verus!
