//! What holds of every state of the scan of an accepted pattern, and so of the
//! automaton that is built.

use vstd::prelude::*;
use crate::composition::{
    law_merge_accepts, lemma_merge_ids, lemma_merge_parts, lemma_merge_reachable, lemma_merge_wf,
};
use crate::chain::{chain, lemma_chain_accepts, lemma_chain_empty, lemma_chain_extend, lemma_chain_wf};
use crate::language::lemma_no_accepting_state;
use crate::nfa::NfaView;
use crate::pattern::{
    is_literal, lemma_no_error_at, lemma_run_start,
    lemma_runs_step, run_before, run_start, syntax_error,
};
use crate::scan::{
    ends_term, groups, lemma_close_shaped, lemma_reduce_shaped, lemma_scan_shaped,
    lemma_scan_upcoming, scan, Scan, Symbol,
};

verus! {

/// No state of the automaton is accepting.
pub open spec fn idle(x: NfaView) -> bool {
    forall|i: int| 0 <= i < x.states.len() ==> !(#[trigger] x.states[i]).accepting
}

impl Scan {
    /// Each operand keeps the invariant of automata, each of its states can be
    /// reached, its identifiers were handed out in this scan, and no two
    /// operands share an identifier.
    pub open spec fn operands_ok(self, first: nat) -> bool {
        &&& forall|k: int|
            0 <= k < self.operands.len() ==> {
                &&& (#[trigger] self.operands[k]).wf()
                &&& self.operands[k].all_reachable()
                &&& self.operands[k].ids_within(first, self.upcoming)
            }
        &&& forall|j: int, k: int|
            0 <= j < k < self.operands.len() ==> (#[trigger] self.operands[j]).disjoint(
                #[trigger] self.operands[k],
            )
    }

    /// The operand that was on top when a group was opened has no accepting state.
    pub open spec fn placeholders_idle(self) -> bool {
        forall|k: int|
            1 <= k < self.symbols.len() && #[trigger] self.symbols[k] == Symbol::LeftParen ==> idle(
                self.operands[k - 1],
            )
    }

    /// Some operand accepts `s`.
    pub open spec fn accepts(self, s: Seq<char>) -> bool {
        exists|k: int| 0 <= k < self.operands.len() && (#[trigger] self.operands[k]).accepts(s)
    }

    /// What every step of the scan keeps.
    pub open spec fn consistent(self, first: nat) -> bool {
        &&& self.shaped()
        &&& self.operands_ok(first)
        &&& self.placeholders_idle()
    }
}

/// An automaton whose identifiers lie below `bound` does not hold `bound`.
pub proof fn lemma_bound_is_fresh(x: NfaView, low: nat, bound: nat)
    requires
        x.ids_within(low, bound),
    ensures
        !x.has_id(bound),
{
}

/// Two automata share no identifier if each identifier of the second is
/// missing from the first.
pub proof fn lemma_disjoint_by_ids(a: NfaView, b: NfaView)
    requires
        forall|id: nat| b.has_id(id) ==> !a.has_id(id),
    ensures
        a.disjoint(b),
        b.disjoint(a),
{
    assert forall|i: int, j: int|
        0 <= i < a.states.len() && 0 <= j < b.states.len() implies (#[trigger] a.states[i]).id != (
    #[trigger] b.states[j]).id by {
        assert(b.has_id(b.states[j].id));
    }
}

/// Automata that share no identifier hold no identifier in common.
pub proof fn lemma_disjoint_ids(a: NfaView, b: NfaView, id: nat)
    requires
        a.disjoint(b),
        a.has_id(id),
    ensures
        !b.has_id(id),
{
}

/// The merge of two operands of a scan is fit to be an operand itself.
pub proof fn lemma_merge_fit(a: NfaView, b: NfaView, first: nat, up: nat)
    requires
        a.wf(),
        b.wf(),
        a.disjoint(b),
        a.ids_within(first, up),
        b.ids_within(first, up),
        a.all_reachable(),
        b.all_reachable(),
    ensures
        a.merge(b, up).wf(),
        a.merge(b, up).all_reachable(),
        a.merge(b, up).ids_within(first, up + 1),
        a.merge(b, up).states.len() >= 1,
{
    let m = a.merge(b, up);
    lemma_bound_is_fresh(a, first, up);
    lemma_bound_is_fresh(b, first, up);
    lemma_merge_wf(a, b, up);
    lemma_merge_reachable(a, b, up);
    lemma_merge_parts(a, b, up);
    assert forall|i: int| 0 <= i < m.states.len() implies first <= (#[trigger] m.states[i]).id < up
        + 1 by {
        let id = m.states[i].id;
        assert(m.has_id(id));
        lemma_merge_ids(a, b, up, id);
        if a.has_id(id) {
            let i2 = choose|i2: int| 0 <= i2 < a.states.len() && (#[trigger] a.states[i2]).id == id;
        } else if b.has_id(id) {
            let i2 = choose|i2: int| 0 <= i2 < b.states.len() && (#[trigger] b.states[i2]).id == id;
        }
    }
}

/// An operand that shares no identifier with two others shares none with
/// their merge.
pub proof fn lemma_merge_disjoint(x: NfaView, a: NfaView, b: NfaView, first: nat, up: nat)
    requires
        x.disjoint(a),
        x.disjoint(b),
        x.ids_within(first, up),
    ensures
        x.disjoint(a.merge(b, up)),
{
    let m = a.merge(b, up);
    assert forall|id: nat| m.has_id(id) implies !x.has_id(id) by {
        lemma_merge_ids(a, b, up, id);
        lemma_bound_is_fresh(x, first, up);
        if x.has_id(id) {
            lemma_disjoint_ids(x, a, id);
            lemma_disjoint_ids(x, b, id);
        }
    }
    lemma_disjoint_by_ids(x, m);
}

/// Sharing no identifier does not depend on the order of the two automata.
pub proof fn lemma_disjoint_symmetric(a: NfaView, b: NfaView)
    requires
        a.disjoint(b),
    ensures
        b.disjoint(a),
{
}

/// Identifiers that lie within a range lie within each wider one.
pub proof fn lemma_ids_within_wider(x: NfaView, low: nat, high: nat, higher: nat)
    requires
        x.ids_within(low, high),
        high <= higher,
    ensures
        x.ids_within(low, higher),
{
}

/// One reduction keeps the operands in order.
pub proof fn lemma_reduce_once_operands(st: Scan, first: nat)
    requires
        st.shaped(),
        st.operands_ok(first),
        st.symbols.last() == Symbol::Or,
    ensures
        st.reduce_once().shaped(),
        st.reduce_once().operands_ok(first),
{
    let k = st.operands.len() as int;
    let top = st.operands[k - 1];
    let below = st.operands[k - 2];
    let up = st.upcoming;
    let m = top.merge(below, up);
    let r = st.reduce_once();
    lemma_disjoint_symmetric(below, top);
    lemma_merge_fit(top, below, first, up);
    assert(r.symbols[0] == st.symbols[0]);
    assert forall|j: int| 0 <= j < r.operands.len() implies {
        &&& (#[trigger] r.operands[j]).wf()
        &&& r.operands[j].all_reachable()
        &&& r.operands[j].ids_within(first, r.upcoming)
        &&& r.operands[j].states.len() >= 1
    } by {
        if j < k - 2 {
            assert(r.operands[j] == st.operands[j]);
            lemma_ids_within_wider(st.operands[j], first, up, up + 1);
        } else {
            assert(r.operands[j] == m);
        }
    }
    assert forall|i: int, j: int| 0 <= i < j < r.operands.len() implies (
    #[trigger] r.operands[i]).disjoint(#[trigger] r.operands[j]) by {
        assert(r.operands[i] == st.operands[i]);
        if j < k - 2 {
            assert(r.operands[j] == st.operands[j]);
        } else {
            assert(r.operands[j] == m);
            lemma_merge_disjoint(st.operands[i], top, below, first, up);
        }
    }
}

/// One reduction leaves the operands below the groups that are open as they are.
pub proof fn lemma_reduce_once_placeholders(st: Scan)
    requires
        st.shaped(),
        st.placeholders_idle(),
        st.symbols.last() == Symbol::Or,
    ensures
        st.reduce_once().placeholders_idle(),
{
    let r = st.reduce_once();
    assert forall|j: int|
        1 <= j < r.symbols.len() && #[trigger] r.symbols[j] == Symbol::LeftParen implies idle(
        r.operands[j - 1],
    ) by {
        assert(st.symbols[j] == Symbol::LeftParen);
        assert(r.operands[j - 1] == st.operands[j - 1]);
    }
}

/// One reduction keeps what the operands accept.
pub proof fn lemma_reduce_once_accepts(st: Scan, s: Seq<char>)
    requires
        st.operands.len() >= 2,
        st.operands[st.operands.len() - 1].wf(),
        st.operands[st.operands.len() - 2].wf(),
        st.operands[st.operands.len() - 1].disjoint(st.operands[st.operands.len() - 2]),
        !st.operands[st.operands.len() - 1].has_id(st.upcoming),
        !st.operands[st.operands.len() - 2].has_id(st.upcoming),
    ensures
        st.reduce_once().accepts(s) <==> st.accepts(s),
{
    let k = st.operands.len() as int;
    let top = st.operands[k - 1];
    let below = st.operands[k - 2];
    let r = st.reduce_once();
    law_merge_accepts(top, below, st.upcoming, s);
    assert(r.operands[k - 2] == top.merge(below, st.upcoming));
    if r.accepts(s) {
        let j = choose|j: int| 0 <= j < r.operands.len() && (#[trigger] r.operands[j]).accepts(s);
        if j < k - 2 {
            assert(r.operands[j] == st.operands[j]);
            assert(st.operands[j].accepts(s));
        } else {
            assert(st.operands[k - 1].accepts(s) || st.operands[k - 2].accepts(s));
        }
    }
    if st.accepts(s) {
        let j = choose|j: int| 0 <= j < st.operands.len() && (#[trigger] st.operands[j]).accepts(s);
        if j < k - 2 {
            assert(r.operands[j] == st.operands[j]);
            assert(r.operands[j].accepts(s));
        } else {
            assert(r.operands[k - 2].accepts(s));
        }
    }
}

/// The two operands on top of a scan in order can be merged.
pub proof fn lemma_top_two(st: Scan, first: nat)
    requires
        st.shaped(),
        st.operands_ok(first),
        st.symbols.last() == Symbol::Or,
    ensures
        st.operands.len() >= 2,
        st.operands[st.operands.len() - 1].wf(),
        st.operands[st.operands.len() - 2].wf(),
        st.operands[st.operands.len() - 1].disjoint(st.operands[st.operands.len() - 2]),
        !st.operands[st.operands.len() - 1].has_id(st.upcoming),
        !st.operands[st.operands.len() - 2].has_id(st.upcoming),
{
    let k = st.operands.len() as int;
    lemma_disjoint_symmetric(st.operands[k - 2], st.operands[k - 1]);
    lemma_bound_is_fresh(st.operands[k - 1], first, st.upcoming);
    lemma_bound_is_fresh(st.operands[k - 2], first, st.upcoming);
}

/// Reducing keeps what every step keeps.
pub proof fn lemma_reduce_consistent(st: Scan, first: nat)
    requires
        st.consistent(first),
    ensures
        st.reduce().consistent(first),
    decreases st.symbols.len(),
{
    if st.symbols.last() == Symbol::Or {
        lemma_reduce_once_operands(st, first);
        lemma_reduce_once_placeholders(st);
        lemma_reduce_consistent(st.reduce_once(), first);
    }
}

/// Reducing keeps what the operands accept.
pub proof fn lemma_reduce_accepts(st: Scan, first: nat, s: Seq<char>)
    requires
        st.consistent(first),
    ensures
        st.reduce().accepts(s) <==> st.accepts(s),
    decreases st.symbols.len(),
{
    if st.symbols.last() == Symbol::Or {
        lemma_reduce_once_operands(st, first);
        lemma_reduce_once_placeholders(st);
        lemma_top_two(st, first);
        lemma_reduce_once_accepts(st, s);
        lemma_reduce_accepts(st.reduce_once(), first, s);
    }
}

/// Leaving a group keeps the operands in order.
pub proof fn lemma_leave_operands(r: Scan, first: nat)
    requires
        r.shaped(),
        r.operands_ok(first),
        r.symbols.len() >= 2,
    ensures
        r.leave().shaped(),
        r.leave().operands_ok(first),
{
    let c = r.leave();
    let k = r.operands.len() as int;
    assert(c.symbols[0] == r.symbols[0]);
    assert(c.operands[k - 2] == r.operands[k - 1]);
    assert forall|j: int| 0 <= j < c.operands.len() implies {
        &&& (#[trigger] c.operands[j]).wf()
        &&& c.operands[j].all_reachable()
        &&& c.operands[j].ids_within(first, c.upcoming)
        &&& c.operands[j].states.len() >= 1
    } by {
        if j < k - 2 {
            assert(c.operands[j] == r.operands[j]);
        }
    }
    assert forall|i: int, j: int| 0 <= i < j < c.operands.len() implies (
    #[trigger] c.operands[i]).disjoint(#[trigger] c.operands[j]) by {
        assert(c.operands[i] == r.operands[i]);
        if j < k - 2 {
            assert(c.operands[j] == r.operands[j]);
        }
    }
}

/// Leaving a group leaves the operands below the other open groups as they are.
pub proof fn lemma_leave_placeholders(r: Scan)
    requires
        r.shaped(),
        r.placeholders_idle(),
        r.symbols.len() >= 2,
    ensures
        r.leave().placeholders_idle(),
{
    let c = r.leave();
    assert forall|j: int|
        1 <= j < c.symbols.len() && #[trigger] c.symbols[j] == Symbol::LeftParen implies idle(
        c.operands[j - 1],
    ) by {
        assert(r.symbols[j] == Symbol::LeftParen);
        assert(c.operands[j - 1] == r.operands[j - 1]);
    }
}

/// Leaving a group keeps what the operands accept.
pub proof fn lemma_leave_accepts(r: Scan, s: Seq<char>)
    requires
        r.shaped(),
        r.placeholders_idle(),
        r.symbols.len() >= 2,
        r.symbols.last() == Symbol::LeftParen,
    ensures
        r.leave().accepts(s) <==> r.accepts(s),
{
    let c = r.leave();
    let k = r.operands.len() as int;
    assert(r.symbols[k - 1] == Symbol::LeftParen);
    assert(idle(r.operands[k - 2]));
    lemma_no_accepting_state(r.operands[k - 2], s);
    assert(c.operands[k - 2] == r.operands[k - 1]);
    if c.accepts(s) {
        let j = choose|j: int| 0 <= j < c.operands.len() && (#[trigger] c.operands[j]).accepts(s);
        if j < k - 2 {
            assert(c.operands[j] == r.operands[j]);
            assert(r.operands[j].accepts(s));
        } else {
            assert(r.operands[k - 1].accepts(s));
        }
    }
    if r.accepts(s) {
        let j = choose|j: int| 0 <= j < r.operands.len() && (#[trigger] r.operands[j]).accepts(s);
        if j < k - 2 {
            assert(c.operands[j] == r.operands[j]);
            assert(c.operands[j].accepts(s));
        } else {
            assert(j == k - 1);
            assert(c.operands[k - 2].accepts(s));
        }
    }
}

/// Closing a group keeps what every step keeps.
pub proof fn lemma_close_consistent(st: Scan, first: nat)
    requires
        st.consistent(first),
        groups(st.symbols) >= 2,
    ensures
        st.close().consistent(first),
{
    let r = st.reduce();
    lemma_reduce_consistent(st, first);
    lemma_close_shaped(st);
    lemma_leave_operands(r, first);
    lemma_leave_placeholders(r);
}

/// Closing a group keeps what the operands accept.
pub proof fn lemma_close_accepts(st: Scan, first: nat, s: Seq<char>)
    requires
        st.consistent(first),
        groups(st.symbols) >= 2,
    ensures
        st.close().accepts(s) <==> st.accepts(s),
{
    let r = st.reduce();
    lemma_reduce_consistent(st, first);
    lemma_reduce_accepts(st, first, s);
    lemma_reduce_shaped(st);
    lemma_close_shaped(st);
    lemma_leave_accepts(r, s);
}

/// Automata whose identifiers lie in ranges that do not overlap share none.
pub proof fn lemma_ranges_disjoint(x: NfaView, y: NfaView, low: nat, mid: nat, high: nat)
    requires
        x.ids_within(low, mid),
        y.ids_within(mid, high),
    ensures
        x.disjoint(y),
{
}

/// A new marker with its fresh operand keeps what every step keeps.
pub proof fn lemma_begin_consistent(st: Scan, first: nat, marker: Symbol)
    requires
        st.consistent(first),
        first <= st.upcoming,
        marker == Symbol::LeftParen ==> idle(st.operands.last()),
    ensures
        st.begin(marker).consistent(first),
{
    let b = st.begin(marker);
    let up = st.upcoming;
    let k = st.operands.len() as int;
    let fresh = NfaView::single(up);
    lemma_chain_empty(up, false);
    lemma_chain_wf(Seq::empty(), up, false);
    assert(b.operands[k] == fresh);
    assert(b.symbols[0] == st.symbols[0]);
    assert forall|j: int| 0 <= j < b.operands.len() implies {
        &&& (#[trigger] b.operands[j]).wf()
        &&& b.operands[j].all_reachable()
        &&& b.operands[j].ids_within(first, b.upcoming)
        &&& b.operands[j].states.len() >= 1
    } by {
        if j < k {
            assert(b.operands[j] == st.operands[j]);
            lemma_ids_within_wider(st.operands[j], first, up, up + 1);
        }
    }
    assert forall|i: int, j: int| 0 <= i < j < b.operands.len() implies (
    #[trigger] b.operands[i]).disjoint(#[trigger] b.operands[j]) by {
        assert(b.operands[i] == st.operands[i]);
        if j < k {
            assert(b.operands[j] == st.operands[j]);
        } else {
            lemma_ranges_disjoint(st.operands[i], fresh, first, up, up + 1);
        }
    }
    assert forall|j: int|
        1 <= j < b.symbols.len() && #[trigger] b.symbols[j] == Symbol::LeftParen implies idle(
        b.operands[j - 1],
    ) by {
        assert(b.operands[j - 1] == st.operands[j - 1]);
        if j < k {
            assert(st.symbols[j] == Symbol::LeftParen);
        }
    }
}

/// A new marker with its fresh operand keeps what the operands accept.
pub proof fn lemma_begin_accepts(st: Scan, marker: Symbol, s: Seq<char>)
    ensures
        st.begin(marker).accepts(s) <==> st.accepts(s),
{
    let b = st.begin(marker);
    let k = st.operands.len() as int;
    let fresh = NfaView::single(st.upcoming);
    assert(b.operands[k] == fresh);
    lemma_no_accepting_state(fresh, s);
    if b.accepts(s) {
        let j = choose|j: int| 0 <= j < b.operands.len() && (#[trigger] b.operands[j]).accepts(s);
        assert(j < k);
        assert(b.operands[j] == st.operands[j]);
        assert(st.operands[j].accepts(s));
    }
    if st.accepts(s) {
        let j = choose|j: int| 0 <= j < st.operands.len() && (#[trigger] st.operands[j]).accepts(s);
        assert(b.operands[j] == st.operands[j]);
        assert(b.operands[j].accepts(s));
    }
}

/// An operand that shares no identifier with an unfinished chain, and whose
/// identifiers lie below those that the chain gets next, shares none with the
/// chain extended by one symbol.
pub proof fn lemma_longer_chain_disjoint(
    x: NfaView,
    w: Seq<char>,
    a: nat,
    c: char,
    done: bool,
    first: nat,
)
    requires
        x.disjoint(chain(w, a, false)),
        x.ids_within(first, a + 2 * w.len() + 1),
    ensures
        x.disjoint(chain(w.push(c), a, done)),
{
    let shorter = chain(w, a, false);
    let longer = chain(w.push(c), a, done);
    assert forall|i: int, j: int|
        0 <= i < x.states.len() && 0 <= j < longer.states.len() implies (#[trigger] x.states[i]).id
        != (#[trigger] longer.states[j]).id by {
        if j < shorter.states.len() {
            assert(shorter.states[j].id == longer.states[j].id);
        }
    }
}

/// A literal symbol keeps the operands in order.
pub proof fn lemma_literal_operands(
    st: Scan,
    first: nat,
    w: Seq<char>,
    a: nat,
    c: char,
    done: bool,
)
    requires
        st.shaped(),
        st.operands_ok(first),
        st.operands.last() == chain(w, a, false),
        st.upcoming == a + 2 * w.len() + 1,
    ensures
        st.literal(c, done).shaped(),
        st.literal(c, done).operands_ok(first),
        st.literal(c, done).operands.last() == chain(w.push(c), a, done),
{
    let l = st.literal(c, done);
    let k = st.operands.len() as int;
    let up = st.upcoming;
    let longer = chain(w.push(c), a, done);
    lemma_chain_extend(w, a, c, done);
    lemma_chain_wf(w.push(c), a, done);
    assert(l.operands[k - 1] == longer);
    assert(st.operands[k - 1].states[0].id == a);
    assert(first <= a);
    assert(longer.ids_within(first, up + 2));
    assert forall|j: int| 0 <= j < l.operands.len() implies {
        &&& (#[trigger] l.operands[j]).wf()
        &&& l.operands[j].all_reachable()
        &&& l.operands[j].ids_within(first, l.upcoming)
        &&& l.operands[j].states.len() >= 1
    } by {
        if j < k - 1 {
            assert(l.operands[j] == st.operands[j]);
            lemma_ids_within_wider(st.operands[j], first, up, up + 2);
        }
    }
    assert forall|i: int, j: int| 0 <= i < j < l.operands.len() implies (
    #[trigger] l.operands[i]).disjoint(#[trigger] l.operands[j]) by {
        assert(l.operands[i] == st.operands[i]);
        if j < k - 1 {
            assert(l.operands[j] == st.operands[j]);
        } else {
            assert(st.operands[i].disjoint(st.operands[k - 1]));
            lemma_longer_chain_disjoint(st.operands[i], w, a, c, done, first);
        }
    }
}

/// A literal symbol leaves the operands below the open groups as they are.
pub proof fn lemma_literal_placeholders(st: Scan, c: char, done: bool)
    requires
        st.shaped(),
        st.placeholders_idle(),
    ensures
        st.literal(c, done).placeholders_idle(),
{
    let l = st.literal(c, done);
    assert forall|j: int|
        1 <= j < l.symbols.len() && #[trigger] l.symbols[j] == Symbol::LeftParen implies idle(
        l.operands[j - 1],
    ) by {
        assert(l.operands[j - 1] == st.operands[j - 1]);
    }
}

/// A literal symbol adds to what the operands accept the run that it ends,
/// if it ends one.
pub proof fn lemma_literal_accepts(
    st: Scan,
    w: Seq<char>,
    a: nat,
    c: char,
    done: bool,
    s: Seq<char>,
)
    requires
        st.shaped(),
        st.operands.last() == chain(w, a, false),
        st.upcoming == a + 2 * w.len() + 1,
    ensures
        st.literal(c, done).accepts(s) <==> st.accepts(s) || (done && s == w.push(c)),
{
    let l = st.literal(c, done);
    let k = st.operands.len() as int;
    lemma_chain_extend(w, a, c, done);
    lemma_chain_accepts(w, a, false, s);
    lemma_chain_accepts(w.push(c), a, done, s);
    assert(l.operands[k - 1] == chain(w.push(c), a, done));
    if l.accepts(s) {
        let j = choose|j: int| 0 <= j < l.operands.len() && (#[trigger] l.operands[j]).accepts(s);
        if j < k - 1 {
            assert(l.operands[j] == st.operands[j]);
            assert(st.operands[j].accepts(s));
        }
    }
    if st.accepts(s) {
        let j = choose|j: int| 0 <= j < st.operands.len() && (#[trigger] st.operands[j]).accepts(s);
        assert(j < k - 1);
        assert(l.operands[j] == st.operands[j]);
        assert(l.operands[j].accepts(s));
    }
    if done && s == w.push(c) {
        assert(l.operands[k - 1].accepts(s));
    }
}

/// The form of the operand on top: behind a literal symbol it is the chain
/// of the run so far, finished if the run is; behind a `(` or a `|`, and before
/// the first character, it is a fresh automaton.
pub open spec fn top_form(p: Seq<char>, n: int, st: Scan) -> bool {
    let top = st.operands.last();
    if n > 0 && is_literal(p[n - 1]) {
        let x = run_start(p, n);
        &&& st.upcoming >= 1 + 2 * (n - x)
        &&& top == chain(
            p.subrange(x, n),
            (st.upcoming - 1 - 2 * (n - x)) as nat,
            ends_term(p, n - 1),
        )
    } else if n <= 0 || p[n - 1] == '(' || p[n - 1] == '|' {
        top == NfaView::single((st.upcoming - 1) as nat)
    } else {
        true
    }
}

/// What holds of the scan after the first `n` characters of an accepted
/// pattern: the operands are in order, the one on top has its form, and
/// together they accept the runs of literal symbols that have ended so far.
pub open spec fn sound(p: Seq<char>, n: int, first: nat) -> bool {
    let st = scan(p, n, first);
    &&& st.consistent(first)
    &&& first < st.upcoming
    &&& top_form(p, n, st)
    &&& forall|s: Seq<char>| #[trigger] st.accepts(s) <==> run_before(p, n, s)
}

/// The invariant of the scan holds before the first character.
pub proof fn lemma_sound_start(p: Seq<char>, first: nat)
    ensures
        sound(p, 0, first),
{
    let st = scan(p, 0, first);
    let fresh = NfaView::single(first);
    lemma_chain_empty(first, false);
    lemma_chain_wf(Seq::empty(), first, false);
    assert(st.operands[0] == fresh);
    assert forall|s: Seq<char>| #[trigger] st.accepts(s) <==> run_before(p, 0, s) by {
        lemma_no_accepting_state(fresh, s);
        if st.accepts(s) {
            let j = choose|j: int| 0 <= j < st.operands.len() && (#[trigger] st.operands[j]).accepts(s);
            assert(j == 0);
        }
    }
}

/// The invariant of the scan holds behind a `(` or a `|`.
pub proof fn lemma_sound_marker(p: Seq<char>, n: int, first: nat)
    requires
        0 < n <= p.len(),
        syntax_error(p) is None,
        sound(p, n - 1, first),
        p[n - 1] == '(' || p[n - 1] == '|',
    ensures
        sound(p, n, first),
{
    let i = n - 1;
    let st = scan(p, i, first);
    let marker = if p[i] == '(' {
        Symbol::LeftParen
    } else {
        Symbol::Or
    };
    lemma_no_error_at(p, i);
    if i > 0 {
        lemma_no_error_at(p, i - 1);
    }
    if p[i] == '(' {
        assert(st.operands.last() == NfaView::single((st.upcoming - 1) as nat));
        assert(idle(st.operands.last()));
    }
    lemma_begin_consistent(st, first, marker);
    let after = scan(p, n, first);
    assert(after == st.begin(marker));
    assert forall|s: Seq<char>| #[trigger] after.accepts(s) <==> run_before(p, n, s) by {
        lemma_runs_step(p, n, s);
        lemma_begin_accepts(st, marker, s);
        assert(st.accepts(s) <==> run_before(p, i, s));
    }
}

/// The invariant of the scan holds behind a `)`.
pub proof fn lemma_sound_close(p: Seq<char>, n: int, first: nat)
    requires
        0 < n <= p.len(),
        syntax_error(p) is None,
        sound(p, n - 1, first),
        p[n - 1] == ')',
    ensures
        sound(p, n, first),
{
    let i = n - 1;
    let st = scan(p, i, first);
    lemma_no_error_at(p, i);
    lemma_scan_shaped(p, i, first);
    lemma_close_consistent(st, first);
    lemma_scan_upcoming(p, n, n, first);
    let after = scan(p, n, first);
    assert(after == st.close());
    assert forall|s: Seq<char>| #[trigger] after.accepts(s) <==> run_before(p, n, s) by {
        lemma_runs_step(p, n, s);
        lemma_close_accepts(st, first, s);
        assert(st.accepts(s) <==> run_before(p, i, s));
    }
}

/// The invariant of the scan holds behind a literal symbol.
pub proof fn lemma_sound_literal(p: Seq<char>, n: int, first: nat)
    requires
        0 < n <= p.len(),
        syntax_error(p) is None,
        sound(p, n - 1, first),
        is_literal(p[n - 1]),
    ensures
        sound(p, n, first),
{
    let i = n - 1;
    let st = scan(p, i, first);
    let c = p[i];
    let done = ends_term(p, i);
    let x = run_start(p, n);
    let w = p.subrange(x, i);
    let a = (st.upcoming - 1 - 2 * (i - x)) as nat;
    lemma_no_error_at(p, i);
    if i > 0 {
        lemma_no_error_at(p, i - 1);
    }
    if n < p.len() {
        lemma_no_error_at(p, n);
    }
    lemma_run_start(p, n);
    lemma_run_start(p, i);
    assert(st.operands.last() == chain(w, a, false) && st.upcoming == a + 2 * w.len() + 1) by {
        if i > 0 && is_literal(p[i - 1]) {
            assert(run_start(p, i) == x);
            assert(!ends_term(p, i - 1));
        } else {
            assert(x == i);
            assert(w =~= Seq::<char>::empty());
            lemma_chain_empty(a, false);
        }
    }
    lemma_literal_operands(st, first, w, a, c, done);
    lemma_literal_placeholders(st, c, done);
    let after = scan(p, n, first);
    assert(after == st.literal(c, done));
    assert(w.push(c) =~= p.subrange(x, n));
    assert(done <==> (n == p.len() || !is_literal(p[n])));
    assert forall|s: Seq<char>| #[trigger] after.accepts(s) <==> run_before(p, n, s) by {
        lemma_runs_step(p, n, s);
        lemma_literal_accepts(st, w, a, c, done, s);
        assert(st.accepts(s) <==> run_before(p, i, s));
    }
}

/// The invariant of the scan holds after each prefix of an accepted pattern.
pub proof fn lemma_scan_sound(p: Seq<char>, n: int, first: nat)
    requires
        0 <= n <= p.len(),
        syntax_error(p) is None,
    ensures
        sound(p, n, first),
    decreases n,
{
    if n == 0 {
        lemma_sound_start(p, first);
    } else {
        lemma_scan_sound(p, n - 1, first);
        lemma_no_error_at(p, n - 1);
        let c = p[n - 1];
        if c == '(' || c == '|' {
            lemma_sound_marker(p, n, first);
        } else if c == ')' {
            lemma_sound_close(p, n, first);
        } else {
            lemma_sound_literal(p, n, first);
        }
    }
}

} // verus!
