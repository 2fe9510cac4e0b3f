//! The scan of a pattern as a mathematical function: an operator stack of
//! markers and an operand stack of automata, moved on by one character at a time.
//!
//! The scan starts inside one group that encloses the whole pattern, so there
//! is always a group to close at the end.

use vstd::prelude::*;
use crate::nfa::NfaView;
use crate::pattern::{first_error, open_groups, syntax_error};

verus! {

/// A marker on the operator stack.
#[derive(Clone, Copy, Debug, PartialEq, Eq, Structural)]
pub enum Symbol {
    /// A group was opened.
    LeftParen,
    /// An alternation waits for its second operand to be complete.
    Or,
}

/// The state of a scan between two characters.
pub struct Scan {
    /// The operator stack, its top last.
    pub symbols: Seq<Symbol>,
    /// The operand stack, its top last.
    pub operands: Seq<NfaView>,
    /// The identifier that the next new state gets.
    pub upcoming: nat,
}

impl Scan {
    /// The scan before the first character: the enclosing group is open and
    /// its first operand is a fresh automaton with the identifier `first`.
    pub open spec fn start(first: nat) -> Scan {
        Scan {
            symbols: seq![Symbol::LeftParen],
            operands: seq![NfaView::single(first)],
            upcoming: first + 1,
        }
    }

    /// A new marker, and with it a fresh automaton as a new operand.
    pub open spec fn begin(self, marker: Symbol) -> Scan {
        Scan {
            symbols: self.symbols.push(marker),
            operands: self.operands.push(NfaView::single(self.upcoming)),
            upcoming: self.upcoming + 1,
        }
    }

    /// A literal symbol: the operand on top is extended by it.
    pub open spec fn literal(self, c: char, accepting: bool) -> Scan {
        let k = self.operands.len() as int;
        Scan {
            symbols: self.symbols,
            operands: self.operands.update(
                k - 1,
                self.operands[k - 1].with_literal(c, self.upcoming, accepting),
            ),
            upcoming: self.upcoming + 2,
        }
    }

    /// One reduction: the alternation marker on top goes, and so do the two
    /// operands on top; the upper one merged with the lower one takes their place.
    pub open spec fn reduce_once(self) -> Scan {
        let k = self.operands.len() as int;
        Scan {
            symbols: self.symbols.drop_last(),
            operands: self.operands.take(k - 2).push(
                self.operands[k - 1].merge(self.operands[k - 2], self.upcoming),
            ),
            upcoming: self.upcoming + 1,
        }
    }

    /// Reductions for as long as an alternation marker is on top.
    pub open spec fn reduce(self) -> Scan
        decreases self.symbols.len(),
    {
        if self.symbols.len() > 0 && self.symbols.last() == Symbol::Or {
            self.reduce_once().reduce()
        } else {
            self
        }
    }

    /// Leaving a group whose alternatives are reduced: the marker of the group
    /// goes, and the operand on top, which is the value of the group, takes the
    /// place of the fresh operand that was on top when the group was opened.
    pub open spec fn leave(self) -> Scan {
        let k = self.operands.len() as int;
        Scan {
            symbols: self.symbols.drop_last(),
            operands: self.operands.take(k - 2).push(self.operands[k - 1]),
            upcoming: self.upcoming,
        }
    }

    /// The end of a group inside the pattern: its alternatives are reduced to
    /// one automaton, and the group is left.
    pub open spec fn close(self) -> Scan {
        self.reduce().leave()
    }

    /// The scan after the character `c`, of which `ends_term` says whether it
    /// is the last of its alternative.
    pub open spec fn step(self, c: char, ends_term: bool) -> Scan {
        if c == '(' {
            self.begin(Symbol::LeftParen)
        } else if c == '|' {
            self.begin(Symbol::Or)
        } else if c == ')' {
            self.close()
        } else {
            self.literal(c, ends_term)
        }
    }
}

/// Whether position `i` is the last of its alternative: the pattern ends
/// behind it, or a `|` or a `)` follows.
pub open spec fn ends_term(p: Seq<char>, i: int) -> bool {
    i + 1 >= p.len() || p[i + 1] == '|' || p[i + 1] == ')'
}

/// The scan after the first `n` characters of `p`, with `first` as the first
/// identifier.
pub open spec fn scan(p: Seq<char>, n: int, first: nat) -> Scan
    decreases n,
{
    if n <= 0 {
        Scan::start(first)
    } else {
        scan(p, n - 1, first).step(p[n - 1], ends_term(p, n - 1))
    }
}

/// The scan after the whole pattern and the reductions that close the
/// enclosing group.
pub open spec fn finished(p: Seq<char>, first: nat) -> Scan {
    scan(p, p.len() as int, first).reduce()
}

/// The automaton that the pattern `p` stands for when `first` is the first
/// identifier to be had: the operand that is left on top at the end.
pub open spec fn built(p: Seq<char>, first: nat) -> NfaView {
    finished(p, first).operands.last()
}

/// The first identifier that building `p` from `first` leaves unused.
pub open spec fn end_upcoming(p: Seq<char>, first: nat) -> nat {
    finished(p, first).upcoming
}

/// How many group markers the operator stack holds.
pub open spec fn groups(symbols: Seq<Symbol>) -> nat
    decreases symbols.len(),
{
    if symbols.len() == 0 {
        0
    } else {
        groups(symbols.drop_last()) + if symbols.last() == Symbol::LeftParen {
            1nat
        } else {
            0nat
        }
    }
}

impl Scan {
    /// The shape that every scan of an accepted pattern has: one operand for
    /// each marker, the marker of the enclosing group at the bottom, and no
    /// operand without a state.
    pub open spec fn shaped(self) -> bool {
        &&& self.symbols.len() == self.operands.len()
        &&& self.symbols.len() >= 1
        &&& self.symbols[0] == Symbol::LeftParen
        &&& forall|k: int|
            0 <= k < self.operands.len() ==> (#[trigger] self.operands[k]).states.len() >= 1
    }
}

/// Pushing a marker counts it, if it is a group marker.
pub proof fn lemma_groups_push(symbols: Seq<Symbol>, marker: Symbol)
    ensures
        groups(symbols.push(marker)) == groups(symbols) + if marker == Symbol::LeftParen {
            1nat
        } else {
            0nat
        },
{
    assert(symbols.push(marker).drop_last() =~= symbols);
}

/// A stack holds at least as many markers as group markers.
pub proof fn lemma_groups_bound(symbols: Seq<Symbol>)
    ensures
        groups(symbols) <= symbols.len(),
    decreases symbols.len(),
{
    if symbols.len() > 0 {
        lemma_groups_bound(symbols.drop_last());
    }
}

/// Reducing takes identifiers only upwards.
pub proof fn lemma_reduce_upcoming(st: Scan)
    ensures
        st.upcoming <= st.reduce().upcoming,
    decreases st.symbols.len(),
{
    if st.symbols.len() > 0 && st.symbols.last() == Symbol::Or {
        lemma_reduce_upcoming(st.reduce_once());
    }
}

/// Reducing keeps the shape and the group markers, and ends below a group
/// marker, where there is nothing more to reduce.
pub proof fn lemma_reduce_shaped(st: Scan)
    requires
        st.shaped(),
    ensures
        st.reduce().shaped(),
        groups(st.reduce().symbols) == groups(st.symbols),
        st.reduce().symbols.last() == Symbol::LeftParen,
        st.reduce().reduce() == st.reduce(),
    decreases st.symbols.len(),
{
    if st.symbols.last() == Symbol::Or {
        let r = st.reduce_once();
        assert(r.symbols[0] == st.symbols[0]);
        assert(r.shaped());
        lemma_reduce_shaped(r);
    }
}

/// Closing a group of the pattern keeps the shape and takes one group
/// marker; before its marker goes, the stacks hold two entries or more.
pub proof fn lemma_close_shaped(st: Scan)
    requires
        st.shaped(),
        groups(st.symbols) >= 2,
    ensures
        st.close().shaped(),
        groups(st.close().symbols) == groups(st.symbols) - 1,
        st.reduce().symbols.len() >= 2,
{
    lemma_reduce_shaped(st);
    let r = st.reduce();
    lemma_groups_bound(r.symbols);
    let c = st.close();
    assert(c.symbols[0] == r.symbols[0]);
}

/// The scan of a prefix without an offending character has the shape, and
/// one group marker more than the prefix leaves groups open.
pub proof fn lemma_scan_shaped(p: Seq<char>, n: int, first: nat)
    requires
        0 <= n <= p.len(),
        first_error(p, n) is None,
    ensures
        scan(p, n, first).shaped(),
        groups(scan(p, n, first).symbols) == open_groups(p, n).len() + 1,
    decreases n,
{
    if n <= 0 {
        let st = Scan::start(first);
        assert(st.symbols.drop_last() =~= Seq::<Symbol>::empty());
        assert(groups(st.symbols.drop_last()) == 0);
    } else {
        lemma_scan_shaped(p, n - 1, first);
        let st = scan(p, n - 1, first);
        let c = p[n - 1];
        if c == '(' {
            lemma_groups_push(st.symbols, Symbol::LeftParen);
        } else if c == '|' {
            lemma_groups_push(st.symbols, Symbol::Or);
        } else if c == ')' {
            lemma_close_shaped(st);
        } else {
        }
    }
}

/// A scan never hands an identifier out twice: the upcoming identifier only
/// grows along the pattern.
pub proof fn lemma_scan_upcoming(p: Seq<char>, n: int, m: int, first: nat)
    requires
        0 <= n <= m,
    ensures
        first < scan(p, n, first).upcoming <= scan(p, m, first).upcoming,
    decreases m,
{
    if n < m {
        lemma_scan_upcoming(p, n, m - 1, first);
        lemma_reduce_upcoming(scan(p, m - 1, first));
    } else if n > 0 {
        lemma_scan_upcoming(p, n - 1, n - 1, first);
        lemma_reduce_upcoming(scan(p, n - 1, first));
    }
}

/// A stack that begins with a group marker holds one group marker or more.
pub proof fn lemma_groups_first(symbols: Seq<Symbol>)
    requires
        symbols.len() >= 1,
        symbols[0] == Symbol::LeftParen,
    ensures
        groups(symbols) >= 1,
    decreases symbols.len(),
{
    if symbols.len() >= 2 {
        assert(symbols.drop_last()[0] == symbols[0]);
        lemma_groups_first(symbols.drop_last());
    }
}

/// At the end of an accepted pattern, once the alternatives of the enclosing
/// group are reduced, one marker and one operand are left.
pub proof fn lemma_one_operand_left(p: Seq<char>, first: nat)
    requires
        syntax_error(p) is None,
    ensures
        finished(p, first).shaped(),
        finished(p, first).symbols.len() == 1,
        finished(p, first).operands.len() == 1,
{
    let n = p.len() as int;
    let st = scan(p, n, first);
    lemma_scan_shaped(p, n, first);
    lemma_reduce_shaped(st);
    let symbols = st.reduce().symbols;
    if symbols.len() >= 2 {
        assert(symbols.drop_last()[0] == symbols[0]);
        lemma_groups_first(symbols.drop_last());
    }
}

} // verus!
