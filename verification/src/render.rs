//! A textual dump of an automaton, for diagnostics.

use vstd::prelude::*;
use vstd::string::*;
use crate::nfa::{NfaView, StateInner, StateView, Transition, NFA};

verus! {

/// The text that the standard library's `Debug` formatting gives for a
/// character: the character between single quotes, escaped where it has to be.
pub uninterp spec fn char_debug(c: char) -> Seq<char>;

/// Calls the standard library's `Debug` formatting of `char`, through
/// `format!`. The contract only gives the result its name: the formatting is a
/// function of the character alone.
#[verifier::external_body]
fn debug_char(c: char) -> (text: String)
    ensures
        text@ == char_debug(c),
{
    format!("{:?}", c)
}

/// Calls `String::push` of the standard library, which appends the character
/// to the end of the string.
#[verifier::external_body]
fn push_char(text: &mut String, c: char)
    ensures
        final(text)@ == old(text)@.push(c),
{
    text.push(c)
}

/// The decimal digit with the value `d`.
pub open spec fn digit(d: nat) -> char {
    if d == 0 {
        '0'
    } else if d == 1 {
        '1'
    } else if d == 2 {
        '2'
    } else if d == 3 {
        '3'
    } else if d == 4 {
        '4'
    } else if d == 5 {
        '5'
    } else if d == 6 {
        '6'
    } else if d == 7 {
        '7'
    } else if d == 8 {
        '8'
    } else {
        '9'
    }
}

/// The decimal numeral of `n`, without leading zeros.
pub open spec fn decimal(n: nat) -> Seq<char>
    decreases n,
{
    if n < 10 {
        seq![digit(n)]
    } else {
        decimal(n / 10).push(digit(n % 10))
    }
}

/// The decimal digit with the value `d`.
pub fn digit_char(d: usize) -> (c: char)
    requires
        d < 10,
    ensures
        c == digit(d as nat),
{
    if d == 0 {
        '0'
    } else if d == 1 {
        '1'
    } else if d == 2 {
        '2'
    } else if d == 3 {
        '3'
    } else if d == 4 {
        '4'
    } else if d == 5 {
        '5'
    } else if d == 6 {
        '6'
    } else if d == 7 {
        '7'
    } else if d == 8 {
        '8'
    } else {
        '9'
    }
}

/// Appends the decimal numeral of `n` to `text`.
pub fn push_decimal(text: &mut String, n: usize)
    ensures
        final(text)@ == old(text)@ + decimal(n as nat),
    decreases n,
{
    if n >= 10 {
        push_decimal(text, n / 10);
    }
    push_char(text, digit_char(n % 10));
    assert(text@ =~= old(text)@ + decimal(n as nat));
}

/// The text of a flag.
pub open spec fn flag_text(b: bool) -> Seq<char> {
    if b {
        "true"@
    } else {
        "false"@
    }
}

/// The text of the label of a transition on a symbol, given the text of the
/// symbol in quotes.
pub open spec fn char_label_text(quoted: Seq<char>) -> Seq<char> {
    "Char("@ + quoted + ")"@
}

/// The text of a label.
pub open spec fn label_text(label: Transition) -> Seq<char> {
    match label {
        Transition::Epsilon => "Epsilon"@,
        Transition::Char(c) => char_label_text(char_debug(c)),
    }
}

/// The text of one transition: its label and the identifier of its target.
pub open spec fn edge_text(edge: (Transition, nat)) -> Seq<char> {
    "["@ + label_text(edge.0) + " -> "@ + decimal(edge.1) + " ] "@
}

/// The texts of the transitions, one behind the other.
pub open spec fn edges_text(edges: Seq<(Transition, nat)>) -> Seq<char>
    decreases edges.len(),
{
    if edges.len() == 0 {
        Seq::empty()
    } else {
        edges_text(edges.drop_last()) + edge_text(edges.last())
    }
}

/// The text of what a state holds: its flag, then its transitions.
pub open spec fn inner_text(accepting: bool, edges: Seq<(Transition, nat)>) -> Seq<char> {
    "accepting: "@ + flag_text(accepting) + " "@ + edges_text(edges)
}

/// The line of a state: its identifier, what it holds, and a line break.
pub open spec fn line_text(state: StateView) -> Seq<char> {
    decimal(state.id) + " "@ + inner_text(state.accepting, state.transitions) + "\n"@
}

/// The lines of the states, one behind the other.
pub open spec fn lines_text(states: Seq<StateView>) -> Seq<char>
    decreases states.len(),
{
    if states.len() == 0 {
        Seq::empty()
    } else {
        lines_text(states.drop_last()) + line_text(states.last())
    }
}

/// The line that opens and closes the dump.
pub open spec fn rule_text() -> Seq<char> {
    "-------------------------------------\n"@
}

/// The dump of an automaton: between two rules, the identifier of the
/// initial state and one line for each state.
pub open spec fn nfa_text(nfa: NfaView) -> Seq<char> {
    rule_text() + "Initial: "@ + decimal(nfa.initial) + "\n"@ + lines_text(nfa.states)
        + rule_text()
}

/// The text of the label of a transition on a symbol whose text in quotes
/// is `quoted`.
pub fn char_label(quoted: &str) -> (text: String)
    ensures
        text@ == char_label_text(quoted@),
{
    let mut text = String::from_str("Char(");
    text.append(quoted);
    text.append(")");
    text
}

/// The text of a label.
pub fn render_label(label: Transition) -> (text: String)
    ensures
        text@ == label_text(label),
{
    match label {
        Transition::Epsilon => String::from_str("Epsilon"),
        Transition::Char(c) => {
            let quoted = debug_char(c);
            char_label(quoted.as_str())
        },
    }
}

impl StateInner {
    /// The text of what the state holds: `accepting: `, the flag and a blank;
    /// then for each transition its label and the identifier of its target as
    /// `[label -> target ] `.
    pub fn render(&self) -> (text: String)
        ensures
            text@ == inner_text(self.accepting, self.edges()),
    {
        let mut text = String::from_str("accepting: ");
        text.append(if self.accepting {
            "true"
        } else {
            "false"
        });
        text.append(" ");
        let ghost head = text@;
        let n = self.transitions.len();
        let mut k: usize = 0;
        while k < n
            invariant
                n == self.transitions@.len(),
                k <= n,
                text@ == head + edges_text(self.edges().take(k as int)),
            decreases n - k,
        {
            let ghost before = text@;
            let (label, to) = self.transitions[k];
            let label_string = render_label(label);
            text.append("[");
            text.append(label_string.as_str());
            text.append(" -> ");
            push_decimal(&mut text, to);
            text.append(" ] ");
            proof {
                let done = self.edges().take(k as int + 1);
                assert(done.drop_last() =~= self.edges().take(k as int));
                assert(done.last() == (label, to as nat));
                assert(text@ =~= before + edge_text((label, to as nat)));
                assert(text@ =~= head + edges_text(done));
            }
            k += 1;
        }
        assert(self.edges().take(n as int) =~= self.edges());
        text
    }
}

impl NFA {
    /// The dump of the automaton: a rule, `Initial: ` with the identifier of
    /// the initial state, one line for each state with its identifier and what
    /// it holds, and a rule.
    pub fn render(&self) -> (text: String)
        ensures
            text@ == nfa_text(self@),
    {
        let mut text = String::from_str("-------------------------------------\n");
        text.append("Initial: ");
        push_decimal(&mut text, self.initial());
        text.append("\n");
        let ghost head = text@;
        let states = self.states();
        let n = states.len();
        let mut i: usize = 0;
        while i < n
            invariant
                n == states@.len(),
                n == self@.states.len(),
                i <= n,
                forall|j: int| 0 <= j < n ==> (#[trigger] states@[j])@ == self@.states[j],
                text@ == head + lines_text(self@.states.take(i as int)),
            decreases n - i,
        {
            let ghost before = text@;
            let state = &states[i];
            let body = state.inner.render();
            push_decimal(&mut text, state.id);
            text.append(" ");
            text.append(body.as_str());
            text.append("\n");
            proof {
                let done = self@.states.take(i as int + 1);
                assert(done.drop_last() =~= self@.states.take(i as int));
                assert(done.last() == state@);
                assert(text@ =~= before + line_text(state@));
                assert(text@ =~= head + lines_text(done));
            }
            i += 1;
        }
        assert(self@.states.take(n as int) =~= self@.states);
        text.append("-------------------------------------\n");
        assert(text@ =~= nfa_text(self@));
        text
    }
}

} // verus!
