use regex_nfa::ids::IDAllocator;
use regex_nfa::nfa::{StateInner, Transition, NFA};
use regex_nfa::render::{char_label, digit_char, push_decimal, render_label};
use regex_nfa::token::Token;

#[test]
fn digits() {
    let all: String = (0..10).map(digit_char).collect();
    assert_eq!(all, "0123456789");
}

#[test]
fn numerals() {
    for n in [0usize, 7, 9, 10, 11, 99, 100, 101, 4096, 1234567890, usize::MAX] {
        let mut text = String::from("id ");
        push_decimal(&mut text, n);
        assert_eq!(text, format!("id {}", n));
    }
}

#[test]
fn labels() {
    assert_eq!(render_label(Transition::Epsilon), "Epsilon");
    assert_eq!(render_label(Transition::Char('a')), "Char('a')");
    assert_eq!(render_label(Transition::Char('\n')), "Char('\\n')");
    assert_eq!(render_label(Transition::Char('\'')), "Char('\\'')");
    assert_eq!(render_label(Transition::Char('é')), "Char('é')");
    assert_eq!(char_label("'x'"), "Char('x')");
    assert_eq!(char_label(""), "Char()");
}

#[test]
fn state_body() {
    let mut inner = StateInner::new(false);
    assert_eq!(inner.render(), "accepting: false ");
    inner.add_transition(Transition::Epsilon, 12);
    inner.add_transition(Transition::Char('z'), 3);
    assert_eq!(inner.render(), "accepting: false [Epsilon -> 12 ] [Char('z') -> 3 ] ");
    assert_eq!(StateInner::new(true).render(), "accepting: true ");
}

#[test]
fn dump_of_an_alternation() {
    let mut ids = IDAllocator::new();
    let nfa = NFA::new_from_token(
        &Token { value: "a|b".to_string(), kind: "char".to_string() },
        &mut ids,
    )
    .unwrap();
    let expected = "-------------------------------------\n\
                    Initial: 6\n\
                    3 accepting: false [Epsilon -> 4 ] \n\
                    4 accepting: false [Char('b') -> 5 ] \n\
                    5 accepting: true \n\
                    6 accepting: false [Epsilon -> 3 ] [Epsilon -> 0 ] \n\
                    0 accepting: false [Epsilon -> 1 ] \n\
                    1 accepting: false [Char('a') -> 2 ] \n\
                    2 accepting: true \n\
                    -------------------------------------\n";
    assert_eq!(nfa.render(), expected);
}

#[test]
fn dump_of_a_new_automaton() {
    let mut ids = IDAllocator::starting_at(10);
    let nfa = NFA::new(&mut ids).unwrap();
    assert_eq!(
        nfa.render(),
        "-------------------------------------\nInitial: 10\n10 accepting: false \n-------------------------------------\n"
    );
}
