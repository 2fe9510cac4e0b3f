use regex_nfa::error::BuildError;
use regex_nfa::ids::IDAllocator;
use regex_nfa::nfa::{State, StateInner, Transition, NFA};

#[test]
fn allocator_counts_up_from_zero() {
    let mut ids = IDAllocator::new();
    assert_eq!(ids.peek(), 0);
    assert_eq!(ids.next(), Ok(0));
    assert_eq!(ids.next(), Ok(1));
    assert_eq!(ids.next(), Ok(2));
    assert_eq!(ids.peek(), 3);
}

#[test]
fn allocator_hands_out_distinct_increasing_identifiers() {
    let mut ids = IDAllocator::starting_at(40);
    let mut last = ids.next().unwrap();
    assert_eq!(last, 40);
    for _ in 0..100 {
        let id = ids.next().unwrap();
        assert!(id > last);
        last = id;
    }
}

#[test]
fn allocator_is_exhausted_at_the_largest_integer() {
    let mut ids = IDAllocator::starting_at(usize::MAX - 1);
    assert_eq!(ids.next(), Ok(usize::MAX - 1));
    assert_eq!(ids.next(), Err(BuildError::AllocatorExhausted));
    assert_eq!(ids.next(), Err(BuildError::AllocatorExhausted));
    assert_eq!(ids.peek(), usize::MAX);
}

#[test]
fn state_inner_starts_without_transitions() {
    let inner = StateInner::new(true);
    assert!(inner.accepting);
    assert!(inner.transitions.is_empty());
    let inner = StateInner::new(false);
    assert!(!inner.accepting);
}

#[test]
fn state_inner_appends_transitions_in_order() {
    let mut inner = StateInner::new(false);
    inner.add_transition(Transition::Epsilon, 4);
    inner.add_transition(Transition::Char('x'), 9);
    assert_eq!(inner.transitions, vec![(Transition::Epsilon, 4), (Transition::Char('x'), 9)]);
    assert!(!inner.accepting);
}

#[test]
fn state_takes_the_next_identifier() {
    let mut ids = IDAllocator::starting_at(7);
    let state = State::new(&mut ids, true).unwrap();
    assert_eq!(state.id, 7);
    assert!(state.inner.accepting);
    assert!(state.inner.transitions.is_empty());
    assert_eq!(ids.peek(), 8);
    let mut ids = IDAllocator::starting_at(usize::MAX);
    assert_eq!(State::new(&mut ids, true).unwrap_err(), BuildError::AllocatorExhausted);
}

#[test]
fn new_automaton_has_one_state() {
    let mut ids = IDAllocator::starting_at(3);
    let nfa = NFA::new(&mut ids).unwrap();
    assert_eq!(nfa.states().len(), 1);
    assert_eq!(nfa.initial(), 3);
    assert_eq!(nfa.states()[0].id, 3);
    assert!(!nfa.states()[0].inner.accepting);
    assert!(nfa.states()[0].inner.transitions.is_empty());
    let mut ids = IDAllocator::starting_at(usize::MAX);
    assert_eq!(NFA::new(&mut ids).unwrap_err(), BuildError::AllocatorExhausted);
}

#[test]
fn add_state_appends_and_returns_the_identifier() {
    let mut ids = IDAllocator::new();
    let mut nfa = NFA::new(&mut ids).unwrap();
    assert_eq!(nfa.add_state(&mut ids, true), Ok(1));
    assert_eq!(nfa.add_state(&mut ids, false), Ok(2));
    let flags: Vec<(usize, bool)> =
        nfa.states().iter().map(|s| (s.id, s.inner.accepting)).collect();
    assert_eq!(flags, vec![(0, false), (1, true), (2, false)]);
    assert_eq!(nfa.initial(), 0);
    let mut none = IDAllocator::starting_at(usize::MAX);
    assert_eq!(nfa.add_state(&mut none, true), Err(BuildError::AllocatorExhausted));
    assert_eq!(nfa.states().len(), 3);
}

#[test]
fn add_transition_appends_to_the_state_at_the_position() {
    let mut ids = IDAllocator::new();
    let mut nfa = NFA::new(&mut ids).unwrap();
    nfa.add_state(&mut ids, true).unwrap();
    nfa.add_transition(0, Transition::Char('q'), 1);
    nfa.add_transition(0, Transition::Epsilon, 0);
    assert_eq!(
        nfa.states()[0].inner.transitions,
        vec![(Transition::Char('q'), 1), (Transition::Epsilon, 0)]
    );
    assert!(nfa.states()[1].inner.transitions.is_empty());
}

fn word(ids: &mut IDAllocator, c: char) -> NFA {
    let mut nfa = NFA::new(ids).unwrap();
    let end = nfa.add_state(ids, true).unwrap();
    nfa.add_transition(0, Transition::Char(c), end);
    nfa
}

#[test]
fn connect_other_wires_accepting_states_to_the_second_automaton() {
    let mut ids = IDAllocator::new();
    let mut first = word(&mut ids, 'a');
    let second = word(&mut ids, 'b');
    first.connect_other(second);
    let ids_in_order: Vec<usize> = first.states().iter().map(|s| s.id).collect();
    assert_eq!(ids_in_order, vec![0, 1, 2, 3]);
    assert_eq!(first.initial(), 0);
    let flags: Vec<bool> = first.states().iter().map(|s| s.inner.accepting).collect();
    assert_eq!(flags, vec![false, false, false, true]);
    assert_eq!(first.states()[0].inner.transitions, vec![(Transition::Char('a'), 1)]);
    assert_eq!(first.states()[1].inner.transitions, vec![(Transition::Epsilon, 2)]);
    assert_eq!(first.states()[2].inner.transitions, vec![(Transition::Char('b'), 3)]);
    assert!(first.states()[3].inner.transitions.is_empty());
}

#[test]
fn connect_other_leaves_no_state_of_the_first_automaton_accepting() {
    let mut ids = IDAllocator::new();
    let mut first = NFA::new(&mut ids).unwrap();
    first.add_state(&mut ids, true).unwrap();
    first.add_state(&mut ids, true).unwrap();
    first.add_state(&mut ids, false).unwrap();
    let second = NFA::new(&mut ids).unwrap();
    first.connect_other(second);
    assert!(first.states().iter().all(|s| !s.inner.accepting));
    assert_eq!(first.states()[1].inner.transitions, vec![(Transition::Epsilon, 4)]);
    assert_eq!(first.states()[2].inner.transitions, vec![(Transition::Epsilon, 4)]);
    assert!(first.states()[0].inner.transitions.is_empty());
    assert!(first.states()[3].inner.transitions.is_empty());
    assert_eq!(first.states().len(), 5);
}

#[test]
fn merge_other_adds_a_new_initial_state() {
    let mut ids = IDAllocator::new();
    let mut first = word(&mut ids, 'a');
    let second = word(&mut ids, 'b');
    assert_eq!(first.merge_other(second, &mut ids), Ok(()));
    let ids_in_order: Vec<usize> = first.states().iter().map(|s| s.id).collect();
    assert_eq!(ids_in_order, vec![0, 1, 4, 2, 3]);
    assert_eq!(first.initial(), 4);
    assert_eq!(
        first.states()[2].inner.transitions,
        vec![(Transition::Epsilon, 0), (Transition::Epsilon, 2)]
    );
    assert!(!first.states()[2].inner.accepting);
    let flags: Vec<bool> = first.states().iter().map(|s| s.inner.accepting).collect();
    assert_eq!(flags, vec![false, true, false, false, true]);
}

#[test]
fn merge_other_fails_without_an_identifier() {
    let mut ids = IDAllocator::new();
    let mut first = word(&mut ids, 'a');
    let second = word(&mut ids, 'b');
    let mut none = IDAllocator::starting_at(usize::MAX);
    assert_eq!(first.merge_other(second, &mut none), Err(BuildError::AllocatorExhausted));
    assert_eq!(first.states().len(), 2);
    assert_eq!(first.initial(), 0);
}

#[test]
fn states_compare_by_identifier() {
    let mut ids = IDAllocator::new();
    let first = State::new(&mut ids, false).unwrap();
    let mut second = State::new(&mut ids, true).unwrap();
    assert!(first < second);
    assert!(second > first);
    assert!(first != second);
    assert!(first == first);
    second.id = 0;
    assert!(first == second);
    assert!(first <= second && first >= second);
}
