use regex_nfa::counting::count_ids;
use regex_nfa::error::{BuildError, SyntaxReason};
use regex_nfa::ids::IDAllocator;
use regex_nfa::nfa::{State, Transition, NFA};
use regex_nfa::token::Token;

fn token(value: &str) -> Token {
    Token { value: value.to_string(), kind: "char".to_string() }
}

fn build(value: &str) -> Result<NFA, BuildError> {
    let mut ids = IDAllocator::new();
    NFA::new_from_token(&token(value), &mut ids)
}

fn state_of(nfa: &NFA, id: usize) -> &State {
    nfa.states().iter().find(|s| s.id == id).unwrap()
}

fn closure(nfa: &NFA, mut set: Vec<usize>) -> Vec<usize> {
    let mut i = 0;
    while i < set.len() {
        let id = set[i];
        for (label, to) in state_of(nfa, id).inner.transitions.iter() {
            if *label == Transition::Epsilon && !set.contains(to) {
                set.push(*to);
            }
        }
        i += 1;
    }
    set
}

fn accepts(nfa: &NFA, input: &str) -> bool {
    let mut current = closure(nfa, vec![nfa.initial()]);
    for c in input.chars() {
        let mut next = Vec::new();
        for id in current.iter() {
            for (label, to) in state_of(nfa, *id).inner.transitions.iter() {
                if *label == Transition::Char(c) && !next.contains(to) {
                    next.push(*to);
                }
            }
        }
        current = closure(nfa, next);
    }
    current.iter().any(|id| state_of(nfa, *id).inner.accepting)
}

fn reachable(nfa: &NFA) -> Vec<usize> {
    let mut set = vec![nfa.initial()];
    let mut i = 0;
    while i < set.len() {
        let id = set[i];
        for (_, to) in state_of(nfa, id).inner.transitions.iter() {
            if !set.contains(to) {
                set.push(*to);
            }
        }
        i += 1;
    }
    set
}

#[test]
fn test_nfa() {
    let mut ids = IDAllocator::new();
    let nfa = NFA::new_from_token(
        &Token { value: "a|b".to_string(), kind: "char".to_string() },
        &mut ids,
    )
    .unwrap();
    for state in nfa.states().iter() {
        println!("{}", state.inner.render());
    }
}

#[test]
fn alternation_of_two_literals_has_the_expected_graph() {
    let nfa = build("a|b").unwrap();
    let states = nfa.states();
    let ids: Vec<usize> = states.iter().map(|s| s.id).collect();
    assert_eq!(ids, vec![3, 4, 5, 6, 0, 1, 2]);
    assert_eq!(nfa.initial(), 6);
    assert_eq!(
        states[3].inner.transitions,
        vec![(Transition::Epsilon, 3), (Transition::Epsilon, 0)]
    );
    assert_eq!(states[0].inner.transitions, vec![(Transition::Epsilon, 4)]);
    assert_eq!(states[1].inner.transitions, vec![(Transition::Char('b'), 5)]);
    assert_eq!(states[2].inner.transitions, vec![]);
    assert_eq!(states[4].inner.transitions, vec![(Transition::Epsilon, 1)]);
    assert_eq!(states[5].inner.transitions, vec![(Transition::Char('a'), 2)]);
    assert_eq!(states[6].inner.transitions, vec![]);
    let accepting: Vec<usize> =
        states.iter().filter(|s| s.inner.accepting).map(|s| s.id).collect();
    assert_eq!(accepting, vec![5, 2]);
}

#[test]
fn literal_pattern_accepts_exactly_itself() {
    let nfa = build("abc").unwrap();
    assert!(accepts(&nfa, "abc"));
    for other in ["", "a", "ab", "abcd", "abd", "bc", "abcabc"] {
        assert!(!accepts(&nfa, other), "{:?}", other);
    }
}

#[test]
fn literal_pattern_is_one_chain() {
    let nfa = build("abc").unwrap();
    let states = nfa.states();
    assert_eq!(states.len(), 7);
    assert_eq!(nfa.initial(), 0);
    for (j, state) in states.iter().enumerate() {
        assert_eq!(state.id, j);
        assert_eq!(state.inner.accepting, j == 6);
    }
    assert_eq!(states[0].inner.transitions, vec![(Transition::Epsilon, 1)]);
    assert_eq!(states[1].inner.transitions, vec![(Transition::Char('a'), 2)]);
    assert_eq!(states[2].inner.transitions, vec![(Transition::Epsilon, 3)]);
    assert_eq!(states[3].inner.transitions, vec![(Transition::Char('b'), 4)]);
    assert_eq!(states[4].inner.transitions, vec![(Transition::Epsilon, 5)]);
    assert_eq!(states[5].inner.transitions, vec![(Transition::Char('c'), 6)]);
    assert_eq!(states[6].inner.transitions, vec![]);
}

#[test]
fn alternation_accepts_exactly_its_words() {
    let nfa = build("a|b|c").unwrap();
    for word in ["a", "b", "c"] {
        assert!(accepts(&nfa, word));
    }
    for other in ["", "ab", "d", "abc", "a|b", "|"] {
        assert!(!accepts(&nfa, other), "{:?}", other);
    }
}

#[test]
fn nested_group_accepts_exactly_its_words() {
    let nfa = build("(ab|cd)").unwrap();
    assert!(accepts(&nfa, "ab"));
    assert!(accepts(&nfa, "cd"));
    for other in ["", "a", "abcd", "ad", "cb", "(ab|cd)"] {
        assert!(!accepts(&nfa, other), "{:?}", other);
    }
}

#[test]
fn group_leaves_the_first_identifier_unused() {
    let mut ids = IDAllocator::new();
    let grouped = NFA::new_from_token(&token("(ab|cd)"), &mut ids).unwrap();
    let mut later = IDAllocator::starting_at(1);
    let plain = NFA::new_from_token(&token("ab|cd"), &mut later).unwrap();
    assert_eq!(grouped.render(), plain.render());
    assert_eq!(ids.peek(), later.peek());
}

#[test]
fn group_as_one_alternative() {
    let nfa = build("a|(b|c)|((d))").unwrap();
    for word in ["a", "b", "c", "d"] {
        assert!(accepts(&nfa, word));
    }
    for other in ["", "ab", "bc", "e"] {
        assert!(!accepts(&nfa, other), "{:?}", other);
    }
    let mut seen = reachable(&nfa);
    seen.sort();
    let mut all: Vec<usize> = nfa.states().iter().map(|s| s.id).collect();
    all.sort();
    assert_eq!(seen, all);
}

#[test]
fn three_words_give_three_disjoint_chains() {
    let nfa = build("aaaa|bbbd|cc").unwrap();
    for word in ["aaaa", "bbbd", "cc"] {
        assert!(accepts(&nfa, word));
    }
    for other in ["", "aaa", "aaaaa", "bbbb", "c", "ccc", "aaaabbbd", "aaaa|bbbd"] {
        assert!(!accepts(&nfa, other), "{:?}", other);
    }
    // three chains of 9, 9 and 5 states and two merge states
    assert_eq!(nfa.states().len(), 9 + 9 + 5 + 2);
    let initial = state_of(&nfa, nfa.initial());
    assert_eq!(initial.inner.transitions.len(), 2);
    assert!(initial.inner.transitions.iter().all(|(label, _)| *label == Transition::Epsilon));
    let starts = closure(&nfa, vec![nfa.initial()]);
    let first_symbols: Vec<char> = starts
        .iter()
        .flat_map(|id| state_of(&nfa, *id).inner.transitions.iter())
        .filter_map(|(label, _)| match label {
            Transition::Char(c) => Some(*c),
            Transition::Epsilon => None,
        })
        .collect();
    assert_eq!(first_symbols.len(), 3);
    for c in ['a', 'b', 'c'] {
        assert!(first_symbols.contains(&c));
    }
}

#[test]
fn two_symbols_give_two_accepting_paths_of_one_symbol() {
    let nfa = build("a|b").unwrap();
    let accepting: Vec<&State> = nfa.states().iter().filter(|s| s.inner.accepting).collect();
    assert_eq!(accepting.len(), 2);
    let mut symbols = Vec::new();
    for state in nfa.states().iter() {
        for (label, to) in state.inner.transitions.iter() {
            if let Transition::Char(c) = label {
                assert!(state_of(&nfa, *to).inner.accepting);
                symbols.push(*c);
            }
        }
    }
    symbols.sort();
    assert_eq!(symbols, vec!['a', 'b']);
    assert!(accepts(&nfa, "a"));
    assert!(accepts(&nfa, "b"));
    assert!(!accepts(&nfa, "ab"));
    assert!(!accepts(&nfa, ""));
}

#[test]
fn group_of_two_symbols_is_one_chain() {
    let nfa = build("(ab)").unwrap();
    let accepting: Vec<usize> =
        nfa.states().iter().filter(|s| s.inner.accepting).map(|s| s.id).collect();
    assert_eq!(accepting, vec![5]);
    assert_eq!(nfa.initial(), 1);
    assert_eq!(state_of(&nfa, 2).inner.transitions, vec![(Transition::Char('a'), 3)]);
    assert_eq!(state_of(&nfa, 3).inner.transitions, vec![(Transition::Epsilon, 4)]);
    assert_eq!(state_of(&nfa, 4).inner.transitions, vec![(Transition::Char('b'), 5)]);
    assert!(accepts(&nfa, "ab"));
    assert!(!accepts(&nfa, "a"));
    assert!(!accepts(&nfa, "b"));
    assert!(!accepts(&nfa, ""));
}

#[test]
fn every_state_is_reachable_and_identifiers_are_distinct() {
    for pattern in ["", "a", "abc", "a|b|c", "(ab|cd)", "aaaa|bbbd|cc", "()", "a|()", "((a)|b)|c"] {
        let nfa = build(pattern).unwrap();
        let mut all: Vec<usize> = nfa.states().iter().map(|s| s.id).collect();
        all.sort();
        let mut unique = all.clone();
        unique.dedup();
        assert_eq!(all, unique, "{:?}", pattern);
        let mut seen = reachable(&nfa);
        seen.sort();
        assert_eq!(seen, all, "{:?}", pattern);
        assert!(all.contains(&nfa.initial()));
    }
}

#[test]
fn empty_pattern_gives_one_state_that_accepts_nothing() {
    let mut ids = IDAllocator::new();
    let nfa = NFA::new_from_token(&token(""), &mut ids).unwrap();
    assert_eq!(nfa.states().len(), 1);
    assert_eq!(nfa.initial(), 0);
    assert!(!nfa.states()[0].inner.accepting);
    assert!(nfa.states()[0].inner.transitions.is_empty());
    assert!(!accepts(&nfa, ""));
    assert!(!accepts(&nfa, "a"));
    assert_eq!(ids.peek(), 1);
}

#[test]
fn empty_group_accepts_nothing() {
    let nfa = build("()").unwrap();
    assert_eq!(nfa.states().len(), 1);
    assert_eq!(nfa.initial(), 1);
    assert!(!accepts(&nfa, ""));
}

#[test]
fn a_build_takes_one_identifier_for_each_state_it_makes() {
    // one for the start, two for each literal symbol, two for each alternation
    let mut ids = IDAllocator::new();
    let nfa = NFA::new_from_token(&token("a|b"), &mut ids).unwrap();
    assert_eq!(ids.peek(), 7);
    assert_eq!(nfa.states().len(), 7);
    // a group takes one more, for the operand that it displaces
    let mut ids = IDAllocator::starting_at(10);
    let nfa = NFA::new_from_token(&token("(ab)"), &mut ids).unwrap();
    assert_eq!(ids.peek(), 16);
    assert_eq!(nfa.states().len(), 5);
}

#[test]
fn later_builds_get_greater_identifiers() {
    let mut ids = IDAllocator::new();
    let first = NFA::new_from_token(&token("ab|c"), &mut ids).unwrap();
    let second = NFA::new_from_token(&token("(d|e)"), &mut ids).unwrap();
    let greatest = first.states().iter().map(|s| s.id).max().unwrap();
    let least = second.states().iter().map(|s| s.id).min().unwrap();
    assert!(greatest < least);
}

#[test]
fn unbalanced_open_paren_is_a_syntax_error() {
    assert_eq!(
        build("(a").unwrap_err(),
        BuildError::Syntax { index: 0, reason: SyntaxReason::UnclosedGroup }
    );
    assert_eq!(
        build("a|((b)").unwrap_err(),
        BuildError::Syntax { index: 2, reason: SyntaxReason::UnclosedGroup }
    );
    assert_eq!(
        build("((a").unwrap_err(),
        BuildError::Syntax { index: 1, reason: SyntaxReason::UnclosedGroup }
    );
}

#[test]
fn unmatched_close_paren_is_a_syntax_error() {
    assert_eq!(
        build("a)").unwrap_err(),
        BuildError::Syntax { index: 1, reason: SyntaxReason::UnmatchedClose }
    );
    assert_eq!(
        build(")").unwrap_err(),
        BuildError::Syntax { index: 0, reason: SyntaxReason::UnmatchedClose }
    );
    assert_eq!(
        build("(a))").unwrap_err(),
        BuildError::Syntax { index: 3, reason: SyntaxReason::UnmatchedClose }
    );
}

#[test]
fn leading_alternation_is_a_syntax_error() {
    assert_eq!(
        build("|a").unwrap_err(),
        BuildError::Syntax { index: 0, reason: SyntaxReason::LeadingAlternation }
    );
    assert_eq!(
        build("a|(|b)").unwrap_err(),
        BuildError::Syntax { index: 3, reason: SyntaxReason::LeadingAlternation }
    );
}

#[test]
fn trailing_alternation_is_a_syntax_error() {
    assert_eq!(
        build("a|").unwrap_err(),
        BuildError::Syntax { index: 1, reason: SyntaxReason::TrailingAlternation }
    );
    assert_eq!(
        build("(a|)").unwrap_err(),
        BuildError::Syntax { index: 2, reason: SyntaxReason::TrailingAlternation }
    );
    assert_eq!(
        build("a||b").unwrap_err(),
        BuildError::Syntax { index: 1, reason: SyntaxReason::TrailingAlternation }
    );
}

#[test]
fn group_beside_a_symbol_is_a_syntax_error() {
    assert_eq!(
        build("a(b)").unwrap_err(),
        BuildError::Syntax { index: 1, reason: SyntaxReason::GroupInSequence }
    );
    assert_eq!(
        build("(a)b").unwrap_err(),
        BuildError::Syntax { index: 3, reason: SyntaxReason::GroupInSequence }
    );
    assert_eq!(
        build("(a)(b)").unwrap_err(),
        BuildError::Syntax { index: 3, reason: SyntaxReason::GroupInSequence }
    );
}

#[test]
fn character_class_is_unsupported() {
    assert_eq!(
        build("[0-9]+").unwrap_err(),
        BuildError::UnsupportedConstruct { index: 0, character: '[' }
    );
}

#[test]
fn each_unsupported_character_is_named_with_its_position() {
    for c in ['[', ']', '*', '+', '?', '\\', '^', '$'] {
        let pattern = format!("ab{}", c);
        assert_eq!(
            build(&pattern).unwrap_err(),
            BuildError::UnsupportedConstruct { index: 2, character: c }
        );
    }
}

#[test]
fn the_first_offending_character_decides() {
    assert_eq!(
        build("a)*").unwrap_err(),
        BuildError::Syntax { index: 1, reason: SyntaxReason::UnmatchedClose }
    );
    assert_eq!(
        build("(a*").unwrap_err(),
        BuildError::UnsupportedConstruct { index: 2, character: '*' }
    );
    assert_eq!(
        build("a|*").unwrap_err(),
        BuildError::UnsupportedConstruct { index: 2, character: '*' }
    );
}

#[test]
fn position_counts_characters_not_bytes() {
    assert_eq!(
        build("é|ü)").unwrap_err(),
        BuildError::Syntax { index: 3, reason: SyntaxReason::UnmatchedClose }
    );
    let nfa = build("é|ü").unwrap();
    assert!(accepts(&nfa, "é"));
    assert!(accepts(&nfa, "ü"));
}

#[test]
fn a_rejected_pattern_takes_no_identifier() {
    let mut ids = IDAllocator::starting_at(5);
    assert!(NFA::new_from_token(&token("ab(c"), &mut ids).is_err());
    assert_eq!(ids.peek(), 5);
}

#[test]
fn build_fails_when_identifiers_run_out() {
    // "a|b" needs seven identifiers
    let mut ids = IDAllocator::starting_at(usize::MAX - 6);
    assert_eq!(
        NFA::new_from_token(&token("a|b"), &mut ids).unwrap_err(),
        BuildError::AllocatorExhausted
    );
    assert_eq!(ids.peek(), usize::MAX - 6);
    let mut ids = IDAllocator::starting_at(usize::MAX - 7);
    let nfa = NFA::new_from_token(&token("a|b"), &mut ids).unwrap();
    assert_eq!(ids.peek(), usize::MAX);
    assert_eq!(nfa.initial(), usize::MAX - 1);
    let mut ids = IDAllocator::starting_at(usize::MAX);
    assert_eq!(
        NFA::new_from_token(&token(""), &mut ids).unwrap_err(),
        BuildError::AllocatorExhausted
    );
}

#[test]
fn new_from_pattern_takes_characters() {
    let mut ids = IDAllocator::new();
    let pattern: Vec<char> = "ab|c".chars().collect();
    let nfa = NFA::new_from_pattern(&pattern, &mut ids).unwrap();
    assert!(accepts(&nfa, "ab"));
    assert!(accepts(&nfa, "c"));
    assert!(!accepts(&nfa, "abc"));
}

#[test]
fn identifiers_are_counted_before_the_build() {
    let count = |pattern: &str| count_ids(&pattern.chars().collect());
    assert_eq!(count(""), Some(1));
    assert_eq!(count("a"), Some(3));
    assert_eq!(count("a|b"), Some(7));
    assert_eq!(count("(ab)"), Some(6));
    assert_eq!(count("aaaa|bbbd|cc"), Some(1 + 2 * 10 + 2 * 2));
    assert_eq!(count("a|(b|c)|((d))"), Some(1 + 2 * 4 + 2 * 3 + 3));
    for pattern in ["", "a", "a|b", "(ab)", "aaaa|bbbd|cc", "a|(b|c)|((d))"] {
        let mut ids = IDAllocator::starting_at(100);
        NFA::new_from_token(&token(pattern), &mut ids).unwrap();
        assert_eq!(Some(ids.peek() - 100), count(pattern), "{:?}", pattern);
    }
}
