use automata::{Automaton, ReverseAutomaton, ReverseState, State};

fn binary<'a>() -> Automaton<'a> {
    let mut automaton = Automaton::new();
    automaton.add_state(State::new(vec![("0", 1), ("1", 0)], false));
    automaton.add_state(State::new(vec![("0", 1), ("1", 0)], true));
    automaton
}

fn parents(reverse: &ReverseAutomaton, index: usize) -> Vec<(usize, String)> {
    let state = reverse.state(index);
    (0..state.len())
        .map(|i| {
            let (source, token) = state.parent(i);
            (source, token.to_string())
        })
        .collect()
}

#[test]
fn every_edge_is_turned_round() {
    let automaton = binary();
    let reverse = ReverseAutomaton::from_automaton(&automaton);
    assert_eq!(reverse.len(), 2);
    assert_eq!(
        parents(&reverse, 0),
        vec![(0, "1".to_string()), (1, "1".to_string())]
    );
    assert_eq!(
        parents(&reverse, 1),
        vec![(0, "0".to_string()), (1, "0".to_string())]
    );
    assert_eq!(reverse.accepting_indices(), &vec![1]);
}

#[test]
fn edges_come_by_source_and_then_by_token() {
    let mut automaton = Automaton::new();
    automaton.add_state(State::new(vec![("b", 1), ("a", 1), ("c", 0)], true));
    automaton.add_state(State::new(vec![("z", 1), ("y", 0), ("ab", 1)], true));
    let reverse = ReverseAutomaton::from_automaton(&automaton);
    assert_eq!(
        parents(&reverse, 0),
        vec![(0, "c".to_string()), (1, "y".to_string())]
    );
    assert_eq!(
        parents(&reverse, 1),
        vec![
            (0, "a".to_string()),
            (0, "b".to_string()),
            (1, "ab".to_string()),
            (1, "z".to_string())
        ]
    );
    assert_eq!(reverse.accepting_indices(), &vec![0, 1]);
}

#[test]
fn edges_from_one_state_come_by_token_whatever_the_order_given() {
    let mut one = Automaton::new();
    one.add_state(State::new(vec![("b", 0), ("a", 0)], true));
    let mut other = Automaton::new();
    other.add_state(State::new(vec![("a", 0), ("b", 0)], true));
    let first = ReverseAutomaton::from_automaton(&one);
    let second = ReverseAutomaton::from_automaton(&other);
    assert_eq!(
        parents(&first, 0),
        vec![(0, "a".to_string()), (0, "b".to_string())]
    );
    assert_eq!(parents(&first, 0), parents(&second, 0));
    assert_eq!(
        first.enumerate_language_bounded(2).words,
        vec!["", "a", "b", "aa", "ba", "ab", "bb"]
    );
    assert_eq!(
        first.enumerate_language_bounded(2).words,
        second.enumerate_language_bounded(2).words
    );
}

#[test]
fn transitions_are_kept_in_the_order_of_their_tokens() {
    let state = State::new(vec![("b", 1), ("a", 0)], true);
    assert!(state.is_accepting());
    assert_eq!(state.len(), 2);
    assert_eq!(state.transition(0), ("a", 0));
    assert_eq!(state.transition(1), ("b", 1));
    let tokens = vec![
        ("b", 0),
        ("ab", 1),
        ("", 2),
        ("a", 3),
        ("é", 4),
        ("B", 5),
        ("日", 6),
        ("ab", 7),
    ];
    let state = State::new(tokens.clone(), false);
    let mut sorted: Vec<(&str, usize)> = tokens[..7].to_vec();
    sorted[1] = ("ab", 7);
    sorted.sort();
    assert_eq!(state.len(), sorted.len());
    for (i, pair) in sorted.iter().enumerate() {
        assert_eq!(state.transition(i), *pair);
    }
    assert_eq!(state.transition(0), ("", 2));
    assert_eq!(state.transition(1), ("B", 5));
    assert_eq!(state.transition(2), ("a", 3));
    assert_eq!(state.transition(3), ("ab", 7));
    assert_eq!(state.transition(6), ("日", 6));
    assert_eq!(state.lookup("ab"), Some(7));
}

#[test]
fn reverse_of_no_states_is_empty() {
    let automaton = Automaton::new();
    let reverse = ReverseAutomaton::from_automaton(&automaton);
    assert_eq!(reverse.len(), 0);
    assert!(reverse.accepting_indices().is_empty());
    assert_eq!(reverse.enumerate_language(), Some(vec![]));
}

#[test]
fn a_repeated_token_is_one_edge() {
    let state = State::new(vec![("a", 0), ("b", 0), ("a", 1)], false);
    assert_eq!(state.len(), 2);
    assert_eq!(state.transition(0), ("a", 1));
    assert_eq!(state.transition(1), ("b", 0));
    assert_eq!(state.lookup("a"), Some(1));
    assert_eq!(state.lookup("b"), Some(0));
    assert_eq!(state.lookup("c"), None);
    assert!(!state.is_accepting());
    let mut automaton = Automaton::new();
    automaton.add_state(state);
    automaton.add_state(State::new(vec![], true));
    let reverse = ReverseAutomaton::from_automaton(&automaton);
    assert_eq!(parents(&reverse, 0), vec![(0, "b".to_string())]);
    assert_eq!(parents(&reverse, 1), vec![(0, "a".to_string())]);
}

#[test]
fn parents_are_kept_in_the_order_given() {
    let mut state = ReverseState::new();
    assert_eq!(state.len(), 0);
    state.add_parent(3, "x");
    state.add_parent(1, "y");
    state.add_parent(3, "x");
    assert_eq!(state.len(), 3);
    assert_eq!(state.parent(0), (3, "x"));
    assert_eq!(state.parent(1), (1, "y"));
    assert_eq!(state.parent(2), (3, "x"));
}
