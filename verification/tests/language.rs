use automata::{Automaton, ReverseAutomaton, State};

#[test]
fn cyclic_automaton_is_listed_to_a_bound() {
    let mut automaton = Automaton::new();
    automaton.add_state(State::new(vec![("0", 1)], false));
    automaton.add_state(State::new(vec![("1", 0)], true));
    let reverse = ReverseAutomaton::from_automaton(&automaton);
    assert_eq!(reverse.enumerate_language(), None);
    let found = reverse.enumerate_language_bounded(1);
    assert_eq!(found.words, vec!["0".to_string()]);
    assert!(!found.complete);
    let found = reverse.enumerate_language_bounded(5);
    assert_eq!(
        found.words,
        vec!["0".to_string(), "010".to_string(), "01010".to_string()]
    );
    assert!(!found.complete);
    for word in &found.words {
        assert!(automaton.run(word));
    }
    assert!(!found.words.contains(&"01".to_string()));
    assert!(!automaton.run("01"));
}

#[test]
fn acyclic_part_lists_zero_one() {
    let mut automaton = Automaton::new();
    automaton.add_state(State::new(vec![("0", 1)], false));
    automaton.add_state(State::new(vec![("1", 2)], false));
    automaton.add_state(State::new(vec![], true));
    let reverse = ReverseAutomaton::from_automaton(&automaton);
    assert_eq!(reverse.enumerate_language(), Some(vec!["01".to_string()]));
    let found = reverse.enumerate_language_bounded(2);
    assert_eq!(found.words, vec!["01".to_string()]);
    assert!(found.complete);
    let found = reverse.enumerate_language_bounded(1);
    assert!(found.words.is_empty());
    assert!(!found.complete);
}

#[test]
fn accepting_start_state_gives_the_empty_string() {
    let mut automaton = Automaton::new();
    automaton.add_state(State::new(vec![("a", 1)], true));
    automaton.add_state(State::new(vec![], true));
    let reverse = ReverseAutomaton::from_automaton(&automaton);
    assert_eq!(
        reverse.enumerate_language(),
        Some(vec!["".to_string(), "a".to_string()])
    );
    assert!(automaton.run(""));
    assert!(automaton.run("a"));
}

#[test]
fn paths_that_merge_are_listed_each() {
    let mut automaton = Automaton::new();
    automaton.add_state(State::new(vec![("x", 1), ("y", 2)], false));
    automaton.add_state(State::new(vec![("p", 3)], false));
    automaton.add_state(State::new(vec![("q", 3), ("r", 4)], false));
    automaton.add_state(State::new(vec![("end", 4)], false));
    automaton.add_state(State::new(vec![], true));
    let reverse = ReverseAutomaton::from_automaton(&automaton);
    let words = reverse.enumerate_language().unwrap();
    assert_eq!(
        words,
        vec!["yr".to_string(), "xpend".to_string(), "yqend".to_string()]
    );
    for word in &words {
        assert!(automaton.run(word));
    }
    assert!(!automaton.run("xp"));
}

#[test]
fn a_listed_string_may_be_rejected_when_tokens_share_a_prefix() {
    let mut automaton = Automaton::new();
    automaton.add_state(State::new(vec![("0", 1), ("01", 2)], false));
    automaton.add_state(State::new(vec![], false));
    automaton.add_state(State::new(vec![], true));
    let reverse = ReverseAutomaton::from_automaton(&automaton);
    assert_eq!(reverse.enumerate_language(), Some(vec!["01".to_string()]));
    assert!(!automaton.run("01"));
}
