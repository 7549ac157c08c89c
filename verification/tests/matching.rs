use automata::{Automaton, State};

fn letters<'a>() -> Automaton<'a> {
    let mut automaton = Automaton::new();
    automaton.add_state(State::new(vec![("a", 0), ("b", 1)], false));
    automaton.add_state(State::new(vec![("a", 1)], true));
    automaton
}

#[test]
fn run_accepts_text_with_one_b() {
    let automaton = letters();
    assert!(automaton.is_well_formed());
    assert!(automaton.run("aaaaba"));
    assert!(automaton.run("b"));
    assert!(!automaton.run("aaaa"));
    assert!(!automaton.run(""));
}

#[test]
fn run_rejects_a_second_b() {
    let automaton = letters();
    assert!(!automaton.run("abab"));
    let failure = automaton.try_run("abab").unwrap_err();
    assert_eq!(failure.state, 1);
    assert_eq!(failure.remaining, "b");
}

#[test]
fn shortest_prefix_is_taken_first() {
    let mut automaton = Automaton::new();
    automaton.add_state(State::new(vec![("0", 1), ("01", 2)], false));
    automaton.add_state(State::new(vec![], false));
    automaton.add_state(State::new(vec![], true));
    assert!(automaton.is_well_formed());
    assert!(!automaton.run("01"));
    let failure = automaton.try_run("01").unwrap_err();
    assert_eq!(failure.state, 1);
    assert_eq!(failure.remaining, "1");
    assert_eq!(automaton.try_run("0").ok(), Some(1));
}

#[test]
fn a_transition_to_no_state_is_found() {
    let mut automaton = Automaton::new();
    assert!(!automaton.is_well_formed());
    assert_eq!(automaton.dangling(), None);
    automaton.add_state(State::new(vec![("a", 0), ("b", 1)], false));
    assert_eq!(automaton.dangling(), Some((0, 1)));
    assert!(!automaton.is_well_formed());
    automaton.add_state(State::new(vec![("a", 1), ("c", 2), ("d", 3)], true));
    assert_eq!(automaton.dangling(), Some((1, 1)));
    assert!(!automaton.is_well_formed());
    automaton.add_state(State::new(vec![], true));
    assert_eq!(automaton.dangling(), Some((1, 2)));
    automaton.add_state(State::new(vec![], false));
    assert_eq!(automaton.dangling(), None);
    assert!(automaton.is_well_formed());
    assert_eq!(automaton.len(), 4);
}

#[test]
fn matching_goes_by_characters() {
    let mut automaton = Automaton::new();
    automaton.add_state(State::new(vec![("é", 1), ("日本", 0)], false));
    automaton.add_state(State::new(vec![("!", 1)], true));
    assert!(automaton.run("日本日本é!!"));
    assert_eq!(automaton.try_run("日本é").ok(), Some(1));
    let failure = automaton.try_run("日本日é").unwrap_err();
    assert_eq!(failure.state, 0);
    assert_eq!(failure.remaining, "日é");
}

#[test]
fn an_empty_token_is_never_taken() {
    let mut automaton = Automaton::new();
    automaton.add_state(State::new(vec![("", 1), ("a", 0)], false));
    automaton.add_state(State::new(vec![], true));
    assert!(!automaton.run(""));
    assert!(!automaton.run("a"));
    assert_eq!(automaton.try_run("aa").ok(), Some(0));
}
