use automata::{parse_description, Automaton, AutomatonParseError, State};

fn edges(state: &State) -> Vec<(String, usize)> {
    (0..state.len())
        .map(|i| {
            let (token, dest) = state.transition(i);
            (token.to_string(), dest)
        })
        .collect()
}

#[test]
fn reads_states_and_transitions() {
    let automaton = parse_description("0:\n a -> 0\n b -> 1\n1: final\n a -> 1\n").unwrap();
    assert_eq!(automaton.len(), 2);
    assert_eq!(
        edges(automaton.state(0)),
        vec![("a".to_string(), 0), ("b".to_string(), 1)]
    );
    assert!(!automaton.state(0).is_accepting());
    assert_eq!(edges(automaton.state(1)), vec![("a".to_string(), 1)]);
    assert!(automaton.state(1).is_accepting());
    assert!(automaton.is_well_formed());
    assert!(automaton.run("aaaaba"));
    assert!(!automaton.run("aaaa"));
}

#[test]
fn try_from_reads_a_description() {
    let automaton = Automaton::try_from("0: final\nx -> 0").unwrap();
    assert_eq!(automaton.len(), 1);
    assert!(automaton.run("xxx"));
    let error: AutomatonParseError = Automaton::try_from("zero:\n").unwrap_err();
    assert_eq!(error.0, 0);
}

#[test]
fn states_come_in_the_order_of_their_indices() {
    let text = "7: final\n2:\nlate -> 1\n5:\nmid -> 0\n2:\nagain -> 2";
    let automaton = parse_description(text).unwrap();
    assert_eq!(automaton.len(), 4);
    assert_eq!(edges(automaton.state(0)), vec![("late".to_string(), 1)]);
    assert_eq!(edges(automaton.state(1)), vec![("again".to_string(), 2)]);
    assert_eq!(edges(automaton.state(2)), vec![("mid".to_string(), 0)]);
    assert!(edges(automaton.state(3)).is_empty());
    assert!(automaton.state(3).is_accepting());
    assert!(!automaton.state(0).is_accepting());
}

#[test]
fn a_state_without_index_is_refused_with_its_line() {
    assert_eq!(parse_description("0:\na -> 1\nx: final\n").unwrap_err().0, 2);
    assert_eq!(parse_description(":").unwrap_err().0, 0);
    assert_eq!(parse_description("0:\n\n\n-1:").unwrap_err().0, 3);
    assert_eq!(parse_description("0:\n1 2: final").unwrap_err().0, 1);
    assert_eq!(
        parse_description("0:\n99999999999999999999999999999999999999999:").unwrap_err().0,
        1
    );
}

#[test]
fn a_text_without_states_is_refused_at_line_zero() {
    assert_eq!(parse_description("").unwrap_err().0, 0);
    assert_eq!(parse_description("a -> 1\nb -> 2\n").unwrap_err().0, 0);
    assert_eq!(parse_description("\n\n").unwrap_err().0, 0);
}

#[test]
fn lines_without_colon_or_arrow_are_skipped() {
    let automaton = parse_description("0: final\nnothing here\n\n - > 1\n-> 0\nd -> 0").unwrap();
    assert_eq!(
        edges(automaton.state(0)),
        vec![("".to_string(), 0), ("d".to_string(), 0)]
    );
}

#[test]
fn a_transition_without_destination_is_refused_with_its_line() {
    assert_eq!(parse_description("0: final\na -> x\n").unwrap_err().0, 1);
    assert_eq!(parse_description("0: final\na -> 0\nb ->").unwrap_err().0, 2);
    assert_eq!(parse_description("c -> -1\n0:").unwrap_err().0, 0);
    assert_eq!(parse_description("0:\n\n\na -> 1 2").unwrap_err().0, 3);
    assert_eq!(parse_description("0:\na -> b -> 1").unwrap_err().0, 1);
    assert_eq!(parse_description("0:\na -> 1\nb -> 1.0\nx:").unwrap_err().0, 2);
}

#[test]
fn white_space_and_signs_are_allowed() {
    let text = "  +0 \t:  final \r\n\ta b\u{a0} ->  +003 \r\nc->0->9\r\n1:final:x\n2: final x\n3:Final";
    let automaton = parse_description(text).unwrap();
    assert_eq!(automaton.len(), 4);
    assert_eq!(
        edges(automaton.state(0)),
        vec![("a b".to_string(), 3), ("c".to_string(), 0)]
    );
    assert!(automaton.state(0).is_accepting());
    assert!(automaton.state(1).is_accepting());
    assert!(!automaton.state(2).is_accepting());
    assert!(!automaton.state(3).is_accepting());
    assert!(automaton.is_well_formed());
}

#[test]
fn transitions_before_the_first_state_join_it() {
    let automaton = parse_description("early -> 1\n0:\nown -> 0\n1: final").unwrap();
    assert_eq!(
        edges(automaton.state(0)),
        vec![("early".to_string(), 1), ("own".to_string(), 0)]
    );
    assert!(automaton.run("ownearly"));
}

#[test]
fn tokens_may_hold_any_characters() {
    let automaton = parse_description("0:\n übung -> 1\n日本 -> 1\n1: final\n").unwrap();
    assert_eq!(
        edges(automaton.state(0)),
        vec![("übung".to_string(), 1), ("日本".to_string(), 1)]
    );
    assert!(automaton.run("übung"));
    assert!(automaton.run("日本"));
    assert!(!automaton.run("日"));
    let failure = automaton.try_run("日本語").unwrap_err();
    assert_eq!(failure.state, 1);
    assert_eq!(failure.remaining, "語");
}

#[test]
fn a_later_line_replaces_a_token() {
    let automaton = parse_description("0:\na -> 0\nb -> 0\na -> 1\n1: final").unwrap();
    assert_eq!(
        edges(automaton.state(0)),
        vec![("a".to_string(), 1), ("b".to_string(), 0)]
    );
}

#[test]
fn a_number_alone_starts_a_state() {
    let automaton = parse_description("0\na -> 1\n1: final").unwrap();
    assert_eq!(automaton.len(), 2);
    assert_eq!(edges(automaton.state(0)), vec![("a".to_string(), 1)]);
    assert!(!automaton.state(0).is_accepting());
    assert!(edges(automaton.state(1)).is_empty());
    assert!(automaton.state(1).is_accepting());
    assert!(automaton.run("a"));
    assert!(!automaton.run(""));
    let automaton = parse_description(" +1 \r\nb -> 0\n\t0\nfinal\na -> 1\n").unwrap();
    assert_eq!(automaton.len(), 2);
    assert_eq!(edges(automaton.state(0)), vec![("a".to_string(), 1)]);
    assert_eq!(edges(automaton.state(1)), vec![("b".to_string(), 0)]);
    assert!(!automaton.state(0).is_accepting());
    assert!(!automaton.state(1).is_accepting());
    assert_eq!(parse_description("0 1\na -> 0").unwrap_err().0, 0);
}

#[test]
fn a_destination_that_is_no_state_is_refused_with_its_line() {
    assert_eq!(parse_description("0: final\na -> 7").unwrap_err().0, 1);
    assert_eq!(parse_description("0: final\na -> 1").unwrap_err().0, 1);
    assert_eq!(parse_description("0:\na -> 1\n\nb -> 2\n1:\nc -> 3\n").unwrap_err().0, 3);
    assert_eq!(parse_description("a -> 5\n0:\nb -> 0").unwrap_err().0, 0);
    assert_eq!(parse_description("0:\na -> 9\na -> 0").unwrap_err().0, 1);
    assert_eq!(parse_description("0:\na -> 2\nx:").unwrap_err().0, 2);
    let automaton = parse_description("0:\na -> 2\n1\n2: final").unwrap();
    assert!(automaton.is_well_formed());
    assert_eq!(automaton.dangling(), None);
    assert!(automaton.run("a"));
}

#[test]
fn transitions_of_a_description_come_in_the_order_of_their_tokens() {
    let automaton = parse_description("0: final\nb -> 0\nab -> 0\na -> 0\n").unwrap();
    assert_eq!(
        edges(automaton.state(0)),
        vec![("a".to_string(), 0), ("ab".to_string(), 0), ("b".to_string(), 0)]
    );
}
