use automata::{Automaton, ReverseAutomaton, State};

fn numbered(range: std::ops::RangeInclusive<usize>, next_state: usize) -> Vec<(String, usize)> {
    range.map(|n| (format!("{:02}.", n), next_state)).collect()
}

fn borrowed(list: &[(String, usize)]) -> Vec<(&str, usize)> {
    list.iter().map(|(s, i)| (s.as_str(), *i)).collect()
}

struct Tokens {
    days: Vec<(String, usize)>,
    months: Vec<(String, usize)>,
    long_months: Vec<(String, usize)>,
    longest_months: Vec<(String, usize)>,
}

fn tokens() -> Tokens {
    let mut days = numbered(1..=28, 1);
    days.extend(numbered(29..=30, 2));
    days.extend(numbered(31..=31, 3));
    let months = numbered(1..=12, 4);
    let long_months = months.iter().filter(|(s, _)| s != "02.").cloned().collect();
    let mut longest_months: Vec<(String, usize)> =
        months.iter().take(7).step_by(2).cloned().collect();
    longest_months.extend(months.iter().skip(7).step_by(2).cloned());
    Tokens {
        days,
        months,
        long_months,
        longest_months,
    }
}

fn dates(tokens: &Tokens) -> Automaton<'_> {
    let mut automaton = Automaton::new();
    automaton.add_state(State::new(borrowed(&tokens.days), false));
    automaton.add_state(State::new(borrowed(&tokens.months), false));
    automaton.add_state(State::new(borrowed(&tokens.long_months), false));
    automaton.add_state(State::new(borrowed(&tokens.longest_months), false));
    automaton.add_state(State::new(vec![("2006", 5)], false));
    automaton.add_state(State::new(vec![], true));
    automaton
}

#[test]
fn dates_of_the_year_are_accepted() {
    let tokens = tokens();
    let automaton = dates(&tokens);
    assert!(automaton.is_well_formed());
    assert!(automaton.run("15.06.2006"));
    assert!(automaton.run("29.12.2006"));
    assert!(automaton.run("31.01.2006"));
    assert!(automaton.run("28.02.2006"));
}

#[test]
fn days_that_a_month_lacks_are_rejected() {
    let tokens = tokens();
    let automaton = dates(&tokens);
    assert!(!automaton.run("31.02.2006"));
    assert!(!automaton.run("30.02.2006"));
    assert!(!automaton.run("31.04.2006"));
    assert!(!automaton.run("00.01.2006"));
    assert!(!automaton.run("15.06.2007"));
    assert!(!automaton.run("15.06."));
    let failure = automaton.try_run("31.02.2006").unwrap_err();
    assert_eq!(failure.state, 3);
    assert_eq!(failure.remaining, "02.2006");
}

#[test]
fn every_day_of_the_year_is_listed_once() {
    let tokens = tokens();
    let automaton = dates(&tokens);
    let reverse = ReverseAutomaton::from_automaton(&automaton);
    let words = reverse.enumerate_language().unwrap();
    assert_eq!(words.len(), 365);
    assert_eq!(words[0], "01.01.2006");
    assert_eq!(words[1], "02.01.2006");
    assert_eq!(words[364], "31.12.2006");
    assert!(words.contains(&"15.06.2006".to_string()));
    assert!(!words.contains(&"31.02.2006".to_string()));
    for word in &words {
        assert!(automaton.run(word));
    }
    let mut sorted = words.clone();
    sorted.sort();
    sorted.dedup();
    assert_eq!(sorted.len(), 365);
    let found = reverse.enumerate_language_bounded(2);
    assert!(found.words.is_empty());
    assert!(!found.complete);
    let found = reverse.enumerate_language_bounded(3);
    assert_eq!(found.words, words);
    assert!(found.complete);
}
