use automata::description::{read_entry, Entry};
use automata::scan::{find_char, find_pair, parse_number, space, trim_range};
use automata::text::{chars_of, matches_at, order_of, piece, same_text, Rank};

fn chars(s: &str) -> Vec<char> {
    s.chars().collect()
}

#[test]
fn white_space_is_what_unicode_says() {
    let spaces = [
        ' ', '\t', '\n', '\u{b}', '\u{c}', '\r', '\u{85}', '\u{a0}', '\u{1680}', '\u{2000}',
        '\u{200a}', '\u{2028}', '\u{2029}', '\u{202f}', '\u{205f}', '\u{3000}',
    ];
    for c in spaces {
        assert!(space(c));
        assert!(c.is_whitespace());
    }
    for c in ['a', '0', '\u{8}', '\u{e}', '\u{200b}', '\u{1f}', '\u{feff}', '-'] {
        assert!(!space(c));
        assert!(!c.is_whitespace());
    }
    for code in 0..0x3100u32 {
        if let Some(c) = char::from_u32(code) {
            assert_eq!(space(c), c.is_whitespace());
        }
    }
}

#[test]
fn trimming_gives_the_bounds_of_what_is_left() {
    let text = chars("ab  \t x y \u{a0}\n");
    assert_eq!(text.len(), 12);
    assert_eq!(trim_range(&text, 0, text.len()), (0, 9));
    assert_eq!(trim_range(&text, 2, text.len()), (6, 9));
    assert_eq!(trim_range(&text, 2, 5), (5, 5));
    assert_eq!(trim_range(&text, 8, text.len()), (8, 9));
    assert_eq!(trim_range(&text, 9, text.len()), (12, 12));
    assert_eq!(trim_range(&text, 3, 3), (3, 3));
}

#[test]
fn the_first_separator_is_found() {
    let text = chars("a:b:c->d->e-");
    assert_eq!(find_char(&text, 0, text.len(), ':'), Some(1));
    assert_eq!(find_char(&text, 2, text.len(), ':'), Some(3));
    assert_eq!(find_char(&text, 4, text.len(), ':'), None);
    assert_eq!(find_char(&text, 0, 1, ':'), None);
    assert_eq!(find_pair(&text, 0, text.len(), '-', '>'), Some(5));
    assert_eq!(find_pair(&text, 6, text.len(), '-', '>'), Some(8));
    assert_eq!(find_pair(&text, 9, text.len(), '-', '>'), None);
    assert_eq!(find_pair(&text, 0, 6, '-', '>'), None);
    assert_eq!(find_pair(&text, 5, 7, '-', '>'), Some(5));
    assert_eq!(find_pair(&text, 11, 12, '-', '>'), None);
}

#[test]
fn numbers_are_read_as_indices() {
    let read = |s: &str| parse_number(&chars(s), 0, s.chars().count());
    assert_eq!(read("0"), Some(0));
    assert_eq!(read("42"), Some(42));
    assert_eq!(read("+42"), Some(42));
    assert_eq!(read("007"), Some(7));
    assert_eq!(read(""), None);
    assert_eq!(read("+"), None);
    assert_eq!(read("-1"), None);
    assert_eq!(read("++1"), None);
    assert_eq!(read("1+"), None);
    assert_eq!(read("1 "), None);
    assert_eq!(read("12a"), None);
    assert_eq!(read("٣"), None);
    assert_eq!(read(&usize::MAX.to_string()), Some(usize::MAX));
    assert_eq!(read(&format!("000{}", usize::MAX)), Some(usize::MAX));
    assert_eq!(read(&format!("{}0", usize::MAX)), None);
    assert_eq!(read(&(usize::MAX as u128 + 1).to_string()), None);
    for s in ["0", "42", "+42", "007", "", "+", "-1", "++1", "1+", "12a", "18446744073709551616"] {
        assert_eq!(read(s), s.parse::<usize>().ok());
    }
    let text = chars("ab123cd");
    assert_eq!(parse_number(&text, 2, 5), Some(123));
    assert_eq!(parse_number(&text, 2, 6), None);
}

#[test]
fn texts_are_compared_by_their_characters() {
    assert_eq!(chars_of("día 1"), vec!['d', 'í', 'a', ' ', '1']);
    assert_eq!(chars_of(""), Vec::<char>::new());
    assert!(same_text("día", "día"));
    assert!(same_text("", ""));
    assert!(!same_text("dia", "día"));
    assert!(!same_text("ab", "abc"));
    let input = chars("xdíay");
    assert!(matches_at("día", &input, 1, 3));
    assert!(!matches_at("día", &input, 1, 2));
    assert!(!matches_at("día", &input, 1, 4));
    assert!(!matches_at("día", &input, 0, 3));
    assert!(matches_at("", &input, 2, 0));
    assert!(!matches_at("", &input, 2, 1));
    assert!(!matches_at("dí", &input, 1, 3));
}

#[test]
fn pieces_are_counted_in_characters() {
    let text = "aé日b";
    assert_eq!(piece(text, false, 1, 3), "é日");
    assert_eq!(piece(text, false, 0, 4), text);
    assert_eq!(piece(text, false, 2, 2), "");
    assert_eq!(piece("abcd", true, 1, 3), "bc");
    assert_eq!(piece("abcd", false, 1, 3), "bc");
}

#[test]
fn a_line_is_a_header_a_transition_or_nothing() {
    let read = |s: &'static str| read_entry(s, &chars(s), s.is_ascii(), 0, s.chars().count());
    assert!(matches!(read("3: final"), Entry::Header { index: Some(3), accepting: true }));
    assert!(matches!(read(" 3 :"), Entry::Header { index: Some(3), accepting: false }));
    assert!(matches!(read("3:final:"), Entry::Header { index: Some(3), accepting: true }));
    assert!(matches!(read("3::final"), Entry::Header { index: Some(3), accepting: false }));
    assert!(matches!(read("x: final"), Entry::Header { index: None, accepting: true }));
    assert!(matches!(read("a -> 1: final"), Entry::Header { index: None, accepting: true }));
    assert!(matches!(read("a -> 12"), Entry::Transition { token: "a", dest: Some(12) }));
    assert!(matches!(read("a->b->1"), Entry::Transition { token: "a", dest: None }));
    assert!(matches!(read("a->1->b"), Entry::Transition { token: "a", dest: Some(1) }));
    assert!(matches!(read("->1"), Entry::Transition { token: "", dest: Some(1) }));
    assert!(matches!(read("a ->"), Entry::Transition { token: "a", dest: None }));
    assert!(matches!(read("- > 1"), Entry::Skipped));
    assert!(matches!(read("é -> 1"), Entry::Transition { token: "é", dest: Some(1) }));
    assert!(matches!(read(""), Entry::Skipped));
    assert!(matches!(read("12"), Entry::Header { index: Some(12), accepting: false }));
    assert!(matches!(read(" +12\t"), Entry::Header { index: Some(12), accepting: false }));
    assert!(matches!(read("12 3"), Entry::Skipped));
    assert!(matches!(read("-12"), Entry::Skipped));
    assert!(matches!(read("final"), Entry::Skipped));
    let text = "0:\nab -> 7\n";
    assert!(matches!(
        read_entry(text, &chars(text), true, 3, 10),
        Entry::Transition { token: "ab", dest: Some(7) }
    ));
}

#[test]
fn texts_are_ordered_as_strings_are() {
    let words = [
        "", "a", "ab", "abc", "b", "B", "é", "e", "日本", "日", "\u{10000}", "\u{ffff}", "az",
        "a\u{0}",
    ];
    for x in words {
        for y in words {
            let rank = order_of(x, &chars(y));
            match x.cmp(y) {
                std::cmp::Ordering::Less => assert!(matches!(rank, Rank::Before)),
                std::cmp::Ordering::Equal => assert!(matches!(rank, Rank::Same)),
                std::cmp::Ordering::Greater => assert!(matches!(rank, Rank::After)),
            }
        }
    }
    assert!(matches!(order_of("a", &chars("ab")), Rank::Before));
    assert!(matches!(order_of("b", &chars("ab")), Rank::After));
    assert!(matches!(order_of("ab", &chars("ab")), Rank::Same));
}
