use rusty_scout::{ErrorKind, FileSearcher, Matcher};

#[test]
fn invalid_regex_is_fatal() {
    let r = Matcher::new("(", true, false);
    assert!(r.is_err());
    let e = r.err().unwrap();
    assert_eq!(e.kind, ErrorKind::Pattern);
    assert!(e.to_text().starts_with("PatternError: "));

    let s = FileSearcher::new("(", true, false, "*");
    assert!(s.is_err());
    assert_eq!(s.err().unwrap().kind, ErrorKind::Pattern);
}

#[test]
fn invalid_pattern_accepted_as_literal() {
    let r = Matcher::new("(", false, false);
    assert!(r.is_ok());
    assert_eq!(r.unwrap().find_matches("a(b("), vec![(1, 2), (3, 4)]);
}

#[test]
fn regex_finds_nonoverlapping_matches() {
    let m = Matcher::new("l+o", true, false).unwrap();
    assert_eq!(m.find_matches("hello lloo"), vec![(2, 5), (6, 9)]);
}

#[test]
fn regex_case_insensitive_mode() {
    let m = Matcher::new("hello", true, true).unwrap();
    assert_eq!(m.find_matches("say HELLO twice"), vec![(4, 9)]);

    let strict = Matcher::new("hello", true, false).unwrap();
    assert!(strict.find_matches("say HELLO twice").is_empty());
}

#[test]
fn literal_lowercases_pattern_and_line() {
    let m = Matcher::new("HeLLo", false, true).unwrap();
    assert_eq!(m.find_matches("hellO"), vec![(0, 5)]);
}

#[test]
fn literal_case_sensitive_by_default() {
    let m = Matcher::new("Hello", false, false).unwrap();
    assert!(m.find_matches("hello").is_empty());
    assert_eq!(m.find_matches("Hello"), vec![(0, 5)]);
}
