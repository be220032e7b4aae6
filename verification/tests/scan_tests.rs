use rusty_scout::FileSearcher;

fn searcher(pattern: &str, use_regex: bool, ignore_case: bool) -> FileSearcher {
    FileSearcher::new(pattern, use_regex, ignore_case, "*").unwrap()
}

#[test]
fn test_file_search() {
    let s = searcher("Hello", false, false);
    let results = s.search_content("test.txt", "Hello, world!\nThis is a test file.\nHello again!\n");

    assert_eq!(results.len(), 2);
    assert_eq!(results[0].line_number, 1);
    assert_eq!(results[1].line_number, 3);
}

#[test]
fn test_case_insensitive_search() {
    let s = searcher("hello", false, true);
    let results = s.search_content("test.txt", "Hello, HELLO, hello\n");

    assert_eq!(results.len(), 1);
    assert_eq!(results[0].matches.len(), 3);
}

#[test]
fn literal_match_spans() {
    let s = searcher("Hello", false, false);
    let results = s.search_content("test.txt", "Hello, world!\nThis is a test file.\nHello again!\n");

    assert_eq!(results.len(), 2);
    assert_eq!(results[0].matches, vec![(0, 5)]);
    assert_eq!(results[0].line, "Hello, world!");
    assert_eq!(results[1].matches, vec![(0, 5)]);
    assert_eq!(results[1].line, "Hello again!");
    assert_eq!(results[0].file_path, "test.txt");
}

#[test]
fn case_insensitive_span_positions() {
    let s = searcher("hello", false, true);
    let results = s.search_content("test.txt", "Hello, HELLO, hello");

    assert_eq!(results.len(), 1);
    assert_eq!(results[0].matches, vec![(0, 5), (7, 12), (14, 19)]);
    assert_eq!(results[0].line, "Hello, HELLO, hello");
}

#[test]
fn overlap_resume_policy() {
    let s = searcher("aa", false, false);
    let results = s.search_content("t.txt", "aaa\n");

    assert_eq!(results.len(), 1);
    assert_eq!(results[0].matches, vec![(0, 2), (1, 3)]);
}

#[test]
fn no_match_empty_result() {
    let s = searcher("absent", false, false);
    let results = s.search_content("t.txt", "nothing to see\nhere either\n");

    assert!(results.is_empty());
}

#[test]
fn trailing_newline_adds_no_line() {
    let s = searcher("b", false, false);
    let with_newline = s.search_content("t.txt", "b\nb\n");
    let without_newline = s.search_content("t.txt", "b\nb");

    assert_eq!(with_newline.len(), 2);
    assert_eq!(without_newline.len(), 2);
    assert_eq!(with_newline[1].line_number, 2);
}

#[test]
fn crlf_line_endings() {
    let s = searcher("Hello", false, false);
    let results = s.search_content("t.txt", "Hello\r\nworld\r\nHello\r\n");

    assert_eq!(results.len(), 2);
    assert_eq!(results[0].line, "Hello");
    assert_eq!(results[0].matches, vec![(0, 5)]);
    assert_eq!(results[1].line_number, 3);
}
