use rusty_scout::{highlight_line, ErrorKind, Matcher, SearchError};

#[test]
fn highlight_wraps_each_span() {
    let out = highlight_line("abc", &vec![(1, 2)], "[", "]");
    assert_eq!(out, b"a[b]c".to_vec());
}

#[test]
fn highlight_with_ansi_markers() {
    let out = highlight_line("Hello world", &vec![(0, 5)], "\x1b[31m", "\x1b[0m");
    assert_eq!(out, b"\x1b[31mHello\x1b[0m world".to_vec());
}

#[test]
fn highlight_two_spans_in_order() {
    let out = highlight_line("aaa", &vec![(0, 1), (2, 3)], "<", ">");
    assert_eq!(out, b"<a>a<a>".to_vec());
}

#[test]
fn highlight_rejects_unsound_spans() {
    let out = highlight_line("abc", &vec![(2, 1)], "[", "]");
    assert_eq!(out, b"abc".to_vec());
    let out2 = highlight_line("abc", &vec![(1, 9)], "[", "]");
    assert_eq!(out2, b"abc".to_vec());
}

#[test]
fn highlight_matcher_output() {
    let m = Matcher::new("aa", false, false).unwrap();
    let spans = m.find_matches("aaba");
    assert_eq!(spans, vec![(0, 2)]);
    let out = highlight_line("aaba", &spans, "[", "]");
    assert_eq!(out, b"[aa]ba".to_vec());
}

#[test]
fn error_text_names_the_kind() {
    let e = SearchError { kind: ErrorKind::FileRead, message: "bad bytes".to_string() };
    assert_eq!(e.to_text(), "FileReadError: bad bytes");
    let d = SearchError { kind: ErrorKind::Directory, message: "missing".to_string() };
    assert_eq!(d.to_text(), "DirectoryError: missing");
}
