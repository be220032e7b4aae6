use rusty_scout::{FileEntry, FileSearcher};

fn entry(path: &str, content: Option<&str>) -> FileEntry {
    FileEntry { path: path.to_string(), content: content.map(|c| c.to_string()) }
}

fn tree() -> Vec<FileEntry> {
    vec![
        entry("a.txt", Some("Hello one\nnothing\n")),
        entry("broken.txt", None),
        entry("b.txt", Some("nothing\nHello two\n")),
    ]
}

#[test]
fn per_file_failure_isolation() {
    let s = FileSearcher::new("Hello", false, false, "*").unwrap();
    let results = s.search_files(&tree());

    assert_eq!(results.len(), 2);
    assert_eq!(results[0].file_path, "a.txt");
    assert_eq!(results[0].line_number, 1);
    assert_eq!(results[1].file_path, "b.txt");
    assert_eq!(results[1].line_number, 2);
}

#[test]
fn unreadable_file_changes_nothing_else() {
    let s = FileSearcher::new("Hello", false, false, "*").unwrap();
    let with_broken = s.search_files(&tree());
    let without_broken = s.search_files(&vec![
        entry("a.txt", Some("Hello one\nnothing\n")),
        entry("b.txt", Some("nothing\nHello two\n")),
    ]);

    assert_eq!(with_broken, without_broken);
}

#[test]
fn scan_is_idempotent() {
    let s = FileSearcher::new("Hello", false, false, "*").unwrap();
    let first = s.search_files(&tree());
    let second = s.search_files(&tree());

    assert_eq!(first, second);
}

#[test]
fn filtered_file_is_never_scanned() {
    let s = FileSearcher::new("Hello", false, false, "txt").unwrap();
    let results = s.search_files(&vec![
        entry("a.md", Some("Hello in markdown\n")),
        entry("b.txt", Some("Hello in text\n")),
    ]);

    assert_eq!(results.len(), 1);
    assert_eq!(results[0].file_path, "b.txt");
}
