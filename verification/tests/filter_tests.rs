use rusty_scout::{ExtensionFilter, FileSearcher};

#[test]
fn extension_filter_excludes() {
    let s = FileSearcher::new("x", false, false, "txt").unwrap();
    assert!(!s.should_search_file("a.md"));
    assert!(s.should_search_file("a.txt"));
}

#[test]
fn wildcard_matches_any_file() {
    let f = ExtensionFilter::new("*");
    assert!(f.should_include("a.md"));
    assert!(f.should_include("no_extension"));
    assert!(f.should_include("weird.name.tar.gz"));
}

#[test]
fn extension_list_is_trimmed() {
    let f = ExtensionFilter::new("txt, rs ,md");
    assert!(f.should_include("a.txt"));
    assert!(f.should_include("b.rs"));
    assert!(f.should_include("c.md"));
    assert!(!f.should_include("d.toml"));
}

#[test]
fn no_extension_is_excluded() {
    let f = ExtensionFilter::new("txt");
    assert!(!f.should_include("Makefile"));
    assert!(!f.should_include("dir.d/plain"));
    assert!(f.should_include("dir.d/inner.txt"));
}

#[test]
fn extension_match_is_case_sensitive() {
    let f = ExtensionFilter::new("txt");
    assert!(!f.should_include("a.TXT"));
}

#[test]
fn final_dot_decides_extension() {
    let f = ExtensionFilter::new("gz");
    assert!(f.should_include("archive.tar.gz"));
    assert!(!f.should_include("archive.gz.tar"));
}
