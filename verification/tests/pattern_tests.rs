use zettel::pattern::matches_glob;

#[test]
fn exact_match() {
    assert!(matches_glob("abc", "abc"));
    assert!(!matches_glob("abc", "abd"));
    assert!(!matches_glob("abc", "ab"));
}

#[test]
fn star_matches_any_span() {
    assert!(matches_glob("*", ""));
    assert!(matches_glob("*", "anything"));
    assert!(matches_glob("a*c", "ac"));
    assert!(matches_glob("a*c", "abbbc"));
    assert!(!matches_glob("a*c", "abbd"));
}

#[test]
fn empty_pattern_matches_only_empty() {
    assert!(matches_glob("", ""));
    assert!(!matches_glob("", "a"));
}

#[test]
fn subtree_pattern_matches_child_tag() {
    assert!(matches_glob("project/*", "project/sub"));
    assert!(!matches_glob("project", "project/sub"));
}
