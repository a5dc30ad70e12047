use zettel::propagate::rewrite_links;

#[test]
fn rewrite_simple_reference() {
    assert_eq!(
        rewrite_links("x [[Old]] y", "Old", "New"),
        "x [[New]] y"
    );
}

#[test]
fn rewrite_reference_spanning_a_line_break() {
    // a space in the old title matches a run of whitespace, newlines included
    assert_eq!(
        rewrite_links("see [[Old\nTitle]] here", "Old Title", "New"),
        "see [[New]] here"
    );
    assert_eq!(
        rewrite_links("see [[Old \t Title]] here", "Old Title", "New"),
        "see [[New]] here"
    );
}

#[test]
fn rewrite_leaves_other_references_alone() {
    assert_eq!(
        rewrite_links("[[Other]] and [[Old]]", "Old", "New"),
        "[[Other]] and [[New]]"
    );
}

#[test]
fn rewrite_without_match_is_identity() {
    let text = "no references at all";
    assert_eq!(rewrite_links(text, "Old", "New"), text);
}

#[test]
fn rewrite_does_not_touch_partial_titles() {
    assert_eq!(
        rewrite_links("[[Older]]", "Old", "New"),
        "[[Older]]"
    );
}

#[test]
fn rewrite_requires_the_closing_brackets() {
    assert_eq!(
        rewrite_links("[[Old y", "Old", "New"),
        "[[Old y"
    );
}
