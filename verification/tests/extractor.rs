use zettel::text::{find_links, find_tags};

#[test]
fn links_in_source_order() {
    let links = find_links("start [[Alpha]] middle [[Beta Gamma]] end");
    assert_eq!(links, vec!["Alpha".to_string(), "Beta Gamma".to_string()]);
}

#[test]
fn tag_with_hierarchy() {
    let tags = find_tags("note #a/b more");
    assert_eq!(tags, vec!["a/b".to_string()]);
}

#[test]
fn unterminated_link_yields_nothing() {
    assert_eq!(find_links("oops [[never closed"), Vec::<String>::new());
}

#[test]
fn link_does_not_span_lines() {
    assert_eq!(find_links("[[a\nb]] [[c]]"), vec!["c".to_string()]);
}

#[test]
fn empty_text() {
    assert_eq!(find_links(""), Vec::<String>::new());
    assert_eq!(find_tags(""), Vec::<String>::new());
}

#[test]
fn tag_at_end_of_text_needs_whitespace() {
    assert_eq!(find_tags("#foo"), Vec::<String>::new());
    assert_eq!(find_tags("#foo\n"), vec!["foo".to_string()]);
}

#[test]
fn double_hash_skips_to_token() {
    assert_eq!(find_tags("##ab "), vec!["ab".to_string()]);
}

#[test]
fn duplicate_links_kept_in_order() {
    let links = find_links("[[X]] then [[Y]] then [[X]]");
    assert_eq!(
        links,
        vec!["X".to_string(), "Y".to_string(), "X".to_string()]
    );
}
