use zettel::backlinks::{backlink_header, backlink_paragraph_format, backlink_str};
use zettel::zettel::Zettel;

#[test]
fn header_format() {
    assert_eq!(backlink_header(), "\n## Backlinks\n\n");
}

#[test]
fn paragraph_format() {
    assert_eq!(backlink_paragraph_format("some context"), "\t* some context\n");
}

#[test]
fn backlink_str_format() {
    let link = Zettel::new("origin", "");
    let s = backlink_str(&link, vec!["\t* first\n".to_string(), "\t* second\n".to_string()]);
    assert_eq!(s, "* [[origin]]\n\t* first\n\t* second\n\n");
}

#[test]
fn compose_appends_fresh_section() {
    let target = Zettel::new("note", "");
    let links = vec![Zettel::new("origin", "")];
    let texts = vec!["intro\n\nmentions (see note.md) inline\n\ntail".to_string()];
    let out = target.update_backlinks_section("# note\n", &links, &texts);
    assert_eq!(
        out,
        "# note\n\n## Backlinks\n\n* [[origin]]\n\t* mentions  inline\n\n"
    );
}

#[test]
fn compose_replaces_previous_section() {
    let target = Zettel::new("note", "");
    let links = vec![Zettel::new("origin", "")];
    let texts = vec!["ctx (note.md)\n".to_string()];
    let first = target.update_backlinks_section("# note\n", &links, &texts);
    let second = target.update_backlinks_section(&first, &links, &texts);
    assert_eq!(first, second);
}

#[test]
fn compose_twice_is_byte_identical_with_several_links() {
    let target = Zettel::new("hub", "");
    let links = vec![Zettel::new("a", ""), Zettel::new("b", "")];
    let texts = vec![
        "para one (hub.md here)\n\npara two".to_string(),
        "no mention at all".to_string(),
    ];
    let first = target.update_backlinks_section("# hub\nbody text\n", &links, &texts);
    let second = target.update_backlinks_section(&first, &links, &texts);
    assert_eq!(first, second);
}

#[test]
fn context_keeps_only_paragraphs_naming_the_file() {
    let target = Zettel::new("note", "");
    let ctxs = target.backlink_context("first (note.md)\n\nsecond (other.md)\n\nthird");
    assert_eq!(ctxs, vec!["\t* first \n".to_string()]);
}

#[test]
fn unterminated_parenthetical_contributes_nothing() {
    let target = Zettel::new("note", "");
    let ctxs = target.backlink_context("a (note.md with no close");
    assert_eq!(ctxs, Vec::<String>::new());
}
