use zettel::zettel::{basename, replace_extension, Zettel};

#[test]
fn filename_in_default_collection() {
    let z = Zettel::new("my note", "");
    assert_eq!(z.filename(), "my note.md");
}

#[test]
fn filename_in_project_directory() {
    let z = Zettel::new("my note", "work");
    assert_eq!(z.filename(), "work/my note.md");
}

#[test]
fn title_header_format() {
    let z = Zettel::new("structs in rust", "");
    assert_eq!(z.title_header(), "# structs in rust\n");
}

#[test]
fn create_hands_back_initial_content() {
    let z = Zettel::new("fresh", "");
    let (z, content) = z.create();
    assert_eq!(z.title, "fresh");
    assert_eq!(content, "# fresh\n");
}

#[test]
fn from_file_derives_identity_and_extracts() {
    let z = Zettel::from_file("work/plan.md", "see [[other]] and #todo rest");
    assert_eq!(z.title, "plan");
    assert_eq!(z.project, "work");
    assert_eq!(z.links, vec!["other".to_string()]);
    assert_eq!(z.tags, vec!["todo".to_string()]);
}

#[test]
fn from_file_without_directory() {
    let z = Zettel::from_file("plan.md", "");
    assert_eq!(z.title, "plan");
    assert_eq!(z.project, "");
    assert!(z.links.is_empty());
    assert!(z.tags.is_empty());
}

#[test]
fn basename_takes_final_component() {
    assert_eq!(basename("a/b/c.md"), "c.md");
    assert_eq!(basename("c.md"), "c.md");
}

#[test]
fn replace_extension_swaps_and_strips() {
    assert_eq!(replace_extension("dir/f.md", "txt"), "dir/f.txt");
    assert_eq!(replace_extension("f.md", ""), "f");
    assert_eq!(replace_extension("dir.d/f", "md"), "dir.d/f.md");
}
