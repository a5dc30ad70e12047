use zettel::index::{CreateOutcome, Index, MoveOutcome, RenameOutcome};
use zettel::propagate::rewrite_links;
use zettel::zettel::Zettel;

fn sample_index() -> Index {
    let mut idx = Index::init();
    idx.save(Zettel::from_file("alpha.md", "links to [[beta]] #greek "));
    idx.save(Zettel::from_file("beta.md", "#greek #letters/low "));
    idx.save(Zettel::from_file("work/gamma.md", "see [[alpha]] and [[beta]]"));
    idx
}

#[test]
fn save_and_all_keep_order() {
    let idx = sample_index();
    let all = idx.all();
    assert_eq!(all.len(), 3);
    assert_eq!(all[0].title, "alpha");
    assert_eq!(all[1].title, "beta");
    assert_eq!(all[2].title, "gamma");
    assert_eq!(all[2].project, "work");
}

#[test]
fn find_by_title_glob() {
    let idx = sample_index();
    let hits = idx.find_by_title("*a");
    assert_eq!(hits.len(), 3);
    let hits = idx.find_by_title("be*");
    assert_eq!(hits.len(), 1);
    assert_eq!(hits[0].title, "beta");
    assert_eq!(idx.find_by_title("nothing").len(), 0);
}

#[test]
fn find_by_tag_and_subtree_together_cover_child() {
    let idx = sample_index();
    // beta carries letters/low but not the bare tag "letters"
    assert_eq!(idx.find_by_tag("letters").len(), 0);
    let sub = idx.find_by_tag("letters/*");
    assert_eq!(sub.len(), 1);
    assert_eq!(sub[0].title, "beta");
}

#[test]
fn find_by_links_to_is_exact() {
    let idx = sample_index();
    let hits = idx.find_by_links_to("beta");
    assert_eq!(hits.len(), 2);
    assert_eq!(hits[0].title, "alpha");
    assert_eq!(hits[1].title, "gamma");
    assert_eq!(idx.find_by_links_to("bet").len(), 0);
}

#[test]
fn update_overwrites_associations() {
    let mut idx = sample_index();
    idx.update_from_file("alpha.md", "now links to [[gamma]] #new ");
    let all = idx.all();
    assert_eq!(all[0].links, vec!["gamma".to_string()]);
    assert_eq!(all[0].tags, vec!["new".to_string()]);
    // other records untouched
    assert_eq!(all[1].tags, vec!["greek".to_string(), "letters/low".to_string()]);
}

#[test]
fn list_tags_distinct_in_first_use_order() {
    let idx = sample_index();
    assert_eq!(
        idx.list_tags(),
        vec!["greek".to_string(), "letters/low".to_string()]
    );
}

#[test]
fn list_projects_distinct() {
    let idx = sample_index();
    assert_eq!(idx.list_projects(), vec!["".to_string(), "work".to_string()]);
}

#[test]
fn search_text_is_substring_match() {
    let idx = sample_index();
    let texts = vec![
        "links to [[beta]] #greek ".to_string(),
        "#greek #letters/low ".to_string(),
        "see [[alpha]] and [[beta]]".to_string(),
    ];
    let hits = idx.search_text(&texts, "letters");
    assert_eq!(hits.len(), 1);
    assert_eq!(hits[0].title, "beta");
    let hits = idx.search_text(&texts, "beta");
    assert_eq!(hits.len(), 2);
    assert_eq!(idx.search_text(&texts, "Greek").len(), 0);
}

#[test]
fn ghosts_lists_missing_titles_once() {
    let mut idx = Index::init();
    idx.save(Zettel::from_file("a.md", "[[NeverCreated]] and [[b]] and [[NeverCreated]]"));
    idx.save(Zettel::from_file("b.md", ""));
    let ghosts = idx.zettel_not_yet_created();
    assert_eq!(ghosts, vec!["NeverCreated".to_string()]);
}

#[test]
fn isolated_requires_no_links_either_way() {
    let mut idx = Index::init();
    idx.save(Zettel::from_file("lonely.md", "no links at all"));
    let iso = idx.isolated();
    assert_eq!(iso.len(), 1);
    assert_eq!(iso[0].title, "lonely");
    // once another note links to it, it is no longer isolated
    idx.save(Zettel::from_file("friend.md", "hello [[lonely]]"));
    let iso = idx.isolated();
    assert_eq!(iso.len(), 0);
}

#[test]
fn isolated_excludes_named_projects_and_linkers() {
    let mut idx = Index::init();
    idx.save(Zettel::from_file("work/busy.md", ""));
    idx.save(Zettel::from_file("sender.md", "[[busy]]"));
    // busy is in a named project; sender has an outbound link
    assert_eq!(idx.isolated().len(), 0);
}

#[test]
fn generate_equals_incremental_saves() {
    let files = vec![
        ("a.md".to_string(), "[[b]] #x ".to_string()),
        ("p/b.md".to_string(), "#y ".to_string()),
    ];
    let generated = Index::generate(&files);
    let mut incremental = Index::init();
    for (path, text) in &files {
        incremental.save(Zettel::from_file(path, text));
    }
    let g = generated.all();
    let i = incremental.all();
    assert_eq!(g.len(), i.len());
    for k in 0..g.len() {
        assert_eq!(g[k].title, i[k].title);
        assert_eq!(g[k].project, i[k].project);
        assert_eq!(g[k].links, i[k].links);
        assert_eq!(g[k].tags, i[k].tags);
    }
}

#[test]
fn rename_conflict_rejected_without_change() {
    let mut idx = sample_index();
    let before: Vec<String> = idx.all().iter().map(|z| z.title.clone()).collect();
    let r = idx.rename("alpha", "beta", true);
    assert!(matches!(r, RenameOutcome::Conflict));
    let after: Vec<String> = idx.all().iter().map(|z| z.title.clone()).collect();
    assert_eq!(before, after);
}

#[test]
fn rename_missing_title_not_found() {
    let mut idx = sample_index();
    let r = idx.rename("delta", "epsilon", true);
    assert!(matches!(r, RenameOutcome::NotFound));
}

#[test]
fn rename_declined_changes_nothing() {
    let mut idx = sample_index();
    let r = idx.rename("alpha", "omega", false);
    assert!(matches!(r, RenameOutcome::Declined));
    assert_eq!(idx.all()[0].title, "alpha");
}

#[test]
fn rename_propagation_updates_dependents() {
    // A links to B; renaming B to C rewrites A's text and re-indexing it
    // makes find_by_links_to("C") return A.
    let mut idx = Index::init();
    let a_text = "points at [[B]] twice: [[B]]";
    idx.save(Zettel::from_file("A.md", a_text));
    idx.save(Zettel::from_file("B.md", ""));
    let r = idx.rename("B", "C", true);
    match r {
        RenameOutcome::Applied { old_filename, new_filename, dependents } => {
            assert_eq!(old_filename, "B.md");
            assert_eq!(new_filename, "C.md");
            assert_eq!(dependents, vec!["A.md".to_string()]);
        },
        _ => panic!("rename should have been applied"),
    }
    let new_text = rewrite_links(a_text, "B", "C");
    assert_eq!(new_text, "points at [[C]] twice: [[C]]");
    idx.update_from_file("A.md", &new_text);
    let hits = idx.find_by_links_to("C");
    assert_eq!(hits.len(), 1);
    assert_eq!(hits[0].title, "A");
    assert_eq!(idx.find_by_links_to("B").len(), 0);
}

#[test]
fn mv_transfers_matching_notes() {
    let mut idx = sample_index();
    let r = idx.mv("*eta", "archive", true);
    match r {
        MoveOutcome::Applied { renames } => {
            assert_eq!(renames, vec![("beta.md".to_string(), "archive/beta.md".to_string())]);
        },
        _ => panic!("move should have been applied"),
    }
    assert_eq!(idx.all()[1].project, "archive");
    // links still reference titles, so they are unaffected
    assert_eq!(idx.find_by_links_to("beta").len(), 2);
}

#[test]
fn mv_declined_changes_nothing() {
    let mut idx = sample_index();
    let r = idx.mv("*", "archive", false);
    assert!(matches!(r, MoveOutcome::Declined));
    assert_eq!(idx.all()[0].project, "");
}

#[test]
fn create_decision_table() {
    let mut idx = Index::init();
    // neither on disk nor indexed: created with a heading
    let r = idx.create_note("n", "", false);
    match r {
        CreateOutcome::Created { content } => assert_eq!(content, "# n\n"),
        _ => panic!("expected creation"),
    }
    // on disk but not indexed (different project counts as different record)
    let r = idx.create_note("n", "p", true);
    assert!(matches!(r, CreateOutcome::IndexedExisting));
    // on disk and indexed: rejected
    let r = idx.create_note("n", "p", true);
    assert!(matches!(r, CreateOutcome::AlreadyExists));
    assert_eq!(idx.all().len(), 2);
}

#[test]
fn subtree_query_includes_child_only_note() {
    let mut idx = Index::init();
    idx.save(Zettel::from_file("solo.md", "#project/sub "));
    // the base query alone misses it; base plus subtree form covers it
    assert_eq!(idx.find_by_tag("project").len(), 0);
    let hits = idx.find_by_tag_subtree("project");
    assert_eq!(hits.len(), 1);
    assert_eq!(hits[0].title, "solo");
}

#[test]
fn subtree_query_deduplicates() {
    let mut idx = Index::init();
    idx.save(Zettel::from_file("both.md", "#project #project/sub "));
    let hits = idx.find_by_tag_subtree("project");
    assert_eq!(hits.len(), 1);
    assert_eq!(hits[0].title, "both");
}

#[test]
fn list_tags_sorted() {
    let mut idx = Index::init();
    idx.save(Zettel::from_file("z.md", "#zeta #alpha #mid "));
    assert_eq!(
        idx.list_tags(),
        vec!["alpha".to_string(), "mid".to_string(), "zeta".to_string()]
    );
}

#[test]
fn rename_resolves_source_before_conflict() {
    // the source title is resolved first: a missing source reports
    // not-found even when the target title exists
    let mut idx = sample_index();
    let r = idx.rename("missing", "beta", true);
    assert!(matches!(r, RenameOutcome::NotFound));
}
