//! The relational index: a queryable, rebuildable projection of the note
//! files. Files are authoritative; the index is a disposable cache that a
//! full rebuild regenerates from scratch.

use vstd::prelude::*;
use crate::order::{lemma_lex_refl, lemma_lex_total, lemma_lex_trans, lex_leq, sort_strings,
    sorted_lex, str_leq};
use crate::pattern::{glob_match, matches_glob};
use crate::text::{contains_seq, contains_str};
use crate::zettel::{filename_of, from_file_view, Zettel, ZettelView};

verus! {

/// Remove duplicates from a sequence, keeping the first occurrence of each
/// value.
pub open spec fn dedup_of<A>(s: Seq<A>) -> Seq<A>
    decreases s.len(),
{
    if s.len() == 0 {
        s
    } else {
        let pre = dedup_of(s.drop_last());
        if s.drop_last().contains(s.last()) {
            pre
        } else {
            pre.push(s.last())
        }
    }
}

/// The records whose title matches a glob pattern, in index order.
pub open spec fn by_title(ns: Seq<ZettelView>, pat: Seq<char>) -> Seq<ZettelView> {
    ns.filter(|z: ZettelView| glob_match(pat, z.title))
}

/// The records one of whose tags matches a glob pattern, in index order.
pub open spec fn by_tag(ns: Seq<ZettelView>, pat: Seq<char>) -> Seq<ZettelView> {
    ns.filter(|z: ZettelView| exists|t: int| 0 <= t < z.tags.len() && glob_match(pat, z.tags[t]))
}

/// The records whose links contain exactly the given title, in index order.
pub open spec fn by_links_to(ns: Seq<ZettelView>, title: Seq<char>) -> Seq<ZettelView> {
    ns.filter(|z: ZettelView| z.links.contains(title))
}

/// Membership in a pushed sequence is membership in the original or
/// equality with the new element.
pub proof fn lemma_contains_push<A>(s: Seq<A>, y: A, x: A)
    ensures
        s.push(y).contains(x) == (s.contains(x) || x == y),
{
    if s.push(y).contains(x) {
        let i = choose|i: int| 0 <= i < s.push(y).len() && s.push(y)[i] == x;
        if i < s.len() {
            assert(s[i] == x);
        }
    }
    if s.contains(x) {
        let i = choose|i: int| 0 <= i < s.len() && s[i] == x;
        assert(s.push(y)[i] == x);
    }
    if x == y {
        assert(s.push(y)[s.len() as int] == x);
    }
}

/// Pushing onto a sequence extends its deduplication by the new element
/// exactly when the element is new.
pub proof fn lemma_dedup_push<A>(s: Seq<A>, x: A)
    ensures
        dedup_of(s.push(x)) == if s.contains(x) {
            dedup_of(s)
        } else {
            dedup_of(s).push(x)
        },
{
    assert(s.push(x).drop_last() =~= s);
    assert(s.push(x).last() == x);
}

/// Deduplication preserves membership.
pub proof fn lemma_dedup_contains<A>(s: Seq<A>, x: A)
    ensures
        dedup_of(s).contains(x) == s.contains(x),
    decreases s.len(),
{
    if s.len() > 0 {
        let pre = s.drop_last();
        let l = s.last();
        lemma_dedup_contains(pre, x);
        assert(s =~= pre.push(l));
        lemma_contains_push(pre, l, x);
        if !pre.contains(l) {
            lemma_contains_push(dedup_of(pre), l, x);
        }
    }
}

/// Pushing onto a sequence extends its filtered image by the new element
/// when the predicate holds of it, and leaves it unchanged otherwise.
pub proof fn lemma_filter_push<A>(s: Seq<A>, x: A, pred: spec_fn(A) -> bool)
    ensures
        s.push(x).filter(pred) == if pred(x) {
            s.filter(pred).push(x)
        } else {
            s.filter(pred)
        },
{
    reveal(Seq::filter);
    assert(s.push(x).drop_last() =~= s);
}

/// A record with the same identity but a new title.
pub open spec fn retitled_view(z: ZettelView, title: Seq<char>) -> ZettelView {
    ZettelView { title, project: z.project, links: z.links, tags: z.tags }
}

/// A record with the same identity but a new project.
pub open spec fn reprojected_view(z: ZettelView, project: Seq<char>) -> ZettelView {
    ZettelView { title: z.title, project, links: z.links, tags: z.tags }
}

/// A record as first created: the given identity, no links, no tags.
pub open spec fn fresh_view(title: Seq<char>, project: Seq<char>) -> ZettelView {
    ZettelView {
        title,
        project,
        links: Seq::empty(),
        tags: Seq::empty(),
    }
}

/// Some record carries exactly this title.
pub open spec fn has_title(ns: Seq<ZettelView>, title: Seq<char>) -> bool {
    exists|k: int| 0 <= k < ns.len() && ns[k].title == title
}

/// Some record carries exactly this title and project.
pub open spec fn has_record(ns: Seq<ZettelView>, title: Seq<char>, project: Seq<char>) -> bool {
    exists|k: int| 0 <= k < ns.len() && ns[k].title == title && ns[k].project == project
}

/// The position of the first record with the given title.
pub open spec fn first_with_title(ns: Seq<ZettelView>, title: Seq<char>) -> Option<int>
    decreases ns.len(),
{
    if ns.len() == 0 {
        None
    } else if ns[0].title == title {
        Some(0int)
    } else {
        match first_with_title(ns.drop_first(), title) {
            Some(j) => Some(j + 1),
            None => None,
        }
    }
}

/// `first_with_title` reports the least position carrying the title, and
/// `None` exactly when no record carries it.
pub proof fn lemma_first_with_title(ns: Seq<ZettelView>, title: Seq<char>)
    ensures
        first_with_title(ns, title) matches Some(j) ==> 0 <= j < ns.len() && ns[j].title == title
            && (forall|m: int| 0 <= m < j ==> ns[m].title != title),
        first_with_title(ns, title) is None ==> forall|m: int|
            0 <= m < ns.len() ==> ns[m].title != title,
    decreases ns.len(),
{
    if ns.len() > 0 && ns[0].title != title {
        lemma_first_with_title(ns.drop_first(), title);
        assert(forall|m: int| 0 <= m < ns.len() - 1 ==> ns.drop_first()[m] == ns[m + 1]);
        match first_with_title(ns.drop_first(), title) {
            Some(j) => {
                assert(first_with_title(ns, title) == Some(j + 1));
                assert(ns.drop_first()[j] == ns[j + 1]);
                assert forall|m: int| 0 <= m < j + 1 implies ns[m].title != title by {
                    if m > 0 {
                        assert(ns.drop_first()[m - 1] == ns[m]);
                    }
                }
            },
            None => {
                assert forall|m: int| 0 <= m < ns.len() implies ns[m].title != title by {
                    if m > 0 {
                        assert(ns.drop_first()[m - 1] == ns[m]);
                    }
                }
            },
        }
    }
}

/// The position of the first record with the given title and project.
pub open spec fn first_with_record(
    ns: Seq<ZettelView>,
    title: Seq<char>,
    project: Seq<char>,
) -> Option<int>
    decreases ns.len(),
{
    if ns.len() == 0 {
        None
    } else if ns[0].title == title && ns[0].project == project {
        Some(0int)
    } else {
        match first_with_record(ns.drop_first(), title, project) {
            Some(j) => Some(j + 1),
            None => None,
        }
    }
}

/// `first_with_record` reports the least position carrying the identity,
/// and `None` exactly when no record carries it.
pub proof fn lemma_first_with_record(ns: Seq<ZettelView>, title: Seq<char>, project: Seq<char>)
    ensures
        first_with_record(ns, title, project) matches Some(j) ==> 0 <= j < ns.len()
            && ns[j].title == title && ns[j].project == project && (forall|m: int|
            0 <= m < j ==> !(ns[m].title == title && ns[m].project == project)),
        first_with_record(ns, title, project) is None ==> forall|m: int|
            0 <= m < ns.len() ==> !(ns[m].title == title && ns[m].project == project),
    decreases ns.len(),
{
    if ns.len() > 0 && !(ns[0].title == title && ns[0].project == project) {
        lemma_first_with_record(ns.drop_first(), title, project);
        assert(forall|m: int| 0 <= m < ns.len() - 1 ==> ns.drop_first()[m] == ns[m + 1]);
        match first_with_record(ns.drop_first(), title, project) {
            Some(j) => {
                assert(first_with_record(ns, title, project) == Some(j + 1));
                assert(ns.drop_first()[j] == ns[j + 1]);
                assert forall|m: int| 0 <= m < j + 1 implies !(ns[m].title == title && ns[m].project
                    == project) by {
                    if m > 0 {
                        assert(ns.drop_first()[m - 1] == ns[m]);
                    }
                }
            },
            None => {
                assert forall|m: int| 0 <= m < ns.len() implies !(ns[m].title == title
                    && ns[m].project == project) by {
                    if m > 0 {
                        assert(ns.drop_first()[m - 1] == ns[m]);
                    }
                }
            },
        }
    }
}

/// The index after `update(z)`: every record sharing `z`'s title and project
/// is overwritten with `z`'s link and tag associations.
pub open spec fn update_of(ns: Seq<ZettelView>, z: ZettelView) -> Seq<ZettelView> {
    ns.map_values(
        |r: ZettelView|
            if r.title == z.title && r.project == z.project {
                z
            } else {
                r
            },
    )
}

/// The index after a move: every record whose title matches the pattern is
/// transferred to the new project.
pub open spec fn reproject_matching(
    ns: Seq<ZettelView>,
    pat: Seq<char>,
    project: Seq<char>,
) -> Seq<ZettelView> {
    ns.map_values(
        |r: ZettelView|
            if glob_match(pat, r.title) {
                reprojected_view(r, project)
            } else {
                r
            },
    )
}

/// The model of a rebuilt index: one record per note file, in file order.
pub open spec fn generated_of(fs: Seq<(Seq<char>, Seq<char>)>) -> Seq<ZettelView> {
    fs.map_values(|f: (Seq<char>, Seq<char>)| from_file_view(f.0, f.1))
}

/// Tag subtree coverage: a record tagged only with a hierarchical child
/// `pat/child` of a wildcard-free tag `pat` is found by the subtree query
/// `pat/*`, so the base query and the subtree query together include it.
pub proof fn lemma_subtree_query_covers(
    ns: Seq<ZettelView>,
    pat: Seq<char>,
    child: Seq<char>,
    k: int,
)
    requires
        forall|i: int| 0 <= i < pat.len() ==> pat[i] != '*',
        0 <= k < ns.len(),
        ns[k].tags.contains(pat + seq!['/'] + child),
    ensures
        dedup_of(by_tag(ns, pat) + by_tag(ns, pat + seq!['/', '*'])).contains(ns[k]),
{
    crate::pattern::lemma_glob_subtree(pat, child);
    let sp = pat + seq!['/', '*'];
    let pred = |z: ZettelView| exists|t: int| 0 <= t < z.tags.len() && glob_match(sp, z.tags[t]);
    let ti = choose|t: int|
        0 <= t < ns[k].tags.len() && ns[k].tags[t] == pat + seq!['/'] + child;
    assert(glob_match(sp, ns[k].tags[ti]));
    assert(pred(ns[k]));
    ns.lemma_filter_contains(pred, k);
    assert(by_tag(ns, sp).contains(ns[k]));
    let sub = by_tag(ns, sp);
    let both = by_tag(ns, pat) + sub;
    let w = choose|w: int| 0 <= w < sub.len() && sub[w] == ns[k];
    assert(both[by_tag(ns, pat).len() + w] == ns[k]);
    assert(both.contains(ns[k]));
    lemma_dedup_contains(both, ns[k]);
}

/// The records that saving each file's note one by one accumulates, in
/// file order.
pub open spec fn incremental_of(fs: Seq<(Seq<char>, Seq<char>)>) -> Seq<ZettelView>
    decreases fs.len(),
{
    if fs.len() == 0 {
        Seq::empty()
    } else {
        incremental_of(fs.drop_last()).push(from_file_view(fs.last().0, fs.last().1))
    }
}

/// Round trip: for any fixed set of note files, a full rebuild holds
/// exactly the records that saving each file's note individually into a
/// fresh index accumulates, titles, projects, links and tags alike.
pub proof fn lemma_generate_round_trip(fs: Seq<(Seq<char>, Seq<char>)>)
    ensures
        generated_of(fs) == incremental_of(fs),
    decreases fs.len(),
{
    if fs.len() == 0 {
        assert(generated_of(fs) =~= incremental_of(fs));
    } else {
        lemma_generate_round_trip(fs.drop_last());
        assert(generated_of(fs) =~= generated_of(fs.drop_last()).push(
            from_file_view(fs.last().0, fs.last().1),
        ));
    }
}

/// The records among the first `k` whose file text contains the search
/// string, in index order.
pub open spec fn search_upto(
    ns: Seq<ZettelView>,
    texts: Seq<Seq<char>>,
    pat: Seq<char>,
    k: int,
) -> Seq<ZettelView>
    decreases k,
{
    if k <= 0 || k > ns.len() || k > texts.len() {
        Seq::empty()
    } else {
        let pre = search_upto(ns, texts, pat, k - 1);
        if contains_seq(texts[k - 1], pat) {
            pre.push(ns[k - 1])
        } else {
            pre
        }
    }
}

/// The filenames of the records that link to the given title, in index
/// order: the files a rename must rewrite.
pub open spec fn backlink_filenames(ns: Seq<ZettelView>, title: Seq<char>) -> Seq<Seq<char>> {
    by_links_to(ns, title).map_values(|z: ZettelView| filename_of(z))
}

/// The file renames a move performs: for every record whose title matches
/// the pattern, its old and new filename.
pub open spec fn move_renames(
    ns: Seq<ZettelView>,
    pat: Seq<char>,
    project: Seq<char>,
) -> Seq<(Seq<char>, Seq<char>)> {
    by_title(ns, pat).map_values(
        |z: ZettelView| (filename_of(z), filename_of(reprojected_view(z, project))),
    )
}

/// The flattened link targets of the first `k` records, in source order.
pub open spec fn links_upto(ns: Seq<ZettelView>, k: int) -> Seq<Seq<char>>
    decreases k,
{
    if k <= 0 || k > ns.len() {
        Seq::empty()
    } else {
        links_upto(ns, k - 1) + ns[k - 1].links
    }
}

/// Every link target mentioned by some record, in source order.
pub open spec fn all_links(ns: Seq<ZettelView>) -> Seq<Seq<char>> {
    links_upto(ns, ns.len() as int)
}

/// The ghosts: link targets for which no record with that exact title
/// exists, without duplicates, in first-mention order.
pub open spec fn ghosts_of(ns: Seq<ZettelView>) -> Seq<Seq<char>> {
    dedup_of(all_links(ns).filter(|t: Seq<char>| !has_title(ns, t)))
}

/// Some record among `ns` links to the given title.
pub open spec fn linked_from_any(ns: Seq<ZettelView>, title: Seq<char>) -> bool {
    exists|k: int| 0 <= k < ns.len() && ns[k].links.contains(title)
}

/// The isolated notes: records in the default project with no outbound
/// links and no inbound link from any record.
pub open spec fn isolated_of(ns: Seq<ZettelView>) -> Seq<ZettelView> {
    ns.filter(
        |z: ZettelView|
            z.project.len() == 0 && z.links.len() == 0 && !linked_from_any(ns, z.title),
    )
}

/// The flattened tags of the first `k` records, in source order.
pub open spec fn tags_upto(ns: Seq<ZettelView>, k: int) -> Seq<Seq<char>>
    decreases k,
{
    if k <= 0 || k > ns.len() {
        Seq::empty()
    } else {
        tags_upto(ns, k - 1) + ns[k - 1].tags
    }
}

/// Every tag used by some record, in source order.
pub open spec fn all_tags(ns: Seq<ZettelView>) -> Seq<Seq<char>> {
    tags_upto(ns, ns.len() as int)
}

/// The outcome of a rename: a state machine with one applied and three
/// aborted terminal states.
pub enum RenameOutcome {
    /// No record carries the old title.
    NotFound,
    /// A record already carries the new title; a rename never merges notes.
    Conflict,
    /// The user declined the confirmation prompt.
    Declined,
    /// The rename was applied to the index. The caller renames the file and
    /// rewrites every dependent file named here.
    Applied { old_filename: String, new_filename: String, dependents: Vec<String> },
}

/// The outcome of a move.
pub enum MoveOutcome {
    /// The user declined the confirmation prompt.
    Declined,
    /// The move was applied to the index. The caller performs each listed
    /// file rename.
    Applied { renames: Vec<(String, String)> },
}

/// The in-memory index of note records.
pub struct Index {
    notes: Vec<Zettel>,
}

impl View for Index {
    type V = Seq<ZettelView>;

    closed spec fn view(&self) -> Seq<ZettelView> {
        self.notes.deep_view()
    }
}

/// Decide whether some tag of `z` matches the glob pattern.
fn any_tag_matches(z: &Zettel, pattern: &str) -> (r: bool)
    ensures
        r == exists|t: int| 0 <= t < z@.tags.len() && glob_match(pattern@, z@.tags[t]),
{
    let mut t: usize = 0;
    while t < z.tags.len()
        invariant
            t <= z.tags.len(),
            forall|l: int| 0 <= l < t ==> !glob_match(pattern@, z@.tags[l]),
        decreases z.tags.len() - t,
    {
        if matches_glob(pattern, z.tags[t].as_str()) {
            assert(z@.tags[t as int] == z.tags@[t as int]@);
            return true;
        }
        t = t + 1;
    }
    false
}

/// Decide whether the links of `z` contain exactly `title`.
fn links_contain(z: &Zettel, title: &String) -> (r: bool)
    ensures
        r == z@.links.contains(title@),
{
    let mut l: usize = 0;
    while l < z.links.len()
        invariant
            l <= z.links.len(),
            forall|k: int| 0 <= k < l ==> z@.links[k] != title@,
        decreases z.links.len() - l,
    {
        if z.links[l] == *title {
            assert(z@.links[l as int] == title@);
            return true;
        }
        l = l + 1;
    }
    assert(!z@.links.contains(title@));
    false
}

/// A copy of `z` carrying a new title.
fn retitled(z: &Zettel, title: &str) -> (r: Zettel)
    ensures
        r@ == retitled_view(z@, title@),
{
    let r = Zettel {
        title: title.to_owned(),
        project: z.project.clone(),
        links: crate::zettel::clone_strings(&z.links),
        tags: crate::zettel::clone_strings(&z.tags),
    };
    proof {
        assert(r@ =~= retitled_view(z@, title@));
    }
    r
}

/// A copy of `z` carrying a new project.
fn reprojected(z: &Zettel, project: &str) -> (r: Zettel)
    ensures
        r@ == reprojected_view(z@, project@),
{
    let r = Zettel {
        title: z.title.clone(),
        project: project.to_owned(),
        links: crate::zettel::clone_strings(&z.links),
        tags: crate::zettel::clone_strings(&z.tags),
    };
    proof {
        assert(r@ =~= reprojected_view(z@, project@));
    }
    r
}

/// The outcome of the create flow's decision table.
pub enum CreateOutcome {
    /// The note exists both on disk and in the index: rejected, no change.
    AlreadyExists,
    /// The file exists but was not indexed: a bare record was added.
    IndexedExisting,
    /// Neither existed: a record was added and the initial file content is
    /// to be written out and opened for editing.
    Created { content: String },
}

impl Index {
    /// A fresh, empty index: the idempotent schema creation of the store.
    pub fn init() -> (r: Index)
        ensures
            r@ == Seq::<ZettelView>::empty(),
    {
        let r = Index { notes: Vec::new() };
        proof {
            assert(r@ =~= Seq::<ZettelView>::empty());
        }
        r
    }

    /// Insert one record, with its link and tag associations.
    pub fn save(&mut self, z: Zettel)
        ensures
            final(self)@ == old(self)@.push(z@),
    {
        let ghost pre = self@;
        let ghost zv = z@;
        self.notes.push(z);
        proof {
            assert(self@ =~= pre.push(zv));
        }
    }

    /// Every indexed record, in index order.
    pub fn all(&self) -> (r: &Vec<Zettel>)
        ensures
            r.deep_view() == self@,
    {
        &self.notes
    }

    /// The records whose title matches the glob `pattern`.
    pub fn find_by_title(&self, pattern: &str) -> (r: Vec<Zettel>)
        ensures
            r.deep_view() == by_title(self@, pattern@),
    {
        let ghost pred = |z: ZettelView| glob_match(pattern@, z.title);
        let mut out: Vec<Zettel> = Vec::new();
        let mut k: usize = 0;
        proof {
            assert(self@.subrange(0, 0).filter(pred) =~= Seq::<ZettelView>::empty());
            assert(out.deep_view() =~= Seq::<ZettelView>::empty());
        }
        while k < self.notes.len()
            invariant
                k <= self.notes.len(),
                self@.len() == self.notes.len(),
                out.deep_view() == self@.subrange(0, k as int).filter(pred),
                pred == (|z: ZettelView| glob_match(pattern@, z.title)),
            decreases self.notes.len() - k,
        {
            let ghost pre = out.deep_view();
            if matches_glob(pattern, self.notes[k].title.as_str()) {
                out.push(self.notes[k].duplicate());
                proof {
                    assert(out.deep_view() =~= pre.push(self@[k as int]));
                }
            }
            proof {
                lemma_filter_push(self@.subrange(0, k as int), self@[k as int], pred);
                assert(self@.subrange(0, k + 1).drop_last() =~= self@.subrange(0, k as int));
                assert(self@.subrange(0, k + 1) =~= self@.subrange(0, k as int).push(
                    self@[k as int],
                ));
            }
            k = k + 1;
        }
        proof {
            assert(self@.subrange(0, self@.len() as int) =~= self@);
        }
        out
    }

    /// The records one of whose tags matches the glob `pattern`.
    pub fn find_by_tag(&self, pattern: &str) -> (r: Vec<Zettel>)
        ensures
            r.deep_view() == by_tag(self@, pattern@),
    {
        let ghost pred = |z: ZettelView|
            exists|t: int| 0 <= t < z.tags.len() && glob_match(pattern@, z.tags[t]);
        let mut out: Vec<Zettel> = Vec::new();
        let mut k: usize = 0;
        proof {
            assert(self@.subrange(0, 0).filter(pred) =~= Seq::<ZettelView>::empty());
            assert(out.deep_view() =~= Seq::<ZettelView>::empty());
        }
        while k < self.notes.len()
            invariant
                k <= self.notes.len(),
                self@.len() == self.notes.len(),
                out.deep_view() == self@.subrange(0, k as int).filter(pred),
                pred == (|z: ZettelView|
                    exists|t: int| 0 <= t < z.tags.len() && glob_match(pattern@, z.tags[t])),
            decreases self.notes.len() - k,
        {
            let ghost pre = out.deep_view();
            if any_tag_matches(&self.notes[k], pattern) {
                out.push(self.notes[k].duplicate());
                proof {
                    assert(out.deep_view() =~= pre.push(self@[k as int]));
                }
            }
            proof {
                lemma_filter_push(self@.subrange(0, k as int), self@[k as int], pred);
                assert(self@.subrange(0, k + 1) =~= self@.subrange(0, k as int).push(
                    self@[k as int],
                ));
            }
            k = k + 1;
        }
        proof {
            assert(self@.subrange(0, self@.len() as int) =~= self@);
        }
        out
    }

    /// The records whose links contain exactly `title`.
    pub fn find_by_links_to(&self, title: &str) -> (r: Vec<Zettel>)
        ensures
            r.deep_view() == by_links_to(self@, title@),
    {
        let t = title.to_owned();
        let ghost pred = |z: ZettelView| z.links.contains(title@);
        let mut out: Vec<Zettel> = Vec::new();
        let mut k: usize = 0;
        proof {
            assert(self@.subrange(0, 0).filter(pred) =~= Seq::<ZettelView>::empty());
            assert(out.deep_view() =~= Seq::<ZettelView>::empty());
        }
        while k < self.notes.len()
            invariant
                k <= self.notes.len(),
                self@.len() == self.notes.len(),
                t@ == title@,
                out.deep_view() == self@.subrange(0, k as int).filter(pred),
                pred == (|z: ZettelView| z.links.contains(title@)),
            decreases self.notes.len() - k,
        {
            let ghost pre = out.deep_view();
            if links_contain(&self.notes[k], &t) {
                out.push(self.notes[k].duplicate());
                proof {
                    assert(out.deep_view() =~= pre.push(self@[k as int]));
                }
            }
            proof {
                lemma_filter_push(self@.subrange(0, k as int), self@[k as int], pred);
                assert(self@.subrange(0, k + 1) =~= self@.subrange(0, k as int).push(
                    self@[k as int],
                ));
            }
            k = k + 1;
        }
        proof {
            assert(self@.subrange(0, self@.len() as int) =~= self@);
        }
        out
    }

    /// Overwrite the link and tag associations of every record sharing
    /// `z`'s title and project with those of `z`.
    pub fn update(&mut self, z: &Zettel)
        ensures
            final(self)@ == update_of(old(self)@, z@),
    {
        let ghost f = |r: ZettelView|
            if r.title == z@.title && r.project == z@.project {
                z@
            } else {
                r
            };
        let mut out: Vec<Zettel> = Vec::new();
        let mut k: usize = 0;
        while k < self.notes.len()
            invariant
                k <= self.notes.len(),
                self@.len() == self.notes.len(),
                out.deep_view() =~= self@.subrange(0, k as int).map_values(f),
                f == (|r: ZettelView|
                    if r.title == z@.title && r.project == z@.project {
                        z@
                    } else {
                        r
                    }),
            decreases self.notes.len() - k,
        {
            let ghost pre = out.deep_view();
            if self.notes[k].title == z.title && self.notes[k].project == z.project {
                out.push(z.duplicate());
            } else {
                out.push(self.notes[k].duplicate());
            }
            proof {
                assert(out.deep_view() =~= pre.push(f(self@[k as int])));
                assert(self@.subrange(0, k + 1).map_values(f) =~= self@.subrange(
                    0,
                    k as int,
                ).map_values(f).push(f(self@[k as int])));
            }
            k = k + 1;
        }
        self.notes = out;
        proof {
            assert(old(self)@.subrange(0, old(self)@.len() as int) =~= old(self)@);
        }
    }

    /// Re-extract and overwrite one note's record from its file's path and
    /// current text.
    pub fn update_from_file(&mut self, path: &str, contents: &str)
        ensures
            final(self)@ == update_of(old(self)@, from_file_view(path@, contents@)),
    {
        let z = Zettel::from_file(path, contents);
        self.update(&z);
    }

    /// Change the title of the first record carrying `zettel`'s identity;
    /// reports whether such a record existed.
    pub fn change_title(&mut self, zettel: &Zettel, new_title: &str) -> (r: bool)
        ensures
            r == has_record(old(self)@, zettel@.title, zettel@.project),
            first_with_record(old(self)@, zettel@.title, zettel@.project) matches Some(f)
                ==> final(self)@ == old(self)@.update(
                f,
                retitled_view(old(self)@[f], new_title@),
            ),
            first_with_record(old(self)@, zettel@.title, zettel@.project) is None ==> final(self)@ == old(self)@,
    {
        proof {
            lemma_first_with_record(self@, zettel@.title, zettel@.project);
        }
        let mut k: usize = 0;
        while k < self.notes.len()
            invariant
                k <= self.notes.len(),
                self@.len() == self.notes.len(),
                self@ == old(self)@,
                self.notes == old(self).notes,
                forall|m: int|
                    0 <= m < k ==> !(self@[m].title == zettel@.title && self@[m].project
                        == zettel@.project),
                first_with_record(old(self)@, zettel@.title, zettel@.project) matches Some(f)
                    ==> k <= f,
            decreases self.notes.len() - k,
        {
            proof {
                lemma_first_with_record(old(self)@, zettel@.title, zettel@.project);
                assert(self@[k as int] == self.notes@[k as int]@);
            }
            if self.notes[k].title == zettel.title && self.notes[k].project == zettel.project {
                let z2 = retitled(&self.notes[k], new_title);
                let ghost pre = self.notes.deep_view();
                self.notes.remove(k);
                proof {
                    assert(self.notes.deep_view() =~= pre.remove(k as int));
                }
                let ghost mid = self.notes.deep_view();
                self.notes.insert(k, z2);
                proof {
                    assert(self.notes.deep_view() =~= mid.insert(
                        k as int,
                        retitled_view(old(self)@[k as int], new_title@),
                    ));
                    assert(self@ =~= old(self)@.update(
                        k as int,
                        retitled_view(old(self)@[k as int], new_title@),
                    ));
                    assert(first_with_record(old(self)@, zettel@.title, zettel@.project)
                        == Some(k as int));
                }
                return true;
            }
            k = k + 1;
        }
        proof {
            lemma_first_with_record(old(self)@, zettel@.title, zettel@.project);
            assert(first_with_record(old(self)@, zettel@.title, zettel@.project) is None);
        }
        false
    }

    /// Change the project of the first record carrying `zettel`'s identity;
    /// reports whether such a record existed.
    pub fn change_project(&mut self, zettel: &Zettel, new_project: &str) -> (r: bool)
        ensures
            r == has_record(old(self)@, zettel@.title, zettel@.project),
            first_with_record(old(self)@, zettel@.title, zettel@.project) matches Some(f)
                ==> final(self)@ == old(self)@.update(
                f,
                reprojected_view(old(self)@[f], new_project@),
            ),
            first_with_record(old(self)@, zettel@.title, zettel@.project) is None ==> final(self)@ == old(self)@,
    {
        proof {
            lemma_first_with_record(self@, zettel@.title, zettel@.project);
        }
        let mut k: usize = 0;
        while k < self.notes.len()
            invariant
                k <= self.notes.len(),
                self@.len() == self.notes.len(),
                self@ == old(self)@,
                self.notes == old(self).notes,
                forall|m: int|
                    0 <= m < k ==> !(self@[m].title == zettel@.title && self@[m].project
                        == zettel@.project),
                first_with_record(old(self)@, zettel@.title, zettel@.project) matches Some(f)
                    ==> k <= f,
            decreases self.notes.len() - k,
        {
            proof {
                lemma_first_with_record(old(self)@, zettel@.title, zettel@.project);
                assert(self@[k as int] == self.notes@[k as int]@);
            }
            if self.notes[k].title == zettel.title && self.notes[k].project == zettel.project {
                let z2 = reprojected(&self.notes[k], new_project);
                let ghost pre = self.notes.deep_view();
                self.notes.remove(k);
                proof {
                    assert(self.notes.deep_view() =~= pre.remove(k as int));
                }
                let ghost mid = self.notes.deep_view();
                self.notes.insert(k, z2);
                proof {
                    assert(self.notes.deep_view() =~= mid.insert(
                        k as int,
                        reprojected_view(old(self)@[k as int], new_project@),
                    ));
                    assert(self@ =~= old(self)@.update(
                        k as int,
                        reprojected_view(old(self)@[k as int], new_project@),
                    ));
                    assert(first_with_record(old(self)@, zettel@.title, zettel@.project)
                        == Some(k as int));
                }
                return true;
            }
            k = k + 1;
        }
        proof {
            lemma_first_with_record(old(self)@, zettel@.title, zettel@.project);
            assert(first_with_record(old(self)@, zettel@.title, zettel@.project) is None);
        }
        false
    }

    /// Decide whether some record carries exactly this title and project.
    pub fn record_exists(&self, title: &String, project: &String) -> (r: bool)
        ensures
            r == has_record(self@, title@, project@),
    {
        let mut k: usize = 0;
        while k < self.notes.len()
            invariant
                k <= self.notes.len(),
                self@.len() == self.notes.len(),
                forall|m: int|
                    0 <= m < k ==> !(self@[m].title == title@ && self@[m].project == project@),
            decreases self.notes.len() - k,
        {
            proof {
                assert(self@[k as int] == self.notes@[k as int]@);
            }
            if self.notes[k].title == *title && self.notes[k].project == *project {
                return true;
            }
            k = k + 1;
        }
        false
    }

    /// Decide whether some record carries exactly this title.
    pub fn title_exists(&self, title: &String) -> (r: bool)
        ensures
            r == has_title(self@, title@),
    {
        let mut k: usize = 0;
        while k < self.notes.len()
            invariant
                k <= self.notes.len(),
                self@.len() == self.notes.len(),
                forall|m: int| 0 <= m < k ==> self@[m].title != title@,
            decreases self.notes.len() - k,
        {
            proof {
                assert(self@[k as int] == self.notes@[k as int]@);
            }
            if self.notes[k].title == *title {
                return true;
            }
            k = k + 1;
        }
        false
    }

    /// The create flow's decision table, over existence on disk (reported
    /// by the caller) and existence in the index: reject a duplicate, index
    /// an unindexed existing file as a bare record, or create a new record
    /// and hand back the initial file content to write.
    pub fn create_note(&mut self, title: &str, project: &str, exists_in_fs: bool) -> (r:
        CreateOutcome)
        ensures
            (r is AlreadyExists) == (exists_in_fs && has_record(old(self)@, title@, project@)),
            (r is IndexedExisting) == (exists_in_fs && !has_record(old(self)@, title@, project@)),
            (r is Created) == !exists_in_fs,
            r is AlreadyExists ==> final(self)@ == old(self)@,
            !(r is AlreadyExists) ==> final(self)@ == old(self)@.push(fresh_view(title@, project@)),
            r matches CreateOutcome::Created { content } ==> content@ == crate::zettel::title_header_of(
                fresh_view(title@, project@),
            ),
    {
        let zettel = Zettel::new(title, project);
        let in_db = self.record_exists(&zettel.title, &zettel.project);
        if exists_in_fs && in_db {
            CreateOutcome::AlreadyExists
        } else if exists_in_fs {
            proof {
                assert(zettel@ =~= fresh_view(title@, project@));
            }
            self.save(zettel);
            CreateOutcome::IndexedExisting
        } else {
            let content = zettel.title_header();
            proof {
                assert(zettel@ =~= fresh_view(title@, project@));
            }
            self.save(zettel);
            CreateOutcome::Created { content }
        }
    }

    /// Rebuild an index from scratch out of the note files: one record per
    /// file, extracted from its path and text. The caller swaps the result
    /// in only on completion, so an interrupted rebuild leaves the previous
    /// index intact.
    pub fn generate(files: &Vec<(String, String)>) -> (r: Index)
        ensures
            r@ == generated_of(files.deep_view()),
    {
        let mut idx = Index::init();
        let mut k: usize = 0;
        proof {
            assert(files.deep_view().subrange(0, 0).map_values(
                |f: (Seq<char>, Seq<char>)| from_file_view(f.0, f.1),
            ) =~= Seq::<ZettelView>::empty());
        }
        while k < files.len()
            invariant
                k <= files.len(),
                files.deep_view().len() == files.len(),
                idx@ == generated_of(files.deep_view().subrange(0, k as int)),
            decreases files.len() - k,
        {
            let ghost pre = idx@;
            let z = Zettel::from_file(files[k].0.as_str(), files[k].1.as_str());
            proof {
                assert(files.deep_view()[k as int] == (files@[k as int].0@, files@[k as int].1@));
            }
            idx.save(z);
            proof {
                assert(files.deep_view().subrange(0, k + 1) =~= files.deep_view().subrange(
                    0,
                    k as int,
                ).push(files.deep_view()[k as int]));
                assert(generated_of(files.deep_view().subrange(0, k + 1)) =~= generated_of(
                    files.deep_view().subrange(0, k as int),
                ).push(from_file_view(files.deep_view()[k as int].0, files.deep_view()[k as int].1)));
            }
            k = k + 1;
        }
        proof {
            assert(files.deep_view().subrange(0, files.deep_view().len() as int)
                =~= files.deep_view());
        }
        idx
    }

    /// The records whose file text contains `text` as a substring. The
    /// caller supplies each record's current file text, in index order.
    pub fn search_text(&self, texts: &Vec<String>, text: &str) -> (r: Vec<Zettel>)
        requires
            texts@.len() == self@.len(),
        ensures
            r.deep_view() == search_upto(self@, texts.deep_view(), text@, self@.len() as int),
    {
        let mut out: Vec<Zettel> = Vec::new();
        let mut k: usize = 0;
        while k < self.notes.len()
            invariant
                k <= self.notes.len(),
                self@.len() == self.notes.len(),
                texts@.len() == self@.len(),
                out.deep_view() == search_upto(self@, texts.deep_view(), text@, k as int),
            decreases self.notes.len() - k,
        {
            let ghost pre = out.deep_view();
            if contains_str(texts[k].as_str(), text) {
                out.push(self.notes[k].duplicate());
                proof {
                    assert(texts.deep_view()[k as int] == texts@[k as int]@);
                    assert(out.deep_view() =~= pre.push(self@[k as int]));
                }
            } else {
                proof {
                    assert(texts.deep_view()[k as int] == texts@[k as int]@);
                }
            }
            k = k + 1;
        }
        out
    }

    /// The position of the first record carrying `title`, if any.
    fn first_title_index(&self, title: &String) -> (r: Option<usize>)
        ensures
            r matches Some(f) ==> first_with_title(self@, title@) == Some(f as int) && f
                < self@.len(),
            r is None ==> first_with_title(self@, title@) is None,
    {
        let mut k: usize = 0;
        while k < self.notes.len()
            invariant
                k <= self.notes.len(),
                self@.len() == self.notes.len(),
                forall|m: int| 0 <= m < k ==> self@[m].title != title@,
            decreases self.notes.len() - k,
        {
            proof {
                lemma_first_with_title(self@, title@);
                assert(self@[k as int] == self.notes@[k as int]@);
            }
            if self.notes[k].title == *title {
                return Some(k);
            }
            k = k + 1;
        }
        proof {
            lemma_first_with_title(self@, title@);
        }
        None
    }

    /// Decide whether any record links to `title`.
    fn anyone_links_to(&self, title: &String) -> (r: bool)
        ensures
            r == linked_from_any(self@, title@),
    {
        let mut k: usize = 0;
        while k < self.notes.len()
            invariant
                k <= self.notes.len(),
                self@.len() == self.notes.len(),
                forall|m: int| 0 <= m < k ==> !self@[m].links.contains(title@),
            decreases self.notes.len() - k,
        {
            proof {
                assert(self@[k as int] == self.notes@[k as int]@);
            }
            if links_contain(&self.notes[k], title) {
                return true;
            }
            k = k + 1;
        }
        false
    }

    /// Rename the note carrying `old_title`: abort on a conflicting target
    /// title, a missing source title, or a declined confirmation, in that
    /// order, leaving the index unchanged; otherwise retitle the first
    /// matching record and report the file rename and the dependent files
    /// whose link text must be rewritten.
    pub fn rename(&mut self, old_title: &str, new_title: &str, confirmed: bool) -> (r:
        RenameOutcome)
        ensures
            (r is NotFound) == !has_title(old(self)@, old_title@),
            (r is Conflict) == (has_title(old(self)@, old_title@) && has_title(
                old(self)@,
                new_title@,
            )),
            (r is Declined) == (has_title(old(self)@, old_title@) && !has_title(
                old(self)@,
                new_title@,
            ) && !confirmed),
            (r is Applied) == (has_title(old(self)@, old_title@) && !has_title(
                old(self)@,
                new_title@,
            ) && confirmed),
            !(r is Applied) ==> final(self)@ == old(self)@,
            r matches RenameOutcome::Applied { old_filename, new_filename, dependents } ==> (
            first_with_title(old(self)@, old_title@) matches Some(f) && final(self)@ == old(
                self,
            )@.update(f, retitled_view(old(self)@[f], new_title@)) && old_filename@ == filename_of(
                old(self)@[f],
            ) && new_filename@ == filename_of(retitled_view(old(self)@[f], new_title@))
                && dependents.deep_view() == backlink_filenames(final(self)@, old_title@)),
    {
        let old_t = old_title.to_owned();
        let f = match self.first_title_index(&old_t) {
            None => {
                proof {
                    lemma_first_with_title(self@, old_t@);
                }
                return RenameOutcome::NotFound;
            },
            Some(f) => f,
        };
        proof {
            lemma_first_with_title(self@, old_t@);
        }
        let new_t = new_title.to_owned();
        if self.title_exists(&new_t) {
            return RenameOutcome::Conflict;
        }
        if !confirmed {
            return RenameOutcome::Declined;
        }
        let old_filename = self.notes[f].filename();
        let z2 = retitled(&self.notes[f], new_title);
        let new_filename = z2.filename();
        let ghost pre = self.notes.deep_view();
        self.notes.remove(f);
        proof {
            assert(self.notes.deep_view() =~= pre.remove(f as int));
        }
        let ghost mid = self.notes.deep_view();
        self.notes.insert(f, z2);
        proof {
            assert(self.notes.deep_view() =~= mid.insert(
                f as int,
                retitled_view(old(self)@[f as int], new_title@),
            ));
            assert(self@ =~= old(self)@.update(
                f as int,
                retitled_view(old(self)@[f as int], new_title@),
            ));
        }
        let ghost cur = self@;
        let ghost pred = |z: ZettelView| z.links.contains(old_t@);
        let mut dependents: Vec<String> = Vec::new();
        let mut k: usize = 0;
        proof {
            assert(cur.subrange(0, 0).filter(pred) =~= Seq::<ZettelView>::empty());
            assert(dependents.deep_view() =~= Seq::<Seq<char>>::empty());
            assert(cur.subrange(0, 0).filter(pred).map_values(|z: ZettelView| filename_of(z))
                =~= Seq::<Seq<char>>::empty());
        }
        while k < self.notes.len()
            invariant
                k <= self.notes.len(),
                self@.len() == self.notes.len(),
                self@ == cur,
                old_t@ == old_title@,
                pred == (|z: ZettelView| z.links.contains(old_t@)),
                dependents.deep_view() == cur.subrange(0, k as int).filter(pred).map_values(
                    |z: ZettelView| filename_of(z),
                ),
            decreases self.notes.len() - k,
        {
            let ghost dpre = dependents.deep_view();
            proof {
                assert(self@[k as int] == self.notes@[k as int]@);
            }
            if links_contain(&self.notes[k], &old_t) {
                let fname = self.notes[k].filename();
                dependents.push(fname);
                proof {
                    assert(dependents.deep_view() =~= dpre.push(filename_of(cur[k as int])));
                }
            }
            proof {
                lemma_filter_push(cur.subrange(0, k as int), cur[k as int], pred);
                assert(cur.subrange(0, k + 1) =~= cur.subrange(0, k as int).push(cur[k as int]));
                assert(cur.subrange(0, k + 1).filter(pred).map_values(
                    |z: ZettelView| filename_of(z),
                ) =~= if pred(cur[k as int]) {
                    cur.subrange(0, k as int).filter(pred).map_values(
                        |z: ZettelView| filename_of(z),
                    ).push(filename_of(cur[k as int]))
                } else {
                    cur.subrange(0, k as int).filter(pred).map_values(
                        |z: ZettelView| filename_of(z),
                    )
                });
            }
            k = k + 1;
        }
        proof {
            assert(cur.subrange(0, cur.len() as int) =~= cur);
        }
        RenameOutcome::Applied { old_filename, new_filename, dependents }
    }

    /// Move every note whose title matches the glob `pattern` into
    /// `new_project`, when confirmed; report the file renames to perform.
    pub fn mv(&mut self, pattern: &str, new_project: &str, confirmed: bool) -> (r: MoveOutcome)
        ensures
            (r is Declined) == !confirmed,
            r is Declined ==> final(self)@ == old(self)@,
            r matches MoveOutcome::Applied { renames } ==> final(self)@ == reproject_matching(
                old(self)@,
                pattern@,
                new_project@,
            ) && renames.deep_view() == move_renames(old(self)@, pattern@, new_project@),
    {
        if !confirmed {
            return MoveOutcome::Declined;
        }
        let ghost g = |r: ZettelView|
            if glob_match(pattern@, r.title) {
                reprojected_view(r, new_project@)
            } else {
                r
            };
        let ghost pred = |z: ZettelView| glob_match(pattern@, z.title);
        let ghost pairf = |z: ZettelView|
            (filename_of(z), filename_of(reprojected_view(z, new_project@)));
        let mut out: Vec<Zettel> = Vec::new();
        let mut renames: Vec<(String, String)> = Vec::new();
        let mut k: usize = 0;
        proof {
            assert(out.deep_view() =~= self@.subrange(0, 0).map_values(g));
            assert(renames.deep_view() =~= self@.subrange(0, 0).filter(pred).map_values(pairf));
        }
        while k < self.notes.len()
            invariant
                k <= self.notes.len(),
                self@.len() == self.notes.len(),
                self@ == old(self)@,
                self.notes == old(self).notes,
                g == (|r: ZettelView|
                    if glob_match(pattern@, r.title) {
                        reprojected_view(r, new_project@)
                    } else {
                        r
                    }),
                pred == (|z: ZettelView| glob_match(pattern@, z.title)),
                pairf == (|z: ZettelView|
                    (filename_of(z), filename_of(reprojected_view(z, new_project@)))),
                out.deep_view() == self@.subrange(0, k as int).map_values(g),
                renames.deep_view() == self@.subrange(0, k as int).filter(pred).map_values(pairf),
            decreases self.notes.len() - k,
        {
            let ghost opre = out.deep_view();
            let ghost rpre = renames.deep_view();
            proof {
                assert(self@[k as int] == self.notes@[k as int]@);
            }
            if matches_glob(pattern, self.notes[k].title.as_str()) {
                let z2 = reprojected(&self.notes[k], new_project);
                let old_fname = self.notes[k].filename();
                let new_fname = z2.filename();
                renames.push((old_fname, new_fname));
                out.push(z2);
                proof {
                    assert(renames.deep_view() =~= rpre.push(pairf(self@[k as int])));
                    assert(out.deep_view() =~= opre.push(g(self@[k as int])));
                }
            } else {
                out.push(self.notes[k].duplicate());
                proof {
                    assert(out.deep_view() =~= opre.push(g(self@[k as int])));
                }
            }
            proof {
                lemma_filter_push(self@.subrange(0, k as int), self@[k as int], pred);
                assert(self@.subrange(0, k + 1) =~= self@.subrange(0, k as int).push(
                    self@[k as int],
                ));
                assert(self@.subrange(0, k + 1).map_values(g) =~= self@.subrange(
                    0,
                    k as int,
                ).map_values(g).push(g(self@[k as int])));
                assert(self@.subrange(0, k + 1).filter(pred).map_values(pairf) =~= if pred(
                    self@[k as int],
                ) {
                    self@.subrange(0, k as int).filter(pred).map_values(pairf).push(
                        pairf(self@[k as int]),
                    )
                } else {
                    self@.subrange(0, k as int).filter(pred).map_values(pairf)
                });
            }
            k = k + 1;
        }
        self.notes = out;
        proof {
            assert(old(self)@.subrange(0, old(self)@.len() as int) =~= old(self)@);
        }
        MoveOutcome::Applied { renames }
    }

    /// The ghosts: link targets that no indexed note's title satisfies,
    /// without duplicates, in first-mention order.
    pub fn zettel_not_yet_created(&self) -> (r: Vec<String>)
        ensures
            r.deep_view() == ghosts_of(self@),
    {
        let mut flat: Vec<String> = Vec::new();
        let mut k: usize = 0;
        proof {
            assert(flat.deep_view() =~= links_upto(self@, 0));
        }
        while k < self.notes.len()
            invariant
                k <= self.notes.len(),
                self@.len() == self.notes.len(),
                flat.deep_view() == links_upto(self@, k as int),
            decreases self.notes.len() - k,
        {
            let mut l: usize = 0;
            while l < self.notes[k].links.len()
                invariant
                    k < self.notes.len(),
                    self@.len() == self.notes.len(),
                    l <= self.notes[k as int].links.len(),
                    self@[k as int].links.len() == self.notes[k as int].links.len(),
                    flat.deep_view() == links_upto(self@, k as int) + self@[k as int].links.subrange(
                        0,
                        l as int,
                    ),
                decreases self.notes[k as int].links.len() - l,
            {
                let ghost fpre = flat.deep_view();
                flat.push(self.notes[k].links[l].clone());
                proof {
                    assert(self@[k as int].links[l as int] == self.notes@[k as int].links@[l as int]@);
                    assert(flat.deep_view() =~= fpre.push(self@[k as int].links[l as int]));
                    assert(links_upto(self@, k as int) + self@[k as int].links.subrange(0, l + 1)
                        =~= fpre.push(self@[k as int].links[l as int]));
                }
                l = l + 1;
            }
            proof {
                assert(self@[k as int].links.subrange(0, self@[k as int].links.len() as int)
                    =~= self@[k as int].links);
                assert(links_upto(self@, k + 1) == links_upto(self@, k as int)
                    + self@[k as int].links);
            }
            k = k + 1;
        }
        let ghost pred = |t: Seq<char>| !has_title(self@, t);
        let mut out: Vec<String> = Vec::new();
        let mut j: usize = 0;
        proof {
            assert(flat.deep_view().subrange(0, 0).filter(pred) =~= Seq::<Seq<char>>::empty());
            assert(out.deep_view() =~= dedup_of(flat.deep_view().subrange(0, 0).filter(pred)));
        }
        while j < flat.len()
            invariant
                j <= flat.len(),
                flat.deep_view().len() == flat.len(),
                flat.deep_view() == links_upto(self@, self@.len() as int),
                pred == (|t: Seq<char>| !has_title(self@, t)),
                out.deep_view() == dedup_of(flat.deep_view().subrange(0, j as int).filter(pred)),
            decreases flat.len() - j,
        {
            let ghost fp = flat.deep_view().subrange(0, j as int).filter(pred);
            let ghost opre = out.deep_view();
            let known = self.title_exists(&flat[j]);
            proof {
                assert(flat.deep_view()[j as int] == flat@[j as int]@);
                lemma_filter_push(
                    flat.deep_view().subrange(0, j as int),
                    flat.deep_view()[j as int],
                    pred,
                );
                assert(flat.deep_view().subrange(0, j + 1) =~= flat.deep_view().subrange(
                    0,
                    j as int,
                ).push(flat.deep_view()[j as int]));
            }
            if !known {
                let already = string_in(&out, &flat[j]);
                proof {
                    lemma_dedup_push(fp, flat.deep_view()[j as int]);
                    lemma_dedup_contains(fp, flat.deep_view()[j as int]);
                }
                if !already {
                    out.push(flat[j].clone());
                    proof {
                        assert(out.deep_view() =~= opre.push(flat.deep_view()[j as int]));
                    }
                }
            }
            j = j + 1;
        }
        proof {
            assert(flat.deep_view().subrange(0, flat.deep_view().len() as int)
                =~= flat.deep_view());
        }
        out
    }

    /// The isolated notes: default-project records with no outbound links
    /// and no inbound link from any record.
    pub fn isolated(&self) -> (r: Vec<Zettel>)
        ensures
            r.deep_view() == isolated_of(self@),
    {
        let ghost pred = |z: ZettelView|
            z.project.len() == 0 && z.links.len() == 0 && !linked_from_any(self@, z.title);
        let mut out: Vec<Zettel> = Vec::new();
        let mut k: usize = 0;
        proof {
            assert(self@.subrange(0, 0).filter(pred) =~= Seq::<ZettelView>::empty());
            assert(out.deep_view() =~= Seq::<ZettelView>::empty());
        }
        while k < self.notes.len()
            invariant
                k <= self.notes.len(),
                self@.len() == self.notes.len(),
                pred == (|z: ZettelView|
                    z.project.len() == 0 && z.links.len() == 0 && !linked_from_any(
                        self@,
                        z.title,
                    )),
                out.deep_view() == self@.subrange(0, k as int).filter(pred),
            decreases self.notes.len() - k,
        {
            let ghost pre = out.deep_view();
            proof {
                assert(self@[k as int] == self.notes@[k as int]@);
            }
            let mut keep = self.notes[k].project.as_str().is_empty() && self.notes[k].links.len()
                == 0;
            if keep {
                keep = !self.anyone_links_to(&self.notes[k].title);
            }
            if keep {
                out.push(self.notes[k].duplicate());
                proof {
                    assert(out.deep_view() =~= pre.push(self@[k as int]));
                }
            }
            proof {
                lemma_filter_push(self@.subrange(0, k as int), self@[k as int], pred);
                assert(self@.subrange(0, k + 1) =~= self@.subrange(0, k as int).push(
                    self@[k as int],
                ));
            }
            k = k + 1;
        }
        proof {
            assert(self@.subrange(0, self@.len() as int) =~= self@);
        }
        out
    }

    /// The distinct tags in use, sorted.
    pub fn list_tags(&self) -> (r: Vec<String>)
        ensures
            sorted_lex(r.deep_view()),
            r.deep_view().to_multiset() == dedup_of(all_tags(self@)).to_multiset(),
    {
        let mut flat: Vec<String> = Vec::new();
        let mut k: usize = 0;
        proof {
            assert(flat.deep_view() =~= tags_upto(self@, 0));
        }
        while k < self.notes.len()
            invariant
                k <= self.notes.len(),
                self@.len() == self.notes.len(),
                flat.deep_view() == tags_upto(self@, k as int),
            decreases self.notes.len() - k,
        {
            let mut l: usize = 0;
            while l < self.notes[k].tags.len()
                invariant
                    k < self.notes.len(),
                    self@.len() == self.notes.len(),
                    l <= self.notes[k as int].tags.len(),
                    self@[k as int].tags.len() == self.notes[k as int].tags.len(),
                    flat.deep_view() == tags_upto(self@, k as int) + self@[k as int].tags.subrange(
                        0,
                        l as int,
                    ),
                decreases self.notes[k as int].tags.len() - l,
            {
                let ghost fpre = flat.deep_view();
                flat.push(self.notes[k].tags[l].clone());
                proof {
                    assert(self@[k as int].tags[l as int] == self.notes@[k as int].tags@[l as int]@);
                    assert(flat.deep_view() =~= fpre.push(self@[k as int].tags[l as int]));
                    assert(tags_upto(self@, k as int) + self@[k as int].tags.subrange(0, l + 1)
                        =~= fpre.push(self@[k as int].tags[l as int]));
                }
                l = l + 1;
            }
            proof {
                assert(self@[k as int].tags.subrange(0, self@[k as int].tags.len() as int)
                    =~= self@[k as int].tags);
                assert(tags_upto(self@, k + 1) == tags_upto(self@, k as int)
                    + self@[k as int].tags);
            }
            k = k + 1;
        }
        sort_strings(dedup_strings(flat))
    }

    /// The distinct projects in use, sorted; the empty string stands for
    /// the default collection.
    pub fn list_projects(&self) -> (r: Vec<String>)
        ensures
            sorted_lex(r.deep_view()),
            r.deep_view().to_multiset() == dedup_of(
                self@.map_values(|z: ZettelView| z.project),
            ).to_multiset(),
    {
        let ghost projf = |z: ZettelView| z.project;
        let mut flat: Vec<String> = Vec::new();
        let mut k: usize = 0;
        proof {
            assert(flat.deep_view() =~= self@.subrange(0, 0).map_values(projf));
        }
        while k < self.notes.len()
            invariant
                k <= self.notes.len(),
                self@.len() == self.notes.len(),
                projf == (|z: ZettelView| z.project),
                flat.deep_view() == self@.subrange(0, k as int).map_values(projf),
            decreases self.notes.len() - k,
        {
            let ghost fpre = flat.deep_view();
            flat.push(self.notes[k].project.clone());
            proof {
                assert(self@[k as int] == self.notes@[k as int]@);
                assert(flat.deep_view() =~= fpre.push(self@[k as int].project));
                assert(self@.subrange(0, k + 1).map_values(projf) =~= self@.subrange(
                    0,
                    k as int,
                ).map_values(projf).push(projf(self@[k as int])));
            }
            k = k + 1;
        }
        proof {
            assert(self@.subrange(0, self@.len() as int) =~= self@);
        }
        sort_strings(dedup_strings(flat))
    }

    /// The records matching the tag pattern or its hierarchical subtree
    /// form `pattern/*`, without duplicates, sorted by title.
    pub fn find_by_tag_subtree(&self, pattern: &str) -> (r: Vec<Zettel>)
        ensures
            sorted_by_title(r.deep_view()),
            r.deep_view().to_multiset() == dedup_of(
                by_tag(self@, pattern@) + by_tag(self@, pattern@ + seq!['/', '*']),
            ).to_multiset(),
    {
        let base = self.find_by_tag(pattern);
        let mut sub_pat = pattern.to_owned();
        sub_pat.append("/*");
        proof {
            reveal_strlit("/*");
            assert(("/*")@ =~= seq!['/', '*']);
            assert(sub_pat@ =~= pattern@ + seq!['/', '*']);
        }
        let sub = self.find_by_tag(sub_pat.as_str());
        let ghost both = by_tag(self@, pattern@) + by_tag(self@, pattern@ + seq!['/', '*']);
        let mut out: Vec<Zettel> = Vec::new();
        let mut k: usize = 0;
        proof {
            assert(both.subrange(0, 0) =~= Seq::<ZettelView>::empty());
            assert(out.deep_view() =~= dedup_of(both.subrange(0, 0)));
        }
        while k < base.len()
            invariant
                k <= base.len(),
                base.deep_view() == by_tag(self@, pattern@),
                both == by_tag(self@, pattern@) + by_tag(self@, pattern@ + seq!['/', '*']),
                out.deep_view() == dedup_of(both.subrange(0, k as int)),
            decreases base.len() - k,
        {
            let ghost pre = out.deep_view();
            proof {
                assert(base[k as int]@ == both[k as int]);
                assert(both.subrange(0, k + 1) =~= both.subrange(0, k as int).push(
                    both[k as int],
                ));
                lemma_dedup_push(both.subrange(0, k as int), both[k as int]);
                lemma_dedup_contains(both.subrange(0, k as int), both[k as int]);
            }
            if !zettel_in(&out, &base[k]) {
                out.push(base[k].duplicate());
                proof {
                    assert(out.deep_view() =~= pre.push(both[k as int]));
                }
            }
            k = k + 1;
        }
        let mut k2: usize = 0;
        while k2 < sub.len()
            invariant
                k2 <= sub.len(),
                k == base.len(),
                base.deep_view() == by_tag(self@, pattern@),
                sub.deep_view() == by_tag(self@, pattern@ + seq!['/', '*']),
                both == by_tag(self@, pattern@) + by_tag(self@, pattern@ + seq!['/', '*']),
                out.deep_view() == dedup_of(both.subrange(0, k as int + k2 as int)),
            decreases sub.len() - k2,
        {
            let ghost pre = out.deep_view();
            let ghost pos = k as int + k2 as int;
            proof {
                assert(sub[k2 as int]@ == both[pos]);
                assert(both.subrange(0, pos + 1) =~= both.subrange(0, pos).push(both[pos]));
                lemma_dedup_push(both.subrange(0, pos), both[pos]);
                lemma_dedup_contains(both.subrange(0, pos), both[pos]);
            }
            if !zettel_in(&out, &sub[k2]) {
                out.push(sub[k2].duplicate());
                proof {
                    assert(out.deep_view() =~= pre.push(both[pos]));
                }
            }
            k2 = k2 + 1;
        }
        proof {
            assert(both.subrange(0, both.len() as int) =~= both);
        }
        sort_by_title(out)
    }
}

/// Decide whether two vectors of strings have equal models.
fn strings_eq(x: &Vec<String>, y: &Vec<String>) -> (r: bool)
    ensures
        r == (x.deep_view() == y.deep_view()),
{
    if x.len() != y.len() {
        proof {
            assert(x.deep_view().len() != y.deep_view().len());
        }
        return false;
    }
    let mut l: usize = 0;
    while l < x.len()
        invariant
            l <= x.len(),
            x.len() == y.len(),
            forall|m: int| 0 <= m < l ==> x.deep_view()[m] == y.deep_view()[m],
        decreases x.len() - l,
    {
        proof {
            assert(x.deep_view()[l as int] == x@[l as int]@);
            assert(y.deep_view()[l as int] == y@[l as int]@);
        }
        if !(x[l] == y[l]) {
            return false;
        }
        l = l + 1;
    }
    proof {
        assert(x.deep_view() =~= y.deep_view());
    }
    true
}

/// Decide whether two notes have equal models: same title, project, links
/// and tags.
fn zettel_eq(a: &Zettel, b: &Zettel) -> (r: bool)
    ensures
        r == (a@ == b@),
{
    let r = a.title == b.title && a.project == b.project && strings_eq(&a.links, &b.links)
        && strings_eq(&a.tags, &b.tags);
    proof {
        if r {
            assert(a@ =~= b@);
        }
    }
    r
}

/// Decide whether the model of `z` occurs among the models of `v`.
fn zettel_in(v: &Vec<Zettel>, z: &Zettel) -> (r: bool)
    ensures
        r == v.deep_view().contains(z@),
{
    let mut l: usize = 0;
    while l < v.len()
        invariant
            l <= v.len(),
            forall|m: int| 0 <= m < l ==> v.deep_view()[m] != z@,
        decreases v.len() - l,
    {
        proof {
            assert(v.deep_view()[l as int] == v@[l as int]@);
        }
        if zettel_eq(&v[l], z) {
            return true;
        }
        l = l + 1;
    }
    assert(!v.deep_view().contains(z@));
    false
}

/// The records are sorted by title in lexicographic order.
pub open spec fn sorted_by_title(s: Seq<ZettelView>) -> bool {
    forall|i: int, j: int| 0 <= i <= j < s.len() ==> lex_leq(s[i].title, s[j].title)
}

/// Sort records by title; the result holds exactly the same records, with
/// their multiplicities.
fn sort_by_title(v: Vec<Zettel>) -> (r: Vec<Zettel>)
    ensures
        sorted_by_title(r.deep_view()),
        r.deep_view().to_multiset() == v.deep_view().to_multiset(),
{
    let mut rest = v;
    let mut out: Vec<Zettel> = Vec::new();
    proof {
        broadcast use vstd::seq_lib::group_to_multiset_ensures;
        broadcast use vstd::multiset::group_multiset_axioms;

        assert(out.deep_view().to_multiset() =~= Seq::<ZettelView>::empty().to_multiset());
        assert(out.deep_view().to_multiset().add(rest.deep_view().to_multiset())
            =~= rest.deep_view().to_multiset());
    }
    while rest.len() > 0
        invariant
            sorted_by_title(out.deep_view()),
            forall|i: int, j: int|
                0 <= i < out.deep_view().len() && 0 <= j < rest.deep_view().len() ==> lex_leq(
                    out.deep_view()[i].title,
                    rest.deep_view()[j].title,
                ),
            out.deep_view().to_multiset().add(rest.deep_view().to_multiset())
                == v.deep_view().to_multiset(),
        decreases rest.len(),
    {
        let mut m: usize = 0;
        let mut j: usize = 1;
        proof {
            lemma_lex_refl(rest.deep_view()[0].title);
        }
        while j < rest.len()
            invariant
                m < rest.len(),
                j <= rest.len(),
                rest.len() > 0,
                rest.deep_view().len() == rest.len(),
                forall|l: int|
                    0 <= l < j ==> lex_leq(
                        rest.deep_view()[m as int].title,
                        rest.deep_view()[l].title,
                    ),
            decreases rest.len() - j,
        {
            proof {
                assert(rest.deep_view()[m as int] == rest@[m as int]@);
                assert(rest.deep_view()[j as int] == rest@[j as int]@);
                lemma_lex_total(
                    rest.deep_view()[m as int].title,
                    rest.deep_view()[j as int].title,
                );
            }
            if !str_leq(rest[m].title.as_str(), rest[j].title.as_str()) {
                let ghost old_m = m as int;
                m = j;
                proof {
                    assert forall|l: int| 0 <= l < j + 1 implies lex_leq(
                        rest.deep_view()[m as int].title,
                        rest.deep_view()[l].title,
                    ) by {
                        if l < j {
                            lemma_lex_trans(
                                rest.deep_view()[m as int].title,
                                rest.deep_view()[old_m].title,
                                rest.deep_view()[l].title,
                            );
                        } else {
                            lemma_lex_refl(rest.deep_view()[m as int].title);
                        }
                    }
                }
            }
            j = j + 1;
        }
        let ghost rpre = rest.deep_view();
        let ghost opre = out.deep_view();
        let x = rest.remove(m);
        out.push(x);
        proof {
            broadcast use vstd::seq_lib::group_to_multiset_ensures;
            broadcast use vstd::multiset::group_multiset_axioms;

            assert(rest.deep_view() =~= rpre.remove(m as int));
            assert(out.deep_view() =~= opre.push(rpre[m as int]));
            assert(rpre.remove(m as int).to_multiset() =~= rpre.to_multiset().remove(
                rpre[m as int],
            ));
            assert(opre.push(rpre[m as int]).to_multiset() =~= opre.to_multiset().insert(
                rpre[m as int],
            ));
            assert(rpre.contains(rpre[m as int]));
            assert(rpre.to_multiset().count(rpre[m as int]) > 0);
            assert(out.deep_view().to_multiset().add(rest.deep_view().to_multiset())
                =~= opre.to_multiset().add(rpre.to_multiset()));
            assert forall|i: int, jj: int|
                0 <= i <= jj < out.deep_view().len() implies lex_leq(
                out.deep_view()[i].title,
                out.deep_view()[jj].title,
            ) by {
                if jj < out.deep_view().len() - 1 {
                } else if i < jj {
                    assert(out.deep_view()[i] == opre[i]);
                    assert(out.deep_view()[jj] == rpre[m as int]);
                }
            }
            assert forall|i: int, jj: int|
                0 <= i < out.deep_view().len() && 0 <= jj < rest.deep_view().len() implies lex_leq(
                out.deep_view()[i].title,
                rest.deep_view()[jj].title,
            ) by {
                let orig = if jj < m as int {
                    jj
                } else {
                    jj + 1
                };
                assert(rest.deep_view()[jj] == rpre[orig]);
                if i < out.deep_view().len() - 1 {
                    assert(out.deep_view()[i] == opre[i]);
                } else {
                    assert(out.deep_view()[i] == rpre[m as int]);
                }
            }
        }
    }
    proof {
        broadcast use vstd::seq_lib::group_to_multiset_ensures;
        broadcast use vstd::multiset::group_multiset_axioms;

        assert(rest.deep_view().to_multiset() =~= Seq::<ZettelView>::empty().to_multiset());
        assert(out.deep_view().to_multiset().add(rest.deep_view().to_multiset())
            =~= out.deep_view().to_multiset());
    }
    out
}

/// Decide whether the model of `t` occurs among the models of `v`.
fn string_in(v: &Vec<String>, t: &String) -> (r: bool)
    ensures
        r == v.deep_view().contains(t@),
{
    let mut l: usize = 0;
    while l < v.len()
        invariant
            l <= v.len(),
            forall|m: int| 0 <= m < l ==> v.deep_view()[m] != t@,
        decreases v.len() - l,
    {
        proof {
            assert(v.deep_view()[l as int] == v@[l as int]@);
        }
        if v[l] == *t {
            return true;
        }
        l = l + 1;
    }
    assert(!v.deep_view().contains(t@));
    false
}

/// Remove duplicate strings, keeping the first occurrence of each value.
fn dedup_strings(v: Vec<String>) -> (r: Vec<String>)
    ensures
        r.deep_view() == dedup_of(v.deep_view()),
{
    let mut out: Vec<String> = Vec::new();
    let mut j: usize = 0;
    proof {
        assert(v.deep_view().subrange(0, 0) =~= Seq::<Seq<char>>::empty());
        assert(out.deep_view() =~= dedup_of(v.deep_view().subrange(0, 0)));
    }
    while j < v.len()
        invariant
            j <= v.len(),
            v.deep_view().len() == v.len(),
            out.deep_view() == dedup_of(v.deep_view().subrange(0, j as int)),
        decreases v.len() - j,
    {
        let ghost fp = v.deep_view().subrange(0, j as int);
        let ghost opre = out.deep_view();
        let already = string_in(&out, &v[j]);
        proof {
            assert(v.deep_view()[j as int] == v@[j as int]@);
            assert(v.deep_view().subrange(0, j + 1) =~= fp.push(v.deep_view()[j as int]));
            lemma_dedup_push(fp, v.deep_view()[j as int]);
            lemma_dedup_contains(fp, v.deep_view()[j as int]);
        }
        if !already {
            out.push(v[j].clone());
            proof {
                assert(out.deep_view() =~= opre.push(v.deep_view()[j as int]));
            }
        }
        j = j + 1;
    }
    proof {
        assert(v.deep_view().subrange(0, v.deep_view().len() as int) =~= v.deep_view());
    }
    out
}

} // verus!
