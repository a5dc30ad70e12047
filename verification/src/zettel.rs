//! The note type: a title, an optional project namespace, and the links and
//! tags extracted from the note's text.

use vstd::prelude::*;
use crate::text::{find_links, find_tags, links_of, tags_of};

verus! {

/// One note record: the unit stored in the index. The empty project string
/// denotes the default collection.
pub struct Zettel {
    pub title: String,
    pub project: String,
    pub links: Vec<String>,
    pub tags: Vec<String>,
}

/// The mathematical model of a note: its fields as character sequences.
#[verifier::ext_equal]
pub struct ZettelView {
    pub title: Seq<char>,
    pub project: Seq<char>,
    pub links: Seq<Seq<char>>,
    pub tags: Seq<Seq<char>>,
}

impl View for Zettel {
    type V = ZettelView;

    open spec fn view(&self) -> ZettelView {
        ZettelView {
            title: self.title@,
            project: self.project@,
            links: self.links.deep_view(),
            tags: self.tags.deep_view(),
        }
    }
}

impl DeepView for Zettel {
    type V = ZettelView;

    open spec fn deep_view(&self) -> ZettelView {
        self@
    }
}

/// The note a file encodes, as a model value: the path gives the title and
/// project, the contents give the links and tags.
pub open spec fn from_file_view(path: Seq<char>, contents: Seq<char>) -> ZettelView {
    ZettelView {
        title: title_of_path(path),
        project: project_of_path(path),
        links: links_of(contents),
        tags: tags_of(contents),
    }
}

/// The `.md` filename extension.
pub open spec fn md_ext() -> Seq<char> {
    seq!['.', 'm', 'd']
}

/// A note's filename: the title with a `.md` extension, inside the project's
/// directory when the note belongs to a named project.
pub open spec fn filename_of(z: ZettelView) -> Seq<char> {
    if z.project.len() == 0 {
        z.title + md_ext()
    } else {
        z.project + seq!['/'] + z.title + md_ext()
    }
}

/// The position of the last occurrence of `c` in `s`, if any.
pub open spec fn last_index_of(s: Seq<char>, c: char) -> Option<int>
    decreases s.len(),
{
    if s.len() == 0 {
        None
    } else if s.last() == c {
        Some(s.len() - 1)
    } else {
        last_index_of(s.drop_last(), c)
    }
}

/// The final path component: everything after the last `/`.
pub open spec fn basename_of(s: Seq<char>) -> Seq<char> {
    match last_index_of(s, '/') {
        Some(j) => s.subrange(j + 1, s.len() as int),
        None => s,
    }
}

/// The directory part of a path: everything before the last `/`, or the
/// empty sequence when the path has no directory part.
pub open spec fn dirname_of(s: Seq<char>) -> Seq<char> {
    match last_index_of(s, '/') {
        Some(j) => s.subrange(0, j),
        None => Seq::empty(),
    }
}

/// The extension suffix appended by `replace_extension_of`.
pub open spec fn dot_ext(ext: Seq<char>) -> Seq<char> {
    if ext.len() == 0 {
        Seq::empty()
    } else {
        seq!['.'] + ext
    }
}

/// Replace the extension of the final path component: cut from the last `.`
/// that falls after the last `/`, then append `.ext` (or nothing when `ext`
/// is empty).
pub open spec fn replace_extension_of(s: Seq<char>, ext: Seq<char>) -> Seq<char> {
    match last_index_of(s, '.') {
        Some(d) => if d > last_slash_bound(s) {
            s.subrange(0, d) + dot_ext(ext)
        } else {
            s + dot_ext(ext)
        },
        None => s + dot_ext(ext),
    }
}

/// The index of the last `/`, or `-1` when there is none: the boundary
/// before which a `.` does not count as an extension separator.
pub open spec fn last_slash_bound(s: Seq<char>) -> int {
    match last_index_of(s, '/') {
        Some(j) => j,
        None => -1,
    }
}

/// The title a note file's path encodes: the basename without its extension.
pub open spec fn title_of_path(p: Seq<char>) -> Seq<char> {
    replace_extension_of(basename_of(p), Seq::empty())
}

/// The project a note file's path encodes: its directory part.
pub open spec fn project_of_path(p: Seq<char>) -> Seq<char> {
    dirname_of(p)
}

/// The heading line written into a freshly created note file.
pub open spec fn title_header_of(z: ZettelView) -> Seq<char> {
    seq!['#', ' '] + z.title + seq!['\n']
}

/// Find the last occurrence of `c` in `s`.
fn rfind_char(s: &str, c: char) -> (r: Option<usize>)
    ensures
        r matches Some(j) ==> last_index_of(s@, c) == Some(j as int) && j < s@.len(),
        r is None ==> last_index_of(s@, c) is None,
{
    let n = s.unicode_len();
    let mut k = n;
    proof {
        assert(s@.subrange(0, n as int) =~= s@);
    }
    loop
        invariant
            k <= n,
            n == s@.len(),
            last_index_of(s@, c) == last_index_of(s@.subrange(0, k as int), c),
        decreases k,
    {
        if k == 0 {
            assert(s@.subrange(0, 0).len() == 0);
            return None;
        }
        let ch = s.get_char(k - 1);
        let ghost pre = s@.subrange(0, k as int);
        assert(pre.last() == s@[k - 1]);
        if ch == c {
            assert(last_index_of(pre, c) == Some(k - 1));
            return Some(k - 1);
        }
        assert(last_index_of(pre, c) == last_index_of(pre.drop_last(), c));
        assert(pre.drop_last() =~= s@.subrange(0, k - 1));
        k = k - 1;
    }
}

/// The final path component of `path`, after the last `/`.
pub fn basename(path: &str) -> (r: String)
    ensures
        r@ == basename_of(path@),
{
    let n = path.unicode_len();
    match rfind_char(path, '/') {
        Some(j) => path.substring_char(j + 1, n).to_owned(),
        None => path.to_owned(),
    }
}

/// Replace the extension of `file` with `new_ext`; an empty `new_ext`
/// removes the extension.
pub fn replace_extension(file: &str, new_ext: &str) -> (r: String)
    ensures
        r@ == replace_extension_of(file@, new_ext@),
{
    let stem: String = match rfind_char(file, '.') {
        Some(d) => {
            let cut = match rfind_char(file, '/') {
                Some(j) => d > j,
                None => true,
            };
            if cut {
                file.substring_char(0, d).to_owned()
            } else {
                file.to_owned()
            }
        },
        None => file.to_owned(),
    };
    if new_ext.is_empty() {
        proof {
            assert(stem@ + dot_ext(new_ext@) =~= stem@);
        }
        stem
    } else {
        let mut r = stem;
        r.append(".");
        r.append(new_ext);
        proof {
            reveal_strlit(".");
            assert((".")@ =~= seq!['.']);
            assert(r@ =~= replace_extension_of(file@, new_ext@));
        }
        r
    }
}

/// Copy a vector of strings, preserving its model.
pub fn clone_strings(v: &Vec<String>) -> (r: Vec<String>)
    ensures
        r.deep_view() == v.deep_view(),
{
    let mut r: Vec<String> = Vec::new();
    let mut i: usize = 0;
    while i < v.len()
        invariant
            i <= v.len(),
            r.deep_view() =~= v.deep_view().subrange(0, i as int),
        decreases v.len() - i,
    {
        let ghost pre = r.deep_view();
        r.push(v[i].clone());
        proof {
            assert(r.deep_view() =~= pre.push(v@[i as int]@));
            assert(r.deep_view() =~= v.deep_view().subrange(0, i + 1));
        }
        i = i + 1;
    }
    proof {
        assert(v.deep_view().subrange(0, v@.len() as int) =~= v.deep_view());
    }
    r
}

impl Zettel {
    /// Create a note with the given title and project and no links or tags.
    pub fn new(title: &str, project: &str) -> (z: Self)
        ensures
            z@.title == title@,
            z@.project == project@,
            z@.links == Seq::<Seq<char>>::empty(),
            z@.tags == Seq::<Seq<char>>::empty(),
    {
        let z = Zettel {
            title: title.to_owned(),
            project: project.to_owned(),
            links: Vec::new(),
            tags: Vec::new(),
        };
        proof {
            assert(z@.links =~= Seq::<Seq<char>>::empty());
            assert(z@.tags =~= Seq::<Seq<char>>::empty());
        }
        z
    }

    /// A structurally equal copy of this note.
    pub fn duplicate(&self) -> (z: Self)
        ensures
            z@ == self@,
    {
        let z = Zettel {
            title: self.title.clone(),
            project: self.project.clone(),
            links: clone_strings(&self.links),
            tags: clone_strings(&self.tags),
        };
        proof {
            assert(z@ =~= self@);
        }
        z
    }

    /// Build a note from a file's path and its full text: the path encodes
    /// the title and project, the text yields the links and tags.
    pub fn from_file(path: &str, contents: &str) -> (z: Self)
        ensures
            z@.title == title_of_path(path@),
            z@.project == project_of_path(path@),
            z@.links == links_of(contents@),
            z@.tags == tags_of(contents@),
            z@ == from_file_view(path@, contents@),
    {
        let base = basename(path);
        let title = replace_extension(base.as_str(), "");
        let project: String = match rfind_char(path, '/') {
            Some(j) => path.substring_char(0, j).to_owned(),
            None => String::new(),
        };
        proof {
            reveal_strlit("");
            assert(("")@ =~= Seq::<char>::empty());
            assert(title@ == title_of_path(path@));
        }
        let z = Zettel { title, project, links: find_links(contents), tags: find_tags(contents) };
        proof {
            assert(z@ =~= from_file_view(path@, contents@));
        }
        z
    }

    /// The note's filename, derived from its title and project.
    pub fn filename(&self) -> (r: String)
        ensures
            r@ == filename_of(self@),
    {
        let mut r = String::new();
        if !self.project.as_str().is_empty() {
            r.append(self.project.as_str());
            r.append("/");
        }
        r.append(self.title.as_str());
        r.append(".md");
        proof {
            reveal_strlit("/");
            reveal_strlit(".md");
            assert(("/")@ =~= seq!['/']);
            assert((".md")@ =~= md_ext());
            assert(r@ =~= filename_of(self@));
        }
        r
    }

    /// The heading line for a freshly created note file.
    pub fn title_header(&self) -> (r: String)
        ensures
            r@ == title_header_of(self@),
    {
        let mut r = String::new();
        r.append("# ");
        r.append(self.title.as_str());
        r.append("\n");
        proof {
            reveal_strlit("# ");
            reveal_strlit("\n");
            assert(("# ")@ =~= seq!['#', ' ']);
            assert(("\n")@ =~= seq!['\n']);
            assert(r@ =~= title_header_of(self@));
        }
        r
    }

    /// Prepare the note's creation on disk: the initial file content to be
    /// written to the note's filename. Writing the file and opening an
    /// editor on it are the caller's side of the operation.
    pub fn create(self) -> (r: (Self, String))
        ensures
            r.0 == self,
            r.1@ == title_header_of(self@),
    {
        let content = self.title_header();
        (self, content)
    }
}

} // verus!
