//! The backlink composer: regenerates the derived `## Backlinks` section at
//! the end of a note file from the notes that link to it. The previously
//! generated section, located by its heading marker, is replaced wholesale,
//! which makes the operation idempotent.

use vstd::prelude::*;
use crate::text::{contains_seq, contains_str, find_from, first_match_from, lemma_first_match_from,
    match_at};
use crate::zettel::{filename_of, Zettel, ZettelView};

verus! {

/// The heading marker that delimits a generated backlinks section.
pub open spec fn backlinks_marker() -> Seq<char> {
    seq!['\n', '#', '#', ' ', 'B', 'a', 'c', 'k', 'l', 'i', 'n', 'k', 's']
}

/// The full section heading written before the composed entries.
pub open spec fn backlinks_header() -> Seq<char> {
    backlinks_marker() + seq!['\n', '\n']
}

/// The note text up to (and excluding) the first occurrence of the
/// backlinks marker: the content a regeneration preserves.
pub open spec fn trunc_at_marker(s: Seq<char>) -> Seq<char> {
    match first_match_from(s, 0, backlinks_marker()) {
        Some(i) => s.subrange(0, i),
        None => s,
    }
}

/// The paragraph-like blocks of a note's text: the chunks separated by
/// blank lines.
pub open spec fn blocks_from(s: Seq<char>, i: int) -> Seq<Seq<char>>
    decreases s.len() - i,
{
    if i < 0 || i > s.len() {
        Seq::empty()
    } else {
        match first_match_from(s, i, seq!['\n', '\n']) {
            Some(m) => if i <= m && m + 2 <= s.len() {
                seq![s.subrange(i, m)] + blocks_from(s, m + 2)
            } else {
                seq![s.subrange(i, s.len() as int)]
            },
            None => seq![s.subrange(i, s.len() as int)],
        }
    }
}

/// Position of the first `)` at or after `j` on the current line.
pub open spec fn paren_close(s: Seq<char>, j: int) -> Option<int>
    decreases s.len() - j,
{
    if j < 0 || j >= s.len() {
        None
    } else if s[j] == ')' {
        Some(j)
    } else if s[j] == '\n' {
        None
    } else {
        paren_close(s, j + 1)
    }
}

/// Strip from a block every parenthetical whose inside mentions `fname`,
/// and report whether at least one was found: the block contributes a
/// context line exactly when one was.
pub open spec fn strip_ctx_from(s: Seq<char>, i: int, fname: Seq<char>) -> (Seq<char>, bool)
    decreases s.len() - i,
{
    if i < 0 || i >= s.len() {
        (Seq::empty(), false)
    } else if s[i] == '(' {
        match paren_close(s, i + 1) {
            Some(j) => if i < j + 1 && j + 1 <= s.len() && contains_seq(
                s.subrange(i + 1, j),
                fname,
            ) {
                let rest = strip_ctx_from(s, j + 1, fname);
                (rest.0, true)
            } else {
                let rest = strip_ctx_from(s, i + 1, fname);
                (seq![s[i]] + rest.0, rest.1)
            },
            None => {
                let rest = strip_ctx_from(s, i + 1, fname);
                (seq![s[i]] + rest.0, rest.1)
            },
        }
    } else {
        let rest = strip_ctx_from(s, i + 1, fname);
        (seq![s[i]] + rest.0, rest.1)
    }
}

/// The context line a contributing block yields.
pub open spec fn context_line(b: Seq<char>, fname: Seq<char>) -> Seq<char> {
    seq!['\t', '*', ' '] + strip_ctx_from(b, 0, fname).0 + seq!['\n']
}

/// The context lines of a linking note's text: one per block that mentions
/// `fname` in a parenthetical, with those parentheticals stripped.
pub open spec fn ctxs_of(contents: Seq<char>, fname: Seq<char>) -> Seq<Seq<char>> {
    blocks_from(contents, 0).filter(|b: Seq<char>| strip_ctx_from(b, 0, fname).1).map_values(
        |b: Seq<char>| context_line(b, fname),
    )
}

/// The concatenation of a sequence of text pieces.
pub open spec fn join_all(xs: Seq<Seq<char>>) -> Seq<char>
    decreases xs.len(),
{
    if xs.len() == 0 {
        Seq::empty()
    } else {
        join_all(xs.drop_last()) + xs.last()
    }
}

/// One composed entry: a link line for the linking note, followed by its
/// context lines.
pub open spec fn entry_of(title: Seq<char>, ctxs: Seq<Seq<char>>) -> Seq<char> {
    seq!['*', ' ', '[', '['] + title + seq![']', ']', '\n'] + join_all(ctxs) + seq!['\n']
}

/// The entry a linking note's title and text yield.
pub open spec fn backlink_entry(title: Seq<char>, contents: Seq<char>, fname: Seq<char>) -> Seq<
    char,
> {
    entry_of(title, ctxs_of(contents, fname))
}

/// The first `k` composed entries, in order.
pub open spec fn entries_upto(
    ld: Seq<(Seq<char>, Seq<char>)>,
    fname: Seq<char>,
    k: int,
) -> Seq<char>
    decreases k,
{
    if k <= 0 || k > ld.len() {
        Seq::empty()
    } else {
        entries_upto(ld, fname, k - 1) + backlink_entry(ld[k - 1].0, ld[k - 1].1, fname)
    }
}

/// The titles and texts of the linking notes, paired.
pub open spec fn linkdata_of(ls: Seq<ZettelView>, cs: Seq<Seq<char>>) -> Seq<(Seq<char>, Seq<char>)> {
    Seq::new(ls.len(), |i: int| (ls[i].title, cs[i]))
}

/// The note text after regenerating its backlinks section: everything
/// before the first marker, then the heading, then one entry per linking
/// note.
pub open spec fn composed_backlinks(
    contents: Seq<char>,
    fname: Seq<char>,
    ld: Seq<(Seq<char>, Seq<char>)>,
) -> Seq<char> {
    trunc_at_marker(contents) + backlinks_header() + entries_upto(ld, fname, ld.len() as int)
}

/// The backlinks section heading, preceded and followed by blank lines.
pub fn backlink_header() -> (r: String)
    ensures
        r@ == backlinks_header(),
{
    let r = "\n## Backlinks\n\n".to_owned();
    proof {
        reveal_strlit("\n## Backlinks\n\n");
        assert(r@ =~= backlinks_header());
    }
    r
}

/// A context line for the backlinks section, quoting a paragraph.
pub fn backlink_paragraph_format(s: &str) -> (r: String)
    ensures
        r@ == seq!['\t', '*', ' '] + s@ + seq!['\n'],
{
    let mut r = "\t* ".to_owned();
    r.append(s);
    r.append("\n");
    proof {
        reveal_strlit("\t* ");
        reveal_strlit("\n");
        assert(r@ =~= seq!['\t', '*', ' '] + s@ + seq!['\n']);
    }
    r
}

/// A composed entry: a `[[title]]` reference line for the linking note,
/// followed by its context lines.
pub fn backlink_str(link: &Zettel, contexts: Vec<String>) -> (r: String)
    ensures
        r@ == entry_of(link@.title, contexts.deep_view()),
{
    let mut r = "* [[".to_owned();
    r.append(link.title.as_str());
    r.append("]]\n");
    proof {
        reveal_strlit("* [[");
        reveal_strlit("]]\n");
        assert(r@ =~= seq!['*', ' ', '[', '['] + link@.title + seq![']', ']', '\n']);
        assert(join_all(contexts.deep_view().subrange(0, 0)) =~= Seq::<char>::empty());
        assert(r@ + Seq::<char>::empty() =~= r@);
    }
    let ghost head = r@;
    let mut k: usize = 0;
    while k < contexts.len()
        invariant
            k <= contexts.len(),
            contexts.deep_view().len() == contexts.len(),
            r@ == head + join_all(contexts.deep_view().subrange(0, k as int)),
        decreases contexts.len() - k,
    {
        r.append(contexts[k].as_str());
        proof {
            assert(contexts.deep_view()[k as int] == contexts@[k as int]@);
            assert(contexts.deep_view().subrange(0, k + 1).drop_last()
                =~= contexts.deep_view().subrange(0, k as int));
            assert(join_all(contexts.deep_view().subrange(0, k + 1)) == join_all(
                contexts.deep_view().subrange(0, k as int),
            ) + contexts.deep_view()[k as int]);
            assert(r@ =~= head + join_all(contexts.deep_view().subrange(0, k + 1)));
        }
        k = k + 1;
    }
    r.append("\n");
    proof {
        reveal_strlit("\n");
        assert(contexts.deep_view().subrange(0, contexts.deep_view().len() as int)
            =~= contexts.deep_view());
        assert(r@ =~= entry_of(link@.title, contexts.deep_view()));
    }
    r
}

/// Find the first `)` at or after `j0` on the current line.
fn find_paren_close(s: &str, j0: usize) -> (r: Option<usize>)
    requires
        j0 <= s@.len(),
    ensures
        r matches Some(j) ==> paren_close(s@, j0 as int) == Some(j as int) && j0 <= j && j
            < s@.len(),
        r is None ==> paren_close(s@, j0 as int) is None,
{
    let n = s.unicode_len();
    let mut j = j0;
    loop
        invariant
            j0 <= j <= n,
            n == s@.len(),
            paren_close(s@, j0 as int) == paren_close(s@, j as int),
        decreases n - j,
    {
        if j >= n {
            assert(paren_close(s@, j as int) is None);
            return None;
        }
        let c = s.get_char(j);
        if c == ')' {
            assert(paren_close(s@, j as int) == Some(j as int));
            return Some(j);
        }
        if c == '\n' {
            assert(paren_close(s@, j as int) is None);
            return None;
        }
        assert(paren_close(s@, j as int) == paren_close(s@, j + 1));
        j = j + 1;
    }
}

/// Strip the parentheticals mentioning `fname` from a block and report
/// whether any was found.
fn strip_ctx(b: &str, fname: &str) -> (r: (String, bool))
    ensures
        r.0@ == strip_ctx_from(b@, 0, fname@).0,
        r.1 == strip_ctx_from(b@, 0, fname@).1,
{
    let n = b.unicode_len();
    let mut out = String::new();
    let mut found = false;
    let mut i: usize = 0;
    proof {
        assert(Seq::<char>::empty() + strip_ctx_from(b@, 0, fname@).0 =~= strip_ctx_from(
            b@,
            0,
            fname@,
        ).0);
    }
    while i < n
        invariant
            i <= n,
            n == b@.len(),
            strip_ctx_from(b@, 0, fname@).0 == out@ + strip_ctx_from(b@, i as int, fname@).0,
            strip_ctx_from(b@, 0, fname@).1 == (found || strip_ctx_from(b@, i as int, fname@).1),
        decreases n - i,
    {
        let ghost pre = out@;
        let mut skipped = false;
        if b.get_char(i) == '(' {
            match find_paren_close(b, i + 1) {
                Some(j) => {
                    let inside = b.substring_char(i + 1, j);
                    if contains_str(inside, fname) {
                        proof {
                            assert(strip_ctx_from(b@, i as int, fname@) == (
                            strip_ctx_from(b@, j + 1, fname@).0, true));
                        }
                        found = true;
                        i = j + 1;
                        skipped = true;
                    }
                },
                None => {},
            }
        }
        if !skipped {
            let ch = b.substring_char(i, i + 1);
            out.append(ch);
            proof {
                assert(ch@ =~= seq![b@[i as int]]);
                assert(strip_ctx_from(b@, i as int, fname@).0 == seq![b@[i as int]]
                    + strip_ctx_from(b@, i + 1, fname@).0);
                assert(strip_ctx_from(b@, i as int, fname@).1 == strip_ctx_from(
                    b@,
                    i + 1,
                    fname@,
                ).1);
                assert(out@ + strip_ctx_from(b@, i + 1, fname@).0 =~= pre + strip_ctx_from(
                    b@,
                    i as int,
                    fname@,
                ).0);
            }
            i = i + 1;
        }
    }
    proof {
        assert(strip_ctx_from(b@, n as int, fname@).0 =~= Seq::<char>::empty());
        assert(out@ + Seq::<char>::empty() =~= out@);
    }
    (out, found)
}

/// Split a note's text into its paragraph-like blocks.
fn blocks(contents: &str) -> (r: Vec<String>)
    ensures
        r.deep_view() == blocks_from(contents@, 0),
{
    let n = contents.unicode_len();
    let mut out: Vec<String> = Vec::new();
    let mut i: usize = 0;
    proof {
        reveal_strlit("\n\n");
        assert(("\n\n")@ =~= seq!['\n', '\n']);
        assert(Seq::<Seq<char>>::empty() + blocks_from(contents@, 0) =~= blocks_from(
            contents@,
            0,
        ));
    }
    loop
        invariant
            i <= n,
            n == contents@.len(),
            ("\n\n")@ == seq!['\n', '\n'],
            out.deep_view() + blocks_from(contents@, i as int) == blocks_from(contents@, 0),
        decreases n - i,
    {
        let ghost pre = out.deep_view();
        match find_from(contents, i, "\n\n") {
            Some(m) => {
                let block = contents.substring_char(i, m).to_owned();
                out.push(block);
                proof {
                    assert(out.deep_view() =~= pre.push(contents@.subrange(i as int, m as int)));
                    assert(blocks_from(contents@, i as int) =~= seq![
                        contents@.subrange(i as int, m as int),
                    ] + blocks_from(contents@, m + 2));
                    assert(pre.push(contents@.subrange(i as int, m as int)) + blocks_from(
                        contents@,
                        m + 2,
                    ) =~= pre + blocks_from(contents@, i as int));
                }
                i = m + 2;
            },
            None => {
                let block = contents.substring_char(i, n).to_owned();
                out.push(block);
                proof {
                    assert(out.deep_view() =~= pre.push(
                        contents@.subrange(i as int, n as int),
                    ));
                    assert(blocks_from(contents@, i as int) =~= seq![
                        contents@.subrange(i as int, n as int),
                    ]);
                    assert(pre.push(contents@.subrange(i as int, n as int)) =~= pre
                        + blocks_from(contents@, i as int));
                }
                return out;
            },
        }
    }
}

impl Zettel {
    /// The context lines another note's text contributes to this note's
    /// backlinks section: one per paragraph that mentions this note's
    /// filename in a parenthetical, with those parentheticals stripped.
    pub fn backlink_context(&self, link_contents: &str) -> (r: Vec<String>)
        ensures
            r.deep_view() == ctxs_of(link_contents@, filename_of(self@)),
    {
        let fname = self.filename();
        let ghost fv = filename_of(self@);
        let ghost pred = |b: Seq<char>| strip_ctx_from(b, 0, fv).1;
        let ghost mapf = |b: Seq<char>| context_line(b, fv);
        let bl = blocks(link_contents);
        let mut out: Vec<String> = Vec::new();
        let mut k: usize = 0;
        proof {
            assert(bl.deep_view().subrange(0, 0).filter(pred).map_values(mapf) =~= Seq::<
                Seq<char>,
            >::empty());
            assert(out.deep_view() =~= Seq::<Seq<char>>::empty());
        }
        while k < bl.len()
            invariant
                k <= bl.len(),
                bl.deep_view().len() == bl.len(),
                bl.deep_view() == blocks_from(link_contents@, 0),
                fname@ == fv,
                fv == filename_of(self@),
                pred == (|b: Seq<char>| strip_ctx_from(b, 0, fv).1),
                mapf == (|b: Seq<char>| context_line(b, fv)),
                out.deep_view() == bl.deep_view().subrange(0, k as int).filter(pred).map_values(
                    mapf,
                ),
            decreases bl.len() - k,
        {
            let ghost pre = out.deep_view();
            proof {
                assert(bl.deep_view()[k as int] == bl@[k as int]@);
            }
            let stripped = strip_ctx(bl[k].as_str(), fname.as_str());
            if stripped.1 {
                let line = backlink_paragraph_format(stripped.0.as_str());
                out.push(line);
                proof {
                    assert(out.deep_view() =~= pre.push(mapf(bl.deep_view()[k as int])));
                }
            }
            proof {
                crate::index::lemma_filter_push(
                    bl.deep_view().subrange(0, k as int),
                    bl.deep_view()[k as int],
                    pred,
                );
                assert(bl.deep_view().subrange(0, k + 1) =~= bl.deep_view().subrange(
                    0,
                    k as int,
                ).push(bl.deep_view()[k as int]));
                assert(bl.deep_view().subrange(0, k + 1).filter(pred).map_values(mapf) =~= if pred(
                    bl.deep_view()[k as int],
                ) {
                    bl.deep_view().subrange(0, k as int).filter(pred).map_values(mapf).push(
                        mapf(bl.deep_view()[k as int]),
                    )
                } else {
                    bl.deep_view().subrange(0, k as int).filter(pred).map_values(mapf)
                });
            }
            k = k + 1;
        }
        proof {
            assert(bl.deep_view().subrange(0, bl.deep_view().len() as int) =~= bl.deep_view());
        }
        out
    }

    /// Regenerate this note's backlinks section from the notes that link to
    /// it and their current texts: everything after the first section
    /// marker is replaced by the freshly composed section. Returns the new
    /// file content; the caller writes it back.
    pub fn update_backlinks_section(
        &self,
        contents: &str,
        links: &Vec<Zettel>,
        link_contents: &Vec<String>,
    ) -> (r: String)
        requires
            links@.len() == link_contents@.len(),
        ensures
            r@ == composed_backlinks(
                contents@,
                filename_of(self@),
                linkdata_of(links.deep_view(), link_contents.deep_view()),
            ),
    {
        let ghost fv = filename_of(self@);
        let ghost ld = linkdata_of(links.deep_view(), link_contents.deep_view());
        let mut r: String = match find_from(contents, 0, "\n## Backlinks") {
            Some(m) => contents.substring_char(0, m).to_owned(),
            None => contents.to_owned(),
        };
        proof {
            reveal_strlit("\n## Backlinks");
            assert(("\n## Backlinks")@ =~= backlinks_marker());
            assert(r@ == trunc_at_marker(contents@));
        }
        let header = backlink_header();
        r.append(header.as_str());
        proof {
            assert(entries_upto(ld, fv, 0) =~= Seq::<char>::empty());
            assert(r@ =~= trunc_at_marker(contents@) + backlinks_header() + entries_upto(
                ld,
                fv,
                0,
            ));
        }
        let mut k: usize = 0;
        while k < links.len()
            invariant
                k <= links.len(),
                links@.len() == link_contents@.len(),
                ld == linkdata_of(links.deep_view(), link_contents.deep_view()),
                ld.len() == links@.len(),
                fv == filename_of(self@),
                r@ == trunc_at_marker(contents@) + backlinks_header() + entries_upto(
                    ld,
                    fv,
                    k as int,
                ),
            decreases links.len() - k,
        {
            let ghost pre = r@;
            let ctxs = self.backlink_context(link_contents[k].as_str());
            let entry = backlink_str(&links[k], ctxs);
            r.append(entry.as_str());
            proof {
                assert(links.deep_view()[k as int] == links@[k as int]@);
                assert(link_contents.deep_view()[k as int] == link_contents@[k as int]@);
                assert(ld[k as int] == (links@[k as int]@.title, link_contents@[k as int]@));
                assert(entry@ == backlink_entry(ld[k as int].0, ld[k as int].1, fv));
                assert(entries_upto(ld, fv, k + 1) == entries_upto(ld, fv, k as int)
                    + backlink_entry(ld[k as int].0, ld[k as int].1, fv));
                assert(r@ =~= trunc_at_marker(contents@) + backlinks_header() + entries_upto(
                    ld,
                    fv,
                    k + 1,
                ));
            }
            k = k + 1;
        }
        r
    }
}

/// The marker's newline stands only at its head: no proper suffix of it
/// begins with one.
proof fn lemma_marker_no_newline()
    ensures
        forall|d: int| 1 <= d < backlinks_marker().len() ==> backlinks_marker()[d] != '\n',
{
}

/// The text kept by a truncation holds no occurrence of the marker.
proof fn lemma_trunc_no_marker(contents: Seq<char>)
    ensures
        forall|q: int|
            0 <= q && q + backlinks_marker().len() <= trunc_at_marker(contents).len()
                ==> !match_at(trunc_at_marker(contents), q, backlinks_marker()),
{
    let mk = backlinks_marker();
    let t = trunc_at_marker(contents);
    lemma_first_match_from(contents, 0, mk);
    assert forall|q: int| 0 <= q && q + mk.len() <= t.len() implies !match_at(t, q, mk) by {
        if match_at(t, q, mk) {
            match first_match_from(contents, 0, mk) {
                Some(i) => {
                    assert(t == contents.subrange(0, i));
                    assert(t.subrange(q, q + mk.len()) =~= contents.subrange(q, q + mk.len()));
                    assert(match_at(contents, q, mk));
                },
                None => {
                    assert(t == contents);
                    assert(match_at(contents, q, mk));
                },
            }
        }
    }
}

/// Truncating a freshly composed file finds the marker exactly where the
/// composition wrote it, so the content before the section survives as it
/// was.
proof fn lemma_compose_trunc(contents: Seq<char>, fname: Seq<char>, ld: Seq<(Seq<char>, Seq<char>)>)
    ensures
        trunc_at_marker(composed_backlinks(contents, fname, ld)) == trunc_at_marker(contents),
{
    let mk = backlinks_marker();
    let t = trunc_at_marker(contents);
    let c1 = composed_backlinks(contents, fname, ld);
    let p = t.len() as int;
    lemma_trunc_no_marker(contents);
    lemma_marker_no_newline();
    assert(c1.subrange(p, p + mk.len()) =~= mk);
    assert(match_at(c1, p, mk));
    assert forall|q: int| 0 <= q < p implies !match_at(c1, q, mk) by {
        if match_at(c1, q, mk) {
            if q + mk.len() <= p {
                assert(c1.subrange(q, q + mk.len()) =~= t.subrange(q, q + mk.len()));
                assert(match_at(t, q, mk));
            } else {
                let d = p - q;
                assert(1 <= d < mk.len());
                assert(c1.subrange(q, q + mk.len())[d] == c1[p]);
                assert(c1[p] == '\n');
                assert(mk[d] != '\n');
                assert(c1.subrange(q, q + mk.len()) != mk);
            }
        }
    }
    lemma_first_match_from(c1, 0, mk);
    match first_match_from(c1, 0, mk) {
        Some(m) => {
            if m < p {
                assert(match_at(c1, m, mk));
                assert(false);
            }
            if m > p {
                assert(!match_at(c1, p, mk));
                assert(false);
            }
        },
        None => {
            assert(!match_at(c1, p, mk));
            assert(false);
        },
    }
    assert(first_match_from(c1, 0, mk) == Some(p));
    assert(trunc_at_marker(c1) =~= t);
}

/// Regenerating a backlinks section is idempotent: composing the section a
/// second time, from the same linking notes and texts, leaves the file
/// content byte-identical.
pub proof fn lemma_backlinks_idempotent(
    contents: Seq<char>,
    fname: Seq<char>,
    ld: Seq<(Seq<char>, Seq<char>)>,
)
    ensures
        composed_backlinks(composed_backlinks(contents, fname, ld), fname, ld)
            == composed_backlinks(contents, fname, ld),
{
    lemma_compose_trunc(contents, fname, ld);
}

} // verus!
