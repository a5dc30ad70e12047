//! The text model extractor: scans raw note text for wiki-style links
//! (`[[Title]]`) and inline tags (`#token` followed by whitespace).

use vstd::prelude::*;

verus! {

/// Whitespace characters recognised by the tag grammar and by flexible link
/// matching during rename propagation.
pub open spec fn is_space(c: char) -> bool {
    c == ' ' || c == '\t' || c == '\n' || c == '\r'
}

/// Characters allowed inside a tag token: ASCII word characters, `/`, `_`, `-`.
pub open spec fn is_tag_char(c: char) -> bool {
    (97 <= c as u32 && c as u32 <= 122) || (65 <= c as u32 && c as u32 <= 90) || (48 <= c as u32
        && c as u32 <= 57) || c == '_' || c == '/' || c == '-'
}

/// Position of the first `]]` at or after `j`, provided no newline intervenes:
/// a link never spans a line break.
pub open spec fn close_at(s: Seq<char>, j: int) -> Option<int>
    decreases s.len() - j,
{
    if j < 0 || j + 2 > s.len() {
        None
    } else if s[j] == ']' && s[j + 1] == ']' {
        Some(j)
    } else if s[j] == '\n' {
        None
    } else {
        close_at(s, j + 1)
    }
}

/// The link titles found scanning left to right from position `i`: at each
/// `[[`, the title runs to the nearest `]]` on the same line; an unterminated
/// opener yields no match and scanning resumes one character later.
pub open spec fn links_from(s: Seq<char>, i: int) -> Seq<Seq<char>>
    decreases s.len() - i,
{
    if i < 0 || i + 2 > s.len() {
        Seq::empty()
    } else if s[i] == '[' && s[i + 1] == '[' {
        match close_at(s, i + 2) {
            Some(j) => if i + 2 <= j && j + 2 <= s.len() {
                seq![s.subrange(i + 2, j)] + links_from(s, j + 2)
            } else {
                links_from(s, i + 1)
            },
            None => links_from(s, i + 1),
        }
    } else {
        links_from(s, i + 1)
    }
}

/// The ordered sequence of link titles in a note's text.
pub open spec fn links_of(s: Seq<char>) -> Seq<Seq<char>> {
    links_from(s, 0)
}

/// End of the run of tag characters starting at `j`.
pub open spec fn tag_run_end(s: Seq<char>, j: int) -> int
    decreases s.len() - j,
{
    if j < 0 || j >= s.len() {
        j
    } else if is_tag_char(s[j]) {
        tag_run_end(s, j + 1)
    } else {
        j
    }
}

/// The tags found scanning left to right from position `i`: at each `#`, a
/// non-empty run of tag characters followed by a whitespace character yields
/// the run as a tag; anything else yields no match.
pub open spec fn tags_from(s: Seq<char>, i: int) -> Seq<Seq<char>>
    decreases s.len() - i,
{
    if i < 0 || i >= s.len() {
        Seq::empty()
    } else if s[i] == '#' {
        let e = tag_run_end(s, i + 1);
        if i + 1 < e && e < s.len() && is_space(s[e]) {
            seq![s.subrange(i + 1, e)] + tags_from(s, e + 1)
        } else {
            tags_from(s, i + 1)
        }
    } else {
        tags_from(s, i + 1)
    }
}

/// The sequence of tags in a note's text.
pub open spec fn tags_of(s: Seq<char>) -> Seq<Seq<char>> {
    tags_from(s, 0)
}

/// `pat` occurs in `s` starting exactly at position `i`.
pub open spec fn match_at(s: Seq<char>, i: int, pat: Seq<char>) -> bool {
    0 <= i && i + pat.len() <= s.len() && s.subrange(i, i + pat.len()) == pat
}

/// The first position at or after `i` where `pat` occurs in `s`.
pub open spec fn first_match_from(s: Seq<char>, i: int, pat: Seq<char>) -> Option<int>
    decreases s.len() - i,
{
    if i < 0 || i + pat.len() > s.len() {
        None
    } else if match_at(s, i, pat) {
        Some(i)
    } else if i < s.len() {
        first_match_from(s, i + 1, pat)
    } else {
        None
    }
}

/// `pat` occurs somewhere in `s`.
pub open spec fn contains_seq(s: Seq<char>, pat: Seq<char>) -> bool {
    first_match_from(s, 0, pat) is Some
}

/// `first_match_from` reports the least occurrence position, and `None`
/// exactly when no occurrence starts at or after `i`.
pub proof fn lemma_first_match_from(s: Seq<char>, i: int, pat: Seq<char>)
    requires
        0 <= i,
    ensures
        first_match_from(s, i, pat) matches Some(m) ==> i <= m && match_at(s, m, pat) && (
        forall|j: int| i <= j < m ==> !match_at(s, j, pat)),
        first_match_from(s, i, pat) is None ==> forall|j: int| i <= j ==> !match_at(s, j, pat),
    decreases s.len() - i,
{
    if i + pat.len() > s.len() {
    } else if !match_at(s, i, pat) && i < s.len() {
        lemma_first_match_from(s, i + 1, pat);
    }
}

/// Decide whether `pat` occurs in `s` starting at `i`.
fn occurs_at(s: &str, i: usize, pat: &str) -> (r: bool)
    requires
        i + pat@.len() <= s@.len(),
    ensures
        r == match_at(s@, i as int, pat@),
{
    let n = s.unicode_len();
    let m = pat.unicode_len();
    let mut k: usize = 0;
    while k < m
        invariant
            k <= m,
            m == pat@.len(),
            n == s@.len(),
            i + m <= n,
            forall|l: int| 0 <= l < k ==> s@[i + l] == pat@[l],
        decreases m - k,
    {
        if s.get_char(i + k) != pat.get_char(k) {
            assert(s@.subrange(i as int, i + m) != pat@) by {
                assert(s@.subrange(i as int, i + m)[k as int] == s@[i + k]);
            }
            return false;
        }
        k = k + 1;
    }
    proof {
        assert(s@.subrange(i as int, i + m) =~= pat@);
    }
    true
}

/// Find the first occurrence of `pat` in `s`, if any.
pub fn find_first(s: &str, pat: &str) -> (r: Option<usize>)
    ensures
        r matches Some(m) ==> first_match_from(s@, 0, pat@) == Some(m as int) && m
            <= s@.len(),
        r is None ==> first_match_from(s@, 0, pat@) is None,
{
    find_from(s, 0, pat)
}

/// Find the first occurrence of `pat` in `s` at or after `from`, if any.
pub fn find_from(s: &str, from: usize, pat: &str) -> (r: Option<usize>)
    requires
        from <= s@.len(),
    ensures
        r matches Some(m) ==> first_match_from(s@, from as int, pat@) == Some(m as int) && from
            <= m && m + pat@.len() <= s@.len(),
        r is None ==> first_match_from(s@, from as int, pat@) is None,
{
    let n = s.unicode_len();
    let m = pat.unicode_len();
    if m == 0 {
        proof {
            assert(s@.subrange(from as int, from as int) =~= pat@);
        }
        return Some(from);
    }
    let mut i: usize = from;
    loop
        invariant
            from <= i <= n,
            n == s@.len(),
            m == pat@.len(),
            m >= 1,
            first_match_from(s@, from as int, pat@) == first_match_from(s@, i as int, pat@),
        decreases n - i,
    {
        if n - i < m {
            assert(first_match_from(s@, i as int, pat@) is None);
            return None;
        }
        if occurs_at(s, i, pat) {
            assert(first_match_from(s@, i as int, pat@) == Some(i as int));
            return Some(i);
        }
        assert(first_match_from(s@, i as int, pat@) == first_match_from(s@, i + 1, pat@));
        i = i + 1;
    }
}

/// Decide whether `pat` occurs anywhere in `s`.
pub fn contains_str(s: &str, pat: &str) -> (r: bool)
    ensures
        r == contains_seq(s@, pat@),
{
    find_first(s, pat).is_some()
}

/// Find the first `]]` at or after `j0` on the current line.
fn find_close(s: &str, j0: usize) -> (r: Option<usize>)
    requires
        j0 <= s@.len(),
    ensures
        r matches Some(j) ==> close_at(s@, j0 as int) == Some(j as int) && j0 <= j && j + 2
            <= s@.len(),
        r is None ==> close_at(s@, j0 as int) is None,
{
    let n = s.unicode_len();
    let mut j = j0;
    loop
        invariant
            j0 <= j <= n,
            n == s@.len(),
            close_at(s@, j0 as int) == close_at(s@, j as int),
        decreases n - j,
    {
        if n - j < 2 {
            assert(close_at(s@, j as int) is None);
            return None;
        }
        let c0 = s.get_char(j);
        let c1 = s.get_char(j + 1);
        if c0 == ']' && c1 == ']' {
            assert(close_at(s@, j as int) == Some(j as int));
            return Some(j);
        }
        if c0 == '\n' {
            assert(close_at(s@, j as int) is None);
            return None;
        }
        assert(close_at(s@, j as int) == close_at(s@, j + 1));
        j = j + 1;
    }
}

/// Extract the ordered sequence of `[[Title]]` link targets from `contents`.
pub fn find_links(contents: &str) -> (links: Vec<String>)
    ensures
        links.deep_view() == links_of(contents@),
{
    let n = contents.unicode_len();
    let mut links: Vec<String> = Vec::new();
    let mut i: usize = 0;
    while i < n
        invariant
            i <= n,
            n == contents@.len(),
            links.deep_view() + links_from(contents@, i as int) == links_of(contents@),
        decreases n - i,
    {
        let ghost pre = links.deep_view();
        if n - i >= 2 && contents.get_char(i) == '[' && contents.get_char(i + 1) == '[' {
            match find_close(contents, i + 2) {
                Some(j) => {
                    let title = contents.substring_char(i + 2, j).to_owned();
                    links.push(title);
                    proof {
                        assert(links.deep_view() =~= pre.push(title@));
                        assert(links_from(contents@, i as int) =~= seq![title@] + links_from(
                            contents@,
                            j + 2,
                        ));
                        assert(pre.push(title@) + links_from(contents@, j + 2) =~= pre + (
                        seq![title@] + links_from(contents@, j + 2)));
                    }
                    i = j + 2;
                },
                None => {
                    assert(links_from(contents@, i as int) == links_from(contents@, i + 1));
                    i = i + 1;
                },
            }
        } else {
            proof {
                if n - i >= 2 {
                    assert(links_from(contents@, i as int) == links_from(contents@, i + 1));
                } else {
                    assert(links_from(contents@, i as int) =~= Seq::<Seq<char>>::empty());
                    assert(links_from(contents@, i + 1) =~= Seq::<Seq<char>>::empty());
                }
            }
            i = i + 1;
        }
    }
    proof {
        assert(links_from(contents@, n as int) =~= Seq::<Seq<char>>::empty());
        assert(links.deep_view() + Seq::<Seq<char>>::empty() =~= links.deep_view());
    }
    links
}

/// Decide whether `c` may appear inside a tag token.
fn tag_char(c: char) -> (r: bool)
    ensures
        r == is_tag_char(c),
{
    let u = c as u32;
    (97 <= u && u <= 122) || (65 <= u && u <= 90) || (48 <= u && u <= 57) || c == '_' || c == '/'
        || c == '-'
}

/// Decide whether `c` is whitespace.
fn space_char(c: char) -> (r: bool)
    ensures
        r == is_space(c),
{
    c == ' ' || c == '\t' || c == '\n' || c == '\r'
}

/// End of the run of tag characters starting at `j0`.
fn find_tag_run_end(s: &str, j0: usize) -> (e: usize)
    requires
        j0 <= s@.len(),
    ensures
        e as int == tag_run_end(s@, j0 as int),
        j0 <= e <= s@.len(),
{
    let n = s.unicode_len();
    let mut j = j0;
    loop
        invariant
            j0 <= j <= n,
            n == s@.len(),
            tag_run_end(s@, j0 as int) == tag_run_end(s@, j as int),
        decreases n - j,
    {
        if j >= n {
            assert(tag_run_end(s@, j as int) == j as int);
            return j;
        }
        let c = s.get_char(j);
        if !tag_char(c) {
            assert(tag_run_end(s@, j as int) == j as int);
            return j;
        }
        assert(tag_run_end(s@, j as int) == tag_run_end(s@, j + 1));
        j = j + 1;
    }
}

/// Extract the sequence of `#tag` tokens from `contents`.
pub fn find_tags(contents: &str) -> (tags: Vec<String>)
    ensures
        tags.deep_view() == tags_of(contents@),
{
    let n = contents.unicode_len();
    let mut tags: Vec<String> = Vec::new();
    let mut i: usize = 0;
    while i < n
        invariant
            i <= n,
            n == contents@.len(),
            tags.deep_view() + tags_from(contents@, i as int) == tags_of(contents@),
        decreases n - i,
    {
        let ghost pre = tags.deep_view();
        let mut advanced = false;
        if contents.get_char(i) == '#' {
            let e = find_tag_run_end(contents, i + 1);
            if i + 1 < e && e < n && space_char(contents.get_char(e)) {
                let tag = contents.substring_char(i + 1, e).to_owned();
                tags.push(tag);
                proof {
                    assert(tags.deep_view() =~= pre.push(tag@));
                    assert(tags_from(contents@, i as int) =~= seq![tag@] + tags_from(
                        contents@,
                        e + 1,
                    ));
                    assert(pre.push(tag@) + tags_from(contents@, e + 1) =~= pre + (seq![tag@]
                        + tags_from(contents@, e + 1)));
                }
                i = e + 1;
                advanced = true;
            }
        }
        if !advanced {
            assert(tags_from(contents@, i as int) == tags_from(contents@, i + 1));
            i = i + 1;
        }
    }
    proof {
        assert(tags_from(contents@, n as int) =~= Seq::<Seq<char>>::empty());
        assert(tags.deep_view() + Seq::<Seq<char>>::empty() =~= tags.deep_view());
    }
    tags
}

/// Scanning over a stretch without `[` finds nothing: the link scan is
/// unchanged by skipping it.
pub proof fn lemma_links_skip(s: Seq<char>, i: int, k: int)
    requires
        0 <= i <= k <= s.len(),
        forall|j: int| i <= j < k ==> s[j] != '[',
    ensures
        links_from(s, i) == links_from(s, k),
    decreases k - i,
{
    if i < k {
        assert(links_from(s, i) == links_from(s, i + 1));
        lemma_links_skip(s, i + 1, k);
    }
}

/// The close scan finds the first `]]`: skipping characters that are
/// neither `]` nor a newline, it stops exactly at `m`.
pub proof fn lemma_close_at_finds(s: Seq<char>, j: int, m: int)
    requires
        0 <= j <= m,
        m + 2 <= s.len(),
        forall|l: int| j <= l < m ==> s[l] != ']' && s[l] != '\n',
        s[m] == ']',
        s[m + 1] == ']',
    ensures
        close_at(s, j) == Some(m),
    decreases m - j,
{
    if j < m {
        assert(close_at(s, j) == close_at(s, j + 1));
        lemma_close_at_finds(s, j + 1, m);
    }
}

/// Extractor order: in any text made of two bracketed references whose
/// titles contain no `]` and no newline, separated and surrounded by
/// stretches free of `[`, the extracted link sequence is exactly the two
/// titles, in source order.
pub proof fn lemma_two_links_in_order(
    pre: Seq<char>,
    a: Seq<char>,
    mid: Seq<char>,
    b: Seq<char>,
    post: Seq<char>,
)
    requires
        forall|i: int| 0 <= i < pre.len() ==> pre[i] != '[',
        forall|i: int| 0 <= i < mid.len() ==> mid[i] != '[',
        forall|i: int| 0 <= i < post.len() ==> post[i] != '[',
        forall|i: int| 0 <= i < a.len() ==> a[i] != ']' && a[i] != '\n',
        forall|i: int| 0 <= i < b.len() ==> b[i] != ']' && b[i] != '\n',
    ensures
        links_of(
            pre + seq!['[', '['] + a + seq![']', ']'] + mid + seq!['[', '['] + b + seq![']', ']']
                + post,
        ) == seq![a, b],
{
    let s = pre + seq!['[', '['] + a + seq![']', ']'] + mid + seq!['[', '['] + b + seq![']', ']']
        + post;
    let i1 = pre.len() as int;
    let c1 = i1 + 2 + a.len();
    let e1 = c1 + 2;
    let i2 = e1 + mid.len();
    let c2 = i2 + 2 + b.len();
    let e2 = c2 + 2;
    assert(s.len() == e2 + post.len());
    assert(forall|j: int| 0 <= j < i1 ==> s[j] == pre[j]);
    assert(s[i1] == '[' && s[i1 + 1] == '[');
    assert(forall|j: int| i1 + 2 <= j < c1 ==> s[j] == a[j - (i1 + 2)]);
    assert(s[c1] == ']' && s[c1 + 1] == ']');
    assert(forall|j: int| e1 <= j < i2 ==> s[j] == mid[j - e1]);
    assert(s[i2] == '[' && s[i2 + 1] == '[');
    assert(forall|j: int| i2 + 2 <= j < c2 ==> s[j] == b[j - (i2 + 2)]);
    assert(s[c2] == ']' && s[c2 + 1] == ']');
    assert(forall|j: int| e2 <= j < s.len() ==> s[j] == post[j - e2]);
    lemma_links_skip(s, 0, i1);
    lemma_close_at_finds(s, i1 + 2, c1);
    assert(links_from(s, i1) == seq![s.subrange(i1 + 2, c1)] + links_from(s, e1));
    assert(s.subrange(i1 + 2, c1) =~= a);
    lemma_links_skip(s, e1, i2);
    lemma_close_at_finds(s, i2 + 2, c2);
    assert(links_from(s, i2) == seq![s.subrange(i2 + 2, c2)] + links_from(s, e2));
    assert(s.subrange(i2 + 2, c2) =~= b);
    lemma_links_skip(s, e2, s.len() as int);
    assert(links_from(s, s.len() as int) == Seq::<Seq<char>>::empty());
    assert(links_of(s) =~= seq![a, b]);
}

} // verus!
