//! Glob-style pattern matching with the `*` wildcard, used by the index for
//! title and tag queries.

use vstd::prelude::*;

verus! {

/// A pattern matches a string when every literal character matches in order
/// and each `*` stands for any (possibly empty) span of characters.
pub open spec fn glob_match(p: Seq<char>, s: Seq<char>) -> bool
    decreases p.len() + s.len(),
{
    if p.len() == 0 {
        s.len() == 0
    } else if p[0] == '*' {
        glob_match(p.subrange(1, p.len() as int), s) || (s.len() > 0 && glob_match(
            p,
            s.subrange(1, s.len() as int),
        ))
    } else {
        s.len() > 0 && p[0] == s[0] && glob_match(
            p.subrange(1, p.len() as int),
            s.subrange(1, s.len() as int),
        )
    }
}

/// Decide whether `s` matches the glob pattern `pattern`.
pub fn matches_glob(pattern: &str, s: &str) -> (r: bool)
    ensures
        r == glob_match(pattern@, s@),
    decreases pattern@.len() + s@.len(),
{
    let plen = pattern.unicode_len();
    let slen = s.unicode_len();
    if plen == 0 {
        slen == 0
    } else if pattern.get_char(0) == '*' {
        let ptail = pattern.substring_char(1, plen);
        if matches_glob(ptail, s) {
            true
        } else if slen > 0 {
            let stail = s.substring_char(1, slen);
            matches_glob(pattern, stail)
        } else {
            false
        }
    } else if slen > 0 && pattern.get_char(0) == s.get_char(0) {
        let ptail = pattern.substring_char(1, plen);
        let stail = s.substring_char(1, slen);
        matches_glob(ptail, stail)
    } else {
        false
    }
}

/// A lone `*` matches any string.
pub proof fn lemma_glob_star(s: Seq<char>)
    ensures
        glob_match(seq!['*'], s),
    decreases s.len(),
{
    let star = seq!['*'];
    if s.len() == 0 {
        assert(star.subrange(1, 1) =~= Seq::<char>::empty());
        assert(glob_match(star.subrange(1, 1), s));
    } else {
        lemma_glob_star(s.subrange(1, s.len() as int));
    }
}

/// A wildcard-free pattern prefix consumes exactly itself: matching
/// `p + q` against `p + s` is matching `q` against `s`.
pub proof fn lemma_glob_literal_prefix(p: Seq<char>, q: Seq<char>, s: Seq<char>)
    requires
        forall|i: int| 0 <= i < p.len() ==> p[i] != '*',
    ensures
        glob_match(p + q, p + s) == glob_match(q, s),
    decreases p.len(),
{
    if p.len() == 0 {
        assert(p + q =~= q);
        assert(p + s =~= s);
    } else {
        assert((p + q)[0] == p[0]);
        assert((p + s)[0] == p[0]);
        let pt = p.subrange(1, p.len() as int);
        assert((p + q).subrange(1, (p + q).len() as int) =~= pt + q);
        assert((p + s).subrange(1, (p + s).len() as int) =~= pt + s);
        assert(forall|i: int| 0 <= i < pt.len() ==> pt[i] == p[i + 1]);
        lemma_glob_literal_prefix(pt, q, s);
    }
}

/// Tag subtree queries: for any wildcard-free tag `pat`, the pattern
/// `pat/*` matches every hierarchical child tag `pat/child`, so a note
/// tagged only with a child appears in the subtree query's result.
pub proof fn lemma_glob_subtree(pat: Seq<char>, child: Seq<char>)
    requires
        forall|i: int| 0 <= i < pat.len() ==> pat[i] != '*',
    ensures
        glob_match(pat + seq!['/', '*'], pat + seq!['/'] + child),
{
    let pslash = pat + seq!['/'];
    assert(forall|i: int| 0 <= i < pslash.len() ==> pslash[i] != '*');
    lemma_glob_literal_prefix(pslash, seq!['*'], child);
    lemma_glob_star(child);
    assert(pat + seq!['/', '*'] =~= pslash + seq!['*']);
    assert(pat + seq!['/'] + child =~= pslash + child);
}

} // verus!
