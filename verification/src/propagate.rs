//! Rename propagation: rewriting `[[old title]]` references to
//! `[[new title]]` inside a dependent note's text. Each literal space in the
//! old title matches a run of one or more whitespace characters, so a link
//! whose title wrapped across lines is still recognised.

use vstd::prelude::*;
use crate::text::is_space;

verus! {

/// End of the maximal whitespace run starting at `k`.
pub open spec fn ws_run_end(s: Seq<char>, k: int) -> int
    decreases s.len() - k,
{
    if k < 0 || k >= s.len() {
        k
    } else if is_space(s[k]) {
        ws_run_end(s, k + 1)
    } else {
        k
    }
}

/// End of the maximal run of literal spaces starting at `i` in the title.
pub open spec fn space_run_end(t: Seq<char>, i: int) -> int
    decreases t.len() - i,
{
    if i < 0 || i >= t.len() {
        i
    } else if t[i] == ' ' {
        space_run_end(t, i + 1)
    } else {
        i
    }
}

/// Match the title `t` (from position `ti`) against `s` (from position `k`):
/// a run of `m` literal spaces in the title consumes a maximal run of at
/// least `m` whitespace characters; any other character matches itself.
/// Returns the position in `s` just after the match.
pub open spec fn flex_match(s: Seq<char>, k: int, t: Seq<char>, ti: int) -> Option<int>
    decreases t.len() - ti,
{
    if ti < 0 || ti >= t.len() {
        if ti == t.len() {
            Some(k)
        } else {
            None
        }
    } else if t[ti] == ' ' {
        let te = space_run_end(t, ti);
        let se = ws_run_end(s, k);
        if ti < te && te <= t.len() && 0 <= k && k <= se && se - k >= te - ti {
            flex_match(s, se, t, te)
        } else {
            None
        }
    } else if 0 <= k && k < s.len() && s[k] == t[ti] {
        flex_match(s, k + 1, t, ti + 1)
    } else {
        None
    }
}

/// Match a whole `[[t]]` reference at position `i` of `s`, the title
/// matched flexibly; returns the position just after the closing `]]`.
pub open spec fn link_match_end(s: Seq<char>, i: int, t: Seq<char>) -> Option<int> {
    if 0 <= i && i + 2 <= s.len() && s[i] == '[' && s[i + 1] == '[' {
        match flex_match(s, i + 2, t, 0) {
            Some(m) => if i + 2 <= m && m + 2 <= s.len() && s[m] == ']' && s[m + 1] == ']' {
                Some(m + 2)
            } else {
                None
            },
            None => None,
        }
    } else {
        None
    }
}

/// The text from position `i` on with every `[[oldt]]` reference replaced
/// by `[[newt]]`; characters outside matches are kept unchanged.
pub open spec fn rewrite_from(s: Seq<char>, i: int, oldt: Seq<char>, newt: Seq<char>) -> Seq<char>
    decreases s.len() - i,
{
    if i < 0 || i >= s.len() {
        Seq::empty()
    } else {
        match link_match_end(s, i, oldt) {
            Some(e) => if i < e && e <= s.len() {
                (seq!['[', '['] + newt + seq![']', ']']) + rewrite_from(s, e, oldt, newt)
            } else {
                seq![s[i]] + rewrite_from(s, i + 1, oldt, newt)
            },
            None => seq![s[i]] + rewrite_from(s, i + 1, oldt, newt),
        }
    }
}

/// The text with every reference to the old title replaced by a reference
/// to the new title.
pub open spec fn rewritten(s: Seq<char>, oldt: Seq<char>, newt: Seq<char>) -> Seq<char> {
    rewrite_from(s, 0, oldt, newt)
}

/// End of the maximal whitespace run starting at `k0`.
fn ws_end(s: &str, k0: usize) -> (e: usize)
    requires
        k0 <= s@.len(),
    ensures
        e as int == ws_run_end(s@, k0 as int),
        k0 <= e <= s@.len(),
{
    let n = s.unicode_len();
    let mut k = k0;
    loop
        invariant
            k0 <= k <= n,
            n == s@.len(),
            ws_run_end(s@, k0 as int) == ws_run_end(s@, k as int),
        decreases n - k,
    {
        if k >= n {
            assert(ws_run_end(s@, k as int) == k as int);
            return k;
        }
        let c = s.get_char(k);
        if !(c == ' ' || c == '\t' || c == '\n' || c == '\r') {
            assert(ws_run_end(s@, k as int) == k as int);
            return k;
        }
        assert(ws_run_end(s@, k as int) == ws_run_end(s@, k + 1));
        k = k + 1;
    }
}

/// End of the maximal run of literal spaces starting at `i0`.
fn space_end(t: &str, i0: usize) -> (e: usize)
    requires
        i0 <= t@.len(),
    ensures
        e as int == space_run_end(t@, i0 as int),
        i0 <= e <= t@.len(),
{
    let n = t.unicode_len();
    let mut i = i0;
    loop
        invariant
            i0 <= i <= n,
            n == t@.len(),
            space_run_end(t@, i0 as int) == space_run_end(t@, i as int),
        decreases n - i,
    {
        if i >= n {
            assert(space_run_end(t@, i as int) == i as int);
            return i;
        }
        if t.get_char(i) != ' ' {
            assert(space_run_end(t@, i as int) == i as int);
            return i;
        }
        assert(space_run_end(t@, i as int) == space_run_end(t@, i + 1));
        i = i + 1;
    }
}

/// Match the title `t` from `ti` against `s` from `k`, flexibly.
fn flex_end(s: &str, k: usize, t: &str, ti: usize) -> (r: Option<usize>)
    requires
        k <= s@.len(),
        ti <= t@.len(),
    ensures
        r matches Some(e) ==> flex_match(s@, k as int, t@, ti as int) == Some(e as int) && k <= e
            <= s@.len(),
        r is None ==> flex_match(s@, k as int, t@, ti as int) is None,
    decreases t@.len() - ti@,
{
    let tlen = t.unicode_len();
    let slen = s.unicode_len();
    if ti == tlen {
        return Some(k);
    }
    let c = t.get_char(ti);
    if c == ' ' {
        let te = space_end(t, ti);
        let se = ws_end(s, k);
        proof {
            assert(space_run_end(t@, ti as int) == space_run_end(t@, ti + 1));
        }
        if te > ti && se - k >= te - ti {
            flex_end(s, se, t, te)
        } else {
            None
        }
    } else {
        if k < slen && s.get_char(k) == c {
            flex_end(s, k + 1, t, ti + 1)
        } else {
            None
        }
    }
}

/// Match a whole `[[t]]` reference at position `i` of `s`.
fn link_end(s: &str, i: usize, t: &str) -> (r: Option<usize>)
    requires
        i <= s@.len(),
    ensures
        r matches Some(e) ==> link_match_end(s@, i as int, t@) == Some(e as int) && i < e && e
            <= s@.len(),
        r is None ==> link_match_end(s@, i as int, t@) is None,
{
    let n = s.unicode_len();
    if n - i >= 2 && s.get_char(i) == '[' && s.get_char(i + 1) == '[' {
        match flex_end(s, i + 2, t, 0) {
            Some(m) => {
                if n - m >= 2 && s.get_char(m) == ']' && s.get_char(m + 1) == ']' {
                    Some(m + 2)
                } else {
                    None
                }
            },
            None => None,
        }
    } else {
        None
    }
}

/// Rewrite every `[[old_title]]` reference in `contents` (the title matched
/// with flexible whitespace) into `[[new_title]]`.
pub fn rewrite_links(contents: &str, old_title: &str, new_title: &str) -> (r: String)
    ensures
        r@ == rewritten(contents@, old_title@, new_title@),
{
    let n = contents.unicode_len();
    let mut out = String::new();
    let mut i: usize = 0;
    proof {
        assert(Seq::<char>::empty() + rewrite_from(contents@, 0, old_title@, new_title@)
            =~= rewrite_from(contents@, 0, old_title@, new_title@));
    }
    while i < n
        invariant
            i <= n,
            n == contents@.len(),
            out@ + rewrite_from(contents@, i as int, old_title@, new_title@) == rewritten(
                contents@,
                old_title@,
                new_title@,
            ),
        decreases n - i,
    {
        let ghost pre = out@;
        match link_end(contents, i, old_title) {
            Some(e) => {
                out.append("[[");
                out.append(new_title);
                out.append("]]");
                proof {
                    reveal_strlit("[[");
                    reveal_strlit("]]");
                    assert(("[[")@ =~= seq!['[', '[']);
                    assert(("]]")@ =~= seq![']', ']']);
                    assert(rewrite_from(contents@, i as int, old_title@, new_title@) == (seq![
                        '[',
                        '[',
                    ] + new_title@ + seq![']', ']']) + rewrite_from(
                        contents@,
                        e as int,
                        old_title@,
                        new_title@,
                    ));
                    assert(out@ =~= pre + (seq!['[', '['] + new_title@ + seq![']', ']']));
                    assert(out@ + rewrite_from(contents@, e as int, old_title@, new_title@)
                        =~= pre + rewrite_from(contents@, i as int, old_title@, new_title@));
                }
                i = e;
            },
            None => {
                let ch = contents.substring_char(i, i + 1);
                out.append(ch);
                proof {
                    assert(ch@ =~= seq![contents@[i as int]]);
                    assert(rewrite_from(contents@, i as int, old_title@, new_title@) == seq![
                        contents@[i as int],
                    ] + rewrite_from(contents@, i + 1, old_title@, new_title@));
                    assert(out@ + rewrite_from(contents@, i + 1, old_title@, new_title@) =~= pre
                        + rewrite_from(contents@, i as int, old_title@, new_title@));
                }
                i = i + 1;
            },
        }
    }
    proof {
        assert(rewrite_from(contents@, n as int, old_title@, new_title@)
            =~= Seq::<char>::empty());
        assert(out@ + Seq::<char>::empty() =~= out@);
    }
    out
}

} // verus!
