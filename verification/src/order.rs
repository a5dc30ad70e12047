//! Lexicographic ordering of strings by character code, and a verified
//! sort: the index presents tag and project listings sorted.

use vstd::prelude::*;

verus! {

/// `a` precedes `b` (or equals it) in lexicographic order by character
/// code.
pub open spec fn lex_leq(a: Seq<char>, b: Seq<char>) -> bool
    decreases a.len(),
{
    if a.len() == 0 {
        true
    } else if b.len() == 0 {
        false
    } else if a[0] != b[0] {
        a[0] < b[0]
    } else {
        lex_leq(a.subrange(1, a.len() as int), b.subrange(1, b.len() as int))
    }
}

/// The order is reflexive.
pub proof fn lemma_lex_refl(a: Seq<char>)
    ensures
        lex_leq(a, a),
    decreases a.len(),
{
    if a.len() > 0 {
        lemma_lex_refl(a.subrange(1, a.len() as int));
    }
}

/// The order is total: of any two strings, one precedes the other.
pub proof fn lemma_lex_total(a: Seq<char>, b: Seq<char>)
    ensures
        lex_leq(a, b) || lex_leq(b, a),
    decreases a.len(),
{
    if a.len() > 0 && b.len() > 0 && a[0] == b[0] {
        lemma_lex_total(a.subrange(1, a.len() as int), b.subrange(1, b.len() as int));
    }
}

/// The order is transitive.
pub proof fn lemma_lex_trans(a: Seq<char>, b: Seq<char>, c: Seq<char>)
    requires
        lex_leq(a, b),
        lex_leq(b, c),
    ensures
        lex_leq(a, c),
    decreases a.len(),
{
    if a.len() > 0 && b.len() > 0 && c.len() > 0 && a[0] == b[0] && b[0] == c[0] {
        lemma_lex_trans(
            a.subrange(1, a.len() as int),
            b.subrange(1, b.len() as int),
            c.subrange(1, c.len() as int),
        );
    }
}

/// The sequence is sorted in lexicographic order.
pub open spec fn sorted_lex(s: Seq<Seq<char>>) -> bool {
    forall|i: int, j: int| 0 <= i <= j < s.len() ==> lex_leq(s[i], s[j])
}

/// Decide whether `a` precedes `b` (or equals it).
pub fn str_leq(a: &str, b: &str) -> (r: bool)
    ensures
        r == lex_leq(a@, b@),
{
    let alen = a.unicode_len();
    let blen = b.unicode_len();
    let mut i: usize = 0;
    proof {
        assert(a@.subrange(0, alen as int) =~= a@);
        assert(b@.subrange(0, blen as int) =~= b@);
    }
    loop
        invariant
            i <= alen,
            i <= blen,
            alen == a@.len(),
            blen == b@.len(),
            lex_leq(a@, b@) == lex_leq(
                a@.subrange(i as int, alen as int),
                b@.subrange(i as int, blen as int),
            ),
        decreases alen - i,
    {
        let ghost at = a@.subrange(i as int, alen as int);
        let ghost bt = b@.subrange(i as int, blen as int);
        if i >= alen {
            assert(at.len() == 0);
            return true;
        }
        if i >= blen {
            assert(bt.len() == 0 && at.len() > 0);
            return false;
        }
        let ca = a.get_char(i);
        let cb = b.get_char(i);
        proof {
            assert(at[0] == a@[i as int]);
            assert(bt[0] == b@[i as int]);
        }
        if ca != cb {
            return ca < cb;
        }
        proof {
            assert(at.subrange(1, at.len() as int) =~= a@.subrange(i + 1, alen as int));
            assert(bt.subrange(1, bt.len() as int) =~= b@.subrange(i + 1, blen as int));
        }
        i = i + 1;
    }
}

/// Sort strings into lexicographic order; the result holds exactly the
/// same strings, with their multiplicities.
pub fn sort_strings(v: Vec<String>) -> (r: Vec<String>)
    ensures
        sorted_lex(r.deep_view()),
        r.deep_view().to_multiset() == v.deep_view().to_multiset(),
{
    broadcast use vstd::seq_lib::group_to_multiset_ensures;

    let mut rest = v;
    let mut out: Vec<String> = Vec::new();
    proof {
        broadcast use vstd::seq_lib::group_to_multiset_ensures;
        broadcast use vstd::multiset::group_multiset_axioms;

        assert(out.deep_view().to_multiset() =~= Seq::<Seq<char>>::empty().to_multiset());
        assert(out.deep_view().to_multiset().add(rest.deep_view().to_multiset())
            =~= rest.deep_view().to_multiset());
    }
    while rest.len() > 0
        invariant
            sorted_lex(out.deep_view()),
            forall|i: int, j: int|
                0 <= i < out.deep_view().len() && 0 <= j < rest.deep_view().len() ==> lex_leq(
                    out.deep_view()[i],
                    rest.deep_view()[j],
                ),
            out.deep_view().to_multiset().add(rest.deep_view().to_multiset())
                == v.deep_view().to_multiset(),
        decreases rest.len(),
    {
        let mut m: usize = 0;
        let mut j: usize = 1;
        proof {
            lemma_lex_refl(rest.deep_view()[0]);
        }
        while j < rest.len()
            invariant
                m < rest.len(),
                j <= rest.len(),
                rest.len() > 0,
                rest.deep_view().len() == rest.len(),
                forall|l: int|
                    0 <= l < j ==> lex_leq(rest.deep_view()[m as int], rest.deep_view()[l]),
            decreases rest.len() - j,
        {
            proof {
                assert(rest.deep_view()[m as int] == rest@[m as int]@);
                assert(rest.deep_view()[j as int] == rest@[j as int]@);
                lemma_lex_total(rest.deep_view()[m as int], rest.deep_view()[j as int]);
            }
            if !str_leq(rest[m].as_str(), rest[j].as_str()) {
                let ghost old_m = m as int;
                m = j;
                proof {
                    assert forall|l: int| 0 <= l < j + 1 implies lex_leq(
                        rest.deep_view()[m as int],
                        rest.deep_view()[l],
                    ) by {
                        if l < j {
                            lemma_lex_trans(
                                rest.deep_view()[m as int],
                                rest.deep_view()[old_m],
                                rest.deep_view()[l],
                            );
                        } else {
                            lemma_lex_refl(rest.deep_view()[m as int]);
                        }
                    }
                }
            }
            j = j + 1;
        }
        let ghost rpre = rest.deep_view();
        let ghost opre = out.deep_view();
        let x = rest.remove(m);
        out.push(x);
        proof {
            broadcast use vstd::seq_lib::group_to_multiset_ensures;
            broadcast use vstd::multiset::group_multiset_axioms;

            assert(rest.deep_view() =~= rpre.remove(m as int));
            assert(out.deep_view() =~= opre.push(rpre[m as int]));
            assert(rpre.remove(m as int).to_multiset() =~= rpre.to_multiset().remove(
                rpre[m as int],
            ));
            assert(opre.push(rpre[m as int]).to_multiset() =~= opre.to_multiset().insert(
                rpre[m as int],
            ));
            assert(rpre.contains(rpre[m as int]));
            assert(rpre.to_multiset().count(rpre[m as int]) > 0);
            assert(out.deep_view().to_multiset().add(rest.deep_view().to_multiset())
                =~= opre.to_multiset().add(rpre.to_multiset()));
            assert forall|i: int, jj: int|
                0 <= i <= jj < out.deep_view().len() implies lex_leq(
                out.deep_view()[i],
                out.deep_view()[jj],
            ) by {
                if jj < out.deep_view().len() - 1 {
                } else if i < jj {
                    assert(out.deep_view()[i] == opre[i]);
                    assert(out.deep_view()[jj] == rpre[m as int]);
                }
            }
            assert forall|i: int, jj: int|
                0 <= i < out.deep_view().len() && 0 <= jj < rest.deep_view().len() implies lex_leq(
                out.deep_view()[i],
                rest.deep_view()[jj],
            ) by {
                let orig = if jj < m as int {
                    jj
                } else {
                    jj + 1
                };
                assert(rest.deep_view()[jj] == rpre[orig]);
                if i < out.deep_view().len() - 1 {
                    assert(out.deep_view()[i] == opre[i]);
                } else {
                    assert(out.deep_view()[i] == rpre[m as int]);
                }
            }
        }
    }
    proof {
        broadcast use vstd::seq_lib::group_to_multiset_ensures;
        broadcast use vstd::multiset::group_multiset_axioms;

        assert(rest.deep_view().to_multiset() =~= Seq::<Seq<char>>::empty().to_multiset());
        assert(out.deep_view().to_multiset().add(rest.deep_view().to_multiset())
            =~= out.deep_view().to_multiset());
    }
    out
}

} // verus!
