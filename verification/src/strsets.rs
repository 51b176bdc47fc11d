//! Sorted lists of distinct strings, standing for sets of strings.
use vstd::prelude::*;
use crate::text::{str_eq, str_lt, seq_lt, lemma_seq_lt_transitive, lemma_seq_lt_total, lemma_seq_lt_irreflexive,
    lemma_seq_lt_asymmetric};
use crate::analysis::codepaths::types::strings_view;

verus! {

/// Strictly increasing: sorted, and no string twice.
pub open spec fn strictly_sorted(v: Seq<Seq<char>>) -> bool {
    forall|a: int, b: int| 0 <= a < b < v.len() ==> seq_lt(v[a], v[b])
}

/// The strings of a list, as a set.
pub open spec fn set_of(v: Seq<Seq<char>>) -> Set<Seq<char>> {
    Set::new(|s: Seq<char>| v.contains(s))
}

/// Adds a string to a strictly sorted list, unless it is there.
pub fn insert_sorted(v: &mut Vec<String>, s: String)
    requires
        strictly_sorted(strings_view(old(v)@)),
    ensures
        strictly_sorted(strings_view(final(v)@)),
        set_of(strings_view(final(v)@)) == set_of(strings_view(old(v)@)).insert(s@),
{
    let ghost old_v = strings_view(v@);
    let mut pos: usize = 0;
    while pos < v.len() && str_lt(v[pos].as_str(), s.as_str())
        invariant
            pos <= v@.len(),
            strings_view(v@) == old_v,
            strictly_sorted(old_v),
            forall|a: int| 0 <= a < pos ==> seq_lt(old_v[a], s@),
        decreases v@.len() - pos,
    {
        assert(old_v[pos as int] == v@[pos as int]@);
        pos = pos + 1;
    }
    if pos < v.len() && str_eq(v[pos].as_str(), s.as_str()) {
        assert(old_v[pos as int] == s@);
        assert(set_of(old_v).insert(s@) =~= set_of(old_v)) by {
            assert(old_v.contains(s@));
        }
        return;
    }
    proof {
        if pos < old_v.len() {
            assert(old_v[pos as int] == v@[pos as int]@);
            lemma_seq_lt_total(s@, old_v[pos as int]);
        }
    }
    v.insert(pos, s);
    let ghost nv = strings_view(v@);
    proof {
        assert(nv =~= old_v.insert(pos as int, s@));
        assert forall|a: int, b: int| 0 <= a < b < nv.len() implies seq_lt(nv[a], nv[b]) by {
            if a < pos && b == pos {
            } else if a < pos && b > pos {
                assert(nv[b] == old_v[b - 1]);
            } else if a == pos && b > pos {
                assert(nv[b] == old_v[b - 1]);
                if b - 1 > pos {
                    lemma_seq_lt_transitive(s@, old_v[pos as int], old_v[b - 1]);
                }
            } else if a > pos {
                assert(nv[a] == old_v[a - 1]);
                assert(nv[b] == old_v[b - 1]);
            }
        }
        assert forall|x: Seq<char>| set_of(nv).contains(x) <==> set_of(old_v).insert(s@).contains(x) by {
            if nv.contains(x) {
                let i = choose|i: int| 0 <= i < nv.len() && nv[i] == x;
                if i < pos {
                    assert(old_v[i] == x);
                } else if i > pos {
                    assert(old_v[i - 1] == x);
                }
            }
            if old_v.contains(x) {
                let i = choose|i: int| 0 <= i < old_v.len() && old_v[i] == x;
                if i < pos {
                    assert(nv[i] == x);
                } else {
                    assert(nv[i + 1] == x);
                }
            }
            if x == s@ {
                assert(nv[pos as int] == x);
            }
        }
        assert(set_of(nv) =~= set_of(old_v).insert(s@));
    }
}

/// A strictly sorted list is determined by its set.
pub proof fn lemma_sorted_unique(a: Seq<Seq<char>>, b: Seq<Seq<char>>)
    requires
        strictly_sorted(a),
        strictly_sorted(b),
        set_of(a) == set_of(b),
    ensures
        a == b,
    decreases a.len() + b.len(),
{
    assert(forall|x: Seq<char>| a.contains(x) <==> set_of(a).contains(x));
    assert(forall|x: Seq<char>| b.contains(x) <==> set_of(b).contains(x));
    if a.len() == 0 {
        if b.len() > 0 {
            assert(b.contains(b[0]));
            assert(set_of(b).contains(b[0]));
        }
        assert(a =~= b);
    } else if b.len() == 0 {
        assert(a.contains(a[0]));
        assert(set_of(a).contains(a[0]));
    } else {
        let la = a.last();
        let lb = b.last();
        assert(a.contains(la));
        assert(set_of(b).contains(la));
        assert(b.contains(lb));
        assert(set_of(a).contains(lb));
        let i = choose|i: int| 0 <= i < b.len() && b[i] == la;
        let j = choose|j: int| 0 <= j < a.len() && a[j] == lb;
        if i < b.len() - 1 {
            assert(seq_lt(b[i], lb));
            if j < a.len() - 1 {
                assert(seq_lt(a[j], la));
                lemma_seq_lt_asymmetric(la, lb);
            } else {
                lemma_seq_lt_irreflexive(la);
            }
        } else if j < a.len() - 1 {
            assert(seq_lt(a[j], la));
            lemma_seq_lt_irreflexive(la);
        }
        assert(la == lb);
        let a2 = a.drop_last();
        let b2 = b.drop_last();
        assert forall|x: Seq<char>| set_of(a2).contains(x) <==> set_of(b2).contains(x) by {
            if a2.contains(x) {
                let k = choose|k: int| 0 <= k < a2.len() && a2[k] == x;
                assert(a.contains(x));
                assert(seq_lt(x, la));
                let m = choose|m: int| 0 <= m < b.len() && b[m] == x;
                if m == b.len() - 1 {
                    lemma_seq_lt_irreflexive(x);
                }
                assert(b2[m] == x);
            }
            if b2.contains(x) {
                let k = choose|k: int| 0 <= k < b2.len() && b2[k] == x;
                assert(b.contains(x));
                assert(seq_lt(x, lb));
                let m = choose|m: int| 0 <= m < a.len() && a[m] == x;
                if m == a.len() - 1 {
                    lemma_seq_lt_irreflexive(x);
                }
                assert(a2[m] == x);
            }
        }
        assert(set_of(a2) =~= set_of(b2));
        lemma_sorted_unique(a2, b2);
        assert(a =~= a2.push(la));
        assert(b =~= b2.push(lb));
    }
}

} // verus!
