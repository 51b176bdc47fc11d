use vstd::prelude::*;

verus! {

/// `s` with each value kept only where it first occurs.
pub open spec fn first_occurrences(s: Seq<usize>) -> Seq<usize>
    decreases s.len(),
{
    if s.len() == 0 {
        Seq::empty()
    } else {
        let prev = first_occurrences(s.drop_last());
        if prev.contains(s.last()) {
            prev
        } else {
            prev.push(s.last())
        }
    }
}

/// What `first_occurrences` keeps: each value of `s` once, nothing else.
pub proof fn lemma_first_occurrences(s: Seq<usize>)
    ensures
        first_occurrences(s).no_duplicates(),
        forall|x: usize| #[trigger] first_occurrences(s).contains(x) <==> s.contains(x),
    decreases s.len(),
{
    if s.len() > 0 {
        let prev = first_occurrences(s.drop_last());
        lemma_first_occurrences(s.drop_last());
        assert forall|x: usize| #[trigger] first_occurrences(s).contains(x) <==> s.contains(x) by {
            if s.contains(x) {
                let i = choose|i: int| 0 <= i < s.len() && s[i] == x;
                if i < s.len() - 1 {
                    assert(s.drop_last()[i] == x);
                    assert(s.drop_last().contains(x));
                }
            }
            if s.drop_last().contains(x) {
                let i = choose|i: int| 0 <= i < s.drop_last().len() && s.drop_last()[i] == x;
                assert(s[i] == x);
            }
            assert(s[s.len() - 1] == s.last());
            if x == s.last() {
                assert(s.contains(x));
            }
            if first_occurrences(s).contains(x) && x != s.last() {
                let f = first_occurrences(s);
                let i = choose|i: int| 0 <= i < f.len() && f[i] == x;
                if !prev.contains(s.last()) {
                    assert(f == prev.push(s.last()));
                    assert(i < prev.len());
                    assert(prev[i] == x);
                }
                assert(prev.contains(x));
                assert(s.drop_last().contains(x));
            }
            if !first_occurrences(s).contains(x) && s.contains(x) {
                if !prev.contains(s.last()) {
                    assert(first_occurrences(s)[prev.len() as int] == s.last());
                }
                if x != s.last() {
                    assert(s.drop_last().contains(x));
                    assert(prev.contains(x));
                    let i = choose|i: int| 0 <= i < prev.len() && prev[i] == x;
                    if !prev.contains(s.last()) {
                        assert(first_occurrences(s)[i] == x);
                    }
                }
            }
        }
    }
}

/// A list without repeats of values below `n` has at most `n` entries.
pub proof fn lemma_distinct_bounded(s: Seq<usize>, n: nat)
    requires
        s.no_duplicates(),
        forall|i: int| 0 <= i < s.len() ==> (#[trigger] s[i]) < n,
    ensures
        s.len() <= n,
{
    let si = s.map_values(|x: usize| x as int);
    assert forall|i: int, j: int| 0 <= i < si.len() && 0 <= j < si.len() && i != j implies si[i] != si[j] by {
        assert(s[i] != s[j]);
    }
    assert(si.no_duplicates());
    si.unique_seq_to_set();
    vstd::set_lib::lemma_int_range(0, n as int);
    assert forall|x: int| si.to_set().contains(x) implies vstd::set_lib::set_int_range(0, n as int).contains(x) by {
        let i = choose|i: int| 0 <= i < si.len() && si[i] == x;
        assert(s[i] < n);
    }
    vstd::set_lib::lemma_len_subset(si.to_set(), vstd::set_lib::set_int_range(0, n as int));
}

} // verus!
