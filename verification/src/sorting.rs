//! A stable sort of entries by a composite key, on their positions.
use vstd::prelude::*;
use crate::text::{seq_lt, lemma_seq_lt_transitive, lemma_seq_lt_total, lemma_seq_lt_irreflexive, str_lt, str_eq};

verus! {

/// The key an entry of query context is ordered by: least depth first,
/// then most heat, then by file, line and function.
pub struct EntryKey {
    pub depth: usize,
    pub heat: usize,
    pub file: String,
    pub line: usize,
    pub function: String,
}

#[verifier::ext_equal]
pub struct EntryKeyV {
    pub depth: usize,
    pub heat: usize,
    pub file: Seq<char>,
    pub line: usize,
    pub function: Seq<char>,
}

impl View for EntryKey {
    type V = EntryKeyV;

    open spec fn view(&self) -> EntryKeyV {
        EntryKeyV { depth: self.depth, heat: self.heat, file: self.file@, line: self.line, function: self.function@ }
    }
}

pub open spec fn key_lt(a: EntryKeyV, b: EntryKeyV) -> bool {
    ||| a.depth < b.depth
    ||| a.depth == b.depth && a.heat > b.heat
    ||| a.depth == b.depth && a.heat == b.heat && seq_lt(a.file, b.file)
    ||| a.depth == b.depth && a.heat == b.heat && a.file == b.file && a.line < b.line
    ||| a.depth == b.depth && a.heat == b.heat && a.file == b.file && a.line == b.line
        && seq_lt(a.function, b.function)
}

/// Position `x` comes before position `y`: by key, and by position where
/// the keys are equal.
pub open spec fn placed_before(keys: Seq<EntryKeyV>, x: usize, y: usize) -> bool {
    key_lt(keys[x as int], keys[y as int]) || (keys[x as int] == keys[y as int] && x < y)
}

/// `order` lists the positions of `keys`, each once, in key order, equal
/// keys in position order.
pub open spec fn sorted_positions(keys: Seq<EntryKeyV>, order: Seq<usize>) -> bool {
    &&& order.len() == keys.len()
    &&& forall|y: usize| #[trigger] order.contains(y) <==> y < keys.len()
    &&& forall|a: int, b: int| 0 <= a < b < order.len() ==> placed_before(keys, order[a], order[b])
}

pub proof fn lemma_key_lt_transitive(a: EntryKeyV, b: EntryKeyV, c: EntryKeyV)
    requires
        key_lt(a, b),
        key_lt(b, c),
    ensures
        key_lt(a, c),
{
    if a.depth == b.depth && b.depth == c.depth && a.heat == b.heat && b.heat == c.heat {
        if seq_lt(a.file, b.file) && seq_lt(b.file, c.file) {
            lemma_seq_lt_transitive(a.file, b.file, c.file);
        }
        if a.file == b.file && b.file == c.file && a.line == b.line && b.line == c.line
            && seq_lt(a.function, b.function) && seq_lt(b.function, c.function) {
            lemma_seq_lt_transitive(a.function, b.function, c.function);
        }
    }
}

pub proof fn lemma_key_lt_total(a: EntryKeyV, b: EntryKeyV)
    requires
        !key_lt(a, b),
    ensures
        key_lt(b, a) || a == b,
{
    if a.depth == b.depth && a.heat == b.heat {
        if a.file != b.file {
            lemma_seq_lt_total(a.file, b.file);
        } else if a.line == b.line && a.function != b.function {
            lemma_seq_lt_total(a.function, b.function);
        }
    }
}

/// Whether `a` comes before `b` by key.
pub fn key_less(a: &EntryKey, b: &EntryKey) -> (res: bool)
    ensures
        res == key_lt(a@, b@),
{
    proof {
        lemma_seq_lt_irreflexive(a.file@);
        lemma_seq_lt_irreflexive(a.function@);
    }
    if a.depth != b.depth {
        return a.depth < b.depth;
    }
    if a.heat != b.heat {
        return a.heat > b.heat;
    }
    if !str_eq(a.file.as_str(), b.file.as_str()) {
        return str_lt(a.file.as_str(), b.file.as_str());
    }
    if a.line != b.line {
        return a.line < b.line;
    }
    str_lt(a.function.as_str(), b.function.as_str())
}

/// The positions of `keys` in key order; equal keys keep their order.
pub fn sort_positions(keys: &Vec<EntryKey>) -> (order: Vec<usize>)
    ensures
        sorted_positions(keys@.map_values(|k: EntryKey| k@), order@),
{
    let ghost kv = keys@.map_values(|k: EntryKey| k@);
    let mut order: Vec<usize> = Vec::new();
    let mut i: usize = 0;
    while i < keys.len()
        invariant
            i <= keys@.len(),
            kv == keys@.map_values(|k: EntryKey| k@),
            order@.len() == i,
            forall|y: usize| #[trigger] order@.contains(y) <==> y < i,
            forall|a: int, b: int| 0 <= a < b < order@.len() ==> placed_before(kv, order@[a], order@[b]),
        decreases keys@.len() - i,
    {
        proof {
            assert forall|a: int| 0 <= a < order@.len() implies (#[trigger] order@[a]) < i by {
                assert(order@.contains(order@[a]));
            }
        }
        let mut pos: usize = 0;
        while pos < order.len() && !key_less(&keys[i], &keys[order[pos]])
            invariant
                pos <= order@.len(),
                i < keys@.len(),
                kv == keys@.map_values(|k: EntryKey| k@),
                forall|y: usize| #[trigger] order@.contains(y) <==> y < i,
                forall|a: int| 0 <= a < order@.len() ==> (#[trigger] order@[a]) < i,
                forall|a: int| 0 <= a < pos ==> !key_lt(kv[i as int], kv[order@[a] as int]),
            decreases order@.len() - pos,
        {
            assert(order@.contains(order@[pos as int]));
            pos = pos + 1;
        }
        let ghost old_order = order@;
        proof {
            assert forall|a: int| 0 <= a < old_order.len() implies (#[trigger] old_order[a]) < i by {
                assert(old_order.contains(old_order[a]));
            }
        }
        order.insert(pos, i);
        proof {
            assert(order@ =~= old_order.insert(pos as int, i));
            assert forall|a: int, b: int| 0 <= a < b < order@.len() implies placed_before(kv, order@[a], order@[b]) by {
                if a < pos && b == pos {
                    lemma_key_lt_total(kv[i as int], kv[old_order[a] as int]);
                } else if a < pos && b > pos {
                    assert(order@[b] == old_order[b - 1]);
                } else if a == pos && b > pos {
                    assert(order@[b] == old_order[b - 1]);
                    let first = old_order[pos as int];
                    assert(key_lt(kv[i as int], kv[first as int]));
                    if b - 1 > pos {
                        assert(placed_before(kv, first, old_order[b - 1]));
                        if key_lt(kv[first as int], kv[old_order[b - 1] as int]) {
                            lemma_key_lt_transitive(kv[i as int], kv[first as int], kv[old_order[b - 1] as int]);
                        }
                    }
                } else if a > pos {
                    assert(order@[a] == old_order[a - 1]);
                    assert(order@[b] == old_order[b - 1]);
                }
            }
            assert forall|y: usize| #[trigger] order@.contains(y) <==> y < i + 1 by {
                if order@.contains(y) {
                    let k = choose|k: int| 0 <= k < order@.len() && order@[k] == y;
                    if k < pos {
                        assert(old_order[k] == y);
                        assert(old_order.contains(y));
                    } else if k > pos {
                        assert(old_order[k - 1] == y);
                        assert(old_order.contains(y));
                    }
                }
                if y < i {
                    assert(old_order.contains(y));
                    let k = choose|k: int| 0 <= k < old_order.len() && old_order[k] == y;
                    if k < pos {
                        assert(order@[k] == y);
                    } else {
                        assert(order@[k + 1] == y);
                    }
                } else if y == i {
                    assert(order@[pos as int] == y);
                }
            }
        }
        i = i + 1;
    }
    order
}

} // verus!
