use vstd::prelude::*;
use vstd::hash_map::StringHashMap;
use crate::analysis::codepaths::graph::{graph_wf, graph_edges_view, graph_nodes_view, refs_view};
use crate::analysis::codepaths::types::{CallGraph, CallGraphV, GraphEdgeV, GraphNodeV, GraphReferenceV};
use crate::text::{chars_of, seq_starts_with, starts_with_seq, string_from_range};

verus! {

/// A file path without a leading `./`.
pub open spec fn normalized(file: Seq<char>) -> Seq<char> {
    if seq_starts_with(file, "./"@) { file.skip(2) } else { file }
}

/// The span of lines of function `x.2`: from `x.0` to `x.1`.
pub type Interval = (usize, usize, usize);

/// Intervals are ordered by first line, then by function.
pub open spec fn interval_lt(a: Interval, b: Interval) -> bool {
    a.0 < b.0 || (a.0 == b.0 && a.2 < b.2)
}

/// `x` is the interval of a node of `nodes` that lies in file `key` and
/// has an end line.
pub open spec fn indexed(nodes: Seq<GraphNodeV>, key: Seq<char>, x: Interval) -> bool {
    &&& x.2 < nodes.len()
    &&& nodes[x.2 as int].end_line != 0
    &&& normalized(nodes[x.2 as int].file) == key
    &&& x.0 == nodes[x.2 as int].line
    &&& x.1 == nodes[x.2 as int].end_line
}

/// `v` lists, in interval order, the intervals of the nodes in file `key`.
pub open spec fn intervals_for(v: Seq<Interval>, nodes: Seq<GraphNodeV>, key: Seq<char>) -> bool {
    &&& forall|a: int, b: int| 0 <= a < b < v.len() ==> interval_lt(v[a], v[b])
    &&& forall|x: Interval| #[trigger] v.contains(x) <==> indexed(nodes, key, x)
}

/// The index holds, for each file, the intervals of its nodes, and holds
/// a file only where some node of it has an interval.
pub open spec fn index_spec(idx: Map<Seq<char>, Vec<Interval>>, nodes: Seq<GraphNodeV>) -> bool {
    forall|key: Seq<char>| #![trigger idx.contains_key(key)]
        (idx.contains_key(key) ==> intervals_for(idx[key]@, nodes, key) && idx[key]@.len() > 0)
        && (!idx.contains_key(key) ==> forall|x: Interval| !indexed(nodes, key, x))
}

pub open spec fn contains_line(x: Interval, line: usize) -> bool {
    x.0 <= line <= x.1
}

/// The function of the last interval among the first `k` that contains `line`.
pub open spec fn last_containing(v: Seq<Interval>, line: usize, k: nat) -> Option<usize>
    decreases k,
{
    if k == 0 || k > v.len() {
        None
    } else if contains_line(v[k - 1], line) {
        Some(v[k - 1].2)
    } else {
        last_containing(v, line, (k - 1) as nat)
    }
}

/// What the index holds for `key` once the first `bound` nodes are in.
pub open spec fn key_ok(m: Map<Seq<char>, Vec<Interval>>, nodes: Seq<GraphNodeV>, key: Seq<char>, bound: int) -> bool {
    &&& m.contains_key(key) ==> {
        &&& m[key]@.len() > 0
        &&& forall|a: int, b: int| 0 <= a < b < m[key]@.len() ==> interval_lt(m[key]@[a], m[key]@[b])
        &&& forall|y: Interval| #[trigger] m[key]@.contains(y) <==> (indexed(nodes, key, y) && y.2 < bound)
    }
    &&& !m.contains_key(key) ==> forall|y: Interval| !(#[trigger] indexed(nodes, key, y) && y.2 < bound)
}

/// An index from files to the line spans of their functions.
pub struct FunctionIndex {
    pub by_file: StringHashMap<Vec<Interval>>,
    /// The files of `by_file`, each once, in the order they were first seen.
    pub files: Vec<String>,
}

impl FunctionIndex {
    pub open spec fn files_complete(&self) -> bool {
        &&& forall|i: int| 0 <= i < self.files@.len() ==> self.by_file@.contains_key(#[trigger] self.files@[i]@)
        &&& forall|key: Seq<char>| #[trigger] self.by_file@.contains_key(key)
            ==> exists|i: int| 0 <= i < self.files@.len() && self.files@[i]@ == key
    }
}

/// `file` without a leading `./`.
pub fn normalize_path(file: &str) -> (res: String)
    ensures
        res@ == normalized(file@),
{
    let chars = chars_of(file);
    let prefix = chars_of("./");
    proof {
        reveal_strlit("./");
    }
    let n = chars.len();
    if starts_with_seq(chars.as_slice(), prefix.as_slice()) {
        let rest = string_from_range(chars.as_slice(), 2, n);
        assert(rest@ =~= file@.skip(2));
        rest
    } else {
        let all = string_from_range(chars.as_slice(), 0, n);
        assert(all@ =~= file@);
        all
    }
}

/// A copy of a list of intervals.
pub fn copy_intervals(v: &Vec<Interval>) -> (res: Vec<Interval>)
    ensures
        res@ == v@,
{
    let mut res: Vec<Interval> = Vec::new();
    let mut i: usize = 0;
    while i < v.len()
        invariant
            i <= v@.len(),
            res@ == v@.take(i as int),
        decreases v@.len() - i,
    {
        res.push(v[i]);
        i = i + 1;
        assert(res@ =~= v@.take(i as int));
    }
    assert(v@.take(v@.len() as int) =~= v@);
    res
}

/// The list with `x` inserted after every interval that does not start
/// after it.
fn insert_interval(v: Vec<Interval>, x: Interval) -> (res: Vec<Interval>)
    requires
        forall|a: int, b: int| 0 <= a < b < v@.len() ==> interval_lt(v@[a], v@[b]),
        forall|a: int| 0 <= a < v@.len() ==> (#[trigger] v@[a]).2 < x.2,
    ensures
        forall|a: int, b: int| 0 <= a < b < res@.len() ==> interval_lt(res@[a], res@[b]),
        forall|y: Interval| #[trigger] res@.contains(y) <==> (v@.contains(y) || y == x),
{
    let ghost old_v = v@;
    let mut v = v;
    let mut pos: usize = 0;
    while pos < v.len() && v[pos].0 <= x.0
        invariant
            pos <= v@.len(),
            v@ == old_v,
            forall|a: int| 0 <= a < pos ==> v@[a].0 <= x.0,
        decreases v@.len() - pos,
    {
        pos = pos + 1;
    }
    v.insert(pos, x);
    assert(v@ =~= old_v.insert(pos as int, x));
    assert forall|a: int, b: int| 0 <= a < b < v@.len() implies interval_lt(v@[a], v@[b]) by {
        if a < pos && b == pos {
            assert(old_v[a].2 < x.2);
        } else if a < pos && b > pos {
            assert(v@[b] == old_v[b - 1]);
        } else if a == pos && b > pos {
            assert(v@[b] == old_v[b - 1]);
            if b - 1 > pos {
                assert(interval_lt(old_v[pos as int], old_v[b - 1]));
            }
        } else if a > pos {
            assert(v@[a] == old_v[a - 1]);
            assert(v@[b] == old_v[b - 1]);
        }
    }
    assert forall|y: Interval| #[trigger] v@.contains(y) <==> (old_v.contains(y) || y == x) by {
        if v@.contains(y) {
            let i = choose|i: int| 0 <= i < v@.len() && v@[i] == y;
            if i < pos {
                assert(old_v[i] == y);
            } else if i > pos {
                assert(old_v[i - 1] == y);
            }
        }
        if old_v.contains(y) {
            let i = choose|i: int| 0 <= i < old_v.len() && old_v[i] == y;
            if i < pos {
                assert(v@[i] == y);
            } else {
                assert(v@[i + 1] == y);
            }
        } else if y == x {
            assert(v@[pos as int] == y);
        }
    }
    v
}

/// Adding the interval `x` of node `i` to the list of its file `kv`.
proof fn lemma_key_ok_insert(
    old_map: Map<Seq<char>, Vec<Interval>>,
    nodes: Seq<GraphNodeV>,
    i: int,
    kv: Seq<char>,
    old_list: Seq<Interval>,
    new_list: Vec<Interval>,
    x: Interval,
)
    requires
        key_ok(old_map, nodes, kv, i),
        old_map.contains_key(kv) ==> old_list == old_map[kv]@,
        !old_map.contains_key(kv) ==> old_list.len() == 0,
        forall|a: int, b: int| 0 <= a < b < new_list@.len() ==> interval_lt(new_list@[a], new_list@[b]),
        forall|y: Interval| #[trigger] new_list@.contains(y) <==> (old_list.contains(y) || y == x),
        indexed(nodes, kv, x),
        x.2 == i,
    ensures
        key_ok(old_map.insert(kv, new_list), nodes, kv, i + 1),
{
    let m = old_map.insert(kv, new_list);
    assert(m[kv] == new_list);
    assert(new_list@.contains(x));
    assert forall|y: Interval| #[trigger] m[kv]@.contains(y) <==> (indexed(nodes, kv, y) && y.2 < i + 1) by {
        if indexed(nodes, kv, y) && y.2 == i {
            assert(y == x);
        }
        if !old_map.contains_key(kv) {
            assert(!old_list.contains(y));
        }
    }
}

/// Adding an interval to the list of file `kv` leaves what the index
/// says of any other file as it was.
proof fn lemma_key_ok_other(
    old_map: Map<Seq<char>, Vec<Interval>>,
    nodes: Seq<GraphNodeV>,
    i: int,
    kv: Seq<char>,
    new_list: Vec<Interval>,
    k: Seq<char>,
)
    requires
        key_ok(old_map, nodes, k, i),
        k != kv,
        i < nodes.len(),
        nodes[i as int].end_line != 0 ==> normalized(nodes[i as int].file) == kv,
    ensures
        key_ok(old_map.insert(kv, new_list), nodes, k, i + 1),
{
    let m = old_map.insert(kv, new_list);
    assert(m.contains_key(k) == old_map.contains_key(k));
    if old_map.contains_key(k) {
        assert(m[k] == old_map[k]);
    }
    lemma_key_ok_skip(old_map, nodes, i, k);
}

/// When node `i` gives file `k` no interval, the index of `k` needs no change.
proof fn lemma_key_ok_skip(m: Map<Seq<char>, Vec<Interval>>, nodes: Seq<GraphNodeV>, i: int, k: Seq<char>)
    requires
        key_ok(m, nodes, k, i),
        i < nodes.len(),
        nodes[i as int].end_line != 0 ==> normalized(nodes[i as int].file) != k,
    ensures
        key_ok(m, nodes, k, i + 1),
{
    assert forall|y: Interval| indexed(nodes, k, y) implies y.2 != i by {}
    if m.contains_key(k) {
        assert forall|y: Interval| #[trigger] m[k]@.contains(y) <==> (indexed(nodes, k, y) && y.2 < i + 1) by {
            if m[k]@.contains(y) {
                assert(indexed(nodes, k, y) && y.2 < i);
            }
            if indexed(nodes, k, y) && y.2 < i + 1 {
                assert(y.2 < i);
            }
        }
    } else {
        assert forall|y: Interval| !(#[trigger] indexed(nodes, k, y) && y.2 < i + 1) by {
            if indexed(nodes, k, y) && y.2 < i + 1 {
                assert(y.2 < i);
            }
        }
    }
}

impl FunctionIndex {
    /// Indexes the nodes of a graph by file: each node that has an end line
    /// gets the interval from its first to its last line.
    pub fn build(graph: &CallGraph) -> (res: Self)
        ensures
            index_spec(res.by_file@, graph@.nodes),
            res.files_complete(),
    {
        let ghost nodes = graph@.nodes;
        let mut by_file: StringHashMap<Vec<Interval>> = StringHashMap::new();
        let mut files: Vec<String> = Vec::new();
        let mut i: usize = 0;
        while i < graph.nodes.len()
            invariant
                i <= graph.nodes@.len(),
                nodes == graph@.nodes,
                nodes.len() == graph.nodes@.len(),
                forall|key: Seq<char>| #[trigger] key_ok(by_file@, nodes, key, i as int),
                forall|j: int| 0 <= j < files@.len() ==> by_file@.contains_key(#[trigger] files@[j]@),
                forall|key: Seq<char>| #[trigger] by_file@.contains_key(key)
                    ==> exists|j: int| 0 <= j < files@.len() && files@[j]@ == key,
            decreases graph.nodes@.len() - i,
        {
            let node = &graph.nodes[i];
            assert(nodes[i as int] == node@);
            if node.end_line != 0 {
                let key = normalize_path(node.file.as_str());
                let x: Interval = (node.line, node.end_line, i);
                assert(indexed(nodes, key@, x));
                let known = by_file.contains_key(key.as_str());
                let intervals: Vec<Interval> = match by_file.get(key.as_str()) {
                    Some(existing) => copy_intervals(existing),
                    None => Vec::new(),
                };
                let ghost old_list = intervals@;
                proof {
                    assert(key_ok(by_file@, nodes, key@, i as int));
                    if known {
                        let ghost m = by_file@;
                        assert(m.contains_key(key@));
                        assert(intervals@ =~= m[key@]@);
                        assert forall|a: int| 0 <= a < intervals@.len() implies (#[trigger] intervals@[a]).2 < x.2 by {
                            let y = intervals@[a];
                            assert(m[key@]@[a] == y);
                            assert(m[key@]@.contains(y));
                            assert(indexed(nodes, key@, y) && y.2 < i);
                        }
                    } else {
                        assert(intervals@.len() == 0);
                    }
                }
                let intervals = insert_interval(intervals, x);
                let ghost old_map = by_file@;
                let ghost old_files = files@;
                if !known {
                    files.push(key.clone());
                }
                let ghost kv = key@;
                let ghost iv = intervals;
                by_file.insert(key, intervals);
                proof {
                    assert(by_file@ == old_map.insert(kv, iv));
                    if known {
                        assert(old_list == old_map[kv]@);
                    }
                    assert forall|k: Seq<char>| #[trigger] key_ok(by_file@, nodes, k, i + 1) by {
                        if k == kv {
                            lemma_key_ok_insert(old_map, nodes, i as int, kv, old_list, iv, x);
                        } else {
                            lemma_key_ok_other(old_map, nodes, i as int, kv, iv, k);
                        }
                    }
                    assert forall|j: int| 0 <= j < files@.len() implies by_file@.contains_key(#[trigger] files@[j]@) by {
                        if j < old_files.len() {
                            assert(files@[j] == old_files[j]);
                        }
                    }
                    assert forall|k: Seq<char>| #[trigger] by_file@.contains_key(k)
                        implies exists|j: int| 0 <= j < files@.len() && files@[j]@ == k by {
                        if k == kv {
                            if known {
                                let j = choose|j: int| 0 <= j < old_files.len() && old_files[j]@ == k;
                                assert(files@[j] == old_files[j]);
                            } else {
                                assert(files@[old_files.len() as int]@ == k);
                            }
                        } else {
                            assert(old_map.contains_key(k));
                            let j = choose|j: int| 0 <= j < old_files.len() && old_files[j]@ == k;
                            assert(files@[j] == old_files[j]);
                        }
                    }
                }
            }
            else {
                assert forall|k: Seq<char>| #[trigger] key_ok(by_file@, nodes, k, i + 1) by {
                    lemma_key_ok_skip(by_file@, nodes, i as int, k);
                }
            }
            i = i + 1;
        }
        let res = FunctionIndex { by_file, files };
        assert(res.by_file@ == by_file@);
        assert(res.files@ == files@);
        assert forall|key: Seq<char>| #[trigger] res.by_file@.contains_key(key)
            implies exists|j: int| 0 <= j < res.files@.len() && res.files@[j]@ == key by {
            assert(by_file@.contains_key(key));
        }
        assert forall|key: Seq<char>| #![trigger res.by_file@.contains_key(key)]
            (res.by_file@.contains_key(key) ==> intervals_for(res.by_file@[key]@, nodes, key)
                && res.by_file@[key]@.len() > 0)
            && (!res.by_file@.contains_key(key) ==> forall|x: Interval| !indexed(nodes, key, x)) by {
            assert(key_ok(by_file@, nodes, key, i as int));
            assert forall|x: Interval| indexed(nodes, key, x) implies x.2 < i by {}
        }
        res
    }
}

} // verus!

verus! {

/// Every list of the index is ordered by first line.
pub open spec fn index_sorted(idx: Map<Seq<char>, Vec<Interval>>) -> bool {
    forall|key: Seq<char>| #[trigger] idx.contains_key(key)
        ==> forall|a: int, b: int| 0 <= a < b < idx[key]@.len() ==> idx[key]@[a].0 <= idx[key]@[b].0
}

/// The function whose span in `file` holds `line`: of the spans that hold
/// it, the one that comes last in the file's list.
pub open spec fn lookup_spec(idx: Map<Seq<char>, Vec<Interval>>, file: Seq<char>, line: usize) -> Option<usize> {
    let key = normalized(file);
    if idx.contains_key(key) {
        last_containing(idx[key]@, line, idx[key]@.len())
    } else {
        None
    }
}

/// What `last_containing` finds is an interval that holds the line, and it
/// finds nothing only when no interval among the first `k` holds it.
proof fn lemma_last_containing(v: Seq<Interval>, line: usize, k: nat)
    requires
        k <= v.len(),
    ensures
        last_containing(v, line, k) matches Some(f) ==> exists|j: int| 0 <= j < k && #[trigger] v[j].2 == f
            && contains_line(v[j], line),
        last_containing(v, line, k) is None ==> forall|j: int| 0 <= j < k ==> !contains_line(#[trigger] v[j], line),
    decreases k,
{
    if k > 0 {
        lemma_last_containing(v, line, (k - 1) as nat);
        if contains_line(v[k - 1], line) {
            assert(v[k - 1].2 == v[k - 1].2);
        }
    }
}

/// Two lists in strictly increasing interval order that hold the same
/// intervals are the same list.
proof fn lemma_sorted_intervals_unique(v1: Seq<Interval>, v2: Seq<Interval>)
    requires
        forall|a: int, b: int| 0 <= a < b < v1.len() ==> interval_lt(v1[a], v1[b]),
        forall|a: int, b: int| 0 <= a < b < v2.len() ==> interval_lt(v2[a], v2[b]),
        forall|x: Interval| v1.contains(x) <==> v2.contains(x),
    ensures
        v1 == v2,
    decreases v1.len(),
{
    if v1.len() == 0 {
        if v2.len() > 0 {
            assert(v2.contains(v2[0]));
        }
        assert(v1 =~= v2);
    } else {
        assert(v1.contains(v1[0]));
        let j = choose|j: int| 0 <= j < v2.len() && v2[j] == v1[0];
        assert(v2.contains(v2[0]));
        let k = choose|k: int| 0 <= k < v1.len() && v1[k] == v2[0];
        if j > 0 {
            assert(interval_lt(v2[0], v2[j]));
            if k > 0 {
                assert(interval_lt(v1[0], v1[k]));
            }
            assert(false);
        }
        let r1 = v1.drop_first();
        let r2 = v2.drop_first();
        assert forall|x: Interval| r1.contains(x) <==> r2.contains(x) by {
            if r1.contains(x) {
                let a = choose|a: int| 0 <= a < r1.len() && r1[a] == x;
                assert(v1[a + 1] == x);
                assert(interval_lt(v1[0], v1[a + 1]));
                assert(v1.contains(x));
                let b = choose|b: int| 0 <= b < v2.len() && v2[b] == x;
                if b == 0 {
                    assert(false);
                }
                assert(r2[b - 1] == x);
            }
            if r2.contains(x) {
                let a = choose|a: int| 0 <= a < r2.len() && r2[a] == x;
                assert(v2[a + 1] == x);
                assert(interval_lt(v2[0], v2[a + 1]));
                assert(v2.contains(x));
                let b = choose|b: int| 0 <= b < v1.len() && v1[b] == x;
                if b == 0 {
                    assert(false);
                }
                assert(r1[b - 1] == x);
            }
        }
        lemma_sorted_intervals_unique(r1, r2);
        assert(v1 =~= v2) by {
            assert forall|i: int| 0 <= i < v1.len() implies v1[i] == v2[i] by {
                if i > 0 {
                    assert(v1[i] == r1[i - 1]);
                    assert(v2[i] == r2[i - 1]);
                }
            }
        }
    }
}

/// Law: the indexes of a well-formed payload are those of its graph, so a
/// payload read back from the cache is indexed exactly as one built anew
/// from the same graph: the same files in the function index with the same
/// intervals for each, the same edges into each function, the same
/// references to it, and so the same function for every line of every file.
pub proof fn law_payload_indexes_determined(p1: QueryCachePayload, p2: QueryCachePayload, file: Seq<char>, line: usize)
    requires
        p1.wf(),
        p2.wf(),
        p1.graph@ == p2.graph@,
    ensures
        p1.function_index.by_file@.dom() == p2.function_index.by_file@.dom(),
        forall|key: Seq<char>| #[trigger] p1.function_index.by_file@.contains_key(key)
            ==> p1.function_index.by_file@[key]@ == p2.function_index.by_file@[key]@,
        forall|c: int| 0 <= c < p1.graph@.nodes.len() ==> (#[trigger] p1.backward_calls@[c])@ == p2.backward_calls@[c]@,
        forall|c: int| 0 <= c < p1.graph@.nodes.len()
            ==> (#[trigger] p1.backward_references@[c])@ == p2.backward_references@[c]@,
        lookup_spec(p1.function_index.by_file@, file, line) == lookup_spec(p2.function_index.by_file@, file, line),
{
    let i1 = p1.function_index.by_file@;
    let i2 = p2.function_index.by_file@;
    let nodes = p1.graph@.nodes;
    assert forall|key: Seq<char>| #[trigger] i1.contains_key(key) implies i2.contains_key(key)
        && i1[key]@ == i2[key]@ by {
        assert(intervals_for(i1[key]@, nodes, key) && i1[key]@.len() > 0);
        let v = i1[key]@;
        assert(v.contains(v[0]));
        assert(indexed(nodes, key, v[0]));
        assert(i2.contains_key(key));
        lemma_sorted_intervals_unique(i1[key]@, i2[key]@);
    }
    assert forall|key: Seq<char>| #[trigger] i2.contains_key(key) implies i1.contains_key(key) by {
        assert(intervals_for(i2[key]@, nodes, key) && i2[key]@.len() > 0);
        let v = i2[key]@;
        assert(v.contains(v[0]));
        assert(indexed(nodes, key, v[0]));
    }
    assert(i1.dom() =~= i2.dom());
    let key = normalized(file);
    if i1.contains_key(key) {
        assert(i1[key]@ == i2[key]@);
    }
}

/// Law: a lookup answers with a function of that file whose lines hold
/// the line asked for, and answers nothing only when no function of the
/// file holds it.
pub proof fn law_lookup_encloses(idx: Map<Seq<char>, Vec<Interval>>, nodes: Seq<GraphNodeV>, file: Seq<char>,
    line: usize)
    requires
        index_spec(idx, nodes),
        nodes.len() <= usize::MAX,
    ensures
        lookup_spec(idx, file, line) matches Some(f) ==> f < nodes.len()
            && normalized(nodes[f as int].file) == normalized(file)
            && nodes[f as int].line <= line <= nodes[f as int].end_line,
        lookup_spec(idx, file, line) is None ==> forall|f: int| 0 <= f < nodes.len()
            && normalized(#[trigger] nodes[f].file) == normalized(file) && nodes[f].end_line != 0
            ==> !(nodes[f].line <= line <= nodes[f].end_line),
{
    let key = normalized(file);
    if idx.contains_key(key) {
        let v = idx[key]@;
        assert(intervals_for(v, nodes, key));
        lemma_last_containing(v, line, v.len());
        if let Some(f) = lookup_spec(idx, file, line) {
            let j = choose|j: int| 0 <= j < v.len() && #[trigger] v[j].2 == f && contains_line(v[j], line);
            assert(v.contains(v[j]));
            assert(indexed(nodes, key, v[j]));
        } else {
            assert forall|f: int| 0 <= f < nodes.len() && normalized(#[trigger] nodes[f].file) == normalized(file)
                && nodes[f].end_line != 0 implies !(nodes[f].line <= line <= nodes[f].end_line) by {
                let x: Interval = (nodes[f].line, nodes[f].end_line, f as usize);
                assert(indexed(nodes, key, x));
                assert(v.contains(x));
            }
        }
    } else {
        assert forall|f: int| 0 <= f < nodes.len() && normalized(#[trigger] nodes[f].file) == normalized(file)
            && nodes[f].end_line != 0 implies !(nodes[f].line <= line <= nodes[f].end_line) by {
            let x: Interval = (nodes[f].line, nodes[f].end_line, f as usize);
            assert(indexed(nodes, key, x));
        }
    }
}

/// Spans that start after `line` do not hold it.
proof fn lemma_last_containing_skip(v: Seq<Interval>, line: usize, pos: nat, k: nat)
    requires
        pos <= k <= v.len(),
        forall|j: int| pos <= j < v.len() ==> v[j].0 > line,
    ensures
        last_containing(v, line, k) == last_containing(v, line, pos),
    decreases k,
{
    if k > pos {
        lemma_last_containing_skip(v, line, pos, (k - 1) as nat);
    }
}

impl FunctionIndex {
    /// The lists of the index are ordered by first line.
    pub open spec fn sorted(&self) -> bool {
        index_sorted(self.by_file@)
    }

    /// The function whose span in `file` holds `line`, if any; where spans
    /// nest, the one that starts last.
    pub fn lookup(&self, file: &str, line: usize) -> (res: Option<usize>)
        requires
            self.sorted(),
        ensures
            res == lookup_spec(self.by_file@, file@, line),
    {
        let key = normalize_path(file);
        let intervals = match self.by_file.get(key.as_str()) {
            Some(v) => v,
            None => {
                return None;
            },
        };
        let ghost v = intervals@;
        assert(forall|a: int, b: int| 0 <= a < b < v.len() ==> v[a].0 <= v[b].0);
        let n = intervals.len();
        let mut lo: usize = 0;
        let mut hi: usize = n;
        while lo < hi
            invariant
                lo <= hi <= n,
                n == v.len(),
                v == intervals@,
                forall|a: int, b: int| 0 <= a < b < v.len() ==> v[a].0 <= v[b].0,
                forall|j: int| 0 <= j < lo ==> v[j].0 <= line,
                forall|j: int| hi <= j < n ==> v[j].0 > line,
            decreases hi - lo,
        {
            let mid = lo + (hi - lo) / 2;
            if intervals[mid].0 <= line {
                lo = mid + 1;
            } else {
                hi = mid;
            }
        }
        proof {
            lemma_last_containing_skip(v, line, lo as nat, n as nat);
        }
        let mut i: usize = lo;
        while i > 0
            invariant
                i <= lo <= n,
                n == v.len(),
                v == intervals@,
                last_containing(v, line, i as nat) == last_containing(v, line, n as nat),
                self.by_file@.contains_key(normalized(file@)),
                self.by_file@[normalized(file@)]@ == v,
            decreases i,
        {
            let (start, end, idx) = intervals[i - 1];
            if line >= start && line <= end {
                assert(v[i - 1] == (start, end, idx));
                assert(last_containing(v, line, i as nat) == Some(idx));
                return Some(idx);
            }
            i = i - 1;
        }
        None
    }
}

/// Positions `i < k` of the edges that end in `callee`, in order.
pub open spec fn edges_into(edges: Seq<GraphEdgeV>, callee: int, k: nat) -> Seq<usize>
    decreases k,
{
    if k == 0 || k > edges.len() {
        Seq::empty()
    } else if edges[k - 1].callee == callee {
        edges_into(edges, callee, (k - 1) as nat).push((k - 1) as usize)
    } else {
        edges_into(edges, callee, (k - 1) as nat)
    }
}

/// Positions `i < k` of the references that point at `target`, in order.
pub open spec fn references_to(refs: Seq<GraphReferenceV>, target: int, k: nat) -> Seq<usize>
    decreases k,
{
    if k == 0 || k > refs.len() {
        Seq::empty()
    } else if refs[k - 1].target == target {
        references_to(refs, target, (k - 1) as nat).push((k - 1) as usize)
    } else {
        references_to(refs, target, (k - 1) as nat)
    }
}

/// A graph with the indexes that queries use.
pub struct QueryCachePayload {
    pub graph: CallGraph,
    pub function_index: FunctionIndex,
    /// For each node, the positions of the edges that call it.
    pub backward_calls: Vec<Vec<usize>>,
    /// For each node, the positions of the references that point at it.
    pub backward_references: Vec<Vec<usize>>,
}

impl QueryCachePayload {
    /// The indexes are those of the graph.
    pub open spec fn wf(&self) -> bool {
        let g = self.graph@;
        &&& graph_wf(g)
        &&& index_spec(self.function_index.by_file@, g.nodes)
        &&& self.function_index.files_complete()
        &&& self.backward_calls@.len() == g.nodes.len()
        &&& forall|c: int| 0 <= c < g.nodes.len()
            ==> (#[trigger] self.backward_calls@[c])@ == edges_into(g.edges, c, g.edges.len())
        &&& self.backward_references@.len() == g.nodes.len()
        &&& forall|c: int| 0 <= c < g.nodes.len()
            ==> (#[trigger] self.backward_references@[c])@ == references_to(g.references, c, g.references.len())
    }
}

/// Every edge ends in a node and every reference points at one.
pub open spec fn targets_bounded(g: CallGraphV) -> bool {
    &&& forall|j: int| 0 <= j < g.edges.len() ==> (#[trigger] g.edges[j]).callee < g.nodes.len()
    &&& forall|j: int| 0 <= j < g.references.len() ==> (#[trigger] g.references[j]).target < g.nodes.len()
}

/// The edge positions below `k` are below `k`.
pub proof fn lemma_edges_into_bounded(edges: Seq<GraphEdgeV>, callee: int, k: nat)
    ensures
        forall|a: int| 0 <= a < edges_into(edges, callee, k).len()
            ==> #[trigger] edges_into(edges, callee, k)[a] < k,
    decreases k,
{
    if k > 0 && k <= edges.len() {
        lemma_edges_into_bounded(edges, callee, (k - 1) as nat);
        let prev = edges_into(edges, callee, (k - 1) as nat);
        if edges[k - 1].callee == callee {
            assert forall|a: int| 0 <= a < prev.push((k - 1) as usize).len()
                implies #[trigger] prev.push((k - 1) as usize)[a] < k by {
                if a < prev.len() {
                    assert(prev[a] < k - 1);
                }
            }
        }
    }
}

/// The reference positions below `k` are below `k`.
pub proof fn lemma_references_to_bounded(refs: Seq<GraphReferenceV>, target: int, k: nat)
    ensures
        forall|a: int| 0 <= a < references_to(refs, target, k).len()
            ==> #[trigger] references_to(refs, target, k)[a] < k,
    decreases k,
{
    if k > 0 && k <= refs.len() {
        lemma_references_to_bounded(refs, target, (k - 1) as nat);
        let prev = references_to(refs, target, (k - 1) as nat);
        if refs[k - 1].target == target {
            assert forall|a: int| 0 <= a < prev.push((k - 1) as usize).len()
                implies #[trigger] prev.push((k - 1) as usize)[a] < k by {
                if a < prev.len() {
                    assert(prev[a] < k - 1);
                }
            }
        }
    }
}

/// An edge below `k` is listed for `callee` just when it ends there.
pub proof fn lemma_edges_into_contains(edges: Seq<GraphEdgeV>, callee: int, k: nat, e: int)
    requires
        k <= edges.len() <= usize::MAX,
        0 <= e < k,
    ensures
        edges_into(edges, callee, k).contains(e as usize) <==> edges[e].callee == callee,
    decreases k,
{
    lemma_edges_into_bounded(edges, callee, k);
    let cur = edges_into(edges, callee, k);
    let prev = edges_into(edges, callee, (k - 1) as nat);
    lemma_edges_into_bounded(edges, callee, (k - 1) as nat);
    if e < k - 1 {
        lemma_edges_into_contains(edges, callee, (k - 1) as nat, e);
        if edges[k - 1].callee == callee {
            assert(cur == prev.push((k - 1) as usize));
            if prev.contains(e as usize) {
                let a = choose|a: int| 0 <= a < prev.len() && prev[a] == e as usize;
                assert(cur[a] == e as usize);
            }
            if cur.contains(e as usize) {
                let a = choose|a: int| 0 <= a < cur.len() && cur[a] == e as usize;
                if a == prev.len() {
                    assert(cur[a] == (k - 1) as usize);
                } else {
                    assert(prev[a] == e as usize);
                }
            }
        } else {
            assert(cur == prev);
        }
    } else {
        if edges[k - 1].callee == callee {
            assert(cur == prev.push((k - 1) as usize));
            assert(cur[prev.len() as int] == e as usize);
        } else {
            assert(cur == prev);
            if cur.contains(e as usize) {
                let a = choose|a: int| 0 <= a < cur.len() && cur[a] == e as usize;
                assert(prev[a] < k - 1);
            }
        }
    }
}

/// At most `k` edges below `k` end anywhere.
pub proof fn lemma_edges_into_len(edges: Seq<GraphEdgeV>, callee: int, k: nat)
    ensures
        edges_into(edges, callee, k).len() <= k,
    decreases k,
{
    if k > 0 && k <= edges.len() {
        lemma_edges_into_len(edges, callee, (k - 1) as nat);
    }
}

/// At most `k` references below `k` point anywhere.
pub proof fn lemma_references_to_len(refs: Seq<GraphReferenceV>, target: int, k: nat)
    ensures
        references_to(refs, target, k).len() <= k,
    decreases k,
{
    if k > 0 && k <= refs.len() {
        lemma_references_to_len(refs, target, (k - 1) as nat);
    }
}

/// The index of a well-formed graph is ordered by first line.
pub proof fn lemma_index_sorted(idx: Map<Seq<char>, Vec<Interval>>, nodes: Seq<GraphNodeV>)
    requires
        index_spec(idx, nodes),
    ensures
        index_sorted(idx),
{
    assert forall|key: Seq<char>| #[trigger] idx.contains_key(key)
        implies forall|a: int, b: int| 0 <= a < b < idx[key]@.len() ==> idx[key]@[a].0 <= idx[key]@[b].0 by {
        assert(intervals_for(idx[key]@, nodes, key));
        assert forall|a: int, b: int| 0 <= a < b < idx[key]@.len() implies idx[key]@[a].0 <= idx[key]@[b].0 by {
            assert(interval_lt(idx[key]@[a], idx[key]@[b]));
        }
    }
}

impl QueryCachePayload {
    /// Builds the query indexes of a graph: the function index, and for
    /// each node the edges that call it and the references that point at it.
    pub fn from_graph(graph: CallGraph) -> (res: Self)
        requires
            targets_bounded(graph@),
        ensures
            res.graph@ == graph@,
            index_spec(res.function_index.by_file@, graph@.nodes),
            res.function_index.files_complete(),
            res.backward_calls@.len() == graph@.nodes.len(),
            forall|c: int| 0 <= c < graph@.nodes.len()
                ==> (#[trigger] res.backward_calls@[c])@ == edges_into(graph@.edges, c, graph@.edges.len()),
            res.backward_references@.len() == graph@.nodes.len(),
            forall|c: int| 0 <= c < graph@.nodes.len()
                ==> (#[trigger] res.backward_references@[c])@ == references_to(graph@.references, c, graph@.references.len()),
    {
        let function_index = FunctionIndex::build(&graph);
        let ghost g = graph@;
        let n = graph.nodes.len();
        let mut backward_calls: Vec<Vec<usize>> = Vec::new();
        let mut backward_references: Vec<Vec<usize>> = Vec::new();
        let mut c: usize = 0;
        while c < n
            invariant
                c <= n,
                n == g.nodes.len(),
                backward_calls@.len() == c,
                backward_references@.len() == c,
                forall|d: int| 0 <= d < c ==> (#[trigger] backward_calls@[d])@ == Seq::<usize>::empty(),
                forall|d: int| 0 <= d < c ==> (#[trigger] backward_references@[d])@ == Seq::<usize>::empty(),
            decreases n - c,
        {
            backward_calls.push(Vec::new());
            backward_references.push(Vec::new());
            c = c + 1;
        }
        let m = graph.edges.len();
        let mut i: usize = 0;
        while i < m
            invariant
                i <= m,
                m == g.edges.len(),
                n == g.nodes.len(),
                g == graph@,
                targets_bounded(g),
                backward_calls@.len() == n,
                forall|d: int| 0 <= d < n ==> (#[trigger] backward_calls@[d])@ == edges_into(g.edges, d, i as nat),
            decreases m - i,
        {
            let callee = graph.edges[i].callee;
            assert(g.edges[i as int].callee == callee);
            let ghost before = backward_calls@;
            backward_calls[callee].push(i);
            assert forall|d: int| 0 <= d < n implies (#[trigger] backward_calls@[d])@ == edges_into(g.edges, d, (i + 1) as nat) by {
                if d != callee {
                    assert(backward_calls@[d] == before[d]);
                }
            }
            i = i + 1;
        }
        let r = graph.references.len();
        let mut i: usize = 0;
        while i < r
            invariant
                i <= r,
                r == g.references.len(),
                n == g.nodes.len(),
                g == graph@,
                targets_bounded(g),
                backward_references@.len() == n,
                forall|d: int| 0 <= d < n ==> (#[trigger] backward_references@[d])@ == references_to(g.references, d, i as nat),
            decreases r - i,
        {
            let target = graph.references[i].target;
            assert(g.references[i as int].target == target);
            let ghost before = backward_references@;
            backward_references[target].push(i);
            assert forall|d: int| 0 <= d < n implies (#[trigger] backward_references@[d])@ == references_to(g.references, d, (i + 1) as nat) by {
                if d != target {
                    assert(backward_references@[d] == before[d]);
                }
            }
            i = i + 1;
        }
        QueryCachePayload { graph, function_index, backward_calls, backward_references }
    }
}

} // verus!
