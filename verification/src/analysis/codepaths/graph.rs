use vstd::prelude::*;
use vstd::hash_map::StringHashMap;
use crate::text::{lemma_seq_lt_asymmetric, lemma_seq_lt_irreflexive, lemma_seq_lt_total, lemma_seq_lt_transitive, seq_lt, str_lt, chars_of, concat, last_index, last_index_of, matches_at, occurs_at, seq_starts_with, str_eq, str_starts_with, string_from_range};
use super::parsing::{module_name_from_path, module_name_of};
use super::enumeration::{find_roots, enumerate_paths, graph_view, roots_below, roots_walk, chain_defs, lemma_roots_below};
use super::types::{CodePathsResult, CallGraph, CallGraphV, FileArtifact, FileArtifactV, FunctionArtifact, FunctionArtifactV, GraphEdge, GraphEdgeV, GraphNode, GraphNodeV, clone_opt_string, opt_string_view, GraphReference, GraphReferenceKind, GraphReferenceV, ReferenceSite, ReferenceSiteV, clone_strings, strings_view, lemma_strings_view_push, CallSite, CallSiteV, FnCalls, FnCallsV, FnDef, FnDefV, Language, all_of_language};

verus! {

/// Which way a query walks the call graph.
#[derive(Debug, Clone, Copy, PartialEq, Eq, Structural)]
pub enum QueryDirection {
    Forward,
    Backward,
    Both,
}

// ---------------------------------------------------------------------
// Symbol resolution
// ---------------------------------------------------------------------

/// The last position below `k` at which `p` occurs in `s`.
pub open spec fn last_occurrence_below(s: Seq<char>, p: Seq<char>, k: nat) -> Option<int>
    decreases k,
{
    if k == 0 {
        None
    } else if occurs_at(s, p, k - 1) {
        Some(k - 1)
    } else {
        last_occurrence_below(s, p, (k - 1) as nat)
    }
}

/// The last position at which `p` occurs in `s` (`str::rfind`).
pub open spec fn last_occurrence(s: Seq<char>, p: Seq<char>) -> Option<int> {
    last_occurrence_below(s, p, s.len() + 1)
}

/// How a raw call target splits into the simple name that is looked up and
/// the qualifier that narrows the candidates: after the last `.` (no
/// qualifier), else after the last `::` (qualified by what precedes it),
/// else the whole text.
pub open spec fn split_symbol(raw: Seq<char>) -> (Seq<char>, Option<Seq<char>>) {
    match last_index_of(raw, '.') {
        Some(p) => (raw.skip(p + 1), None),
        None => match last_occurrence(raw, "::"@) {
            Some(p) => (raw.skip(p + 2), Some(raw.take(p))),
            None => (raw, None),
        },
    }
}

/// The positions below `k` of the definitions named `name`, ascending.
pub open spec fn positions_named_below(defs: Seq<FnDefV>, name: Seq<char>, k: nat) -> Seq<usize>
    decreases k,
{
    if k == 0 {
        Seq::empty()
    } else {
        let prev = positions_named_below(defs, name, (k - 1) as nat);
        if defs[k - 1].name == name { prev.push((k - 1) as usize) } else { prev }
    }
}

/// The positions of the definitions named `name`, ascending.
pub open spec fn positions_named(defs: Seq<FnDefV>, name: Seq<char>) -> Seq<usize> {
    positions_named_below(defs, name, defs.len())
}

/// A definition belongs to the qualifier `q` when its qualified name starts
/// with `q::` or its file's module is `q`.
pub open spec fn qualifier_matches(def: FnDefV, q: Seq<char>) -> bool {
    seq_starts_with(def.qualified_name, q + "::"@) || module_name_of(def.file) == q
}

/// The candidates among the first `k` that belong to the qualifier `q`, in order.
pub open spec fn qualified_below(cands: Seq<usize>, defs: Seq<FnDefV>, q: Seq<char>, k: nat) -> Seq<usize>
    decreases k,
{
    if k == 0 || k > cands.len() {
        Seq::empty()
    } else {
        let prev = qualified_below(cands, defs, q, (k - 1) as nat);
        if qualifier_matches(defs[cands[k - 1] as int], q) { prev.push(cands[k - 1]) } else { prev }
    }
}

/// The definitions a raw call or reference target resolves to: those whose
/// simple name matches; narrowed to those the qualifier selects where it
/// selects any.
pub open spec fn resolve_spec(raw: Seq<char>, defs: Seq<FnDefV>) -> Seq<usize> {
    let (simple, qualifier) = split_symbol(raw);
    let cands = positions_named(defs, simple);
    match qualifier {
        Some(q) => {
            let matched = qualified_below(cands, defs, q, cands.len());
            if matched.len() > 0 { matched } else { cands }
        },
        None => cands,
    }
}

pub open spec fn defs_view(defs: Seq<FnDef>) -> Seq<FnDefV> {
    defs.map_values(|d: FnDef| d@)
}

/// An index from simple names to the ascending positions of their definitions.
pub open spec fn is_name_index(idx: Map<Seq<char>, Vec<usize>>, defs: Seq<FnDefV>) -> bool {
    forall|name: Seq<char>| #![trigger positions_named(defs, name)]
        (idx.contains_key(name) ==> idx[name]@ == positions_named(defs, name))
        && (!idx.contains_key(name) ==> positions_named(defs, name).len() == 0)
}

pub proof fn lemma_positions_bounded(defs: Seq<FnDefV>, name: Seq<char>, k: nat)
    requires
        k <= defs.len(),
        defs.len() <= usize::MAX,
    ensures
        forall|j: int| 0 <= j < positions_named_below(defs, name, k).len()
            ==> #[trigger] positions_named_below(defs, name, k)[j] < k,
        forall|j: int| 0 <= j < positions_named_below(defs, name, k).len()
            ==> defs[positions_named_below(defs, name, k)[j] as int].name == name,
        forall|a: int, b: int| 0 <= a < b < positions_named_below(defs, name, k).len()
            ==> positions_named_below(defs, name, k)[a] < positions_named_below(defs, name, k)[b],
    decreases k,
{
    if k > 0 {
        lemma_positions_bounded(defs, name, (k - 1) as nat);
        let prev = positions_named_below(defs, name, (k - 1) as nat);
        if defs[k - 1].name == name {
            assert(positions_named_below(defs, name, k) == prev.push((k - 1) as usize));
            assert forall|j: int| 0 <= j < prev.len() + 1 implies
                defs[#[trigger] prev.push((k - 1) as usize)[j] as int].name == name by {
                if j < prev.len() {
                    assert(prev.push((k - 1) as usize)[j] == prev[j]);
                }
            }
        }
    }
}

/// Builds the simple-name index of a list of definitions.
pub fn build_name_index(fn_defs: &Vec<FnDef>) -> (idx: StringHashMap<Vec<usize>>)
    ensures
        is_name_index(idx@, defs_view(fn_defs@)),
{
    let ghost defs = defs_view(fn_defs@);
    let mut idx: StringHashMap<Vec<usize>> = StringHashMap::new();
    let mut i: usize = 0;
    while i < fn_defs.len()
        invariant
            i <= fn_defs@.len(),
            defs == defs_view(fn_defs@),
            forall|name: Seq<char>| #![trigger positions_named_below(defs, name, i as nat)]
                (idx@.contains_key(name) ==> idx@[name]@ == positions_named_below(defs, name, i as nat))
                && (!idx@.contains_key(name) ==> positions_named_below(defs, name, i as nat).len() == 0),
        decreases fn_defs@.len() - i,
    {
        let name = &fn_defs[i].name;
        let ghost key = name@;
        assert(defs[i as int].name == key);
        let mut positions: Vec<usize> = match idx.get(name.as_str()) {
            Some(existing) => existing.clone(),
            None => Vec::new(),
        };
        proof {
            if idx@.contains_key(key) {
                assert(positions@ =~= idx@[key]@);
            }
            assert(positions@ == positions_named_below(defs, key, i as nat));
        }
        positions.push(i);
        let ghost old_idx = idx@;
        idx.insert(name.clone(), positions);
        i = i + 1;
        assert forall|n: Seq<char>| #![trigger positions_named_below(defs, n, i as nat)]
            (idx@.contains_key(n) ==> idx@[n]@ == positions_named_below(defs, n, i as nat))
            && (!idx@.contains_key(n) ==> positions_named_below(defs, n, i as nat).len() == 0) by {
            assert(positions_named_below(defs, n, i as nat) == (if defs[i - 1].name == n {
                positions_named_below(defs, n, (i - 1) as nat).push((i - 1) as usize)
            } else {
                positions_named_below(defs, n, (i - 1) as nat)
            }));
            if n != key {
                assert(positions_named_below(defs, n, (i - 1) as nat) == positions_named_below(defs, n, (i - 1) as nat));
            }
        }
    }
    proof {
        assert forall|name: Seq<char>| #![trigger positions_named(defs, name)]
            (idx@.contains_key(name) ==> idx@[name]@ == positions_named(defs, name))
            && (!idx@.contains_key(name) ==> positions_named(defs, name).len() == 0) by {
            assert(positions_named_below(defs, name, i as nat) == positions_named_below(defs, name, i as nat));
        }
    }
    idx
}

/// The last position at which `p` occurs in `s`.
fn last_occurrence_exec(s: &[char], p: &[char]) -> (res: Option<usize>)
    ensures
        match res {
            Some(i) => last_occurrence(s@, p@) == Some(i as int) && occurs_at(s@, p@, i as int),
            None => last_occurrence(s@, p@) is None,
        },
{
    let n = s.len();
    if matches_at(s, p, n) {
        return Some(n);
    }
    let mut k: usize = n;
    while k > 0
        invariant
            k <= s@.len() + 1,
            last_occurrence(s@, p@) == last_occurrence_below(s@, p@, k as nat),
        decreases k,
    {
        if matches_at(s, p, k - 1) {
            return Some(k - 1);
        }
        k = k - 1;
    }
    None
}

/// The simple name and optional qualifier of a raw call target.
pub fn split_symbol_exec(raw: &str) -> (res: (String, Option<String>))
    ensures
        res.0@ == split_symbol(raw@).0,
        match res.1 {
            Some(q) => split_symbol(raw@).1 == Some(q@),
            None => split_symbol(raw@).1 is None,
        },
{
    let chars = chars_of(raw);
    let n = chars.len();
    match last_index(chars.as_slice(), '.') {
        Some(p) => {
            let simple = string_from_range(chars.as_slice(), p + 1, n);
            assert(simple@ =~= raw@.skip(p + 1));
            (simple, None)
        },
        None => {
            let sep = chars_of("::");
            proof {
                reveal_strlit("::");
            }
            match last_occurrence_exec(chars.as_slice(), sep.as_slice()) {
                Some(p) => {
                    let simple = string_from_range(chars.as_slice(), p + 2, n);
                    let qualifier = string_from_range(chars.as_slice(), 0, p);
                    assert(simple@ =~= raw@.skip(p + 2));
                    assert(qualifier@ =~= raw@.take(p as int));
                    (simple, Some(qualifier))
                },
                None => {
                    let simple = string_from_range(chars.as_slice(), 0, n);
                    assert(simple@ =~= raw@);
                    (simple, None)
                },
            }
        },
    }
}

/// Whether definition `def` belongs to qualifier `q`.
fn qualifier_matches_exec(def: &FnDef, q: &str) -> (res: bool)
    ensures
        res == qualifier_matches(def@, q@),
{
    let prefix = concat(q, "::");
    if str_starts_with(def.qualified_name.as_str(), prefix.as_str()) {
        return true;
    }
    let module = module_name_from_path(def.file.as_str());
    str_eq(module.as_str(), q)
}

/// The definitions that a raw call or reference target resolves to.
pub fn resolve_symbol(raw: &str, fn_defs: &Vec<FnDef>, name_idx: &StringHashMap<Vec<usize>>) -> (res: Vec<usize>)
    requires
        is_name_index(name_idx@, defs_view(fn_defs@)),
    ensures
        res@ == resolve_spec(raw@, defs_view(fn_defs@)),
        forall|j: int| 0 <= j < res@.len() ==> #[trigger] res@[j] < fn_defs@.len(),
{
    let ghost defs = defs_view(fn_defs@);
    let n = fn_defs.len();
    assert(defs.len() == n);
    let (simple, qualifier) = split_symbol_exec(raw);
    let candidates: Vec<usize> = match name_idx.get(simple.as_str()) {
        Some(c) => c.clone(),
        None => Vec::new(),
    };
    proof {
        assert(positions_named(defs, simple@) == positions_named(defs, simple@));
        if name_idx@.contains_key(simple@) {
            assert(candidates@ =~= name_idx@[simple@]@);
        } else {
            assert(candidates@ =~= positions_named(defs, simple@));
        }
        lemma_positions_bounded(defs, simple@, defs.len());
    }
    match qualifier {
        Some(q) => {
            let mut matched: Vec<usize> = Vec::new();
            let mut k: usize = 0;
            while k < candidates.len()
                invariant
                    k <= candidates@.len(),
                    candidates@ == positions_named(defs, simple@),
                    defs == defs_view(fn_defs@),
                    defs.len() == fn_defs@.len(),
                    forall|j: int| 0 <= j < candidates@.len() ==> #[trigger] candidates@[j] < fn_defs@.len(),
                    matched@ == qualified_below(candidates@, defs, q@, k as nat),
                    forall|j: int| 0 <= j < matched@.len() ==> #[trigger] matched@[j] < fn_defs@.len(),
                decreases candidates@.len() - k,
            {
                let c = candidates[k];
                if qualifier_matches_exec(&fn_defs[c], q.as_str()) {
                    matched.push(c);
                }
                k = k + 1;
            }
            if matched.len() > 0 {
                matched
            } else {
                candidates
            }
        },
        None => candidates,
    }
}


// ---------------------------------------------------------------------
// Call edges
// ---------------------------------------------------------------------

/// An edge from the function being analysed to `callee`, with the
/// conditions under which the call happens (empty when unconditional).
pub struct InternalEdge {
    pub callee: usize,
    pub conditions: Vec<String>,
}

#[verifier::ext_equal]
pub struct InternalEdgeV {
    pub callee: usize,
    pub conditions: Seq<Seq<char>>,
}

impl View for InternalEdge {
    type V = InternalEdgeV;

    open spec fn view(&self) -> InternalEdgeV {
        InternalEdgeV { callee: self.callee, conditions: strings_view(self.conditions@) }
    }
}

pub open spec fn edges_view(edges: Seq<InternalEdge>) -> Seq<InternalEdgeV> {
    edges.map_values(|e: InternalEdge| e@)
}

/// `acc` followed by those conditions of `more` that it does not hold yet,
/// each once, in order.
pub open spec fn append_missing(acc: Seq<Seq<char>>, more: Seq<Seq<char>>) -> Seq<Seq<char>>
    decreases more.len(),
{
    if more.len() == 0 {
        acc
    } else {
        let a = append_missing(acc, more.drop_last());
        if a.contains(more.last()) { a } else { a.push(more.last()) }
    }
}

/// The conditions of an edge that one more call site reaches: an
/// unconditional site (or an edge that is already unconditional) makes the
/// edge unconditional; otherwise the new conditions are added.
pub open spec fn merge_conditions(existing: Seq<Seq<char>>, incoming: Seq<Seq<char>>) -> Seq<Seq<char>> {
    if existing.len() == 0 || incoming.len() == 0 { Seq::empty() } else { append_missing(existing, incoming) }
}

/// What one call site with `conditions` does to the edge it resolves to.
pub open spec fn step_edge(prev: Option<Seq<Seq<char>>>, conditions: Seq<Seq<char>>) -> Option<Seq<Seq<char>>> {
    match prev {
        None => Some(conditions),
        Some(c) => Some(merge_conditions(c, conditions)),
    }
}

/// The conditions of the edge to `callee` that the first `k` call sites
/// give; `None` when none of them resolves to `callee`.
pub open spec fn edge_conditions(sites: Seq<CallSiteV>, defs: Seq<FnDefV>, callee: usize, k: nat) -> Option<Seq<Seq<char>>>
    decreases k,
{
    if k == 0 || k > sites.len() {
        None
    } else {
        let prev = edge_conditions(sites, defs, callee, (k - 1) as nat);
        let site = sites[k - 1];
        if resolve_spec(site.callee_name, defs).contains(callee) {
            step_edge(prev, site.conditions)
        } else {
            prev
        }
    }
}

/// What `append_missing` holds: the conditions of both lists, and no other.
proof fn lemma_append_missing_members(acc: Seq<Seq<char>>, more: Seq<Seq<char>>)
    ensures
        forall|x: Seq<char>| #[trigger] append_missing(acc, more).contains(x) <==> acc.contains(x) || more.contains(x),
    decreases more.len(),
{
    if more.len() > 0 {
        lemma_append_missing_members(acc, more.drop_last());
        let a = append_missing(acc, more.drop_last());
        assert forall|x: Seq<char>| #[trigger] append_missing(acc, more).contains(x) <==> acc.contains(x)
            || more.contains(x) by {
            assert(more.drop_last().contains(x) ==> more.contains(x)) by {
                if more.drop_last().contains(x) {
                    let i = choose|i: int| 0 <= i < more.drop_last().len() && more.drop_last()[i] == x;
                    assert(more[i] == x);
                }
            }
            assert(more.contains(x) ==> more.drop_last().contains(x) || x == more.last()) by {
                if more.contains(x) {
                    let i = choose|i: int| 0 <= i < more.len() && more[i] == x;
                    if i < more.len() - 1 {
                        assert(more.drop_last()[i] == x);
                    }
                }
            }
            assert(more.contains(more.last()));
            if !a.contains(more.last()) {
                assert(a.push(more.last()).contains(x) <==> a.contains(x) || x == more.last()) by {
                    if a.push(more.last()).contains(x) {
                        let i = choose|i: int| 0 <= i < a.push(more.last()).len() && a.push(more.last())[i] == x;
                        if i < a.len() {
                            assert(a[i] == x);
                        }
                    }
                    if a.contains(x) {
                        let i = choose|i: int| 0 <= i < a.len() && a[i] == x;
                        assert(a.push(more.last())[i] == x);
                    }
                    assert(a.push(more.last())[a.len() as int] == more.last());
                }
            }
        }
    }
}

/// Law: a call site that reaches `callee` under no condition makes the edge
/// to it unconditional, whatever the other sites and whatever their order:
/// the function then calls `callee` in every case.
pub proof fn law_unconditional_site_makes_edge_unconditional(sites: Seq<CallSiteV>, defs: Seq<FnDefV>,
    callee: usize, k: nat, s: int)
    requires
        0 <= s < k <= sites.len(),
        resolve_spec(sites[s].callee_name, defs).contains(callee),
        sites[s].conditions.len() == 0,
    ensures
        edge_conditions(sites, defs, callee, k) == Some(Seq::<Seq<char>>::empty()),
    decreases k,
{
    if s < k - 1 {
        law_unconditional_site_makes_edge_unconditional(sites, defs, callee, (k - 1) as nat, s);
    }
}

/// Law: when every call site that reaches `callee` has conditions, the edge
/// to it has conditions too, and they are exactly the conditions of those
/// sites, each once; and there is an edge exactly when some site reaches
/// `callee`.
pub proof fn law_conditional_edge_gathers_conditions(sites: Seq<CallSiteV>, defs: Seq<FnDefV>, callee: usize,
    k: nat)
    requires
        k <= sites.len(),
        forall|s: int| 0 <= s < k && resolve_spec((#[trigger] sites[s]).callee_name, defs).contains(callee)
            ==> sites[s].conditions.len() > 0,
    ensures
        edge_conditions(sites, defs, callee, k) is Some
            <==> exists|s: int| 0 <= s < k && resolve_spec((#[trigger] sites[s]).callee_name, defs).contains(callee),
        edge_conditions(sites, defs, callee, k) matches Some(c) ==> {
            &&& c.len() > 0
            &&& forall|s: int, x: Seq<char>| 0 <= s < k
                && resolve_spec(sites[s].callee_name, defs).contains(callee)
                && #[trigger] sites[s].conditions.contains(x) ==> c.contains(x)
            &&& forall|x: Seq<char>| #[trigger] c.contains(x) ==> exists|s: int| 0 <= s < k
                && resolve_spec((#[trigger] sites[s]).callee_name, defs).contains(callee)
                && sites[s].conditions.contains(x)
        },
    decreases k,
{
    if k > 0 {
        law_conditional_edge_gathers_conditions(sites, defs, callee, (k - 1) as nat);
        let prev = edge_conditions(sites, defs, callee, (k - 1) as nat);
        let site = sites[k - 1];
        if resolve_spec(site.callee_name, defs).contains(callee) {
            assert(site.conditions.len() > 0);
            assert(site.conditions.contains(site.conditions[0]));
            match prev {
                None => {
                    assert forall|s: int, x: Seq<char>| 0 <= s < k
                        && resolve_spec(sites[s].callee_name, defs).contains(callee)
                        && #[trigger] sites[s].conditions.contains(x) implies site.conditions.contains(x) by {
                        if s < k - 1 {
                            assert(prev is Some);
                        }
                    }
                },
                Some(c0) => {
                    lemma_append_missing_members(c0, site.conditions);
                    let c = append_missing(c0, site.conditions);
                    assert(c0.contains(c0[0]));
                    assert(c.contains(c0[0]));
                    assert forall|x: Seq<char>| #[trigger] c.contains(x) implies exists|s: int| 0 <= s < k
                        && resolve_spec((#[trigger] sites[s]).callee_name, defs).contains(callee)
                        && sites[s].conditions.contains(x) by {
                        if !c0.contains(x) {
                            assert(sites[k - 1] == site);
                        }
                    }
                },
            }
        } else {
            assert forall|s: int| 0 <= s < k && resolve_spec((#[trigger] sites[s]).callee_name, defs).contains(callee)
                implies s < k - 1 by {}
        }
    }
}

/// Law: in a built graph, an edge whose caller has a call site that reaches
/// the callee under no condition has no conditions.
pub proof fn law_graph_edge_unconditional(g: CallGraphV, calls: Seq<FnCallsV>, defs: Seq<FnDefV>, j: int, s: int)
    requires
        graph_spec(g, calls, defs),
        0 <= j < g.edges.len(),
        0 <= s < calls[g.edges[j].caller as int].call_sites.len(),
        resolve_spec(calls[g.edges[j].caller as int].call_sites[s].callee_name, defs).contains(g.edges[j].callee),
        calls[g.edges[j].caller as int].call_sites[s].conditions.len() == 0,
    ensures
        g.edges[j].conditions.len() == 0,
{
    let e = g.edges[j];
    let sites = calls[e.caller as int].call_sites;
    assert(caller_edges_spec(sites, defs)(e.callee) == Some(e.conditions));
    law_unconditional_site_makes_edge_unconditional(sites, defs, e.callee, sites.len(), s);
}

/// `edges` lists, by ascending callee, one edge for each callee on which
/// `f` is defined, with the conditions `f` gives.
pub open spec fn represents(edges: Seq<InternalEdgeV>, f: spec_fn(usize) -> Option<Seq<Seq<char>>>) -> bool {
    &&& forall|a: int, b: int| 0 <= a < b < edges.len() ==> edges[a].callee < edges[b].callee
    &&& forall|j: int| 0 <= j < edges.len() ==> f(#[trigger] edges[j].callee) == Some(edges[j].conditions)
    &&& forall|d: usize| #[trigger] f(d) is Some ==> exists|j: int| 0 <= j < edges.len() && edges[j].callee == d
}

/// The edges of a function whose call sites are `sites`.
pub open spec fn caller_edges_spec(sites: Seq<CallSiteV>, defs: Seq<FnDefV>) -> spec_fn(usize) -> Option<Seq<Seq<char>>> {
    |d: usize| edge_conditions(sites, defs, d, sites.len())
}

pub open spec fn no_duplicates(s: Seq<usize>) -> bool {
    forall|a: int, b: int| 0 <= a < b < s.len() ==> s[a] != s[b]
}

pub proof fn lemma_qualified_increasing(cands: Seq<usize>, defs: Seq<FnDefV>, q: Seq<char>, k: nat)
    requires
        forall|a: int, b: int| 0 <= a < b < cands.len() ==> cands[a] < cands[b],
    ensures
        forall|a: int, b: int| 0 <= a < b < qualified_below(cands, defs, q, k).len()
            ==> qualified_below(cands, defs, q, k)[a] < qualified_below(cands, defs, q, k)[b],
        forall|a: int| 0 <= a < qualified_below(cands, defs, q, k).len() && k <= cands.len()
            ==> exists|j: int| 0 <= j < k && #[trigger] qualified_below(cands, defs, q, k)[a] == cands[j],
    decreases k,
{
    if k > 0 && k <= cands.len() {
        lemma_qualified_increasing(cands, defs, q, (k - 1) as nat);
        let prev = qualified_below(cands, defs, q, (k - 1) as nat);
        if qualifier_matches(defs[cands[k - 1] as int], q) {
            let cur = prev.push(cands[k - 1]);
            assert forall|a: int| 0 <= a < cur.len() implies
                exists|j: int| 0 <= j < k && #[trigger] cur[a] == cands[j] by {
                if a < prev.len() {
                    assert(cur[a] == prev[a]);
                } else {
                    assert(cur[a] == cands[k - 1]);
                }
            }
            assert forall|a: int, b: int| 0 <= a < b < cur.len() implies cur[a] < cur[b] by {
                if b == prev.len() {
                    let j = choose|j: int| 0 <= j < k - 1 && prev[a] == cands[j];
                    assert(cands[j] < cands[k - 1]);
                }
            }
        }
    }
}

/// Resolution never yields the same definition twice.
pub proof fn lemma_resolve_no_duplicates(raw: Seq<char>, defs: Seq<FnDefV>)
    requires
        defs.len() <= usize::MAX,
    ensures
        no_duplicates(resolve_spec(raw, defs)),
{
    let (simple, qualifier) = split_symbol(raw);
    let cands = positions_named(defs, simple);
    lemma_positions_bounded(defs, simple, defs.len());
    match qualifier {
        Some(q) => {
            lemma_qualified_increasing(cands, defs, q, cands.len());
        },
        None => {},
    }
}

/// Merges the conditions of one more call site into an edge's conditions.
pub fn merge_into(existing: &mut Vec<String>, incoming: &Vec<String>)
    ensures
        strings_view(final(existing)@) == merge_conditions(strings_view(old(existing)@), strings_view(incoming@)),
{
    if existing.len() == 0 || incoming.len() == 0 {
        existing.clear();
        assert(strings_view(existing@) =~= Seq::<Seq<char>>::empty());
        return;
    }
    let ghost start = strings_view(existing@);
    let ghost inc = strings_view(incoming@);
    let mut k: usize = 0;
    assert(inc.take(0) =~= Seq::<Seq<char>>::empty());
    while k < incoming.len()
        invariant
            k <= incoming@.len(),
            inc == strings_view(incoming@),
            strings_view(existing@) == append_missing(start, inc.take(k as int)),
        decreases incoming@.len() - k,
    {
        let c = &incoming[k];
        let mut present = false;
        let mut j: usize = 0;
        while j < existing.len()
            invariant
                j <= existing@.len(),
                present == exists|i: int| 0 <= i < j && existing@[i]@ == c@,
            decreases existing@.len() - j,
        {
            if existing[j] == *c {
                present = true;
            }
            j = j + 1;
        }
        let ghost before = strings_view(existing@);
        assert(inc.take(k + 1).drop_last() =~= inc.take(k as int));
        assert(inc.take(k + 1).last() == c@);
        if present {
            proof {
                let i = choose|i: int| 0 <= i < existing@.len() && existing@[i]@ == c@;
                assert(before[i] == c@);
            }
        } else {
            assert forall|i: int| 0 <= i < before.len() implies before[i] != c@ by {
                assert(before[i] == existing@[i]@);
            }
            let ghost old_vec = existing@;
            existing.push(c.clone());
            proof {
                lemma_strings_view_push(old_vec, *c);
            }
        }
        k = k + 1;
    }
    assert(inc.take(incoming@.len() as int) =~= inc);
}


/// The edge function after the first `k` sites and the first `t` targets
/// that site `k` resolves to.
pub open spec fn partial_edges(sites: Seq<CallSiteV>, defs: Seq<FnDefV>, k: nat, resolved: Seq<usize>, t: int)
    -> spec_fn(usize) -> Option<Seq<Seq<char>>> {
    |d: usize| if resolved.take(t).contains(d) {
        step_edge(edge_conditions(sites, defs, d, k), sites[k as int].conditions)
    } else {
        edge_conditions(sites, defs, d, k)
    }
}

/// Adds or updates the edge to `callee` for one call site: `edges` goes
/// from representing `f` to representing `f` with the edge to `callee`
/// stepped by `conditions`.
fn record_edge(
    edges: &mut Vec<InternalEdge>,
    callee: usize,
    conditions: &Vec<String>,
    Ghost(f): Ghost<spec_fn(usize) -> Option<Seq<Seq<char>>>>,
)
    requires
        represents(edges_view(old(edges)@), f),
    ensures
        represents(edges_view(final(edges)@), |d: usize| if d == callee {
            step_edge(f(d), strings_view(conditions@))
        } else {
            f(d)
        }),
{
    let ghost g = |d: usize| if d == callee { step_edge(f(d), strings_view(conditions@)) } else { f(d) };
    let ghost old_v = edges_view(edges@);
    let mut pos: usize = 0;
    while pos < edges.len() && edges[pos].callee < callee
        invariant
            pos <= edges@.len(),
            old_v == edges_view(edges@),
            forall|i: int| 0 <= i < pos ==> edges@[i].callee < callee,
        decreases edges@.len() - pos,
    {
        pos = pos + 1;
    }
    assert(forall|i: int| 0 <= i < old_v.len() ==> old_v[i].callee == edges@[i].callee);
    if pos < edges.len() && edges[pos].callee == callee {
        let mut merged = clone_strings(&edges[pos].conditions);
        merge_into(&mut merged, conditions);
        assert(f(callee) == Some(old_v[pos as int].conditions));
        edges.set(pos, InternalEdge { callee, conditions: merged });
        let ghost new_v = edges_view(edges@);
        assert(new_v =~= old_v.update(pos as int, InternalEdgeV { callee, conditions: g(callee).unwrap() }));
        assert forall|d: usize| #[trigger] g(d) is Some implies
            exists|j: int| 0 <= j < new_v.len() && new_v[j].callee == d by {
            if d != callee {
                let j = choose|j: int| 0 <= j < old_v.len() && old_v[j].callee == d;
                assert(new_v[j].callee == d);
            } else {
                assert(new_v[pos as int].callee == d);
            }
        }
    } else {
        proof {
            assert forall|i: int| 0 <= i < old_v.len() implies old_v[i].callee != callee by {
                if i > pos {
                    assert(old_v[pos as int].callee < old_v[i].callee);
                }
            }
            if f(callee) is Some {
                let j = choose|j: int| 0 <= j < old_v.len() && old_v[j].callee == callee;
                assert(false);
            }
        }
        let fresh = InternalEdge { callee, conditions: clone_strings(conditions) };
        edges.insert(pos, fresh);
        let ghost new_v = edges_view(edges@);
        assert(new_v =~= old_v.insert(pos as int, InternalEdgeV { callee, conditions: strings_view(conditions@) }));
        assert forall|a: int, b: int| 0 <= a < b < new_v.len() implies new_v[a].callee < new_v[b].callee by {
            if b > pos {
                assert(new_v[b] == old_v[b - 1]);
                if b - 1 > pos {
                    assert(old_v[pos as int].callee < old_v[b - 1].callee);
                }
            }
            if a > pos {
                assert(new_v[a] == old_v[a - 1]);
            }
        }
        assert forall|j: int| 0 <= j < new_v.len() implies g(#[trigger] new_v[j].callee) == Some(new_v[j].conditions) by {
            if j < pos {
                assert(new_v[j] == old_v[j]);
            } else if j > pos {
                assert(new_v[j] == old_v[j - 1]);
            }
        }
        assert forall|d: usize| #[trigger] g(d) is Some implies
            exists|j: int| 0 <= j < new_v.len() && new_v[j].callee == d by {
            if d != callee {
                let j = choose|j: int| 0 <= j < old_v.len() && old_v[j].callee == d;
                if j < pos {
                    assert(new_v[j].callee == d);
                } else {
                    assert(new_v[j + 1].callee == d);
                }
            } else {
                assert(new_v[pos as int].callee == d);
            }
        }
    }
}

pub proof fn lemma_represents_ext(
    e: Seq<InternalEdgeV>,
    f: spec_fn(usize) -> Option<Seq<Seq<char>>>,
    g: spec_fn(usize) -> Option<Seq<Seq<char>>>,
)
    requires
        represents(e, f),
        forall|d: usize| #[trigger] f(d) == g(d),
    ensures
        represents(e, g),
{
    assert forall|j: int| 0 <= j < e.len() implies g(#[trigger] e[j].callee) == Some(e[j].conditions) by {
        assert(f(e[j].callee) == g(e[j].callee));
    }
    assert forall|d: usize| #[trigger] g(d) is Some implies exists|j: int| 0 <= j < e.len() && e[j].callee == d by {
        assert(f(d) == g(d));
    }
}

pub open spec fn sites_view(sites: Seq<CallSite>) -> Seq<CallSiteV> {
    sites.map_values(|c: CallSite| c@)
}

/// The call edges of one function: one per definition that its call sites
/// resolve to, by ascending callee.
pub fn caller_edges(sites: &Vec<CallSite>, fn_defs: &Vec<FnDef>, name_idx: &StringHashMap<Vec<usize>>)
    -> (res: Vec<InternalEdge>)
    requires
        is_name_index(name_idx@, defs_view(fn_defs@)),
    ensures
        represents(edges_view(res@), caller_edges_spec(sites_view(sites@), defs_view(fn_defs@))),
        forall|j: int| 0 <= j < res@.len() ==> #[trigger] res@[j].callee < fn_defs@.len(),
{
    let ghost defs = defs_view(fn_defs@);
    let ghost sv = sites_view(sites@);
    let n_defs = fn_defs.len();
    let mut edges: Vec<InternalEdge> = Vec::new();
    let mut k: usize = 0;
    proof {
        lemma_represents_ext(edges_view(edges@), |d: usize| None, |d: usize| edge_conditions(sv, defs, d, 0));
    }
    while k < sites.len()
        invariant
            k <= sites@.len(),
            sv == sites_view(sites@),
            defs == defs_view(fn_defs@),
            n_defs == fn_defs@.len(),
            is_name_index(name_idx@, defs),
            represents(edges_view(edges@), |d: usize| edge_conditions(sv, defs, d, k as nat)),
            forall|j: int| 0 <= j < edges@.len() ==> #[trigger] edges@[j].callee < n_defs,
        decreases sites@.len() - k,
    {
        let site = &sites[k];
        let resolved = resolve_symbol(site.callee_name.as_str(), fn_defs, name_idx);
        proof {
            lemma_resolve_no_duplicates(site.callee_name@, defs);
            assert(sv[k as int] == site@);
            lemma_represents_ext(
                edges_view(edges@),
                |d: usize| edge_conditions(sv, defs, d, k as nat),
                partial_edges(sv, defs, k as nat, resolved@, 0),
            );
        }
        let mut t: usize = 0;
        while t < resolved.len()
            invariant
                t <= resolved@.len(),
                k < sites@.len(),
                sv == sites_view(sites@),
                sv[k as int] == site@,
                defs == defs_view(fn_defs@),
                n_defs == fn_defs@.len(),
                resolved@ == resolve_spec(site.callee_name@, defs),
                no_duplicates(resolved@),
                forall|j: int| 0 <= j < resolved@.len() ==> #[trigger] resolved@[j] < n_defs,
                represents(edges_view(edges@), partial_edges(sv, defs, k as nat, resolved@, t as int)),
                forall|j: int| 0 <= j < edges@.len() ==> #[trigger] edges@[j].callee < n_defs,
            decreases resolved@.len() - t,
        {
            let callee = resolved[t];
            let ghost f = partial_edges(sv, defs, k as nat, resolved@, t as int);
            record_edge(&mut edges, callee, &site.conditions, Ghost(f));
            proof {
                let g = |d: usize| if d == callee { step_edge(f(d), strings_view(site.conditions@)) } else { f(d) };
                let h = partial_edges(sv, defs, k as nat, resolved@, t + 1);
                assert forall|d: usize| #[trigger] g(d) == h(d) by {
                    assert(resolved@.take(t + 1) =~= resolved@.take(t as int).push(callee));
                    let before = resolved@.take(t as int);
                    let after = resolved@.take(t + 1);
                    if d == callee {
                        if before.contains(d) {
                            let i = choose|i: int| 0 <= i < before.len() && before[i] == d;
                            assert(resolved@[i] == resolved@[t as int]);
                        }
                        assert(after[t as int] == d);
                        assert(after.contains(d));
                        assert(sv[k as int].conditions == strings_view(site.conditions@));
                    } else {
                        if before.contains(d) {
                            let i = choose|i: int| 0 <= i < before.len() && before[i] == d;
                            assert(after[i] == d);
                        }
                        if after.contains(d) {
                            let i = choose|i: int| 0 <= i < after.len() && after[i] == d;
                            assert(i < t);
                            assert(before[i] == d);
                        }
                    }
                }
                lemma_represents_ext(edges_view(edges@), g, h);
                assert forall|j: int| 0 <= j < edges@.len() implies #[trigger] edges@[j].callee < n_defs by {
                    assert(edges_view(edges@)[j].callee == edges@[j].callee);
                    if edges@[j].callee != callee {
                        assert(g(edges@[j].callee) is Some);
                        assert(f(edges@[j].callee) is Some);
                        if resolved@.take(t as int).contains(edges@[j].callee) {
                        } else {
                            assert(edge_conditions(sv, defs, edges@[j].callee, k as nat) is Some);
                        }
                    }
                }
            }
            t = t + 1;
        }
        proof {
            assert(resolved@.take(resolved@.len() as int) =~= resolved@);
            lemma_represents_ext(
                edges_view(edges@),
                partial_edges(sv, defs, k as nat, resolved@, resolved@.len() as int),
                |d: usize| edge_conditions(sv, defs, d, (k + 1) as nat),
            );
        }
        k = k + 1;
    }
    proof {
        lemma_represents_ext(
            edges_view(edges@),
            |d: usize| edge_conditions(sv, defs, d, k as nat),
            caller_edges_spec(sv, defs),
        );
    }
    edges
}


// ---------------------------------------------------------------------
// References
// ---------------------------------------------------------------------

/// The order of reference contexts: no context first, then by text.
pub open spec fn opt_lt(a: Option<Seq<char>>, b: Option<Seq<char>>) -> bool {
    match (a, b) {
        (None, Some(_)) => true,
        (Some(x), Some(y)) => seq_lt(x, y),
        _ => false,
    }
}

/// The order of references: by referencer, then target, then context.
pub open spec fn ref_lt(a: GraphReferenceV, b: GraphReferenceV) -> bool {
    a.referencer < b.referencer || (a.referencer == b.referencer && (a.target < b.target
        || (a.target == b.target && opt_lt(a.context, b.context))))
}

pub open spec fn strictly_sorted_refs(s: Seq<GraphReferenceV>) -> bool {
    forall|a: int, b: int| 0 <= a < b < s.len() ==> ref_lt(s[a], s[b])
}

pub proof fn lemma_ref_lt_order(a: GraphReferenceV, b: GraphReferenceV, c: GraphReferenceV)
    ensures
        !ref_lt(a, a),
        !(ref_lt(a, b) && ref_lt(b, a)),
        ref_lt(a, b) && ref_lt(b, c) ==> ref_lt(a, c),
        (a.referencer == b.referencer && a.target == b.target && a.context == b.context)
            || ref_lt(a, b) || ref_lt(b, a),
{
    match a.context {
        Some(x) => lemma_seq_lt_irreflexive(x),
        None => {},
    }
    match (a.context, b.context) {
        (Some(x), Some(y)) => {
            lemma_seq_lt_asymmetric(x, y);
            if x != y {
                lemma_seq_lt_total(x, y);
            }
        },
        _ => {},
    }
    if ref_lt(a, b) && ref_lt(b, c) {
        match (a.context, b.context, c.context) {
            (Some(x), Some(y), Some(z)) => {
                if a.referencer == b.referencer && b.referencer == c.referencer && a.target == b.target
                    && b.target == c.target {
                    lemma_seq_lt_transitive(x, y, z);
                }
            },
            _ => {},
        }
    }
}

/// Whether the reference sites of the function at `caller` give a
/// reference to `target` with `context`.
pub open spec fn has_reference(sites: Seq<ReferenceSiteV>, defs: Seq<FnDefV>, caller: usize, target: usize,
    context: Option<Seq<char>>) -> bool {
    target != caller && exists|j: int| 0 <= j < sites.len() && sites[j].context == context
        && #[trigger] resolve_spec(sites[j].target_name, defs).contains(target)
}

/// `refs` lists, strictly in reference order, exactly the references that
/// the function at `caller` makes through `sites`.
pub open spec fn caller_refs_spec(refs: Seq<GraphReferenceV>, sites: Seq<ReferenceSiteV>, defs: Seq<FnDefV>,
    caller: usize) -> bool {
    &&& strictly_sorted_refs(refs)
    &&& forall|j: int| 0 <= j < refs.len() ==> (#[trigger] refs[j]).referencer == caller
        && has_reference(sites, defs, caller, refs[j].target, refs[j].context)
        && refs[j].kind == GraphReferenceKind::Argument
    &&& forall|t: usize, ctx: Option<Seq<char>>| #[trigger] has_reference(sites, defs, caller, t, ctx)
        ==> exists|j: int| 0 <= j < refs.len() && refs[j].target == t && refs[j].context == ctx
}

pub open spec fn refs_view(refs: Seq<GraphReference>) -> Seq<GraphReferenceV> {
    refs.map_values(|r: GraphReference| r@)
}

pub open spec fn ref_sites_view(sites: Seq<ReferenceSite>) -> Seq<ReferenceSiteV> {
    sites.map_values(|r: ReferenceSite| r@)
}

/// `a < b` in the order of contexts.
fn opt_lt_exec(a: &Option<String>, b: &Option<String>) -> (res: bool)
    ensures
        res == opt_lt(opt_string_view(*a), opt_string_view(*b)),
{
    match (a, b) {
        (None, Some(_)) => true,
        (Some(x), Some(y)) => str_lt(x.as_str(), y.as_str()),
        _ => false,
    }
}

fn opt_eq_exec(a: &Option<String>, b: &Option<String>) -> (res: bool)
    ensures
        res == (opt_string_view(*a) == opt_string_view(*b)),
{
    match (a, b) {
        (None, None) => true,
        (Some(x), Some(y)) => *x == *y,
        _ => false,
    }
}

/// `a < b` in reference order.
fn ref_lt_exec(a: &GraphReference, b: &GraphReference) -> (res: bool)
    ensures
        res == ref_lt(a@, b@),
{
    a.referencer < b.referencer || (a.referencer == b.referencer && (a.target < b.target
        || (a.target == b.target && opt_lt_exec(&a.context, &b.context))))
}

/// Adds a reference to a strictly sorted list unless it is already there.
fn insert_reference(refs: &mut Vec<GraphReference>, r: GraphReference)
    requires
        strictly_sorted_refs(refs_view(old(refs)@)),
    ensures
        strictly_sorted_refs(refs_view(final(refs)@)),
        forall|x: GraphReferenceV| refs_view(final(refs)@).contains(x)
            <==> (refs_view(old(refs)@).contains(x) || x == r@),
{
    let ghost old_v = refs_view(refs@);
    let mut pos: usize = 0;
    while pos < refs.len() && ref_lt_exec(&refs[pos], &r)
        invariant
            pos <= refs@.len(),
            old_v == refs_view(refs@),
            forall|i: int| 0 <= i < pos ==> ref_lt(old_v[i], r@),
        decreases refs@.len() - pos,
    {
        pos = pos + 1;
    }
    if pos < refs.len() && refs[pos].referencer == r.referencer && refs[pos].target == r.target
        && opt_eq_exec(&refs[pos].context, &r.context) {
        assert(old_v[pos as int] == r@);
        assert forall|x: GraphReferenceV| refs_view(refs@).contains(x)
            <==> (old_v.contains(x) || x == r@) by {
            if x == r@ {
                assert(old_v[pos as int] == x);
            }
        }
        return;
    }
    proof {
        if pos < old_v.len() {
            lemma_ref_lt_order(old_v[pos as int], r@, r@);
            assert(ref_lt(r@, old_v[pos as int]));
        }
    }
    let ghost rv = r@;
    refs.insert(pos, r);
    let ghost new_v = refs_view(refs@);
    assert(new_v =~= old_v.insert(pos as int, rv));
    assert forall|x: GraphReferenceV| new_v.contains(x) <==> (old_v.contains(x) || x == rv) by {
        if new_v.contains(x) {
            let i = choose|i: int| 0 <= i < new_v.len() && new_v[i] == x;
            if i < pos {
                assert(old_v[i] == x);
            } else if i > pos {
                assert(old_v[i - 1] == x);
            }
        }
        if old_v.contains(x) {
            let i = choose|i: int| 0 <= i < old_v.len() && old_v[i] == x;
            if i < pos {
                assert(new_v[i] == x);
            } else {
                assert(new_v[i + 1] == x);
            }
        }
        if x == rv {
            assert(new_v[pos as int] == x);
        }
    }
    assert forall|a: int, b: int| 0 <= a < b < new_v.len() implies ref_lt(new_v[a], new_v[b]) by {
        if a < pos && b == pos {
        } else if a < pos && b > pos {
            assert(new_v[b] == old_v[b - 1]);
            lemma_ref_lt_order(old_v[a], rv, old_v[b - 1]);
            if b - 1 > pos {
                lemma_ref_lt_order(rv, old_v[pos as int], old_v[b - 1]);
            }
        } else if a == pos {
            assert(new_v[b] == old_v[b - 1]);
            if b - 1 > pos {
                lemma_ref_lt_order(rv, old_v[pos as int], old_v[b - 1]);
            }
        } else if a > pos {
            assert(new_v[a] == old_v[a - 1]);
            assert(new_v[b] == old_v[b - 1]);
        }
    }
}


/// `has_reference` restricted to the first `k` sites, and to the first `t`
/// targets of site `k`.
pub open spec fn has_reference_partial(sites: Seq<ReferenceSiteV>, defs: Seq<FnDefV>, caller: usize,
    target: usize, context: Option<Seq<char>>, k: int, t: int) -> bool {
    target != caller && (
        (exists|j: int| 0 <= j < k && sites[j].context == context
            && #[trigger] resolve_spec(sites[j].target_name, defs).contains(target))
        || (0 <= k < sites.len() && sites[k].context == context
            && resolve_spec(sites[k].target_name, defs).take(t).contains(target)))
}

/// The references that one function makes, strictly in reference order.
pub fn caller_references(
    caller: usize,
    sites: &Vec<ReferenceSite>,
    fn_defs: &Vec<FnDef>,
    name_idx: &StringHashMap<Vec<usize>>,
) -> (res: Vec<GraphReference>)
    requires
        is_name_index(name_idx@, defs_view(fn_defs@)),
        forall|j: int| 0 <= j < sites@.len() ==> #[trigger] sites@[j].kind == GraphReferenceKind::Argument,
    ensures
        caller_refs_spec(refs_view(res@), ref_sites_view(sites@), defs_view(fn_defs@), caller),
        forall|j: int| 0 <= j < res@.len() ==> #[trigger] res@[j].target < fn_defs@.len(),
{
    let ghost defs = defs_view(fn_defs@);
    let ghost sv = ref_sites_view(sites@);
    let mut refs: Vec<GraphReference> = Vec::new();
    let mut k: usize = 0;
    while k < sites.len()
        invariant
            k <= sites@.len(),
            sv == ref_sites_view(sites@),
            defs == defs_view(fn_defs@),
            is_name_index(name_idx@, defs),
            forall|j: int| 0 <= j < sites@.len() ==> #[trigger] sites@[j].kind == GraphReferenceKind::Argument,
            strictly_sorted_refs(refs_view(refs@)),
            forall|x: GraphReferenceV| #[trigger] refs_view(refs@).contains(x) <==> (x.referencer == caller
                && x.kind == GraphReferenceKind::Argument
                && has_reference_partial(sv, defs, caller, x.target, x.context, k as int, 0)),
            forall|j: int| 0 <= j < refs@.len() ==> #[trigger] refs@[j].target < fn_defs@.len(),
        decreases sites@.len() - k,
    {
        let site = &sites[k];
        let resolved = resolve_symbol(site.target_name.as_str(), fn_defs, name_idx);
        assert(sv[k as int] == site@);
        let mut t: usize = 0;
        while t < resolved.len()
            invariant
                t <= resolved@.len(),
                k < sites@.len(),
                sv == ref_sites_view(sites@),
                sv[k as int] == site@,
                site.kind == GraphReferenceKind::Argument,
                defs == defs_view(fn_defs@),
                resolved@ == resolve_spec(site.target_name@, defs),
                forall|j: int| 0 <= j < resolved@.len() ==> #[trigger] resolved@[j] < fn_defs@.len(),
                strictly_sorted_refs(refs_view(refs@)),
                forall|x: GraphReferenceV| #[trigger] refs_view(refs@).contains(x) <==> (x.referencer == caller
                    && x.kind == GraphReferenceKind::Argument
                    && has_reference_partial(sv, defs, caller, x.target, x.context, k as int, t as int)),
                forall|j: int| 0 <= j < refs@.len() ==> #[trigger] refs@[j].target < fn_defs@.len(),
            decreases resolved@.len() - t,
        {
            let target = resolved[t];
            let ghost before = resolved@.take(t as int);
            let ghost after = resolved@.take(t + 1);
            assert(after =~= before.push(target));
            if target != caller {
                let r = GraphReference {
                    referencer: caller,
                    target,
                    kind: site.kind,
                    context: clone_opt_string(&site.context),
                };
                let ghost old_refs = refs@;
                insert_reference(&mut refs, r);
                assert forall|j: int| 0 <= j < refs@.len() implies #[trigger] refs@[j].target < fn_defs@.len() by {
                    assert(refs_view(refs@)[j] == refs@[j]@);
                    assert(refs_view(refs@).contains(refs@[j]@));
                    if refs@[j]@ != r@ {
                        let i = choose|i: int| 0 <= i < old_refs.len() && refs_view(old_refs)[i] == refs@[j]@;
                        assert(old_refs[i].target == refs_view(old_refs)[i].target);
                    }
                }
            }
            assert forall|x: GraphReferenceV| has_reference_partial(sv, defs, caller, x.target, x.context, k as int, t + 1)
                <==> (has_reference_partial(sv, defs, caller, x.target, x.context, k as int, t as int)
                    || (x.target == target && target != caller && x.context == sv[k as int].context)) by {
                if after.contains(x.target) && x.target != target {
                    let i = choose|i: int| 0 <= i < after.len() && after[i] == x.target;
                    assert(before[i] == x.target);
                }
                if before.contains(x.target) {
                    let i = choose|i: int| 0 <= i < before.len() && before[i] == x.target;
                    assert(after[i] == x.target);
                }
                assert(after[t as int] == target);
            }
            t = t + 1;
        }
        assert(resolved@.take(resolved@.len() as int) =~= resolved@);
        assert forall|x: GraphReferenceV| has_reference_partial(sv, defs, caller, x.target, x.context, k + 1, 0)
            <==> has_reference_partial(sv, defs, caller, x.target, x.context, k as int, resolved@.len() as int) by {
            if has_reference_partial(sv, defs, caller, x.target, x.context, k + 1, 0) {
                let j = choose|j: int| 0 <= j < k + 1 && sv[j].context == x.context
                    && #[trigger] resolve_spec(sv[j].target_name, defs).contains(x.target);
                if j == k {
                    assert(resolved@.take(resolved@.len() as int).contains(x.target));
                }
            }
        }
        k = k + 1;
    }
    proof {
        let rv = refs_view(refs@);
        assert forall|j: int| 0 <= j < rv.len() implies (#[trigger] rv[j]).referencer == caller
            && has_reference(sv, defs, caller, rv[j].target, rv[j].context)
            && rv[j].kind == GraphReferenceKind::Argument by {
            assert(rv.contains(rv[j]));
        }
        assert forall|t: usize, ctx: Option<Seq<char>>| #[trigger] has_reference(sv, defs, caller, t, ctx)
            implies exists|j: int| 0 <= j < rv.len() && rv[j].target == t && rv[j].context == ctx by {
            let x = GraphReferenceV { referencer: caller, target: t, kind: GraphReferenceKind::Argument, context: ctx };
            assert(has_reference_partial(sv, defs, caller, t, ctx, k as int, 0));
            assert(rv.contains(x));
        }
    }
    refs
}


// ---------------------------------------------------------------------
// Flattening the artifacts of a set of files
// ---------------------------------------------------------------------

/// The artifact of one source file, with the file's relative path.
pub struct InternalFile {
    pub path: String,
    pub artifact: FileArtifact,
}

pub struct InternalFileV {
    pub path: Seq<char>,
    pub artifact: FileArtifactV,
}

impl View for InternalFile {
    type V = InternalFileV;

    open spec fn view(&self) -> InternalFileV {
        InternalFileV { path: self.path@, artifact: self.artifact@ }
    }
}

pub open spec fn files_view(files: Seq<InternalFile>) -> Seq<InternalFileV> {
    files.map_values(|f: InternalFile| f@)
}

/// The functions of a list of files, in file order and then in the order
/// each file lists them, each with its file's path.
pub open spec fn flat_functions(files: Seq<InternalFileV>) -> Seq<(Seq<char>, FunctionArtifactV)>
    decreases files.len(),
{
    if files.len() == 0 {
        Seq::empty()
    } else {
        let last = files.last();
        flat_functions(files.drop_last()) + last.artifact.functions.map_values(
            |f: FunctionArtifactV| (last.path, f),
        )
    }
}

/// The definition that a function of the file at `path` gives.
pub open spec fn def_of(path: Seq<char>, f: FunctionArtifactV) -> FnDefV {
    FnDefV {
        name: f.name,
        qualified_name: f.qualified_name,
        language: f.language,
        file: path,
        is_test: f.is_test,
        line: f.line,
        end_line: f.end_line,
    }
}

pub open spec fn flat_defs(files: Seq<InternalFileV>) -> Seq<FnDefV> {
    flat_functions(files).map_values(|p: (Seq<char>, FunctionArtifactV)| def_of(p.0, p.1))
}

/// The call and reference sites of the `i`-th function.
pub open spec fn calls_of(i: int, f: FunctionArtifactV) -> FnCallsV {
    FnCallsV { caller_idx: i as usize, call_sites: f.call_sites, reference_sites: f.reference_sites }
}

pub open spec fn flat_calls(files: Seq<InternalFileV>) -> Seq<FnCallsV> {
    flat_functions(files).map(|i: int, p: (Seq<char>, FunctionArtifactV)| calls_of(i, p.1))
}

pub open spec fn calls_view(calls: Seq<FnCalls>) -> Seq<FnCallsV> {
    calls.map_values(|c: FnCalls| c@)
}

fn clone_call_sites(v: &Vec<CallSite>) -> (res: Vec<CallSite>)
    ensures
        sites_view(res@) == sites_view(v@),
{
    let mut res: Vec<CallSite> = Vec::new();
    let mut i: usize = 0;
    while i < v.len()
        invariant
            i <= v@.len(),
            sites_view(res@) == sites_view(v@.take(i as int)),
        decreases v@.len() - i,
    {
        let c = v[i].clone();
        res.push(c);
        assert(sites_view(v@.take(i + 1)) =~= sites_view(v@.take(i as int)).push(v@[i as int]@));
        i = i + 1;
        assert(sites_view(res@) =~= sites_view(v@.take(i as int)));
    }
    assert(v@.take(v@.len() as int) =~= v@);
    res
}

fn clone_reference_sites(v: &Vec<ReferenceSite>) -> (res: Vec<ReferenceSite>)
    ensures
        ref_sites_view(res@) == ref_sites_view(v@),
{
    let mut res: Vec<ReferenceSite> = Vec::new();
    let mut i: usize = 0;
    while i < v.len()
        invariant
            i <= v@.len(),
            ref_sites_view(res@) == ref_sites_view(v@.take(i as int)),
        decreases v@.len() - i,
    {
        let c = v[i].clone();
        res.push(c);
        assert(ref_sites_view(v@.take(i + 1)) =~= ref_sites_view(v@.take(i as int)).push(v@[i as int]@));
        i = i + 1;
        assert(ref_sites_view(res@) =~= ref_sites_view(v@.take(i as int)));
    }
    assert(v@.take(v@.len() as int) =~= v@);
    res
}

/// Lists the definitions and the call sites of every function of the files,
/// numbering the functions in file order.
pub fn flatten_file_artifacts(files: &Vec<InternalFile>) -> (res: (Vec<FnDef>, Vec<FnCalls>))
    ensures
        defs_view(res.0@) == flat_defs(files_view(files@)),
        calls_view(res.1@) == flat_calls(files_view(files@)),
{
    let ghost fv = files_view(files@);
    let mut fn_defs: Vec<FnDef> = Vec::new();
    let mut fn_calls: Vec<FnCalls> = Vec::new();
    let mut i: usize = 0;
    while i < files.len()
        invariant
            i <= files@.len(),
            fv == files_view(files@),
            defs_view(fn_defs@) == flat_defs(fv.take(i as int)),
            calls_view(fn_calls@) == flat_calls(fv.take(i as int)),
        decreases files@.len() - i,
    {
        let file = &files[i];
        let ghost base = flat_functions(fv.take(i as int));
        let ghost funcs = fv[i as int].artifact.functions;
        assert(fv[i as int] == file@);
        let mut j: usize = 0;
        while j < file.artifact.functions.len()
            invariant
                j <= file.artifact.functions@.len(),
                i < files@.len(),
                fv == files_view(files@),
                fv[i as int] == file@,
                funcs == fv[i as int].artifact.functions,
                base == flat_functions(fv.take(i as int)),
                defs_view(fn_defs@) == (base + funcs.take(j as int).map_values(
                    |f: FunctionArtifactV| (file.path@, f))).map_values(
                    |p: (Seq<char>, FunctionArtifactV)| def_of(p.0, p.1)),
                calls_view(fn_calls@) == (base + funcs.take(j as int).map_values(
                    |f: FunctionArtifactV| (file.path@, f))).map(
                    |k: int, p: (Seq<char>, FunctionArtifactV)| calls_of(k, p.1)),
            decreases file.artifact.functions@.len() - j,
        {
            let function = &file.artifact.functions[j];
            let idx = fn_defs.len();
            assert(funcs[j as int] == function@);
            let ghost old_defs = defs_view(fn_defs@);
            let ghost old_calls = calls_view(fn_calls@);
            fn_defs.push(FnDef {
                name: function.name.clone(),
                qualified_name: function.qualified_name.clone(),
                language: function.language,
                file: file.path.clone(),
                is_test: function.is_test,
                line: function.line,
                end_line: function.end_line,
            });
            fn_calls.push(FnCalls {
                caller_idx: idx,
                call_sites: clone_call_sites(&function.call_sites),
                reference_sites: clone_reference_sites(&function.reference_sites),
            });
            let ghost prev = base + funcs.take(j as int).map_values(|f: FunctionArtifactV| (file.path@, f));
            let ghost next = base + funcs.take(j + 1).map_values(|f: FunctionArtifactV| (file.path@, f));
            assert(next =~= prev.push((file.path@, function@)));
            assert(old_defs.len() == prev.len());
            assert(idx == prev.len());
            assert(defs_view(fn_defs@) =~= old_defs.push(def_of(file.path@, function@)));
            assert(calls_view(fn_calls@) =~= old_calls.push(calls_of(idx as int, function@)));
            assert(next.map_values(|p: (Seq<char>, FunctionArtifactV)| def_of(p.0, p.1)) =~=
                prev.map_values(|p: (Seq<char>, FunctionArtifactV)| def_of(p.0, p.1)).push(def_of(file.path@, function@)));
            assert(next.map(|k: int, p: (Seq<char>, FunctionArtifactV)| calls_of(k, p.1)) =~=
                prev.map(|k: int, p: (Seq<char>, FunctionArtifactV)| calls_of(k, p.1)).push(calls_of(idx as int, function@)));
            assert(defs_view(fn_defs@) =~= next.map_values(|p: (Seq<char>, FunctionArtifactV)| def_of(p.0, p.1)));
            assert(calls_view(fn_calls@) =~= next.map(|k: int, p: (Seq<char>, FunctionArtifactV)| calls_of(k, p.1)));
            j = j + 1;
        }
        assert(funcs.take(funcs.len() as int) =~= funcs);
        assert(fv.take(i + 1).drop_last() =~= fv.take(i as int));
        assert(fv.take(i + 1).last() == fv[i as int]);
        i = i + 1;
    }
    assert(fv.take(fv.len() as int) =~= fv);
    (fn_defs, fn_calls)
}


// ---------------------------------------------------------------------
// The call graph of a set of definitions
// ---------------------------------------------------------------------

/// `calls[k]` describes the function at position `k`.
pub open spec fn calls_numbered(calls: Seq<FnCallsV>) -> bool {
    forall|k: int| 0 <= k < calls.len() ==> (#[trigger] calls[k]).caller_idx == k
}

pub open spec fn edge_lt(a: GraphEdgeV, b: GraphEdgeV) -> bool {
    a.caller < b.caller || (a.caller == b.caller && a.callee < b.callee)
}

/// The edges of the graph: strictly by (caller, callee), one for each pair
/// that a caller's call sites give, with their conditions.
pub open spec fn graph_edges_spec(edges: Seq<GraphEdgeV>, calls: Seq<FnCallsV>, defs: Seq<FnDefV>) -> bool {
    &&& forall|a: int, b: int| 0 <= a < b < edges.len() ==> edge_lt(edges[a], edges[b])
    &&& forall|j: int| 0 <= j < edges.len() ==> (#[trigger] edges[j]).caller < calls.len()
        && caller_edges_spec(calls[edges[j].caller as int].call_sites, defs)(edges[j].callee)
            == Some(edges[j].conditions)
    &&& forall|c: usize, d: usize| c < calls.len()
        && (#[trigger] caller_edges_spec(calls[c as int].call_sites, defs)(d)) is Some
        ==> exists|j: int| 0 <= j < edges.len() && edges[j].caller == c && edges[j].callee == d
}

/// The references of the graph: strictly in reference order, exactly those
/// that the reference sites of each function give.
pub open spec fn graph_refs_spec(refs: Seq<GraphReferenceV>, calls: Seq<FnCallsV>, defs: Seq<FnDefV>) -> bool {
    &&& strictly_sorted_refs(refs)
    &&& forall|j: int| 0 <= j < refs.len() ==> (#[trigger] refs[j]).referencer < calls.len()
        && has_reference(calls[refs[j].referencer as int].reference_sites, defs, refs[j].referencer,
            refs[j].target, refs[j].context)
        && refs[j].kind == GraphReferenceKind::Argument
    &&& forall|c: usize, t: usize, ctx: Option<Seq<char>>| c < calls.len()
        && #[trigger] has_reference(calls[c as int].reference_sites, defs, c, t, ctx)
        ==> exists|j: int| 0 <= j < refs.len() && refs[j].referencer == c && refs[j].target == t
            && refs[j].context == ctx
}

/// The node that the `i`-th definition becomes.
pub open spec fn node_of(i: int, d: FnDefV) -> GraphNodeV {
    GraphNodeV {
        id: i as usize,
        name: d.name,
        qualified_name: d.qualified_name,
        language: d.language,
        file: d.file,
        is_test: d.is_test,
        line: d.line,
        end_line: d.end_line,
    }
}

pub open spec fn nodes_of(defs: Seq<FnDefV>) -> Seq<GraphNodeV> {
    defs.map(|i: int, d: FnDefV| node_of(i, d))
}

/// The call graph of a list of definitions and their call sites.
pub open spec fn graph_spec(g: CallGraphV, calls: Seq<FnCallsV>, defs: Seq<FnDefV>) -> bool {
    &&& g.nodes == nodes_of(defs)
    &&& graph_edges_spec(g.edges, calls, defs)
    &&& graph_refs_spec(g.references, calls, defs)
}

/// For each function, in order, its call edges by ascending callee.
pub fn build_call_graph(fn_defs: &Vec<FnDef>, fn_calls: &Vec<FnCalls>) -> (res: Vec<Vec<InternalEdge>>)
    ensures
        res@.len() == fn_calls@.len(),
        forall|k: int| 0 <= k < res@.len() ==> represents(edges_view(#[trigger] res@[k]@),
            caller_edges_spec(fn_calls@[k]@.call_sites, defs_view(fn_defs@))),
        forall|k: int, j: int| 0 <= k < res@.len() && 0 <= j < res@[k]@.len()
            ==> #[trigger] res@[k]@[j].callee < fn_defs@.len(),
{
    let name_idx = build_name_index(fn_defs);
    let mut graph: Vec<Vec<InternalEdge>> = Vec::new();
    let mut k: usize = 0;
    while k < fn_calls.len()
        invariant
            k <= fn_calls@.len(),
            graph@.len() == k,
            is_name_index(name_idx@, defs_view(fn_defs@)),
            forall|i: int| 0 <= i < k ==> represents(edges_view(#[trigger] graph@[i]@),
                caller_edges_spec(fn_calls@[i]@.call_sites, defs_view(fn_defs@))),
            forall|i: int, j: int| 0 <= i < k && 0 <= j < graph@[i]@.len()
                ==> #[trigger] graph@[i]@[j].callee < fn_defs@.len(),
        decreases fn_calls@.len() - k,
    {
        let edges = caller_edges(&fn_calls[k].call_sites, fn_defs, &name_idx);
        assert(sites_view(fn_calls@[k as int].call_sites@) == fn_calls@[k as int]@.call_sites);
        graph.push(edges);
        k = k + 1;
    }
    graph
}

/// Every reference that the reference sites of the functions give, strictly
/// in reference order.
pub fn build_references(fn_defs: &Vec<FnDef>, fn_calls: &Vec<FnCalls>) -> (res: Vec<GraphReference>)
    requires
        calls_numbered(calls_view(fn_calls@)),
    ensures
        graph_refs_spec(refs_view(res@), calls_view(fn_calls@), defs_view(fn_defs@)),
        forall|j: int| 0 <= j < res@.len() ==> #[trigger] res@[j].target < fn_defs@.len(),
{
    let ghost cv = calls_view(fn_calls@);
    let ghost defs = defs_view(fn_defs@);
    let name_idx = build_name_index(fn_defs);
    let mut references: Vec<GraphReference> = Vec::new();
    let mut k: usize = 0;
    while k < fn_calls.len()
        invariant
            k <= fn_calls@.len(),
            cv == calls_view(fn_calls@),
            defs == defs_view(fn_defs@),
            calls_numbered(cv),
            is_name_index(name_idx@, defs),
            strictly_sorted_refs(refs_view(references@)),
            forall|j: int| 0 <= j < references@.len() ==> (#[trigger] references@[j]).referencer < k,
            forall|j: int| 0 <= j < references@.len() ==> #[trigger] references@[j].target < fn_defs@.len(),
            forall|j: int| 0 <= j < references@.len() ==> has_reference(
                cv[(#[trigger] refs_view(references@)[j]).referencer as int].reference_sites, defs,
                refs_view(references@)[j].referencer, refs_view(references@)[j].target,
                refs_view(references@)[j].context)
                && refs_view(references@)[j].kind == GraphReferenceKind::Argument,
            forall|c: usize, t: usize, ctx: Option<Seq<char>>| c < k
                && #[trigger] has_reference(cv[c as int].reference_sites, defs, c, t, ctx)
                ==> exists|j: int| 0 <= j < references@.len() && refs_view(references@)[j].referencer == c
                    && refs_view(references@)[j].target == t && refs_view(references@)[j].context == ctx,
        decreases fn_calls@.len() - k,
    {
        let fc = &fn_calls[k];
        assert(cv[k as int] == fc@);
        assert(fc.caller_idx == k);
        assert(ref_sites_view(fc.reference_sites@) == cv[k as int].reference_sites);
        let mine = caller_references(fc.caller_idx, &fc.reference_sites, fn_defs, &name_idx);
        let ghost before = refs_view(references@);
        let ghost added = refs_view(mine@);
        let mut i: usize = 0;
        while i < mine.len()
            invariant
                i <= mine@.len(),
                k < cv.len(),
                added == refs_view(mine@),
                refs_view(references@) == before + added.take(i as int),
                strictly_sorted_refs(before),
                caller_refs_spec(added, cv[k as int].reference_sites, defs, k as usize),
                forall|j: int| 0 <= j < before.len() ==> before[j].referencer < k,
                forall|j: int| 0 <= j < references@.len() ==> #[trigger] references@[j].target < fn_defs@.len(),
                forall|j: int| 0 <= j < mine@.len() ==> #[trigger] mine@[j].target < fn_defs@.len(),
            decreases mine@.len() - i,
        {
            let r = mine[i].clone();
            let ghost old_v = refs_view(references@);
            references.push(r);
            assert(added[i as int] == mine@[i as int]@);
            assert(refs_view(references@) =~= old_v.push(added[i as int]));
            assert(added.take(i + 1) =~= added.take(i as int).push(added[i as int]));
            assert(refs_view(references@) =~= before + added.take(i + 1));
            i = i + 1;
        }
        assert(added.take(added.len() as int) =~= added);
        let ghost now = refs_view(references@);
        assert(now =~= before + added);
        assert forall|a: int, b: int| 0 <= a < b < now.len() implies ref_lt(now[a], now[b]) by {
            if b >= before.len() && a < before.len() {
                assert(now[b] == added[b - before.len()]);
            } else if a >= before.len() {
                assert(now[a] == added[a - before.len()]);
                assert(now[b] == added[b - before.len()]);
            }
        }
        assert forall|j: int| 0 <= j < references@.len() implies (#[trigger] references@[j]).referencer < k + 1 by {
            assert(now[j] == references@[j]@);
            if j >= before.len() {
                assert(now[j] == added[j - before.len()]);
            }
        }
        assert forall|j: int| 0 <= j < references@.len() implies has_reference(
                cv[(#[trigger] refs_view(references@)[j]).referencer as int].reference_sites, defs,
                refs_view(references@)[j].referencer, refs_view(references@)[j].target,
                refs_view(references@)[j].context)
                && refs_view(references@)[j].kind == GraphReferenceKind::Argument by {
            if j >= before.len() {
                assert(now[j] == added[j - before.len()]);
            } else {
                assert(now[j] == before[j]);
            }
        }
        assert forall|c: usize, t: usize, ctx: Option<Seq<char>>| c < k + 1
            && #[trigger] has_reference(cv[c as int].reference_sites, defs, c, t, ctx)
            implies exists|j: int| 0 <= j < references@.len() && refs_view(references@)[j].referencer == c
                && refs_view(references@)[j].target == t && refs_view(references@)[j].context == ctx by {
            if c == k {
                let i = choose|i: int| 0 <= i < added.len() && added[i].target == t && added[i].context == ctx;
                assert(now[before.len() + i] == added[i]);
            } else {
                let j = choose|j: int| 0 <= j < before.len() && before[j].referencer == c
                    && before[j].target == t && before[j].context == ctx;
                assert(now[j] == before[j]);
            }
        }
        k = k + 1;
    }
    references
}


pub open spec fn graph_edges_view(edges: Seq<GraphEdge>) -> Seq<GraphEdgeV> {
    edges.map_values(|e: GraphEdge| e@)
}

pub open spec fn graph_nodes_view(nodes: Seq<GraphNode>) -> Seq<GraphNodeV> {
    nodes.map_values(|n: GraphNode| n@)
}

/// Lays the per-function edges out as one list of graph edges and makes a
/// node of each definition.
pub fn build_serializable_graph(
    fn_defs: &Vec<FnDef>,
    graph: &Vec<Vec<InternalEdge>>,
    references: &Vec<GraphReference>,
    Ghost(calls): Ghost<Seq<FnCallsV>>,
) -> (res: CallGraph)
    requires
        graph@.len() == calls.len(),
        forall|k: int| 0 <= k < graph@.len() ==> represents(edges_view(#[trigger] graph@[k]@),
            caller_edges_spec(calls[k].call_sites, defs_view(fn_defs@))),
    ensures
        res@.nodes == nodes_of(defs_view(fn_defs@)),
        graph_edges_spec(res@.edges, calls, defs_view(fn_defs@)),
        res@.references == refs_view(references@),
{
    let ghost defs = defs_view(fn_defs@);
    let mut nodes: Vec<GraphNode> = Vec::new();
    let mut i: usize = 0;
    while i < fn_defs.len()
        invariant
            i <= fn_defs@.len(),
            defs == defs_view(fn_defs@),
            graph_nodes_view(nodes@) == nodes_of(defs.take(i as int)),
        decreases fn_defs@.len() - i,
    {
        let def = &fn_defs[i];
        let node = GraphNode {
            id: i,
            name: def.name.clone(),
            qualified_name: def.qualified_name.clone(),
            language: def.language,
            file: def.file.clone(),
            is_test: def.is_test,
            line: def.line,
            end_line: def.end_line,
        };
        let ghost old_nodes = graph_nodes_view(nodes@);
        nodes.push(node);
        assert(defs[i as int] == def@);
        assert(graph_nodes_view(nodes@) =~= old_nodes.push(node_of(i as int, def@)));
        assert(nodes_of(defs.take(i + 1)) =~= nodes_of(defs.take(i as int)).push(node_of(i as int, def@)));
        i = i + 1;
    }
    assert(defs.take(defs.len() as int) =~= defs);

    let mut edges: Vec<GraphEdge> = Vec::new();
    let mut k: usize = 0;
    while k < graph.len()
        invariant
            k <= graph@.len(),
            graph@.len() == calls.len(),
            defs == defs_view(fn_defs@),
            forall|c: int| 0 <= c < graph@.len() ==> represents(edges_view(#[trigger] graph@[c]@),
                caller_edges_spec(calls[c].call_sites, defs)),
            forall|a: int, b: int| 0 <= a < b < edges@.len() ==> edge_lt(edges@[a]@, edges@[b]@),
            forall|j: int| 0 <= j < edges@.len() ==> (#[trigger] edges@[j]).caller < k
                && caller_edges_spec(calls[edges@[j].caller as int].call_sites, defs)(edges@[j].callee)
                    == Some(edges@[j]@.conditions),
            forall|c: usize, d: usize| c < k
                && (#[trigger] caller_edges_spec(calls[c as int].call_sites, defs)(d)) is Some
                ==> exists|j: int| 0 <= j < edges@.len() && edges@[j].caller == c && edges@[j].callee == d,
        decreases graph@.len() - k,
    {
        let mine = &graph[k];
        let ghost ev = edges_view(mine@);
        let ghost f = caller_edges_spec(calls[k as int].call_sites, defs);
        let ghost start = edges@.len();
        let mut j: usize = 0;
        while j < mine.len()
            invariant
                j <= mine@.len(),
                k < graph@.len(),
                graph@.len() == calls.len(),
                ev == edges_view(mine@),
                f == caller_edges_spec(calls[k as int].call_sites, defs),
                represents(ev, f),
                start <= edges@.len(),
                edges@.len() == start + j,
                forall|c: int| 0 <= c < graph@.len() ==> represents(edges_view(#[trigger] graph@[c]@),
                    caller_edges_spec(calls[c].call_sites, defs)),
                forall|a: int, b: int| 0 <= a < b < edges@.len() ==> edge_lt(edges@[a]@, edges@[b]@),
                forall|i: int| start <= i < edges@.len() ==> edges@[i]@ == (GraphEdgeV {
                    caller: k, callee: ev[i - start].callee, conditions: ev[i - start].conditions }),
                forall|i: int| 0 <= i < start ==> (#[trigger] edges@[i]).caller < k,
                forall|i: int| 0 <= i < edges@.len() ==> (#[trigger] edges@[i]).caller <= k
                    && caller_edges_spec(calls[edges@[i].caller as int].call_sites, defs)(edges@[i].callee)
                        == Some(edges@[i]@.conditions),
                forall|c: usize, d: usize| c < k
                    && (#[trigger] caller_edges_spec(calls[c as int].call_sites, defs)(d)) is Some
                    ==> exists|i: int| 0 <= i < edges@.len() && edges@[i].caller == c && edges@[i].callee == d,
            decreases mine@.len() - j,
        {
            let e = &mine[j];
            assert(ev[j as int] == e@);
            let edge = GraphEdge { caller: k, callee: e.callee, conditions: clone_strings(&e.conditions) };
            let ghost old_edges = edges@;
            edges.push(edge);
            assert forall|a: int, b: int| 0 <= a < b < edges@.len() implies edge_lt(edges@[a]@, edges@[b]@) by {
                if b == edges@.len() - 1 && a >= start {
                    assert(ev[a - start].callee < ev[j as int].callee);
                }
                if b < edges@.len() - 1 {
                    assert(edges@[a] == old_edges[a]);
                    assert(edges@[b] == old_edges[b]);
                }
            }
            assert(f(e.callee) == Some(ev[j as int].conditions));
            assert forall|i: int| 0 <= i < old_edges.len() implies edges@[i] == old_edges[i] by {}
            j = j + 1;
        }
        assert forall|c: usize, d: usize| c < k + 1
            && (#[trigger] caller_edges_spec(calls[c as int].call_sites, defs)(d)) is Some
            implies exists|i: int| 0 <= i < edges@.len() && edges@[i].caller == c && edges@[i].callee == d by {
            if c == k {
                assert(f(d) is Some);
                let x = choose|x: int| 0 <= x < ev.len() && ev[x].callee == d;
                assert(edges@[start + x].callee == d);
            }
        }
        k = k + 1;
    }

    let mut refs: Vec<GraphReference> = Vec::new();
    let mut r: usize = 0;
    while r < references.len()
        invariant
            r <= references@.len(),
            refs_view(refs@) == refs_view(references@.take(r as int)),
        decreases references@.len() - r,
    {
        let ghost old_refs = refs_view(refs@);
        refs.push(references[r].clone());
        assert(refs_view(refs@) =~= old_refs.push(references@[r as int]@));
        assert(refs_view(references@.take(r + 1)) =~= refs_view(references@.take(r as int)).push(references@[r as int]@));
        r = r + 1;
    }
    assert(references@.take(references@.len() as int) =~= references@);

    let ghost ge = graph_edges_view(edges@);
    assert forall|j: int| 0 <= j < ge.len() implies #[trigger] ge[j] == edges@[j]@ by {}
    assert forall|a: int, b: int| 0 <= a < b < ge.len() implies edge_lt(ge[a], ge[b]) by {
        assert(ge[a] == edges@[a]@);
        assert(ge[b] == edges@[b]@);
    }
    assert forall|c: usize, d: usize| c < calls.len()
        && (#[trigger] caller_edges_spec(calls[c as int].call_sites, defs)(d)) is Some
        implies exists|j: int| 0 <= j < ge.len() && ge[j].caller == c && ge[j].callee == d by {
        let j = choose|j: int| 0 <= j < edges@.len() && edges@[j].caller == c && edges@[j].callee == d;
        assert(ge[j] == edges@[j]@);
    }
    let res = CallGraph { nodes, edges, references: refs };
    assert(res@.nodes =~= graph_nodes_view(res.nodes@));
    assert(res@.edges =~= ge);
    res
}

/// A list of files strictly ordered by path: each path once, as the keys
/// of a map by path come.
pub open spec fn by_path(v: Seq<InternalFileV>) -> bool {
    forall|a: int, b: int| 0 <= a < b < v.len() ==> seq_lt(v[a].path, v[b].path)
}

/// Whether the files are strictly ordered by path.
pub fn files_by_path(files: &Vec<InternalFile>) -> (res: bool)
    ensures
        res == by_path(files_view(files@)),
{
    let ghost v = files_view(files@);
    if files.len() == 0 {
        return true;
    }
    let mut i: usize = 1;
    while i < files.len()
        invariant
            v == files_view(files@),
            1 <= i <= files@.len(),
            forall|a: int, b: int| 0 <= a < b < i ==> seq_lt(v[a].path, v[b].path),
        decreases files@.len() - i,
    {
        assert(v[i - 1].path == files@[i - 1].path@ && v[i as int].path == files@[i as int].path@);
        if !str_lt(files[i - 1].path.as_str(), files[i].path.as_str()) {
            return false;
        }
        proof {
            assert forall|a: int, b: int| 0 <= a < b < i + 1 implies seq_lt(v[a].path, v[b].path) by {
                if b == i && a < i - 1 {
                    lemma_seq_lt_transitive(v[a].path, v[i - 1].path, v[b].path);
                }
            }
        }
        i = i + 1;
    }
    true
}

/// The call graph of a set of file artifacts: a node for each function, in
/// file order; the call edges their call sites resolve to; the references
/// their reference sites resolve to.
pub fn build_graph_from_artifacts(files: &Vec<InternalFile>) -> (res: CallGraph)
    requires
        by_path(files_view(files@)),
    ensures
        graph_spec(res@, flat_calls(files_view(files@)), flat_defs(files_view(files@))),
        graph_wf(res@),
        no_self_references(res@),
{
    let (fn_defs, fn_calls) = flatten_file_artifacts(files);
    let ghost calls = calls_view(fn_calls@);
    let n_calls = fn_calls.len();
    assert forall|k: int| 0 <= k < calls.len() implies (#[trigger] calls[k]).caller_idx == k by {
        assert(calls[k] == flat_calls(files_view(files@))[k]);
    }
    let graph = build_call_graph(&fn_defs, &fn_calls);
    assert forall|k: int| 0 <= k < graph@.len() implies represents(edges_view(#[trigger] graph@[k]@),
        caller_edges_spec(calls[k].call_sites, defs_view(fn_defs@))) by {
        assert(calls[k] == fn_calls@[k]@);
    }
    let references = build_references(&fn_defs, &fn_calls);
    let res = build_serializable_graph(&fn_defs, &graph, &references, Ghost(calls));
    proof {
        lemma_graph_spec_wf(res@, calls, defs_view(fn_defs@));
    }
    res
}


/// The code paths and the call graph of a set of file artifacts: the graph
/// as `build_graph_from_artifacts` builds it, and the call chains from the
/// functions that nothing calls.
pub fn analyze_artifacts(files: &Vec<InternalFile>) -> (res: (CodePathsResult, CallGraph))
    requires
        by_path(files_view(files@)),
    ensures
        graph_spec(res.1@, flat_calls(files_view(files@)), flat_defs(files_view(files@))),
        graph_wf(res.1@),
        defs_view(res.0.fn_defs@) == flat_defs(files_view(files@)),
        exists|gv: Seq<Seq<InternalEdgeV>>| {
            &&& gv.len() == flat_calls(files_view(files@)).len()
            &&& forall|k: int| 0 <= k < gv.len() ==> represents(#[trigger] gv[k],
                caller_edges_spec(flat_calls(files_view(files@))[k].call_sites, flat_defs(files_view(files@))))
            &&& res.0.paths@.len() == roots_walk(gv, roots_below(gv, flat_defs(files_view(files@)).len()), 0,
                Seq::empty()).len()
            &&& forall|i: int| 0 <= i < res.0.paths@.len() ==> (#[trigger] res.0.paths@[i]).chain@.map_values(|d: FnDef| d@)
                == chain_defs(flat_defs(files_view(files@)), roots_walk(gv, roots_below(gv,
                    flat_defs(files_view(files@)).len()), 0, Seq::empty())[i])
        },
{
    let (fn_defs, fn_calls) = flatten_file_artifacts(files);
    let ghost calls = calls_view(fn_calls@);
    let ghost defs = defs_view(fn_defs@);
    let _n_calls = fn_calls.len();
    let _n_defs = fn_defs.len();
    assert forall|k: int| 0 <= k < calls.len() implies (#[trigger] calls[k]).caller_idx == k by {
        assert(calls[k] == flat_calls(files_view(files@))[k]);
    }
    let graph = build_call_graph(&fn_defs, &fn_calls);
    let ghost gv = graph_view(graph@);
    assert forall|k: int| 0 <= k < graph@.len() implies represents(edges_view(#[trigger] graph@[k]@),
        caller_edges_spec(calls[k].call_sites, defs)) by {
        assert(calls[k] == fn_calls@[k]@);
    }
    assert forall|k: int, j: int| 0 <= k < gv.len() && 0 <= j < gv[k].len() implies (#[trigger] gv[k][j]).callee < fn_defs@.len() by {
        assert(gv[k] == edges_view(graph@[k]@));
        assert(gv[k][j] == graph@[k]@[j]@);
    }
    let references = build_references(&fn_defs, &fn_calls);
    let call_graph = build_serializable_graph(&fn_defs, &graph, &references, Ghost(calls));
    proof {
        lemma_graph_spec_wf(call_graph@, calls, defs);
    }
    let roots = find_roots(&fn_defs, &graph);
    proof {
        lemma_roots_below(gv, fn_defs@.len() as nat);
    }
    let paths = enumerate_paths(&fn_defs, &graph, &roots);
    assert forall|k: int| 0 <= k < gv.len() implies represents(#[trigger] gv[k], caller_edges_spec(
        flat_calls(files_view(files@))[k].call_sites, flat_defs(files_view(files@)))) by {
        assert(gv[k] == edges_view(graph@[k]@));
    }
    assert(fn_defs@.map_values(|d: FnDef| d@) =~= defs);
    (CodePathsResult { paths, fn_defs }, call_graph)
}

// ---------------------------------------------------------------------
// Well-formed graphs
// ---------------------------------------------------------------------

/// Node `i` has id `i`, and every edge and reference joins two nodes.
pub open spec fn graph_wf(g: CallGraphV) -> bool {
    &&& forall|i: int| 0 <= i < g.nodes.len() ==> (#[trigger] g.nodes[i]).id == i
    &&& forall|j: int| 0 <= j < g.edges.len() ==> (#[trigger] g.edges[j]).caller < g.nodes.len()
        && g.edges[j].callee < g.nodes.len()
    &&& forall|j: int| 0 <= j < g.references.len() ==> (#[trigger] g.references[j]).referencer < g.nodes.len()
        && g.references[j].target < g.nodes.len()
}

/// No function is recorded as referencing itself.
pub open spec fn no_self_references(g: CallGraphV) -> bool {
    forall|j: int| 0 <= j < g.references.len() ==> (#[trigger] g.references[j]).referencer != g.references[j].target
}

pub proof fn lemma_resolve_bounded(raw: Seq<char>, defs: Seq<FnDefV>)
    requires
        defs.len() <= usize::MAX,
    ensures
        forall|j: int| 0 <= j < resolve_spec(raw, defs).len() ==> #[trigger] resolve_spec(raw, defs)[j] < defs.len(),
{
    let (simple, qualifier) = split_symbol(raw);
    let cands = positions_named(defs, simple);
    lemma_positions_bounded(defs, simple, defs.len());
    match qualifier {
        Some(q) => {
            lemma_qualified_increasing(cands, defs, q, cands.len());
        },
        None => {},
    }
}

/// A callee that call sites give resolves from one of them, so it is a
/// definition.
pub proof fn lemma_edge_conditions_bounded(sites: Seq<CallSiteV>, defs: Seq<FnDefV>, d: usize, k: nat)
    requires
        defs.len() <= usize::MAX,
        edge_conditions(sites, defs, d, k) is Some,
    ensures
        d < defs.len(),
    decreases k,
{
    let site = sites[k - 1];
    if resolve_spec(site.callee_name, defs).contains(d) {
        lemma_resolve_bounded(site.callee_name, defs);
    } else {
        lemma_edge_conditions_bounded(sites, defs, d, (k - 1) as nat);
    }
}

/// A graph built from definitions and their call sites is well formed and
/// has no self references.
pub proof fn lemma_graph_spec_wf(g: CallGraphV, calls: Seq<FnCallsV>, defs: Seq<FnDefV>)
    requires
        graph_spec(g, calls, defs),
        calls.len() == defs.len(),
        defs.len() <= usize::MAX,
    ensures
        graph_wf(g),
        no_self_references(g),
{
    assert forall|i: int| 0 <= i < g.nodes.len() implies (#[trigger] g.nodes[i]).id == i by {}
    assert forall|j: int| 0 <= j < g.edges.len() implies (#[trigger] g.edges[j]).caller < g.nodes.len()
        && g.edges[j].callee < g.nodes.len() by {
        let e = g.edges[j];
        lemma_edge_conditions_bounded(calls[e.caller as int].call_sites, defs, e.callee,
            calls[e.caller as int].call_sites.len());
    }
    assert forall|j: int| 0 <= j < g.references.len() implies (#[trigger] g.references[j]).referencer < g.nodes.len()
        && g.references[j].target < g.nodes.len() by {
        let r = g.references[j];
        let sites = calls[r.referencer as int].reference_sites;
        let x = choose|x: int| 0 <= x < sites.len() && sites[x].context == r.context
            && #[trigger] resolve_spec(sites[x].target_name, defs).contains(r.target);
        lemma_resolve_bounded(sites[x].target_name, defs);
    }
}


// ---------------------------------------------------------------------
// Merging the graphs of several languages
// ---------------------------------------------------------------------

pub open spec fn graphs_view(gs: Seq<CallGraph>) -> Seq<CallGraphV> {
    gs.map_values(|g: CallGraph| g@)
}

pub open spec fn empty_graph_view() -> CallGraphV {
    CallGraphV { nodes: Seq::empty(), edges: Seq::empty(), references: Seq::empty() }
}

pub open spec fn shift_node(n: GraphNodeV, id: int) -> GraphNodeV {
    GraphNodeV {
        id: id as usize,
        name: n.name,
        qualified_name: n.qualified_name,
        language: n.language,
        file: n.file,
        is_test: n.is_test,
        line: n.line,
        end_line: n.end_line,
    }
}

pub open spec fn shift_edge(e: GraphEdgeV, off: int) -> GraphEdgeV {
    GraphEdgeV { caller: (e.caller + off) as usize, callee: (e.callee + off) as usize, conditions: e.conditions }
}

pub open spec fn shift_ref(r: GraphReferenceV, off: int) -> GraphReferenceV {
    GraphReferenceV {
        referencer: (r.referencer + off) as usize,
        target: (r.target + off) as usize,
        kind: r.kind,
        context: r.context,
    }
}

/// `g` appended to `m`: its nodes renumbered after those of `m`, its edges
/// and references moved along with them.
pub open spec fn append_graph(m: CallGraphV, g: CallGraphV) -> CallGraphV {
    let off = m.nodes.len() as int;
    CallGraphV {
        nodes: m.nodes + g.nodes.map(|i: int, n: GraphNodeV| shift_node(n, off + i)),
        edges: m.edges + g.edges.map_values(|e: GraphEdgeV| shift_edge(e, off)),
        references: m.references + g.references.map_values(|r: GraphReferenceV| shift_ref(r, off)),
    }
}

/// The graphs one after another, as one graph.
pub open spec fn merged_spec(gs: Seq<CallGraphV>) -> CallGraphV
    decreases gs.len(),
{
    if gs.len() == 0 {
        empty_graph_view()
    } else {
        append_graph(merged_spec(gs.drop_last()), gs.last())
    }
}

pub open spec fn total_nodes(gs: Seq<CallGraphV>) -> nat
    decreases gs.len(),
{
    if gs.len() == 0 { 0 } else { total_nodes(gs.drop_last()) + gs.last().nodes.len() }
}

pub proof fn lemma_merged_len(gs: Seq<CallGraphV>)
    ensures
        merged_spec(gs).nodes.len() == total_nodes(gs),
    decreases gs.len(),
{
    if gs.len() > 0 {
        lemma_merged_len(gs.drop_last());
    }
}

/// Appending a well-formed graph to a well-formed graph gives a
/// well-formed graph.
pub proof fn lemma_append_wf(m: CallGraphV, g: CallGraphV)
    requires
        graph_wf(m),
        graph_wf(g),
        m.nodes.len() + g.nodes.len() <= usize::MAX + 1,
    ensures
        graph_wf(append_graph(m, g)),
{
    let r = append_graph(m, g);
    let off = m.nodes.len() as int;
    assert forall|i: int| 0 <= i < r.nodes.len() implies (#[trigger] r.nodes[i]).id == i by {
        if i >= off {
            assert(r.nodes[i] == shift_node(g.nodes[i - off], i));
        } else {
            assert(r.nodes[i] == m.nodes[i]);
        }
    }
    assert forall|j: int| 0 <= j < r.edges.len() implies (#[trigger] r.edges[j]).caller < r.nodes.len()
        && r.edges[j].callee < r.nodes.len() by {
        if j >= m.edges.len() {
            assert(r.edges[j] == shift_edge(g.edges[j - m.edges.len()], off));
        } else {
            assert(r.edges[j] == m.edges[j]);
        }
    }
    assert forall|j: int| 0 <= j < r.references.len() implies (#[trigger] r.references[j]).referencer < r.nodes.len()
        && r.references[j].target < r.nodes.len() by {
        if j >= m.references.len() {
            assert(r.references[j] == shift_ref(g.references[j - m.references.len()], off));
        } else {
            assert(r.references[j] == m.references[j]);
        }
    }
}

/// Merging keeps graphs well formed.
pub proof fn lemma_merged_wf(gs: Seq<CallGraphV>)
    requires
        forall|k: int| 0 <= k < gs.len() ==> graph_wf(#[trigger] gs[k]),
        total_nodes(gs) <= usize::MAX + 1,
    ensures
        graph_wf(merged_spec(gs)),
    decreases gs.len(),
{
    if gs.len() > 0 {
        let prefix = gs.drop_last();
        assert forall|k: int| 0 <= k < prefix.len() implies graph_wf(#[trigger] prefix[k]) by {
            assert(prefix[k] == gs[k]);
        }
        lemma_merged_wf(prefix);
        lemma_merged_len(prefix);
        assert(graph_wf(gs[gs.len() - 1]));
        lemma_append_wf(merged_spec(prefix), gs.last());
    }
}

/// Law: merging a single well-formed graph gives that graph back.
pub proof fn law_merge_single(g: CallGraphV)
    requires
        graph_wf(g),
    ensures
        merged_spec(seq![g]) == g,
{
    let gs = seq![g];
    assert(gs.drop_last() =~= Seq::<CallGraphV>::empty());
    assert(merged_spec(gs.drop_last()) == empty_graph_view());
    assert(gs.last() == g);
    let r = merged_spec(gs);
    assert(r == append_graph(empty_graph_view(), g));
    assert forall|i: int| 0 <= i < g.nodes.len() implies r.nodes[i] == g.nodes[i] by {
        assert(r.nodes[i] == shift_node(g.nodes[i], 0 + i));
        assert(g.nodes[i].id == i);
    }
    assert(r.nodes =~= g.nodes);
    assert forall|j: int| 0 <= j < g.edges.len() implies r.edges[j] == g.edges[j] by {
        assert(r.edges[j] == shift_edge(g.edges[j], 0));
    }
    assert forall|j: int| 0 <= j < g.references.len() implies r.references[j] == g.references[j] by {
        assert(r.references[j] == shift_ref(g.references[j], 0));
    }
    assert(r.edges =~= g.edges);
    assert(r.references =~= g.references);
}

/// Every edge and every reference joins two nodes of the graph in the same
/// language.
pub open spec fn language_local(g: CallGraphV) -> bool {
    &&& forall|j: int| 0 <= j < g.edges.len() ==> (#[trigger] g.edges[j]).caller < g.nodes.len()
        && g.edges[j].callee < g.nodes.len()
        && g.nodes[g.edges[j].caller as int].language == g.nodes[g.edges[j].callee as int].language
    &&& forall|j: int| 0 <= j < g.references.len() ==> (#[trigger] g.references[j]).referencer < g.nodes.len()
        && g.references[j].target < g.nodes.len()
        && g.nodes[g.references[j].referencer as int].language == g.nodes[g.references[j].target as int].language
}

/// The functions of files whose functions all belong to `language` belong
/// to it too once flattened.
proof fn lemma_flat_functions_language(files: Seq<InternalFileV>, language: Language)
    requires
        forall|i: int| 0 <= i < files.len() ==> all_of_language((#[trigger] files[i]).artifact.functions, language),
    ensures
        forall|k: int| 0 <= k < flat_functions(files).len() ==> (#[trigger] flat_functions(files)[k]).1.language == language,
    decreases files.len(),
{
    if files.len() > 0 {
        let prefix = files.drop_last();
        assert forall|i: int| 0 <= i < prefix.len() implies all_of_language((#[trigger] prefix[i]).artifact.functions,
            language) by {
            assert(prefix[i] == files[i]);
        }
        lemma_flat_functions_language(prefix, language);
        let last = files.last();
        assert(all_of_language(files[files.len() - 1].artifact.functions, language));
        let tail = last.artifact.functions.map_values(|f: FunctionArtifactV| (last.path, f));
        assert forall|k: int| 0 <= k < flat_functions(files).len() implies (#[trigger] flat_functions(files)[k]).1.language
            == language by {
            assert(flat_functions(files) == flat_functions(prefix) + tail);
            if k >= flat_functions(prefix).len() {
                let m = k - flat_functions(prefix).len();
                assert(tail[m] == (last.path, last.artifact.functions[m]));
            }
        }
    }
}

/// Law: a graph built from the files of one language joins only functions
/// of that language: every node carries the language, so no call and no
/// reference crosses into another.
pub proof fn law_one_language_files_graph_local(files: Seq<InternalFileV>, g: CallGraphV, language: Language)
    requires
        forall|i: int| 0 <= i < files.len() ==> all_of_language((#[trigger] files[i]).artifact.functions, language),
        graph_spec(g, flat_calls(files), flat_defs(files)),
        graph_wf(g),
    ensures
        forall|i: int| 0 <= i < g.nodes.len() ==> (#[trigger] g.nodes[i]).language == language,
        language_local(g),
{
    lemma_flat_functions_language(files, language);
    assert forall|i: int| 0 <= i < g.nodes.len() implies (#[trigger] g.nodes[i]).language == language by {
        assert(g.nodes[i] == node_of(i, flat_defs(files)[i]));
        assert(flat_defs(files)[i] == def_of(flat_functions(files)[i].0, flat_functions(files)[i].1));
    }
}

/// Law: merging keeps resolution language-local. When each graph joins only
/// functions of one language to each other, so does their merge: no call or
/// reference crosses from one language into another.
pub proof fn law_merge_language_local(gs: Seq<CallGraphV>)
    requires
        forall|k: int| 0 <= k < gs.len() ==> language_local(#[trigger] gs[k]),
        total_nodes(gs) <= usize::MAX,
    ensures
        language_local(merged_spec(gs)),
    decreases gs.len(),
{
    if gs.len() > 0 {
        let prefix = gs.drop_last();
        assert forall|k: int| 0 <= k < prefix.len() implies language_local(#[trigger] prefix[k]) by {
            assert(prefix[k] == gs[k]);
        }
        law_merge_language_local(prefix);
        lemma_merged_len(prefix);
        let m = merged_spec(prefix);
        let g = gs.last();
        assert(language_local(gs[gs.len() - 1]));
        let r = append_graph(m, g);
        let off = m.nodes.len() as int;
        assert forall|j: int| 0 <= j < r.edges.len() implies (#[trigger] r.edges[j]).caller < r.nodes.len()
            && r.edges[j].callee < r.nodes.len()
            && r.nodes[r.edges[j].caller as int].language == r.nodes[r.edges[j].callee as int].language by {
            if j >= m.edges.len() {
                let e = g.edges[j - m.edges.len()];
                assert(r.edges[j] == shift_edge(e, off));
                assert(r.nodes[off + e.caller] == shift_node(g.nodes[e.caller as int], off + e.caller));
                assert(r.nodes[off + e.callee] == shift_node(g.nodes[e.callee as int], off + e.callee));
            } else {
                assert(r.edges[j] == m.edges[j]);
                assert(r.nodes[m.edges[j].caller as int] == m.nodes[m.edges[j].caller as int]);
                assert(r.nodes[m.edges[j].callee as int] == m.nodes[m.edges[j].callee as int]);
            }
        }
        assert forall|j: int| 0 <= j < r.references.len() implies (#[trigger] r.references[j]).referencer < r.nodes.len()
            && r.references[j].target < r.nodes.len()
            && r.nodes[r.references[j].referencer as int].language == r.nodes[r.references[j].target as int].language by {
            if j >= m.references.len() {
                let e = g.references[j - m.references.len()];
                assert(r.references[j] == shift_ref(e, off));
                assert(r.nodes[off + e.referencer] == shift_node(g.nodes[e.referencer as int], off + e.referencer));
                assert(r.nodes[off + e.target] == shift_node(g.nodes[e.target as int], off + e.target));
            } else {
                assert(r.references[j] == m.references[j]);
                assert(r.nodes[m.references[j].referencer as int] == m.nodes[m.references[j].referencer as int]);
                assert(r.nodes[m.references[j].target as int] == m.nodes[m.references[j].target as int]);
            }
        }
    }
}

pub fn empty_graph() -> (res: CallGraph)
    ensures
        res@ == empty_graph_view(),
{
    let res = CallGraph { nodes: Vec::new(), edges: Vec::new(), references: Vec::new() };
    assert(res@ =~= empty_graph_view());
    res
}

/// Merges the graphs of several languages into one: the nodes of each graph
/// follow those of the graphs before it, and its edges and references are
/// renumbered with them.
pub fn merge_graphs(graphs: &Vec<CallGraph>) -> (res: CallGraph)
    requires
        forall|k: int| 0 <= k < graphs@.len() ==> graph_wf(#[trigger] graphs@[k]@),
        total_nodes(graphs_view(graphs@)) <= usize::MAX,
    ensures
        res@ == merged_spec(graphs_view(graphs@)),
        graph_wf(res@),
{
    let ghost gv = graphs_view(graphs@);
    let mut nodes: Vec<GraphNode> = Vec::new();
    let mut edges: Vec<GraphEdge> = Vec::new();
    let mut references: Vec<GraphReference> = Vec::new();
    let mut k: usize = 0;
    while k < graphs.len()
        invariant
            k <= graphs@.len(),
            gv == graphs_view(graphs@),
            forall|i: int| 0 <= i < graphs@.len() ==> graph_wf(#[trigger] graphs@[i]@),
            total_nodes(gv) <= usize::MAX,
            (CallGraphV {
                nodes: graph_nodes_view(nodes@),
                edges: graph_edges_view(edges@),
                references: refs_view(references@),
            }) == merged_spec(gv.take(k as int)),
        decreases graphs@.len() - k,
    {
        let g = &graphs[k];
        assert(gv[k as int] == g@);
        assert(gv.take(k + 1).drop_last() =~= gv.take(k as int));
        proof {
            lemma_merged_len(gv.take(k as int));
            lemma_total_prefix(gv, k as int);
        }
        let off = nodes.len();
        let ghost m = merged_spec(gv.take(k as int));
        assert(off + g@.nodes.len() <= usize::MAX);
        let mut i: usize = 0;
        while i < g.nodes.len()
            invariant
                i <= g.nodes@.len(),
                graph_wf(g@),
                off + g@.nodes.len() <= usize::MAX,
                graph_nodes_view(nodes@) == m.nodes + g@.nodes.take(i as int).map(
                    |x: int, n: GraphNodeV| shift_node(n, off + x)),
            decreases g.nodes@.len() - i,
        {
            let n = &g.nodes[i];
            let ghost old_v = graph_nodes_view(nodes@);
            nodes.push(GraphNode {
                id: off + i,
                name: n.name.clone(),
                qualified_name: n.qualified_name.clone(),
                language: n.language,
                file: n.file.clone(),
                is_test: n.is_test,
                line: n.line,
                end_line: n.end_line,
            });
            assert(g@.nodes[i as int] == n@);
            assert(graph_nodes_view(nodes@) =~= old_v.push(shift_node(n@, off + i)));
            assert(g@.nodes.take(i + 1).map(|x: int, n: GraphNodeV| shift_node(n, off + x)) =~=
                g@.nodes.take(i as int).map(|x: int, n: GraphNodeV| shift_node(n, off + x)).push(shift_node(n@, off + i)));
            i = i + 1;
        }
        assert(g@.nodes.take(g@.nodes.len() as int) =~= g@.nodes);
        let mut j: usize = 0;
        while j < g.edges.len()
            invariant
                j <= g.edges@.len(),
                graph_wf(g@),
                off + g@.nodes.len() <= usize::MAX,
                graph_edges_view(edges@) == m.edges + g@.edges.take(j as int).map_values(
                    |e: GraphEdgeV| shift_edge(e, off as int)),
            decreases g.edges@.len() - j,
        {
            let e = &g.edges[j];
            assert(g@.edges[j as int] == e@);
            let ghost old_v = graph_edges_view(edges@);
            edges.push(GraphEdge {
                caller: e.caller + off,
                callee: e.callee + off,
                conditions: clone_strings(&e.conditions),
            });
            assert(graph_edges_view(edges@) =~= old_v.push(shift_edge(e@, off as int)));
            assert(g@.edges.take(j + 1).map_values(|e: GraphEdgeV| shift_edge(e, off as int)) =~=
                g@.edges.take(j as int).map_values(|e: GraphEdgeV| shift_edge(e, off as int)).push(shift_edge(e@, off as int)));
            j = j + 1;
        }
        assert(g@.edges.take(g@.edges.len() as int) =~= g@.edges);
        let mut r: usize = 0;
        while r < g.references.len()
            invariant
                r <= g.references@.len(),
                graph_wf(g@),
                off + g@.nodes.len() <= usize::MAX,
                refs_view(references@) == m.references + g@.references.take(r as int).map_values(
                    |x: GraphReferenceV| shift_ref(x, off as int)),
            decreases g.references@.len() - r,
        {
            let x = &g.references[r];
            assert(g@.references[r as int] == x@);
            let ghost old_v = refs_view(references@);
            references.push(GraphReference {
                referencer: x.referencer + off,
                target: x.target + off,
                kind: x.kind,
                context: clone_opt_string(&x.context),
            });
            assert(refs_view(references@) =~= old_v.push(shift_ref(x@, off as int)));
            assert(g@.references.take(r + 1).map_values(|y: GraphReferenceV| shift_ref(y, off as int)) =~=
                g@.references.take(r as int).map_values(|y: GraphReferenceV| shift_ref(y, off as int)).push(shift_ref(x@, off as int)));
            r = r + 1;
        }
        assert(g@.references.take(g@.references.len() as int) =~= g@.references);
        assert((CallGraphV {
            nodes: graph_nodes_view(nodes@),
            edges: graph_edges_view(edges@),
            references: refs_view(references@),
        }) =~= append_graph(m, gv[k as int]));
        k = k + 1;
    }
    assert(gv.take(gv.len() as int) =~= gv);
    let res = CallGraph { nodes, edges, references };
    assert(res@ =~= merged_spec(gv));
    proof {
        assert forall|i: int| 0 <= i < gv.len() implies graph_wf(#[trigger] gv[i]) by {
            assert(gv[i] == graphs@[i]@);
        }
        lemma_merged_wf(gv);
    }
    res
}

pub proof fn lemma_total_prefix(gs: Seq<CallGraphV>, k: int)
    requires
        0 <= k < gs.len(),
    ensures
        total_nodes(gs.take(k)) + gs[k].nodes.len() <= total_nodes(gs),
    decreases gs.len(),
{
    if k < gs.len() - 1 {
        assert(gs.drop_last().take(k) =~= gs.take(k));
        assert(gs.drop_last()[k] == gs[k]);
        lemma_total_prefix(gs.drop_last(), k);
    } else {
        assert(gs.take(k) =~= gs.drop_last());
    }
}

} // verus!
