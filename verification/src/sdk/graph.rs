use vstd::prelude::*;
use crate::analysis::codepaths::types::{CallGraph, CallGraphV, GraphNodeV, GraphEdgeV, GraphReferenceV,
    clone_strings, clone_opt_string, strings_view};
use crate::graph_cache::LoadQueryResult;
use crate::query_data::{QueryCachePayload, edges_into, references_to, lookup_spec, lemma_index_sorted,
    lemma_edges_into_bounded, lemma_references_to_bounded, lemma_edges_into_contains};
use crate::seqs::{first_occurrences, lemma_first_occurrences, lemma_distinct_bounded};
use crate::text::{str_eq, owned};
use crate::analysis::codepaths::graph::graph_wf;
use crate::query_data::index_spec;
use super::builder::GraphBuilder;
use super::error::Error;
use super::types::{Caller, CallerV, NodeId, Reference, ReferenceV};

verus! {

/// Every edge and every reference joins two nodes of the graph.
pub open spec fn graph_joined(g: CallGraphV) -> bool {
    &&& forall|j: int| 0 <= j < g.edges.len() ==> (#[trigger] g.edges[j]).caller < g.nodes.len()
        && g.edges[j].callee < g.nodes.len()
    &&& forall|j: int| 0 <= j < g.references.len() ==> (#[trigger] g.references[j]).referencer < g.nodes.len()
        && g.references[j].target < g.nodes.len()
}

/// Whether every edge and every reference of a graph joins two of its nodes.
pub fn is_joined(graph: &CallGraph) -> (res: bool)
    ensures
        res == graph_joined(graph@),
{
    let n = graph.nodes.len();
    let mut j: usize = 0;
    while j < graph.edges.len()
        invariant
            n == graph@.nodes.len(),
            j <= graph@.edges.len(),
            forall|k: int| 0 <= k < j ==> (#[trigger] graph@.edges[k]).caller < n && graph@.edges[k].callee < n,
        decreases graph@.edges.len() - j,
    {
        assert(graph@.edges[j as int] == graph.edges@[j as int]@);
        if graph.edges[j].caller >= n || graph.edges[j].callee >= n {
            return false;
        }
        j = j + 1;
    }
    let mut j: usize = 0;
    while j < graph.references.len()
        invariant
            n == graph@.nodes.len(),
            j <= graph@.references.len(),
            forall|k: int| 0 <= k < graph@.edges.len() ==> (#[trigger] graph@.edges[k]).caller < n && graph@.edges[k].callee < n,
            forall|k: int| 0 <= k < j ==> (#[trigger] graph@.references[k]).referencer < n && graph@.references[k].target < n,
        decreases graph@.references.len() - j,
    {
        assert(graph@.references[j as int] == graph.references@[j as int]@);
        if graph.references[j].referencer >= n || graph.references[j].target >= n {
            return false;
        }
        j = j + 1;
    }
    true
}

/// Whether each node's id is its position and every edge and reference
/// joins two nodes.
pub fn graph_is_wf(graph: &CallGraph) -> (res: bool)
    ensures
        res == graph_wf(graph@),
{
    let mut i: usize = 0;
    while i < graph.nodes.len()
        invariant
            i <= graph@.nodes.len(),
            forall|k: int| 0 <= k < i ==> (#[trigger] graph@.nodes[k]).id == k,
        decreases graph@.nodes.len() - i,
    {
        assert(graph@.nodes[i as int] == graph.nodes@[i as int]@);
        if graph.nodes[i].id != i {
            return false;
        }
        i = i + 1;
    }
    is_joined(graph)
}

/// Whether `repo_path` is the root of a git repository: it holds a `.git`
/// entry, or git names it as the top of the work tree it is in. Anything
/// else is refused as not a repository.
pub fn repo_root_verdict(repo_path: &str, has_git_entry: bool, toplevel: Option<&str>) -> (res: Result<(), Error>)
    ensures
        res is Ok <==> (has_git_entry || (toplevel matches Some(t) && t@ == repo_path@)),
        res matches Err(e) ==> (e matches Error::NotGitRepo { path } && path@ == repo_path@),
{
    if has_git_entry {
        return Ok(());
    }
    match toplevel {
        Some(t) => {
            if str_eq(t, repo_path) {
                Ok(())
            } else {
                Err(Error::NotGitRepo { path: owned(repo_path) })
            }
        },
        None => Err(Error::NotGitRepo { path: owned(repo_path) }),
    }
}

/// The callers of a node as the edges into it list them.
pub open spec fn callers_of(g: CallGraphV, node: int) -> Seq<usize> {
    edges_into(g.edges, node, g.edges.len()).map_values(|e: usize| g.edges[e as int].caller)
}

/// The callees of a node in the order of its edges, repeats included.
pub open spec fn callees_listed(edges: Seq<GraphEdgeV>, node: int, k: nat) -> Seq<usize>
    decreases k,
{
    if k == 0 || k > edges.len() {
        Seq::empty()
    } else if edges[k - 1].caller == node {
        callees_listed(edges, node, (k - 1) as nat).push(edges[k - 1].callee)
    } else {
        callees_listed(edges, node, (k - 1) as nat)
    }
}

/// The positions below `k` of the nodes that satisfy `p`, in order.
pub open spec fn nodes_where(nodes: Seq<GraphNodeV>, p: spec_fn(int, GraphNodeV) -> bool, k: nat) -> Seq<usize>
    decreases k,
{
    if k == 0 || k > nodes.len() {
        Seq::empty()
    } else if p(k - 1, nodes[k - 1]) {
        nodes_where(nodes, p, (k - 1) as nat).push((k - 1) as usize)
    } else {
        nodes_where(nodes, p, (k - 1) as nat)
    }
}

/// Nodes with this simple name.
pub open spec fn named(name: Seq<char>) -> spec_fn(int, GraphNodeV) -> bool {
    |i: int, n: GraphNodeV| n.name == name
}

/// Nodes with this qualified name.
pub open spec fn qualified_as(name: Seq<char>) -> spec_fn(int, GraphNodeV) -> bool {
    |i: int, n: GraphNodeV| n.qualified_name == name
}

/// The ids of the positions in a list.
pub open spec fn node_ids(s: Seq<usize>) -> Seq<NodeId> {
    s.map_values(|i: usize| NodeId(i))
}

/// What the caller of an edge looks like to a query.
pub open spec fn caller_view(g: CallGraphV, e: int, depth: usize) -> CallerV {
    let n = g.nodes[g.edges[e].caller as int];
    CallerV {
        file: n.file,
        function: n.name,
        qualified_name: n.qualified_name,
        line: n.line,
        is_test: n.is_test,
        depth: depth,
        conditions: g.edges[e].conditions,
    }
}

/// What the referencer of a reference looks like to a query.
pub open spec fn reference_view(g: CallGraphV, r: int) -> ReferenceV {
    let n = g.nodes[g.references[r].referencer as int];
    ReferenceV {
        file: n.file,
        function: n.name,
        qualified_name: n.qualified_name,
        line: n.line,
        is_test: n.is_test,
        context: g.references[r].context,
    }
}

/// One step of a walk up the call graph: `caller` reached at `depth`
/// through edge `edge`, which calls the function the walk visited `via`-th
/// (0 for the start, `j + 1` for the `j`-th step).
pub struct Step {
    pub caller: usize,
    pub depth: usize,
    pub edge: usize,
    pub via: usize,
}

/// A walk up from `start` that goes at most `max` levels: each step's edge
/// calls `start` (at depth 1) or an earlier step's function (one level
/// less deep); no function is reached twice, nor `start`; the depths never
/// decrease; every caller of `start` is reached at depth 1, and every
/// caller of a step less deep than `max` is reached at most one level
/// deeper than that step. So each function is reached at its least depth,
/// the length of its shortest chain of calls into `start`, and every
/// function with such a chain of at most `max` calls is reached. Each step
/// goes through the edge by which breadth-first search first meets its
/// function, and the steps come in the order search meets them.
pub open spec fn walk_ok(g: CallGraphV, start: usize, max: usize, w: Seq<Step>) -> bool {
    &&& forall|i: int| 0 <= i < w.len() ==> {
        let s = #[trigger] w[i];
        &&& 1 <= s.depth <= max
        &&& s.edge < g.edges.len()
        &&& g.edges[s.edge as int].caller == s.caller
        &&& s.caller != start
        &&& (s.depth == 1 ==> g.edges[s.edge as int].callee == start)
        &&& (s.depth > 1 ==> exists|j: int| 0 <= j < i && w[j].depth == s.depth - 1
                && w[j].caller == g.edges[s.edge as int].callee)
    }
    &&& forall|i: int, j: int| 0 <= i < j < w.len() ==> w[i].caller != w[j].caller && w[i].depth <= w[j].depth
    &&& steps_via(g, start, w)
    &&& steps_first_reached(g, start, w)
    &&& steps_in_visit_order(w)
    &&& forall|e: int| #![trigger g.edges[e]] 0 <= e < g.edges.len() && g.edges[e].callee == start && max >= 1
        ==> (g.edges[e].caller == start || exists|i: int| 0 <= i < w.len() && (#[trigger] w[i]).caller == g.edges[e].caller
            && w[i].depth == 1)
    &&& forall|e: int, j: int| #![trigger g.edges[e], w[j]] 0 <= e < g.edges.len() && 0 <= j < w.len()
        && g.edges[e].callee == w[j].caller && w[j].depth < max
        ==> (g.edges[e].caller == start || exists|i: int| 0 <= i < w.len() && (#[trigger] w[i]).caller == g.edges[e].caller
            && w[i].depth <= w[j].depth + 1)
}

/// A loaded call graph with pre-built indexes for fast querying.
pub struct Graph {
    repo_path: String,
    loaded: LoadQueryResult,
}

impl Graph {
    /// The graph, its edges and references joined, with the indexes built
    /// from it.
    #[verifier::type_invariant]
    pub closed spec fn inv(self) -> bool {
        &&& self.loaded.payload.wf()
        &&& graph_joined(self.loaded.payload.graph@)
    }

    /// The call graph.
    pub closed spec fn spec_graph(&self) -> CallGraphV {
        self.loaded.payload.graph@
    }

    /// The index from files to function spans.
    pub closed spec fn spec_index(&self) -> Map<Seq<char>, Vec<(usize, usize, usize)>> {
        self.loaded.payload.function_index.by_file@
    }

    /// The repository the graph was built from.
    pub closed spec fn spec_repo_path(&self) -> Seq<char> {
        self.repo_path@
    }

    /// A graph over what a load produced.
    pub fn new(repo_path: String, loaded: LoadQueryResult) -> (res: Graph)
        requires
            loaded.payload.wf(),
            graph_joined(loaded.payload.graph@),
        ensures
            res.spec_graph() == loaded.payload.graph@,
            res.spec_index() == loaded.payload.function_index.by_file@,
            res.spec_repo_path() == repo_path@,
    {
        Graph { repo_path, loaded }
    }

    /// A graph over what a load produced, with its query indexes built
    /// anew; none when the graph's node ids are not its positions or an edge
    /// or reference leaves it.
    pub fn from_load(repo_path: String, loaded: LoadQueryResult) -> (res: Option<Graph>)
        ensures
            res is Some <==> graph_wf(loaded.payload.graph@),
            res matches Some(g) ==> g.spec_graph() == loaded.payload.graph@ && g.spec_repo_path() == repo_path@
                && index_spec(g.spec_index(), loaded.payload.graph@.nodes),
    {
        if !graph_is_wf(&loaded.payload.graph) {
            return None;
        }
        let LoadQueryResult { payload, outcome } = loaded;
        let payload = QueryCachePayload::from_graph(payload.graph);
        Some(Graph { repo_path, loaded: LoadQueryResult { payload, outcome } })
    }

    /// Settings for loading the graph of the repository at `path`.
    pub fn builder(path: String) -> (res: GraphBuilder)
        ensures
            res.spec_repo_path() == path@,
            !res.spec_include_tests(),
    {
        GraphBuilder::new(path)
    }

    /// Total number of function nodes in the graph.
    pub fn node_count(&self) -> (res: usize)
        ensures
            res == self.spec_graph().nodes.len(),
    {
        self.loaded.payload.graph.nodes.len()
    }

    /// The underlying call graph.
    pub fn raw(&self) -> (res: &CallGraph)
        ensures
            res@ == self.spec_graph(),
    {
        &self.loaded.payload.graph
    }

    fn payload(&self) -> (res: &QueryCachePayload)
        ensures
            *res == self.loaded.payload,
    {
        &self.loaded.payload
    }

    /// The function at a file path and line number: of the functions whose
    /// lines hold it, the one that starts last.
    pub fn function_at(&self, file: &str, line: usize) -> (res: Option<NodeId>)
        ensures
            res == match lookup_spec(self.spec_index(), file@, line) {
                Some(i) => Some(NodeId(i)),
                None => None,
            },
    {
        proof {
            use_type_invariant(self);
            lemma_index_sorted(self.loaded.payload.function_index.by_file@, self.loaded.payload.graph@.nodes);
        }
        match self.payload().function_index.lookup(file, line) {
            Some(i) => Some(NodeId(i)),
            None => None,
        }
    }

    /// All functions with a simple name (e.g., `"new"`), in graph order.
    pub fn functions_by_name(&self, name: &str) -> (res: Vec<NodeId>)
        ensures
            res@ == node_ids(nodes_where(self.spec_graph().nodes, named(name@), self.spec_graph().nodes.len())),
    {
        let ghost nodes = self.spec_graph().nodes;
        let ghost p = named(name@);
        let nodes_vec = &self.payload().graph.nodes;
        let mut res: Vec<NodeId> = Vec::new();
        let mut i: usize = 0;
        while i < nodes_vec.len()
            invariant
                i <= nodes_vec@.len(),
                nodes == self.spec_graph().nodes,
                nodes_vec@.len() == nodes.len(),
                forall|k: int| 0 <= k < nodes.len() ==> nodes[k] == (#[trigger] nodes_vec@[k])@,
                res@ == node_ids(nodes_where(nodes, p, i as nat)),
                p == named(name@),
            decreases nodes_vec@.len() - i,
        {
            let ghost prev = res@;
            assert(nodes[i as int] == nodes_vec@[i as int]@);
            let hit = str_eq(nodes_vec[i].name.as_str(), name);
            assert(hit == p(i as int, nodes[i as int]));
            if hit {
                res.push(NodeId(i));
                assert(nodes_where(nodes, p, (i + 1) as nat) == nodes_where(nodes, p, i as nat).push(i));
                assert(res@ =~= node_ids(nodes_where(nodes, p, (i + 1) as nat)));
            } else {
                assert(nodes_where(nodes, p, (i + 1) as nat) == nodes_where(nodes, p, i as nat));
            }
            i = i + 1;
        }
        res
    }

    /// All functions with a qualified name (e.g., `"MyStruct::new"`), in
    /// graph order.
    pub fn functions_by_qualified_name(&self, qualified_name: &str) -> (res: Vec<NodeId>)
        ensures
            res@ == node_ids(nodes_where(self.spec_graph().nodes, qualified_as(qualified_name@),
                self.spec_graph().nodes.len())),
    {
        let ghost nodes = self.spec_graph().nodes;
        let ghost p = qualified_as(qualified_name@);
        let nodes_vec = &self.payload().graph.nodes;
        let mut res: Vec<NodeId> = Vec::new();
        let mut i: usize = 0;
        while i < nodes_vec.len()
            invariant
                i <= nodes_vec@.len(),
                nodes == self.spec_graph().nodes,
                nodes_vec@.len() == nodes.len(),
                forall|k: int| 0 <= k < nodes.len() ==> nodes[k] == (#[trigger] nodes_vec@[k])@,
                res@ == node_ids(nodes_where(nodes, p, i as nat)),
                p == qualified_as(qualified_name@),
            decreases nodes_vec@.len() - i,
        {
            let ghost prev = res@;
            assert(nodes[i as int] == nodes_vec@[i as int]@);
            let hit = str_eq(nodes_vec[i].qualified_name.as_str(), qualified_name);
            assert(hit == p(i as int, nodes[i as int]));
            if hit {
                res.push(NodeId(i));
                assert(nodes_where(nodes, p, (i + 1) as nat) == nodes_where(nodes, p, i as nat).push(i));
                assert(res@ =~= node_ids(nodes_where(nodes, p, (i + 1) as nat)));
            } else {
                assert(nodes_where(nodes, p, (i + 1) as nat) == nodes_where(nodes, p, i as nat));
            }
            i = i + 1;
        }
        res
    }

    /// All function nodes in the graph.
    pub fn functions(&self) -> (res: Vec<NodeId>)
        ensures
            res@.len() == self.spec_graph().nodes.len(),
            forall|i: int| 0 <= i < res@.len() ==> (#[trigger] res@[i]).0 == i,
    {
        let n = self.payload().graph.nodes.len();
        let mut res: Vec<NodeId> = Vec::new();
        let mut i: usize = 0;
        while i < n
            invariant
                i <= n,
                n == self.spec_graph().nodes.len(),
                res@.len() == i,
                forall|k: int| 0 <= k < i ==> (#[trigger] res@[k]).0 == k,
            decreases n - i,
        {
            res.push(NodeId(i));
            i = i + 1;
        }
        res
    }

    /// Simple function name.
    pub fn function_name(&self, node: NodeId) -> (res: &str)
        requires
            node.0 < self.spec_graph().nodes.len(),
        ensures
            res@ == self.spec_graph().nodes[node.0 as int].name,
    {
        self.payload().graph.nodes[node.0].name.as_str()
    }

    /// Fully qualified name (e.g., `MyStruct::new`).
    pub fn function_qualified_name(&self, node: NodeId) -> (res: &str)
        requires
            node.0 < self.spec_graph().nodes.len(),
        ensures
            res@ == self.spec_graph().nodes[node.0 as int].qualified_name,
    {
        self.payload().graph.nodes[node.0].qualified_name.as_str()
    }

    /// File path relative to the repository root.
    pub fn function_file(&self, node: NodeId) -> (res: &str)
        requires
            node.0 < self.spec_graph().nodes.len(),
        ensures
            res@ == self.spec_graph().nodes[node.0 as int].file,
    {
        self.payload().graph.nodes[node.0].file.as_str()
    }

    /// Line number where the function is defined.
    pub fn function_line(&self, node: NodeId) -> (res: usize)
        requires
            node.0 < self.spec_graph().nodes.len(),
        ensures
            res == self.spec_graph().nodes[node.0 as int].line,
    {
        self.payload().graph.nodes[node.0].line
    }

    /// End line of the function definition.
    pub fn function_end_line(&self, node: NodeId) -> (res: usize)
        requires
            node.0 < self.spec_graph().nodes.len(),
        ensures
            res == self.spec_graph().nodes[node.0 as int].end_line,
    {
        self.payload().graph.nodes[node.0].end_line
    }

    /// Whether this function is in test code.
    pub fn function_is_test(&self, node: NodeId) -> (res: bool)
        requires
            node.0 < self.spec_graph().nodes.len(),
        ensures
            res == self.spec_graph().nodes[node.0 as int].is_test,
    {
        self.payload().graph.nodes[node.0].is_test
    }
}

/// Functions no one calls or references, other than `main` and tests.
pub open spec fn unused_in(g: CallGraphV) -> spec_fn(int, GraphNodeV) -> bool {
    |i: int, n: GraphNodeV| !n.is_test && n.name != "main"@
        && edges_into(g.edges, i, g.edges.len()).len() == 0
        && references_to(g.references, i, g.references.len()).len() == 0
}

/// No edge among the first `k` ends in `c` exactly when the list of those
/// edges is empty.
proof fn lemma_edges_into_none(edges: Seq<GraphEdgeV>, c: int, k: nat)
    requires
        k <= edges.len(),
    ensures
        edges_into(edges, c, k).len() == 0 <==> forall|j: int| 0 <= j < k ==> (#[trigger] edges[j]).callee != c,
    decreases k,
{
    if k > 0 {
        lemma_edges_into_none(edges, c, (k - 1) as nat);
    }
}

/// No reference among the first `k` points at `c` exactly when the list of
/// those references is empty.
proof fn lemma_references_to_none(refs: Seq<GraphReferenceV>, c: int, k: nat)
    requires
        k <= refs.len(),
    ensures
        references_to(refs, c, k).len() == 0 <==> forall|j: int| 0 <= j < k ==> (#[trigger] refs[j]).target != c,
    decreases k,
{
    if k > 0 {
        lemma_references_to_none(refs, c, (k - 1) as nat);
    }
}

/// The nodes below `k` that satisfy `p` are exactly those listed.
proof fn lemma_nodes_where_exact(nodes: Seq<GraphNodeV>, p: spec_fn(int, GraphNodeV) -> bool, k: nat)
    requires
        k <= nodes.len() <= usize::MAX,
    ensures
        forall|a: int| 0 <= a < nodes_where(nodes, p, k).len()
            ==> #[trigger] nodes_where(nodes, p, k)[a] < k && p(nodes_where(nodes, p, k)[a] as int,
                nodes[nodes_where(nodes, p, k)[a] as int]),
        forall|i: int| 0 <= i < k && #[trigger] p(i, nodes[i])
            ==> nodes_where(nodes, p, k).contains(i as usize),
    decreases k,
{
    if k > 0 {
        lemma_nodes_where_exact(nodes, p, (k - 1) as nat);
        let prev = nodes_where(nodes, p, (k - 1) as nat);
        let cur = nodes_where(nodes, p, k);
        if p(k - 1, nodes[k - 1]) {
            assert(cur == prev.push((k - 1) as usize));
            assert forall|a: int| 0 <= a < cur.len() implies #[trigger] cur[a] < k && p(cur[a] as int,
                nodes[cur[a] as int]) by {
                if a < prev.len() {
                    assert(cur[a] == prev[a]);
                }
            }
            assert forall|i: int| 0 <= i < k && #[trigger] p(i, nodes[i]) implies cur.contains(i as usize) by {
                if i < k - 1 {
                    let a = choose|a: int| 0 <= a < prev.len() && prev[a] == i as usize;
                    assert(cur[a] == prev[a]);
                } else {
                    assert(cur[prev.len() as int] == (k - 1) as usize);
                }
            }
        }
    }
}

/// Law: a function is reported unreachable exactly when it is neither a
/// test nor `main` and nothing reaches it: no edge of the graph calls it
/// and no reference of the graph names it. A function only passed as a
/// callback is therefore never reported.
pub proof fn law_unreachable_means_unused(g: CallGraphV, res: Seq<NodeId>)
    requires
        res == node_ids(nodes_where(g.nodes, unused_in(g), g.nodes.len())),
        g.nodes.len() <= usize::MAX,
    ensures
        forall|k: int| 0 <= k < res.len() ==> {
            let i = (#[trigger] res[k]).0;
            &&& i < g.nodes.len()
            &&& !g.nodes[i as int].is_test
            &&& g.nodes[i as int].name != "main"@
            &&& forall|j: int| 0 <= j < g.edges.len() ==> (#[trigger] g.edges[j]).callee != i
            &&& forall|j: int| 0 <= j < g.references.len() ==> (#[trigger] g.references[j]).target != i
        },
        forall|i: int| 0 <= i < g.nodes.len() && !(#[trigger] g.nodes[i]).is_test && g.nodes[i].name != "main"@
            && (forall|j: int| 0 <= j < g.edges.len() ==> (#[trigger] g.edges[j]).callee != i)
            && (forall|j: int| 0 <= j < g.references.len() ==> (#[trigger] g.references[j]).target != i)
            ==> exists|k: int| 0 <= k < res.len() && res[k].0 == i,
{
    let q = unused_in(g);
    let ids = nodes_where(g.nodes, q, g.nodes.len());
    lemma_nodes_where_exact(g.nodes, q, g.nodes.len());
    assert forall|k: int| 0 <= k < res.len() implies {
        let i = (#[trigger] res[k]).0;
        &&& i < g.nodes.len()
        &&& !g.nodes[i as int].is_test
        &&& g.nodes[i as int].name != "main"@
        &&& forall|j: int| 0 <= j < g.edges.len() ==> (#[trigger] g.edges[j]).callee != i
        &&& forall|j: int| 0 <= j < g.references.len() ==> (#[trigger] g.references[j]).target != i
    } by {
        let i = ids[k];
        assert(res[k] == NodeId(ids[k]));
        assert(q(i as int, g.nodes[i as int]));
        lemma_edges_into_none(g.edges, i as int, g.edges.len());
        lemma_references_to_none(g.references, i as int, g.references.len());
    }
    assert forall|i: int| 0 <= i < g.nodes.len() && !(#[trigger] g.nodes[i]).is_test && g.nodes[i].name != "main"@
        && (forall|j: int| 0 <= j < g.edges.len() ==> (#[trigger] g.edges[j]).callee != i)
        && (forall|j: int| 0 <= j < g.references.len() ==> (#[trigger] g.references[j]).target != i)
        implies exists|k: int| 0 <= k < res.len() && res[k].0 == i by {
        lemma_edges_into_none(g.edges, i, g.edges.len());
        lemma_references_to_none(g.references, i, g.references.len());
        assert(q(i, g.nodes[i]));
        assert(ids.contains(i as usize));
        let k = choose|k: int| 0 <= k < ids.len() && ids[k] == i as usize;
        assert(res[k] == NodeId(ids[k]));
    }
}

/// `n` flags, all unset.
fn unset_flags(n: usize) -> (res: Vec<bool>)
    ensures
        res@.len() == n,
        forall|i: int| 0 <= i < n ==> !(#[trigger] res@[i]),
{
    let mut res: Vec<bool> = Vec::new();
    let mut i: usize = 0;
    while i < n
        invariant
            i <= n,
            res@.len() == i,
            forall|k: int| 0 <= k < i ==> !(#[trigger] res@[k]),
        decreases n - i,
    {
        res.push(false);
        i = i + 1;
    }
    res
}

/// One more element at the end of a list: kept unless already there.
proof fn lemma_first_occurrences_push(s: Seq<usize>, x: usize)
    ensures
        first_occurrences(s.push(x)) == if first_occurrences(s).contains(x) {
            first_occurrences(s)
        } else {
            first_occurrences(s).push(x)
        },
{
    assert(s.push(x).drop_last() =~= s);
    lemma_first_occurrences(s);
}

impl Graph {
    /// The direct callees of `node`, each once, in the order of their first
    /// call.
    pub fn callees(&self, node: NodeId) -> (res: Vec<NodeId>)
        ensures
            res@ == node_ids(first_occurrences(callees_listed(self.spec_graph().edges, node.0 as int,
                self.spec_graph().edges.len()))),
    {
        proof {
            use_type_invariant(self);
        }
        let ghost g = self.spec_graph();
        let graph = &self.payload().graph;
        let n = graph.nodes.len();
        let mut seen = unset_flags(n);
        let mut res: Vec<NodeId> = Vec::new();
        let mut i: usize = 0;
        while i < graph.edges.len()
            invariant
                g == graph@,
                n == g.nodes.len(),
                graph_joined(g),
                i <= g.edges.len(),
                seen@.len() == n,
                res@ == node_ids(first_occurrences(callees_listed(g.edges, node.0 as int, i as nat))),
                forall|c: int| 0 <= c < n ==> (#[trigger] seen@[c]
                    <==> first_occurrences(callees_listed(g.edges, node.0 as int, i as nat)).contains(c as usize)),
            decreases g.edges.len() - i,
        {
            let ghost listed = callees_listed(g.edges, node.0 as int, i as nat);
            proof {
                lemma_first_occurrences(listed);
            }
            assert(g.edges[i as int] == graph.edges@[i as int]@);
            let caller = graph.edges[i].caller;
            let callee = graph.edges[i].callee;
            assert(callee < n);
            if caller == node.0 {
                proof {
                    lemma_first_occurrences_push(listed, callee);
                }
                assert(callees_listed(g.edges, node.0 as int, (i + 1) as nat) == listed.push(callee));
                if !seen[callee] {
                    seen.set(callee, true);
                    res.push(NodeId(callee));
                    assert(res@ =~= node_ids(first_occurrences(listed).push(callee)));
                    proof {
                        lemma_first_occurrences(listed.push(callee));
                        assert forall|c: int| 0 <= c < n implies (#[trigger] seen@[c]
                            <==> first_occurrences(listed.push(callee)).contains(c as usize)) by {
                            assert(first_occurrences(listed.push(callee)).contains(c as usize)
                                <==> listed.push(callee).contains(c as usize));
                            assert(first_occurrences(listed).contains(c as usize) <==> listed.contains(c as usize));
                            if c != callee {
                                assert(listed.push(callee).contains(c as usize) ==> listed.contains(c as usize)) by {
                                    if listed.push(callee).contains(c as usize) {
                                        let k = choose|k: int| 0 <= k < listed.push(callee).len()
                                            && listed.push(callee)[k] == c as usize;
                                        assert(listed[k] == c as usize);
                                    }
                                }
                                assert(listed.contains(c as usize) ==> listed.push(callee).contains(c as usize)) by {
                                    if listed.contains(c as usize) {
                                        let k = choose|k: int| 0 <= k < listed.len() && listed[k] == c as usize;
                                        assert(listed.push(callee)[k] == c as usize);
                                    }
                                }
                            } else {
                                assert(listed.push(callee)[listed.len() as int] == callee);
                            }
                        }
                    }
                } else {
                    assert(first_occurrences(listed).contains(callee));
                }
            } else {
                assert(callees_listed(g.edges, node.0 as int, (i + 1) as nat) == listed);
            }
            i = i + 1;
        }
        res
    }

    /// Number of functions `node` calls.
    pub fn fan_out(&self, node: NodeId) -> (res: usize)
        ensures
            res == first_occurrences(callees_listed(self.spec_graph().edges, node.0 as int,
                self.spec_graph().edges.len())).len(),
    {
        self.callees(node).len()
    }

    /// Number of distinct functions that directly call `node`.
    pub fn fan_in(&self, node: NodeId) -> (res: usize)
        requires
            node.0 < self.spec_graph().nodes.len(),
        ensures
            res == first_occurrences(callers_of(self.spec_graph(), node.0 as int)).len(),
    {
        proof {
            use_type_invariant(self);
        }
        let ghost g = self.spec_graph();
        let p = self.payload();
        let n = p.graph.nodes.len();
        let calls = &p.backward_calls[node.0];
        let ghost into = edges_into(g.edges, node.0 as int, g.edges.len());
        assert(calls@ == into);
        proof {
            lemma_edges_into_bounded(g.edges, node.0 as int, g.edges.len());
        }
        let mut seen = unset_flags(n);
        let mut count: usize = 0;
        let mut j: usize = 0;
        while j < calls.len()
            invariant
                g == p.graph@,
                n == g.nodes.len(),
                graph_joined(g),
                calls@ == into,
                forall|k: int| 0 <= k < into.len() ==> (#[trigger] into[k]) < g.edges.len(),
                j <= into.len(),
                seen@.len() == n,
                count == first_occurrences(into.take(j as int).map_values(|e: usize| g.edges[e as int].caller)).len(),
                forall|c: int| 0 <= c < n ==> (#[trigger] seen@[c] <==>
                    first_occurrences(into.take(j as int).map_values(|e: usize| g.edges[e as int].caller)).contains(c as usize)),
            decreases into.len() - j,
        {
            let ghost prefix = into.take(j as int).map_values(|e: usize| g.edges[e as int].caller);
            proof {
                lemma_first_occurrences(prefix);
            }
            let e = calls[j];
            assert(g.edges[e as int] == p.graph.edges@[e as int]@);
            let caller = p.graph.edges[e].caller;
            assert(into.take(j + 1).map_values(|e: usize| g.edges[e as int].caller) =~= prefix.push(caller));
            proof {
                lemma_first_occurrences_push(prefix, caller);
                lemma_first_occurrences(prefix.push(caller));
            }
            if !seen[caller] {
                seen.set(caller, true);
                proof {
                    lemma_first_occurrences(prefix);
                    assert(first_occurrences(prefix).len() < n) by {
                        assert forall|k: int| 0 <= k < first_occurrences(prefix).len()
                            implies (#[trigger] first_occurrences(prefix)[k]) < n by {
                            assert(first_occurrences(prefix).contains(first_occurrences(prefix)[k]));
                            let x = first_occurrences(prefix)[k];
                            assert(prefix.contains(x));
                            let m = choose|m: int| 0 <= m < prefix.len() && prefix[m] == x;
                            assert(into[m] < g.edges.len());
                        }
                        let fo = first_occurrences(prefix).push(caller);
                        assert(fo.no_duplicates()) by {
                            lemma_first_occurrences(prefix.push(caller));
                        }
                        assert forall|k: int| 0 <= k < fo.len() implies (#[trigger] fo[k]) < n by {
                            if k < fo.len() - 1 {
                                assert(fo[k] == first_occurrences(prefix)[k]);
                            }
                        }
                        lemma_distinct_bounded(fo, n as nat);
                    }
                }
                count = count + 1;
            }
            proof {
                assert forall|c: int| 0 <= c < n implies (#[trigger] seen@[c] <==>
                    first_occurrences(prefix.push(caller)).contains(c as usize)) by {
                    assert(first_occurrences(prefix.push(caller)).contains(c as usize)
                        <==> prefix.push(caller).contains(c as usize));
                    assert(first_occurrences(prefix).contains(c as usize) <==> prefix.contains(c as usize));
                    if c != caller {
                        if prefix.push(caller).contains(c as usize) {
                            let k = choose|k: int| 0 <= k < prefix.push(caller).len() && prefix.push(caller)[k] == c as usize;
                            assert(prefix[k] == c as usize);
                        }
                        if prefix.contains(c as usize) {
                            let k = choose|k: int| 0 <= k < prefix.len() && prefix[k] == c as usize;
                            assert(prefix.push(caller)[k] == c as usize);
                        }
                    } else {
                        assert(prefix.push(caller)[prefix.len() as int] == caller);
                    }
                }
            }
            j = j + 1;
        }
        assert(into.take(into.len() as int) =~= into);
        count
    }

    /// Functions with no callers and no references (potential dead code),
    /// other than `main` and test functions.
    pub fn unreachable_functions(&self) -> (res: Vec<NodeId>)
        ensures
            res@ == node_ids(nodes_where(self.spec_graph().nodes, unused_in(self.spec_graph()),
                self.spec_graph().nodes.len())),
            forall|k: int| 0 <= k < res@.len() ==> {
                let i = (#[trigger] res@[k]).0;
                &&& i < self.spec_graph().nodes.len()
                &&& forall|j: int| 0 <= j < self.spec_graph().edges.len()
                    ==> (#[trigger] self.spec_graph().edges[j]).callee != i
                &&& forall|j: int| 0 <= j < self.spec_graph().references.len()
                    ==> (#[trigger] self.spec_graph().references[j]).target != i
            },
    {
        proof {
            use_type_invariant(self);
        }
        let ghost g = self.spec_graph();
        let ghost q = unused_in(g);
        let p = self.payload();
        let nodes_vec = &p.graph.nodes;
        let mut res: Vec<NodeId> = Vec::new();
        let mut i: usize = 0;
        while i < nodes_vec.len()
            invariant
                g == p.graph@,
                q == unused_in(g),
                p.wf(),
                nodes_vec == &p.graph.nodes,
                i <= nodes_vec@.len(),
                res@ == node_ids(nodes_where(g.nodes, q, i as nat)),
            decreases nodes_vec@.len() - i,
        {
            assert(g.nodes[i as int] == nodes_vec@[i as int]@);
            let node = &nodes_vec[i];
            let hit = !node.is_test && !str_eq(node.name.as_str(), "main")
                && p.backward_calls[i].len() == 0 && p.backward_references[i].len() == 0;
            assert(hit == q(i as int, g.nodes[i as int]));
            if hit {
                res.push(NodeId(i));
                assert(res@ =~= node_ids(nodes_where(g.nodes, q, (i + 1) as nat)));
            } else {
                assert(nodes_where(g.nodes, q, (i + 1) as nat) == nodes_where(g.nodes, q, i as nat));
            }
            i = i + 1;
        }
        proof {
            law_unreachable_means_unused(g, res@);
        }
        res
    }

    /// The places where `node` is referenced (e.g., passed as an argument),
    /// in graph order.
    pub fn references(&self, node: NodeId) -> (res: Vec<Reference>)
        requires
            node.0 < self.spec_graph().nodes.len(),
        ensures
            res@.len() == references_to(self.spec_graph().references, node.0 as int,
                self.spec_graph().references.len()).len(),
            forall|i: int| 0 <= i < res@.len() ==> (#[trigger] res@[i])@ == reference_view(self.spec_graph(),
                references_to(self.spec_graph().references, node.0 as int, self.spec_graph().references.len())[i] as int),
    {
        proof {
            use_type_invariant(self);
        }
        let ghost g = self.spec_graph();
        let p = self.payload();
        let refs = &p.backward_references[node.0];
        let ghost into = references_to(g.references, node.0 as int, g.references.len());
        assert(refs@ == into);
        proof {
            lemma_references_to_bounded(g.references, node.0 as int, g.references.len());
        }
        let mut res: Vec<Reference> = Vec::new();
        let mut j: usize = 0;
        while j < refs.len()
            invariant
                g == p.graph@,
                graph_joined(g),
                refs@ == into,
                forall|k: int| 0 <= k < into.len() ==> (#[trigger] into[k]) < g.references.len(),
                j <= into.len(),
                res@.len() == j,
                forall|i: int| 0 <= i < j ==> (#[trigger] res@[i])@ == reference_view(g, into[i] as int),
            decreases into.len() - j,
        {
            let r = refs[j];
            assert(g.references[r as int] == p.graph.references@[r as int]@);
            let reference = &p.graph.references[r];
            let referencer = reference.referencer;
            assert(g.nodes[referencer as int] == p.graph.nodes@[referencer as int]@);
            let n = &p.graph.nodes[referencer];
            let item = Reference {
                file: n.file.clone(),
                function: n.name.clone(),
                qualified_name: n.qualified_name.clone(),
                line: n.line,
                is_test: n.is_test,
                context: clone_opt_string(&reference.context),
            };
            assert(item@ == reference_view(g, r as int));
            res.push(item);
            j = j + 1;
        }
        res
    }
}

/// Whether some step of the walk reaches `c`.
pub open spec fn reached(w: Seq<Step>, c: usize) -> bool {
    exists|i: int| 0 <= i < w.len() && (#[trigger] w[i]).caller == c
}

/// The `q`-th function a walk from `start` visits: `start` itself, then
/// the steps in order.
pub open spec fn visit_node(start: usize, w: Seq<Step>, q: int) -> usize {
    if q == 0 { start } else { w[q - 1].caller }
}

/// How deep the `q`-th visited function lies.
pub open spec fn visit_depth(w: Seq<Step>, q: int) -> usize {
    if q == 0 { 0 } else { w[q - 1].depth }
}

/// Each step is justified by an edge into `start` or into an earlier step
/// one level up.
pub open spec fn steps_justified(g: CallGraphV, start: usize, max: usize, w: Seq<Step>) -> bool {
    forall|i: int| 0 <= i < w.len() ==> {
        let s = #[trigger] w[i];
        &&& 1 <= s.depth <= max
        &&& s.edge < g.edges.len()
        &&& g.edges[s.edge as int].caller == s.caller
        &&& s.caller != start
        &&& s.caller < g.nodes.len()
        &&& (s.depth == 1 ==> g.edges[s.edge as int].callee == start)
        &&& (s.depth > 1 ==> exists|j: int| 0 <= j < i && w[j].depth == s.depth - 1
                && w[j].caller == g.edges[s.edge as int].callee)
    }
}

/// No function is reached twice and the depths never decrease.
pub open spec fn steps_ordered(w: Seq<Step>) -> bool {
    forall|i: int, j: int| 0 <= i < j < w.len() ==> w[i].caller != w[j].caller && w[i].depth <= w[j].depth
}

/// Some step of the walk reaches `c` at most `d` levels deep.
pub open spec fn reached_within(w: Seq<Step>, c: usize, d: int) -> bool {
    exists|i: int| 0 <= i < w.len() && (#[trigger] w[i]).caller == c && w[i].depth <= d
}

/// Each step records the visit of the function its edge calls: one made
/// before the step, one level up.
#[verifier::opaque]
pub open spec fn steps_via(g: CallGraphV, start: usize, w: Seq<Step>) -> bool {
    forall|i: int| 0 <= i < w.len() ==> {
        let s = #[trigger] w[i];
        &&& s.via <= i
        &&& s.edge < g.edges.len()
        &&& visit_node(start, w, s.via as int) == g.edges[s.edge as int].callee
        &&& visit_depth(w, s.via as int) + 1 == s.depth
    }
}

/// Each step's edge is the first by which a breadth-first search meets
/// its function: no edge of that function calls a function visited
/// earlier, and among its edges into the function it is reached from, it
/// is the lowest-numbered.
#[verifier::opaque]
pub open spec fn steps_first_reached(g: CallGraphV, start: usize, w: Seq<Step>) -> bool {
    forall|i: int, e: int, q: int| #![trigger w[i], g.edges[e], visit_node(start, w, q)]
        0 <= i < w.len() && 0 <= e < g.edges.len() && g.edges[e].caller == w[i].caller
        && 0 <= q <= w.len() && g.edges[e].callee == visit_node(start, w, q)
        ==> w[i].via < q || (w[i].via == q && w[i].edge <= e)
}

/// The steps come in the order a breadth-first search meets them: by the
/// visit they are reached from, then by edge number.
#[verifier::opaque]
pub open spec fn steps_in_visit_order(w: Seq<Step>) -> bool {
    forall|i: int, k: int| 0 <= i < k < w.len() ==> w[i].via < w[k].via || (w[i].via == w[k].via && w[i].edge < w[k].edge)
}

/// The edges into a function are listed in increasing order.
proof fn lemma_edges_into_increasing(edges: Seq<GraphEdgeV>, callee: int, k: nat)
    requires
        edges.len() <= usize::MAX,
    ensures
        forall|a: int, b: int| 0 <= a < b < edges_into(edges, callee, k).len()
            ==> edges_into(edges, callee, k)[a] < edges_into(edges, callee, k)[b],
    decreases k,
{
    if k > 0 && k <= edges.len() {
        lemma_edges_into_increasing(edges, callee, (k - 1) as nat);
        lemma_edges_into_bounded(edges, callee, (k - 1) as nat);
        let prev = edges_into(edges, callee, (k - 1) as nat);
        let cur = edges_into(edges, callee, k);
        if edges[k - 1].callee == callee {
            assert(cur == prev.push((k - 1) as usize));
            assert forall|a: int, b: int| 0 <= a < b < cur.len() implies cur[a] < cur[b] by {
                assert(cur[a] == prev[a]);
                if b < prev.len() {
                    assert(cur[b] == prev[b]);
                } else {
                    assert(prev[a] < k - 1);
                }
            }
        }
    }
}

/// Pushing a newly met caller keeps the walk's record of visits, its
/// first-reach edges and its order.
#[verifier::spinoff_prover]
proof fn lemma_push_first(g: CallGraphV, start: usize, max: usize, w0: Seq<Step>, w1: Seq<Step>, h: int,
    into: Seq<usize>, j: int, step: Step)
    requires
        steps_via(g, start, w1),
        steps_first_reached(g, start, w1),
        steps_in_visit_order(w1),
        steps_ordered(w1),
        forall|i: int| 0 <= i < w1.len() ==> (#[trigger] w1[i]).depth >= 1,
        visits_expanded(g, start, max, w1, h),
        w0.len() <= w1.len(),
        forall|i: int| 0 <= i < w0.len() ==> w1[i] == w0[i],
        0 <= h <= w0.len(),
        visit_depth(w0, h) < max,
        into == edges_into(g.edges, visit_node(start, w0, h) as int, g.edges.len()),
        g.edges.len() <= usize::MAX,
        forall|a: int, b: int| 0 <= a < b < into.len() ==> into[a] < into[b],
        0 <= j < into.len(),
        step.edge == into[j],
        step.via == h,
        step.depth == visit_depth(w0, h) + 1,
        step.edge < g.edges.len(),
        g.edges[step.edge as int].caller == step.caller,
        g.edges[step.edge as int].callee == visit_node(start, w0, h),
        step.caller != start,
        !reached(w1, step.caller),
        forall|k: int| 0 <= k < j ==> (g.edges[(#[trigger] into[k]) as int].caller == start
            || reached_within(w1, g.edges[into[k] as int].caller, step.depth as int)),
        forall|i: int| 0 <= i < w1.len() ==> ((#[trigger] w1[i]).via < h
            || (w1[i].via == h && exists|k: int| 0 <= k < j && w1[i].edge == into[k])),
    ensures
        steps_via(g, start, w1.push(step)),
        steps_first_reached(g, start, w1.push(step)),
        steps_in_visit_order(w1.push(step)),
{
    reveal(steps_via);
    reveal(steps_first_reached);
    reveal(steps_in_visit_order);
    let w2 = w1.push(step);
    let n = w1.len() as int;
    assert(w2[n] == step);
    assert(visit_node(start, w2, h) == visit_node(start, w0, h)) by {
        if h > 0 {
            assert(w2[h - 1] == w1[h - 1]);
            assert(w1[h - 1] == w0[h - 1]);
        }
    }
    assert(visit_depth(w2, h) == visit_depth(w0, h)) by {
        if h > 0 {
            assert(w2[h - 1] == w1[h - 1]);
        }
    }
    assert forall|q: int| 0 <= q <= n implies visit_node(start, w2, q) == visit_node(start, w1, q)
        && visit_depth(w2, q) == visit_depth(w1, q) by {
        if q > 0 {
            assert(w2[q - 1] == w1[q - 1]);
        }
    }
    assert forall|i: int| 0 <= i < w2.len() implies {
        let s = #[trigger] w2[i];
        &&& s.via <= i
        &&& s.edge < g.edges.len()
        &&& visit_node(start, w2, s.via as int) == g.edges[s.edge as int].callee
        &&& visit_depth(w2, s.via as int) + 1 == s.depth
    } by {
        if i < n {
            assert(w2[i] == w1[i]);
        }
    }
    assert forall|i: int, e: int, q: int| #![trigger w2[i], g.edges[e], visit_node(start, w2, q)]
        0 <= i < w2.len() && 0 <= e < g.edges.len() && g.edges[e].caller == w2[i].caller
        && 0 <= q <= w2.len() && g.edges[e].callee == visit_node(start, w2, q)
        implies w2[i].via < q || (w2[i].via == q && w2[i].edge <= e) by {
        if i < n {
            assert(w2[i] == w1[i]);
            if q <= n {
                assert(visit_node(start, w1, q) == visit_node(start, w2, q));
                assert(w1[i].via < q || (w1[i].via == q && w1[i].edge <= e));
            }
        } else {
            let c = step.caller;
            if q < h {
                assert(visit_depth(w1, q) <= visit_depth(w1, h)) by {
                    if q > 0 {
                        assert(w1[q - 1].depth <= w1[h - 1].depth);
                    }
                }
                assert(visit_node(start, w1, q) == visit_node(start, w2, q));
                assert(visit_depth(w1, h) == visit_depth(w0, h)) by {
                    if h > 0 {
                        assert(w1[h - 1] == w0[h - 1]);
                    }
                }
                assert(c == start || reached_within(w1, c, visit_depth(w1, q) + 1));
                if reached_within(w1, c, visit_depth(w1, q) + 1) {
                    let x = choose|x: int| 0 <= x < w1.len() && (#[trigger] w1[x]).caller == c
                        && w1[x].depth <= visit_depth(w1, q) + 1;
                    assert(reached(w1, c));
                }
            } else if q == h {
                lemma_edges_into_contains(g.edges, visit_node(start, w0, h) as int, g.edges.len(), e);
                let k = choose|k: int| 0 <= k < into.len() && into[k] == e as usize;
                if e < step.edge {
                    if k >= j {
                        if k > j {
                            assert(into[j] < into[k]);
                        }
                    }
                    assert(k < j);
                    if reached_within(w1, c, step.depth as int) {
                        let x = choose|x: int| 0 <= x < w1.len() && (#[trigger] w1[x]).caller == c
                            && w1[x].depth <= step.depth;
                        assert(reached(w1, c));
                    }
                }
            }
        }
    }
    assert forall|i: int, k: int| 0 <= i < k < w2.len() implies w2[i].via < w2[k].via
        || (w2[i].via == w2[k].via && w2[i].edge < w2[k].edge) by {
        assert(w2[i] == w1[i]);
        if k < n {
            assert(w2[k] == w1[k]);
        } else {
            if w1[i].via == h {
                let kk = choose|kk: int| 0 <= kk < j && w1[i].edge == into[kk];
                assert(into[kk] < into[j]);
            }
        }
    }
}

/// Every caller of the first `h` visited functions that lie less deep than
/// `max` is `start` or reached at most one level deeper than the function
/// it calls.
pub open spec fn visits_expanded(g: CallGraphV, start: usize, max: usize, w: Seq<Step>, h: int) -> bool {
    forall|q: int, e: int| #![trigger visit_node(start, w, q), g.edges[e]]
        0 <= q < h && 0 <= e < g.edges.len() && g.edges[e].callee == visit_node(start, w, q)
        && visit_depth(w, q) < max
        ==> (g.edges[e].caller == start || reached_within(w, g.edges[e].caller, visit_depth(w, q) + 1))
}

/// Extending a walk keeps what was reached, as deep as it was.
proof fn lemma_reached_within_extend(w: Seq<Step>, x: Step, c: usize, d: int)
    requires
        reached_within(w, c, d),
    ensures
        reached_within(w.push(x), c, d),
{
    let i = choose|i: int| 0 <= i < w.len() && (#[trigger] w[i]).caller == c && w[i].depth <= d;
    assert(w.push(x)[i] == w[i]);
}

/// The flags mark `start` and the functions the walk reached.
pub open spec fn flags_match(seen: Seq<bool>, start: usize, w: Seq<Step>) -> bool {
    forall|c: int| 0 <= c < seen.len() ==> (#[trigger] seen[c] <==> (c == start || reached(w, c as usize)))
}

/// Extending a walk keeps what was reached.
proof fn lemma_reached_extend(w: Seq<Step>, x: Step, c: usize)
    requires
        reached(w, c),
    ensures
        reached(w.push(x), c),
{
    let i = choose|i: int| 0 <= i < w.len() && w[i].caller == c;
    assert(w.push(x)[i] == w[i]);
}

/// A walk that reaches no function twice, nor `start`, is shorter than the
/// graph.
proof fn lemma_walk_short(g: CallGraphV, start: usize, max: usize, w: Seq<Step>)
    requires
        steps_justified(g, start, max, w),
        steps_ordered(w),
        start < g.nodes.len(),
    ensures
        w.len() < g.nodes.len(),
{
    let cs = w.map_values(|s: Step| s.caller).push(start);
    assert forall|i: int, j: int| 0 <= i < cs.len() && 0 <= j < cs.len() && i != j implies cs[i] != cs[j] by {
        if i < w.len() && j < w.len() {
            if i < j {
                assert(w[i].caller != w[j].caller);
            } else {
                assert(w[j].caller != w[i].caller);
            }
        } else if i < w.len() {
            assert(w[i].caller != start);
        } else if j < w.len() {
            assert(w[j].caller != start);
        }
    }
    assert forall|i: int| 0 <= i < cs.len() implies (#[trigger] cs[i]) < g.nodes.len() by {
        if i < w.len() {
            assert(w[i].caller < g.nodes.len());
        }
    }
    lemma_distinct_bounded(cs, g.nodes.len());
}

/// Marking a newly reached function keeps the flags in step with the walk.
proof fn lemma_push_flags(seen: Seq<bool>, start: usize, w: Seq<Step>, step: Step)
    requires
        flags_match(seen, start, w),
        seen.len() <= usize::MAX,
        step.caller < seen.len(),
    ensures
        flags_match(seen.update(step.caller as int, true), start, w.push(step)),
{
    let s2 = seen.update(step.caller as int, true);
    let w2 = w.push(step);
    assert(w2[w.len() as int] == step);
    assert forall|x: int| 0 <= x < s2.len() implies (#[trigger] s2[x] <==> (x == start || reached(w2, x as usize))) by {
        if x != step.caller {
            if reached(w, x as usize) {
                lemma_reached_extend(w, step, x as usize);
            }
            if reached(w2, x as usize) {
                let i = choose|i: int| 0 <= i < w2.len() && w2[i].caller == x as usize;
                assert(i < w.len());
                assert(w[i].caller == x as usize);
            }
        }
    }
}

/// A step through an edge into the function being expanded is justified.
proof fn lemma_push_justified(g: CallGraphV, start: usize, max: usize, w0: Seq<Step>, w: Seq<Step>, h: int, step: Step)
    requires
        steps_justified(g, start, max, w),
        w0.len() <= w.len(),
        forall|i: int| 0 <= i < w0.len() ==> w[i] == w0[i],
        0 <= h <= w0.len(),
        visit_depth(w0, h) < max,
        step.depth == visit_depth(w0, h) + 1,
        step.edge < g.edges.len(),
        g.edges[step.edge as int].caller == step.caller,
        g.edges[step.edge as int].callee == visit_node(start, w0, h),
        step.caller != start,
        step.caller < g.nodes.len(),
        h > 0 ==> w0[h - 1].depth >= 1,
    ensures
        steps_justified(g, start, max, w.push(step)),
{
    let w2 = w.push(step);
    assert forall|i: int| 0 <= i < w2.len() implies {
        let s = #[trigger] w2[i];
        &&& 1 <= s.depth <= max
        &&& s.edge < g.edges.len()
        &&& g.edges[s.edge as int].caller == s.caller
        &&& s.caller != start
        &&& s.caller < g.nodes.len()
        &&& (s.depth == 1 ==> g.edges[s.edge as int].callee == start)
        &&& (s.depth > 1 ==> exists|j: int| 0 <= j < i && w2[j].depth == s.depth - 1
                && w2[j].caller == g.edges[s.edge as int].callee)
    } by {
        if i < w.len() {
            assert(w2[i] == w[i]);
            if w[i].depth > 1 {
                let j = choose|j: int| 0 <= j < i && w[j].depth == w[i].depth - 1
                    && w[j].caller == g.edges[w[i].edge as int].callee;
                assert(w2[j] == w[j]);
            }
        } else {
            assert(w2[i] == step);
            if h > 0 {
                assert(w2[h - 1] == w0[h - 1]);
            }
        }
    }
}

/// A step to a function not yet reached, no less deep than the others,
/// keeps the walk ordered.
proof fn lemma_push_ordered(w: Seq<Step>, step: Step)
    requires
        steps_ordered(w),
        !reached(w, step.caller),
        forall|i: int| 0 <= i < w.len() ==> (#[trigger] w[i]).depth <= step.depth,
    ensures
        steps_ordered(w.push(step)),
{
    let w2 = w.push(step);
    assert forall|a: int, b: int| 0 <= a < b < w2.len() implies w2[a].caller != w2[b].caller && w2[a].depth <= w2[b].depth by {
        assert(w2[a] == w[a]);
        if b == w.len() {
            assert(w2[b] == step);
            if w[a].caller == step.caller {
                assert(reached(w, step.caller));
            }
        } else {
            assert(w2[b] == w[b]);
        }
    }
}

/// Extending the walk keeps the expanded functions expanded.
proof fn lemma_push_expanded(g: CallGraphV, start: usize, max: usize, w: Seq<Step>, step: Step, h: int)
    requires
        visits_expanded(g, start, max, w, h),
        0 <= h <= w.len(),
    ensures
        visits_expanded(g, start, max, w.push(step), h),
{
    let w2 = w.push(step);
    assert forall|q: int, e: int| #![trigger visit_node(start, w2, q), g.edges[e]]
        0 <= q < h && 0 <= e < g.edges.len() && g.edges[e].callee == visit_node(start, w2, q)
        && visit_depth(w2, q) < max
        implies (g.edges[e].caller == start || reached_within(w2, g.edges[e].caller, visit_depth(w2, q) + 1)) by {
        if q > 0 {
            assert(w2[q - 1] == w[q - 1]);
        }
        assert(visit_node(start, w2, q) == visit_node(start, w, q));
        assert(visit_depth(w2, q) == visit_depth(w, q));
        if g.edges[e].caller != start {
            lemma_reached_within_extend(w, step, g.edges[e].caller, visit_depth(w, q) + 1);
        }
    }
}

/// What holds of a walk from `start` between two expansions, the first
/// `h` visited functions expanded.
pub open spec fn walk_state(g: CallGraphV, start: usize, max: usize, seen: Seq<bool>, w: Seq<Step>, h: int) -> bool {
    &&& start < g.nodes.len()
    &&& seen.len() == g.nodes.len()
    &&& flags_match(seen, start, w)
    &&& steps_justified(g, start, max, w)
    &&& steps_ordered(w)
    &&& 0 <= h <= w.len() + 1
    &&& w.len() < g.nodes.len()
    &&& (h <= w.len() ==> forall|i: int| 0 <= i < w.len() ==> (#[trigger] w[i]).depth <= visit_depth(w, h) + 1)
    &&& visits_expanded(g, start, max, w, h)
    &&& steps_via(g, start, w)
    &&& steps_first_reached(g, start, w)
    &&& steps_in_visit_order(w)
    &&& forall|i: int| 0 <= i < w.len() ==> (#[trigger] w[i]).via < h
}

/// Expands the `h`-th visited function: each of its callers not yet
/// reached becomes a step one level deeper.
#[verifier::rlimit(100)]
#[verifier::spinoff_prover]
fn expand_visit(p: &QueryCachePayload, start: usize, max: usize, h: usize, seen: &mut Vec<bool>, w: &mut Vec<Step>)
    requires
        p.wf(),
        graph_joined(p.graph@),
        walk_state(p.graph@, start, max, old(seen)@, old(w)@, h as int),
        h <= old(w)@.len(),
    ensures
        walk_state(p.graph@, start, max, final(seen)@, final(w)@, h + 1),
{
    let ghost g = p.graph@;
    let ghost w0 = w@;
    let n = p.graph.nodes.len();
    let m = p.graph.edges.len();
    assert(g.edges.len() == m);
    let (cur, d) = if h == 0 {
        (start, 0usize)
    } else {
        (w[h - 1].caller, w[h - 1].depth)
    };
    assert(cur == visit_node(start, w0, h as int) && d == visit_depth(w0, h as int));
    if d < max {
        let nd = d + 1;
        let calls = &p.backward_calls[cur];
        let ghost into = edges_into(g.edges, cur as int, g.edges.len());
        assert(calls@ == into);
        proof {
            lemma_edges_into_bounded(g.edges, cur as int, g.edges.len());
            lemma_edges_into_increasing(g.edges, cur as int, g.edges.len());
            assert forall|k: int| 0 <= k < into.len() implies g.edges[(#[trigger] into[k]) as int].callee == cur by {
                assert(into.contains(into[k]));
                lemma_edges_into_contains(g.edges, cur as int, g.edges.len(), into[k] as int);
            }
        }
        let mut j: usize = 0;
        while j < calls.len()
            invariant
                g == p.graph@,
                graph_joined(g),
                n == g.nodes.len(),
                g.edges.len() <= usize::MAX,
                start < n,
                cur < n,
                d < max,
                nd == d + 1,
                cur == visit_node(start, w0, h as int),
                d == visit_depth(w0, h as int),
                h <= w0.len(),
                h > 0 ==> w0[h - 1].depth >= 1,
                calls@ == into,
                forall|k: int| 0 <= k < into.len() ==> (#[trigger] into[k]) < g.edges.len(),
                forall|k: int| 0 <= k < into.len() ==> g.edges[(#[trigger] into[k]) as int].callee == cur,
                j <= into.len(),
                seen@.len() == n,
                flags_match(seen@, start, w@),
                steps_justified(g, start, max, w@),
                steps_ordered(w@),
                w@.len() < n,
                w0.len() <= w@.len(),
                forall|i: int| 0 <= i < w0.len() ==> w@[i] == w0[i],
                forall|i: int| 0 <= i < w@.len() ==> (#[trigger] w@[i]).depth <= nd,
                forall|i: int| w0.len() <= i < w@.len() ==> (#[trigger] w@[i]).depth == nd,
                visits_expanded(g, start, max, w@, h as int),
                forall|k: int| 0 <= k < j ==> (g.edges[(#[trigger] into[k]) as int].caller == start
                    || reached_within(w@, g.edges[into[k] as int].caller, nd as int)),
                forall|a: int, b: int| 0 <= a < b < into.len() ==> into[a] < into[b],
                into == edges_into(g.edges, visit_node(start, w0, h as int) as int, g.edges.len()),
                visit_depth(w0, h as int) < max,
                steps_via(g, start, w@),
                steps_first_reached(g, start, w@),
                steps_in_visit_order(w@),
                forall|i: int| 0 <= i < w@.len() ==> ((#[trigger] w@[i]).via < h
                    || (w@[i].via == h && exists|k: int| 0 <= k < j && w@[i].edge == into[k])),
            decreases into.len() - j,
        {
            let e = calls[j];
            assert(g.edges[e as int] == p.graph.edges@[e as int]@);
            let c = p.graph.edges[e].caller;
            if !seen[c] {
                let ghost w1 = w@;
                let ghost seen1 = seen@;
                let step = Step { caller: c, depth: nd, edge: e, via: h };
                proof {
                    assert(!reached(w1, c));
                    assert(g.edges[e as int].callee == cur);
                    assert forall|i: int| 0 <= i < w1.len() implies (#[trigger] w1[i]).depth >= 1 by {
                        assert(steps_justified(g, start, max, w1));
                    }
                    lemma_push_first(g, start, max, w0, w1, h as int, into, j as int, step);
                }
                seen.set(c, true);
                w.push(step);
                proof {
                    assert(w@ == w1.push(step));
                    assert(seen@ == seen1.update(c as int, true));
                    lemma_push_flags(seen1, start, w1, step);
                    lemma_push_justified(g, start, max, w0, w1, h as int, step);
                    lemma_push_ordered(w1, step);
                    lemma_push_expanded(g, start, max, w1, step, h as int);
                    lemma_walk_short(g, start, max, w@);
                    assert forall|k: int| 0 <= k < j + 1 implies (g.edges[(#[trigger] into[k]) as int].caller == start
                        || reached_within(w@, g.edges[into[k] as int].caller, nd as int)) by {
                        if k < j && g.edges[into[k] as int].caller != start {
                            lemma_reached_within_extend(w1, step, g.edges[into[k] as int].caller, nd as int);
                        }
                        if k == j {
                            assert(w@[w1.len() as int] == step);
                        }
                    }
                    assert forall|i: int| w0.len() <= i < w@.len() implies (#[trigger] w@[i]).depth == nd by {
                        if i < w1.len() {
                            assert(w@[i] == w1[i]);
                        }
                    }
                    assert forall|i: int| 0 <= i < w0.len() implies w@[i] == w0[i] by {
                        assert(w@[i] == w1[i]);
                    }
                    assert forall|i: int| 0 <= i < w@.len() implies ((#[trigger] w@[i]).via < h
                        || (w@[i].via == h && exists|k: int| 0 <= k < j + 1 && w@[i].edge == into[k])) by {
                        if i < w1.len() {
                            assert(w@[i] == w1[i]);
                            if w1[i].via >= h {
                                let k = choose|k: int| 0 <= k < j && w1[i].edge == into[k];
                                assert(0 <= k < j + 1 && w@[i].edge == into[k]);
                            }
                        } else {
                            assert(w@[i] == step);
                        }
                    }
                }
            } else {
                assert(c == start || reached(w@, c));
                if c != start {
                    let ghost i = choose|i: int| 0 <= i < w@.len() && (#[trigger] w@[i]).caller == c;
                    assert(w@[i].depth <= nd);
                    assert(reached_within(w@, c, nd as int));
                }
            }
            j = j + 1;
        }
        proof {
            assert forall|q: int, e2: int| #![trigger visit_node(start, w@, q), g.edges[e2]]
                0 <= q < h + 1 && 0 <= e2 < g.edges.len() && g.edges[e2].callee == visit_node(start, w@, q)
                && visit_depth(w@, q) < max
                implies (g.edges[e2].caller == start || reached_within(w@, g.edges[e2].caller, visit_depth(w@, q) + 1)) by {
                if q == h {
                    if h > 0 {
                        assert(w@[h - 1] == w0[h - 1]);
                    }
                    assert(visit_node(start, w@, q) == cur);
                    assert(visit_depth(w@, q) == d);
                    lemma_edges_into_contains(g.edges, cur as int, g.edges.len(), e2);
                    let k = choose|k: int| 0 <= k < into.len() && into[k] == e2 as usize;
                    assert(g.edges[into[k] as int].caller == start
                        || reached_within(w@, g.edges[into[k] as int].caller, nd as int));
                }
            }
            if h + 1 <= w@.len() {
                assert forall|i: int| 0 <= i < w@.len() implies (#[trigger] w@[i]).depth <= visit_depth(w@, h + 1) + 1 by {
                    if h < w0.len() {
                        assert(w@[h as int] == w0[h as int]);
                        assert(w0[h as int].depth >= d) by {
                            if h > 0 {
                                assert(w0[h - 1].depth <= w0[h as int].depth);
                            }
                        }
                    }
                }
            }
        }
    } else {
        proof {
            assert forall|q: int, e2: int| #![trigger visit_node(start, w@, q), g.edges[e2]]
                0 <= q < h + 1 && 0 <= e2 < g.edges.len() && g.edges[e2].callee == visit_node(start, w@, q)
                && visit_depth(w@, q) < max
                implies (g.edges[e2].caller == start || reached_within(w@, g.edges[e2].caller, visit_depth(w@, q) + 1)) by {
                if q == h {
                    assert(visit_depth(w@, q) == d);
                }
            }
            if h + 1 <= w@.len() {
                assert forall|i: int| 0 <= i < w@.len() implies (#[trigger] w@[i]).depth <= visit_depth(w@, h + 1) + 1 by {
                    assert(w@[h as int].depth >= d) by {
                        if h > 0 {
                            assert(w@[h - 1].depth <= w@[h as int].depth);
                        }
                    }
                }
            }
        }
    }
}

/// A walk up the call graph from `start`, breadth first, at most `max`
/// levels deep.
pub fn caller_walk(p: &QueryCachePayload, start: usize, max: usize) -> (w: Vec<Step>)
    requires
        p.wf(),
        graph_joined(p.graph@),
        start < p.graph@.nodes.len(),
    ensures
        walk_ok(p.graph@, start, max, w@),
        forall|i: int| 0 <= i < w@.len() ==> (#[trigger] w@[i]).caller < p.graph@.nodes.len(),
{
    let ghost g = p.graph@;
    let n = p.graph.nodes.len();
    let mut seen = unset_flags(n);
    seen.set(start, true);
    let mut w: Vec<Step> = Vec::new();
    let mut h: usize = 0;
    proof {
        assert forall|c: int| 0 <= c < seen@.len() implies (#[trigger] seen@[c] <==> (c == start || reached(w@, c as usize))) by {}
        reveal(steps_via);
        reveal(steps_first_reached);
        reveal(steps_in_visit_order);
    }
    while h <= w.len()
        invariant
            g == p.graph@,
            p.wf(),
            graph_joined(g),
            n == g.nodes.len(),
            walk_state(g, start, max, seen@, w@, h as int),
        decreases n - h,
    {
        expand_visit(p, start, max, h, &mut seen, &mut w);
        h = h + 1;
    }
    proof {
        let wv = w@;
        assert forall|e: int| #![trigger g.edges[e]] 0 <= e < g.edges.len() && g.edges[e].callee == start && max >= 1
            implies (g.edges[e].caller == start || exists|i: int| 0 <= i < wv.len()
                && (#[trigger] wv[i]).caller == g.edges[e].caller && wv[i].depth == 1) by {
            assert(visit_node(start, wv, 0) == start);
            assert(visit_depth(wv, 0) == 0);
            assert(g.edges[e].caller == start || reached_within(wv, g.edges[e].caller, 1));
        }
        assert forall|e: int, j: int| #![trigger g.edges[e], wv[j]] 0 <= e < g.edges.len() && 0 <= j < wv.len()
            && g.edges[e].callee == wv[j].caller && wv[j].depth < max
            implies (g.edges[e].caller == start || exists|i: int| 0 <= i < wv.len()
                && (#[trigger] wv[i]).caller == g.edges[e].caller && wv[i].depth <= wv[j].depth + 1) by {
            assert(visit_node(start, wv, j + 1) == wv[j].caller);
            assert(visit_depth(wv, j + 1) == wv[j].depth);
            assert(g.edges[e].caller == start || reached_within(wv, g.edges[e].caller, wv[j].depth + 1));
        }
    }
    w
}

impl Graph {
    /// A walk up the call graph from `start`, breadth first, at most `max`
    /// levels deep.
    fn caller_walk(&self, start: usize, max: usize) -> (w: Vec<Step>)
        requires
            start < self.spec_graph().nodes.len(),
        ensures
            walk_ok(self.spec_graph(), start, max, w@),
            forall|i: int| 0 <= i < w@.len() ==> (#[trigger] w@[i]).caller < self.spec_graph().nodes.len(),
    {
        proof {
            use_type_invariant(self);
        }
        caller_walk(self.payload(), start, max)
    }

    /// All callers of `node` up to `depth` levels away, breadth first:
    /// each reached once, at its least depth, with the conditions of the
    /// call through which it was first reached.
    ///
    /// `depth = 1` gives only direct callers; `depth = 0` gives none.
    pub fn callers(&self, node: NodeId, depth: usize) -> (res: Vec<Caller>)
        requires
            node.0 < self.spec_graph().nodes.len(),
        ensures
            exists|w: Seq<Step>| {
                &&& walk_ok(self.spec_graph(), node.0, depth, w)
                &&& res@.len() == w.len()
                &&& forall|i: int| 0 <= i < w.len()
                    ==> (#[trigger] res@[i])@ == caller_view(self.spec_graph(), w[i].edge as int, w[i].depth)
            },
    {
        proof {
            use_type_invariant(self);
        }
        let ghost g = self.spec_graph();
        let w = self.caller_walk(node.0, depth);
        let p = self.payload();
        let mut res: Vec<Caller> = Vec::new();
        let mut i: usize = 0;
        while i < w.len()
            invariant
                g == p.graph@,
                graph_joined(g),
                walk_ok(g, node.0, depth, w@),
                i <= w@.len(),
                res@.len() == i,
                forall|k: int| 0 <= k < i ==> (#[trigger] res@[k])@ == caller_view(g, w@[k].edge as int, w@[k].depth),
            decreases w@.len() - i,
        {
            let step = &w[i];
            assert(step.edge < g.edges.len());
            assert(g.edges[step.edge as int] == p.graph.edges@[step.edge as int]@);
            let edge = &p.graph.edges[step.edge];
            assert(g.nodes[edge.caller as int] == p.graph.nodes@[edge.caller as int]@);
            let n = &p.graph.nodes[edge.caller];
            let item = Caller {
                file: n.file.clone(),
                function: n.name.clone(),
                qualified_name: n.qualified_name.clone(),
                line: n.line,
                is_test: n.is_test,
                depth: step.depth,
                conditions: clone_strings(&edge.conditions),
            };
            assert(item@ == caller_view(g, step.edge as int, step.depth));
            res.push(item);
            i = i + 1;
        }
        res
    }
}

} // verus!
