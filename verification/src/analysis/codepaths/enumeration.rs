use vstd::prelude::*;
use super::graph::{InternalEdge, InternalEdgeV, edges_view};
use super::types::{CodePath, FnDef, FnDefV};

verus! {

/// How long a chain of calls grows before it is cut.
pub const MAX_DEPTH: usize = 10;
/// How many chains are enumerated at most.
pub const MAX_PATHS: usize = 100_000;

pub open spec fn graph_view(graph: Seq<Vec<InternalEdge>>) -> Seq<Seq<InternalEdgeV>> {
    graph.map_values(|es: Vec<InternalEdge>| edges_view(es@))
}

/// Some edge of the graph calls function `i`.
pub open spec fn has_incoming(g: Seq<Seq<InternalEdgeV>>, i: int) -> bool {
    exists|k: int, j: int| 0 <= k < g.len() && 0 <= j < g[k].len() && (#[trigger] g[k][j]).callee == i
}

/// The functions below `k` that nothing calls, in order.
pub open spec fn roots_below(g: Seq<Seq<InternalEdgeV>>, k: nat) -> Seq<usize>
    decreases k,
{
    if k == 0 {
        Seq::empty()
    } else if !has_incoming(g, k - 1) {
        roots_below(g, (k - 1) as nat).push((k - 1) as usize)
    } else {
        roots_below(g, (k - 1) as nat)
    }
}

/// The roots below `k` are below `k`.
pub proof fn lemma_roots_below(g: Seq<Seq<InternalEdgeV>>, k: nat)
    requires
        k <= usize::MAX + 1,
    ensures
        forall|i: int| 0 <= i < roots_below(g, k).len() ==> (#[trigger] roots_below(g, k)[i]) < k,
    decreases k,
{
    if k > 0 {
        lemma_roots_below(g, (k - 1) as nat);
        let prev = roots_below(g, (k - 1) as nat);
        assert forall|i: int| 0 <= i < roots_below(g, k).len() implies (#[trigger] roots_below(g, k)[i]) < k by {
            if i < prev.len() {
                assert(roots_below(g, k)[i] == prev[i]);
            }
        }
    }
}

/// Every edge calls one of the `n` functions.
pub open spec fn callees_below(g: Seq<Seq<InternalEdgeV>>, n: nat) -> bool {
    forall|k: int, j: int| 0 <= k < g.len() && 0 <= j < g[k].len() ==> (#[trigger] g[k][j]).callee < n
}

/// The functions that nothing calls: where call chains start.
pub fn find_roots(fn_defs: &Vec<FnDef>, graph: &Vec<Vec<InternalEdge>>) -> (res: Vec<usize>)
    requires
        callees_below(graph_view(graph@), fn_defs@.len()),
    ensures
        res@ == roots_below(graph_view(graph@), fn_defs@.len()),
{
    let ghost g = graph_view(graph@);
    let n = fn_defs.len();
    let mut incoming: Vec<bool> = Vec::new();
    let mut i: usize = 0;
    while i < n
        invariant
            i <= n,
            incoming@.len() == i,
            forall|c: int| 0 <= c < i ==> !(#[trigger] incoming@[c]),
        decreases n - i,
    {
        incoming.push(false);
        i = i + 1;
    }
    let mut k: usize = 0;
    while k < graph.len()
        invariant
            g == graph_view(graph@),
            callees_below(g, n as nat),
            n == fn_defs@.len(),
            incoming@.len() == n,
            k <= graph@.len(),
            forall|c: int| 0 <= c < n ==> (#[trigger] incoming@[c] <==>
                exists|k2: int, j: int| 0 <= k2 < k && 0 <= j < g[k2].len() && (#[trigger] g[k2][j]).callee == c),
        decreases graph@.len() - k,
    {
        let edges = &graph[k];
        assert(g[k as int] == edges_view(edges@));
        let mut j: usize = 0;
        while j < edges.len()
            invariant
                g == graph_view(graph@),
                callees_below(g, n as nat),
                n == fn_defs@.len(),
                incoming@.len() == n,
                k < graph@.len(),
                g[k as int] == edges_view(edges@),
                j <= edges@.len(),
                forall|c: int| 0 <= c < n ==> (#[trigger] incoming@[c] <==>
                    (exists|k2: int, j2: int| 0 <= k2 < k && 0 <= j2 < g[k2].len() && (#[trigger] g[k2][j2]).callee == c)
                    || (exists|j2: int| 0 <= j2 < j && (#[trigger] g[k as int][j2]).callee == c)),
            decreases edges@.len() - j,
        {
            let callee = edges[j].callee;
            assert(g[k as int][j as int].callee == callee);
            incoming.set(callee, true);
            j = j + 1;
        }
        proof {
            assert forall|c: int| 0 <= c < n implies (#[trigger] incoming@[c] <==>
                exists|k2: int, j2: int| 0 <= k2 < k + 1 && 0 <= j2 < g[k2].len() && (#[trigger] g[k2][j2]).callee == c) by {
                if exists|j2: int| 0 <= j2 < edges@.len() && (#[trigger] g[k as int][j2]).callee == c {
                    let j2 = choose|j2: int| 0 <= j2 < edges@.len() && (#[trigger] g[k as int][j2]).callee == c;
                    assert(g[k as int][j2].callee == c);
                }
                if exists|k2: int, j2: int| 0 <= k2 < k + 1 && 0 <= j2 < g[k2].len() && (#[trigger] g[k2][j2]).callee == c {
                    let (k2, j2) = choose|k2: int, j2: int| 0 <= k2 < k + 1 && 0 <= j2 < g[k2].len() && (#[trigger] g[k2][j2]).callee == c;
                    if k2 == k {
                        assert(g[k as int][j2].callee == c);
                    }
                }
            }
        }
        k = k + 1;
    }
    let mut roots: Vec<usize> = Vec::new();
    let mut i: usize = 0;
    while i < n
        invariant
            g == graph_view(graph@),
            n == fn_defs@.len(),
            incoming@.len() == n,
            graph@.len() == g.len(),
            i <= n,
            forall|c: int| 0 <= c < n ==> (#[trigger] incoming@[c] <==> has_incoming(g, c)),
            roots@ == roots_below(g, i as nat),
        decreases n - i,
    {
        if !incoming[i] {
            roots.push(i);
        }
        i = i + 1;
    }
    roots
}

/// The edges out of a function: none when it has no entry.
pub open spec fn out_edges(g: Seq<Seq<InternalEdgeV>>, node: usize) -> Seq<InternalEdgeV> {
    if node < g.len() { g[node as int] } else { Seq::empty() }
}

/// Whether every callee of `edges` is on the current chain.
pub open spec fn all_visited(edges: Seq<InternalEdgeV>, visited: Set<usize>) -> bool {
    forall|j: int| 0 <= j < edges.len() ==> visited.contains(#[trigger] edges[j].callee)
}

/// The chains found by a walk from `node`, the current chain being `path`
/// and its functions `visited`, appended to `res`: a chain ends where
/// every callee is already on it or where it reaches `MAX_DEPTH`; the walk
/// stops once `MAX_PATHS` chains are found.
pub open spec fn dfs_spec(g: Seq<Seq<InternalEdgeV>>, node: usize, path: Seq<usize>, visited: Set<usize>,
    res: Seq<Seq<usize>>) -> Seq<Seq<usize>>
    decreases MAX_DEPTH - path.len(), 1int, 0int,
{
    if res.len() >= MAX_PATHS || path.len() >= MAX_DEPTH {
        res
    } else {
        let path2 = path.push(node);
        let visited2 = visited.insert(node);
        let edges = out_edges(g, node);
        if all_visited(edges, visited2) || path2.len() >= MAX_DEPTH {
            res.push(path2)
        } else {
            dfs_edges(g, edges, 0, path2, visited2, res)
        }
    }
}

/// The walk continued through the callees of `edges` from the `k`-th on.
pub open spec fn dfs_edges(g: Seq<Seq<InternalEdgeV>>, edges: Seq<InternalEdgeV>, k: int, path: Seq<usize>,
    visited: Set<usize>, res: Seq<Seq<usize>>) -> Seq<Seq<usize>>
    decreases MAX_DEPTH - path.len() + 1, 0int, edges.len() - k,
{
    if k < 0 || k >= edges.len() || path.len() > MAX_DEPTH || path.len() == 0 {
        res
    } else {
        let res2 = if !visited.contains(edges[k].callee) {
            dfs_spec(g, edges[k].callee, path, visited, res)
        } else {
            res
        };
        dfs_edges(g, edges, k + 1, path, visited, res2)
    }
}

/// The functions a set of flags marks.
pub open spec fn flagged(v: Seq<bool>) -> Set<usize> {
    Set::new(|i: usize| i < v.len() && v[i as int])
}

/// The chains found from the `k`-th root on, appended to `res`.
pub open spec fn roots_walk(g: Seq<Seq<InternalEdgeV>>, roots: Seq<usize>, k: int, res: Seq<Seq<usize>>)
    -> Seq<Seq<usize>>
    decreases roots.len() - k,
{
    if k < 0 || k >= roots.len() || res.len() >= MAX_PATHS {
        res
    } else {
        roots_walk(g, roots, k + 1, dfs_spec(g, roots[k], Seq::empty(), Set::empty(), res))
    }
}

/// A walk never finds more than `MAX_PATHS` chains.
proof fn lemma_dfs_bounded(g: Seq<Seq<InternalEdgeV>>, node: usize, path: Seq<usize>, visited: Set<usize>,
    res: Seq<Seq<usize>>)
    requires
        res.len() <= MAX_PATHS,
    ensures
        dfs_spec(g, node, path, visited, res).len() <= MAX_PATHS,
        res.len() <= dfs_spec(g, node, path, visited, res).len(),
    decreases MAX_DEPTH - path.len(), 1int, 0int,
{
    if res.len() < MAX_PATHS && path.len() < MAX_DEPTH {
        let path2 = path.push(node);
        let visited2 = visited.insert(node);
        let edges = out_edges(g, node);
        if !(all_visited(edges, visited2) || path2.len() >= MAX_DEPTH) {
            lemma_dfs_edges_bounded(g, edges, 0, path2, visited2, res);
        }
    }
}

proof fn lemma_dfs_edges_bounded(g: Seq<Seq<InternalEdgeV>>, edges: Seq<InternalEdgeV>, k: int, path: Seq<usize>,
    visited: Set<usize>, res: Seq<Seq<usize>>)
    requires
        res.len() <= MAX_PATHS,
    ensures
        dfs_edges(g, edges, k, path, visited, res).len() <= MAX_PATHS,
        res.len() <= dfs_edges(g, edges, k, path, visited, res).len(),
    decreases MAX_DEPTH - path.len() + 1, 0int, edges.len() - k,
{
    if !(k < 0 || k >= edges.len() || path.len() > MAX_DEPTH || path.len() == 0) {
        if !visited.contains(edges[k].callee) {
            lemma_dfs_bounded(g, edges[k].callee, path, visited, res);
            lemma_dfs_edges_bounded(g, edges, k + 1, path, visited, dfs_spec(g, edges[k].callee, path, visited, res));
        } else {
            lemma_dfs_edges_bounded(g, edges, k + 1, path, visited, res);
        }
    }
}

/// Every chain holds positions below `n`.
pub open spec fn chains_below(res: Seq<Seq<usize>>, n: nat) -> bool {
    forall|i: int, t: int| 0 <= i < res.len() && 0 <= t < res[i].len() ==> (#[trigger] res[i][t]) < n
}

proof fn lemma_dfs_chains_below(g: Seq<Seq<InternalEdgeV>>, n: nat, node: usize, path: Seq<usize>,
    visited: Set<usize>, res: Seq<Seq<usize>>)
    requires
        chains_below(res, n),
        callees_below(g, n),
        node < n,
        forall|t: int| 0 <= t < path.len() ==> (#[trigger] path[t]) < n,
    ensures
        chains_below(dfs_spec(g, node, path, visited, res), n),
    decreases MAX_DEPTH - path.len(), 1int, 0int,
{
    if res.len() < MAX_PATHS && path.len() < MAX_DEPTH {
        let path2 = path.push(node);
        let visited2 = visited.insert(node);
        let edges = out_edges(g, node);
        assert forall|t: int| 0 <= t < path2.len() implies (#[trigger] path2[t]) < n by {
            if t < path.len() {
                assert(path2[t] == path[t]);
            }
        }
        if all_visited(edges, visited2) || path2.len() >= MAX_DEPTH {
            let r2 = res.push(path2);
            assert forall|i: int, t: int| 0 <= i < r2.len() && 0 <= t < r2[i].len() implies (#[trigger] r2[i][t]) < n by {
                if i < res.len() {
                    assert(r2[i] == res[i]);
                }
            }
        } else {
            assert forall|j: int| 0 <= j < edges.len() implies (#[trigger] edges[j]).callee < n by {
                assert(g[node as int][j] == edges[j]);
            }
            lemma_dfs_edges_chains_below(g, n, edges, 0, path2, visited2, res);
        }
    }
}

proof fn lemma_dfs_edges_chains_below(g: Seq<Seq<InternalEdgeV>>, n: nat, edges: Seq<InternalEdgeV>, k: int,
    path: Seq<usize>, visited: Set<usize>, res: Seq<Seq<usize>>)
    requires
        chains_below(res, n),
        callees_below(g, n),
        forall|j: int| 0 <= j < edges.len() ==> (#[trigger] edges[j]).callee < n,
        forall|t: int| 0 <= t < path.len() ==> (#[trigger] path[t]) < n,
    ensures
        chains_below(dfs_edges(g, edges, k, path, visited, res), n),
    decreases MAX_DEPTH - path.len() + 1, 0int, edges.len() - k,
{
    if !(k < 0 || k >= edges.len() || path.len() > MAX_DEPTH || path.len() == 0) {
        if !visited.contains(edges[k].callee) {
            lemma_dfs_chains_below(g, n, edges[k].callee, path, visited, res);
            lemma_dfs_edges_chains_below(g, n, edges, k + 1, path, visited, dfs_spec(g, edges[k].callee, path, visited, res));
        } else {
            lemma_dfs_edges_chains_below(g, n, edges, k + 1, path, visited, res);
        }
    }
}

/// Walks from `node`, adding the chains it finds to `result`.
fn dfs(node: usize, graph: &Vec<Vec<InternalEdge>>, n: usize, current_path: &mut Vec<usize>, visited: &mut Vec<bool>,
    result: &mut Vec<Vec<usize>>)
    requires
        node < n,
        old(visited)@.len() == n,
        callees_below(graph_view(graph@), n as nat),
        old(current_path)@.len() < MAX_DEPTH,
        old(result)@.len() <= MAX_PATHS,
    ensures
        final(visited)@ == old(visited)@,
        final(current_path)@ == old(current_path)@,
        final(result)@.map_values(|c: Vec<usize>| c@) == dfs_spec(graph_view(graph@), node, old(current_path)@,
            flagged(old(visited)@), old(result)@.map_values(|c: Vec<usize>| c@)),
    decreases MAX_DEPTH - old(current_path)@.len(),
{
    let ghost g = graph_view(graph@);
    let ghost res0 = result@.map_values(|c: Vec<usize>| c@);
    if result.len() >= MAX_PATHS {
        return;
    }
    let was = visited[node];
    current_path.push(node);
    visited.set(node, true);
    let ghost path2 = current_path@;
    let ghost v2 = visited@;
    let ghost visited2 = flagged(visited@);
    assert(visited2 =~= flagged(old(visited)@).insert(node));
    let no_edges = node >= graph.len();
    let mut leaf = true;
    if !no_edges {
        let edges = &graph[node];
        let ghost es = edges_view(edges@);
        let mut j: usize = 0;
        while j < edges.len()
            invariant
                node < graph@.len(),
                edges == &graph@[node as int],
                es == edges_view(edges@),
                g == graph_view(graph@),
                visited@.len() == n,
                j <= edges@.len(),
                leaf == forall|i: int| 0 <= i < j ==> visited2.contains(#[trigger] es[i].callee),
                visited2 == flagged(visited@),
                callees_below(g, n as nat),
            decreases edges@.len() - j,
        {
            let c = edges[j].callee;
            assert(es[j as int].callee == c);
            assert(g[node as int][j as int].callee == c);
            assert(visited2.contains(c) == visited@[c as int]);
            if !visited[c] {
                leaf = false;
            }
            j = j + 1;
        }
    }
    assert(out_edges(g, node) == if no_edges { Seq::<InternalEdgeV>::empty() } else { edges_view(graph@[node as int]@) });
    assert(leaf == all_visited(out_edges(g, node), visited2));
    if leaf || current_path.len() >= MAX_DEPTH {
        let chain = clone_indices(current_path);
        let ghost before = result@;
        result.push(chain);
        assert(result@.map_values(|c: Vec<usize>| c@) =~= res0.push(path2));
    } else {
        let edges = &graph[node];
        let ghost es = edges_view(edges@);
        let mut k: usize = 0;
        while k < edges.len()
            invariant
                node < graph@.len(),
                node < n,
                edges == &graph@[node as int],
                es == edges_view(edges@),
                es == out_edges(g, node),
                g == graph_view(graph@),
                callees_below(g, n as nat),
                visited@.len() == n,
                visited2 == flagged(visited@),
                current_path@ == path2,
                path2.len() == old(current_path)@.len() + 1,
                visited@ == v2,
                path2.len() < MAX_DEPTH,
                path2.len() > 0,
                k <= edges@.len(),
                result@.len() <= MAX_PATHS,
                dfs_edges(g, es, 0, path2, visited2, res0)
                    == dfs_edges(g, es, k as int, path2, visited2, result@.map_values(|c: Vec<usize>| c@)),
            decreases edges@.len() - k,
        {
            let c = edges[k].callee;
            assert(es[k as int].callee == c);
            assert(g[node as int][k as int].callee == c);
            let ghost cur = result@.map_values(|c: Vec<usize>| c@);
            assert(visited2.contains(c) == visited@[c as int]);
            if !visited[c] {
                dfs(c, graph, n, current_path, visited, result);
                proof {
                    lemma_dfs_bounded(g, c, path2, visited2, cur);
                }
            }
            k = k + 1;
        }
    }
    visited.set(node, was);
    current_path.pop();
    assert(visited@ =~= old(visited)@);
    assert(current_path@ =~= old(current_path)@);
}

/// A copy of a list of positions.
fn clone_indices(v: &Vec<usize>) -> (res: Vec<usize>)
    ensures
        res@ == v@,
{
    let mut res: Vec<usize> = Vec::new();
    let mut i: usize = 0;
    while i < v.len()
        invariant
            i <= v@.len(),
            res@ == v@.take(i as int),
        decreases v@.len() - i,
    {
        res.push(v[i]);
        i = i + 1;
        assert(res@ =~= v@.take(i as int));
    }
    assert(v@.take(v@.len() as int) =~= v@);
    res
}

/// The functions of a chain of positions.
pub open spec fn chain_defs(defs: Seq<FnDefV>, chain: Seq<usize>) -> Seq<FnDefV> {
    chain.map_values(|i: usize| defs[i as int])
}

/// The call chains that start at the roots, in order, each followed until
/// it would repeat a function or reaches `MAX_DEPTH`, at most `MAX_PATHS`
/// of them.
pub fn enumerate_paths(fn_defs: &Vec<FnDef>, graph: &Vec<Vec<InternalEdge>>, roots: &Vec<usize>) -> (res: Vec<CodePath>)
    requires
        callees_below(graph_view(graph@), fn_defs@.len()),
        forall|i: int| 0 <= i < roots@.len() ==> (#[trigger] roots@[i]) < fn_defs@.len(),
    ensures
        res@.len() == roots_walk(graph_view(graph@), roots@, 0, Seq::empty()).len(),
        forall|i: int| 0 <= i < res@.len() ==> (#[trigger] res@[i]).chain@.map_values(|d: FnDef| d@)
            == chain_defs(fn_defs@.map_values(|d: FnDef| d@), roots_walk(graph_view(graph@), roots@, 0, Seq::empty())[i]),
{
    let ghost g = graph_view(graph@);
    let n = fn_defs.len();
    let mut visited: Vec<bool> = Vec::new();
    let mut i: usize = 0;
    while i < n
        invariant
            i <= n,
            visited@.len() == i,
            forall|c: int| 0 <= c < i ==> !(#[trigger] visited@[c]),
        decreases n - i,
    {
        visited.push(false);
        i = i + 1;
    }
    assert(flagged(visited@) =~= Set::<usize>::empty());
    let mut chains: Vec<Vec<usize>> = Vec::new();
    assert(chains@.map_values(|c: Vec<usize>| c@) =~= Seq::<Seq<usize>>::empty());
    let mut current_path: Vec<usize> = Vec::new();
    let mut k: usize = 0;
    while k < roots.len() && chains.len() < MAX_PATHS
        invariant
            chains_below(chains@.map_values(|c: Vec<usize>| c@), n as nat),
            g == graph_view(graph@),
            callees_below(g, n as nat),
            n == fn_defs@.len(),
            forall|i: int| 0 <= i < roots@.len() ==> (#[trigger] roots@[i]) < n,
            visited@.len() == n,
            flagged(visited@) == Set::<usize>::empty(),
            current_path@ == Seq::<usize>::empty(),
            k <= roots@.len(),
            chains@.len() <= MAX_PATHS,
            roots_walk(g, roots@, 0, Seq::empty())
                == roots_walk(g, roots@, k as int, chains@.map_values(|c: Vec<usize>| c@)),
        decreases roots@.len() - k,
    {
        let ghost before = chains@.map_values(|c: Vec<usize>| c@);
        dfs(roots[k], graph, n, &mut current_path, &mut visited, &mut chains);
        proof {
            lemma_dfs_bounded(g, roots@[k as int], Seq::empty(), Set::empty(), before);
            lemma_dfs_chains_below(g, n as nat, roots@[k as int], Seq::empty(), Set::empty(), before);
        }
        k = k + 1;
    }
    let ghost all = roots_walk(g, roots@, 0, Seq::empty());
    assert(all == chains@.map_values(|c: Vec<usize>| c@));
    let mut res: Vec<CodePath> = Vec::new();
    let mut p: usize = 0;
    while p < chains.len()
        invariant
            all == chains@.map_values(|c: Vec<usize>| c@),
            chains_below(all, fn_defs@.len()),
            p <= chains@.len(),
            res@.len() == p,
            forall|i: int| 0 <= i < p ==> (#[trigger] res@[i]).chain@.map_values(|d: FnDef| d@)
                == chain_defs(fn_defs@.map_values(|d: FnDef| d@), all[i]),
        decreases chains@.len() - p,
    {
        let chain = &chains[p];
        assert(all[p as int] == chain@);
        assert forall|t: int| 0 <= t < chain@.len() implies (#[trigger] chain@[t]) < fn_defs@.len() by {
            assert(all[p as int][t] == chain@[t]);
        }
        let mut defs: Vec<FnDef> = Vec::new();
        let mut q: usize = 0;
        while q < chain.len()
            invariant
                q <= chain@.len(),
                defs@.len() == q,
                forall|t: int| 0 <= t < q ==> (#[trigger] defs@[t])@ == fn_defs@[chain@[t] as int]@,
                forall|t: int| 0 <= t < chain@.len() ==> (#[trigger] chain@[t]) < fn_defs@.len(),
            decreases chain@.len() - q,
        {
            let d = fn_defs[chain[q]].clone();
            defs.push(d);
            q = q + 1;
        }
        assert(defs@.map_values(|d: FnDef| d@) =~= chain_defs(fn_defs@.map_values(|d: FnDef| d@), all[p as int]));
        res.push(CodePath { chain: defs });
        p = p + 1;
    }
    res
}

} // verus!
