//! The flat view of a dependency graph: every node and edge of every
//! subgraph level in one petgraph `DiGraph`, for traversal algorithms.
use indexmap::IndexMap;
use std::collections::HashSet;
use petgraph::graph::DiGraph;
use vstd::prelude::*;

use crate::graph::{all_nodes_spec, collect_edges, edge_views, node_views, DepGraph, Edge, EdgeView, GraphView, NodeInfo, NodeView};
use crate::maps::{
    find_key, idx_entries, idx_map_get, idx_map_insert, idx_map_new, insert_entry, keys_of,
    lemma_find_key, lemma_find_key_same_keys, node_entries, node_map_get_index, node_map_len, str_views,
    value_of,
};
use crate::pg::{
    index_limit, lemma_neighbor_seq, linked, neighbor_seq, pg_add_edge, pg_add_node, pg_edges, pg_neighbors,
    pg_new, pg_node_count,
};

verus! {

/// Whether no two entries of `s` share a key.
pub open spec fn distinct_keys<V>(s: Seq<(Seq<char>, V)>) -> bool {
    forall|i: int, j: int| 0 <= i < s.len() && 0 <= j < s.len() && i != j ==> #[trigger] s[i].0 != #[trigger] s[j].0
}

/// The edges of `es` between nodes of `nodes`, as pairs of node positions;
/// an edge with an unknown endpoint is left out.
pub open spec fn flat_edges(nodes: Seq<(Seq<char>, NodeView)>, es: Seq<EdgeView>) -> Seq<(usize, usize)>
    decreases es.len(),
{
    if es.len() == 0 {
        seq![]
    } else {
        let rest = flat_edges(nodes, es.drop_last());
        let e = es.last();
        let a = find_key(nodes, e.from);
        let b = find_key(nodes, e.to);
        if a >= 0 && b >= 0 {
            rest.push((a as usize, b as usize))
        } else {
            rest
        }
    }
}

/// Each node id with its position.
pub open spec fn position_entries(nodes: Seq<(Seq<char>, NodeView)>) -> Seq<(Seq<char>, usize)> {
    Seq::new(nodes.len(), |i: int| (nodes[i].0, i as usize))
}

/// Whether every edge joins two of the first `n` nodes.
pub open spec fn edges_within(edges: Seq<(usize, usize)>, n: nat) -> bool {
    forall|i: int| 0 <= i < edges.len() ==> (#[trigger] edges[i]).0 < n && edges[i].1 < n
}

pub proof fn lemma_flat_edges_within(nodes: Seq<(Seq<char>, NodeView)>, es: Seq<EdgeView>)
    ensures
        edges_within(flat_edges(nodes, es), nodes.len()),
        flat_edges(nodes, es).len() <= es.len(),
    decreases es.len(),
{
    if es.len() > 0 {
        lemma_flat_edges_within(nodes, es.drop_last());
        lemma_find_key(nodes, es.last().from);
        lemma_find_key(nodes, es.last().to);
    }
}

/// Looking a node id up among the positions finds its first position.
pub proof fn lemma_position_lookup(nodes: Seq<(Seq<char>, NodeView)>, k: Seq<char>)
    requires
        nodes.len() < index_limit(),
    ensures
        value_of(position_entries(nodes), k) == (if find_key(nodes, k) >= 0 {
            Some(find_key(nodes, k) as usize)
        } else {
            None::<usize>
        }),
{
    let p = position_entries(nodes);
    assert forall|i: int| 0 <= i < p.len() implies p[i].0 == nodes[i].0 by {}
    lemma_find_key_same_keys(p, nodes, k);
    lemma_find_key(nodes, k);
}

/// A dependency graph flattened into a petgraph `DiGraph`: node `i` of the
/// `DiGraph` is the `i`-th node of `graph.all_nodes()`, and each edge of any
/// level whose endpoints both exist becomes a `DiGraph` edge.
pub struct FlatGraphView<'a> {
    /// The source dependency graph.
    pub graph: &'a DepGraph,
    /// Flattened petgraph with all nodes and edges from all subgraph levels.
    pub pg: DiGraph<(), ()>,
    /// Map from node id to its position.
    pub id_to_idx: IndexMap<String, usize>,
    /// Node ids by position.
    pub idx_to_id: Vec<String>,
}

impl<'a> FlatGraphView<'a> {
    /// The nodes of the source graph, in position order.
    pub open spec fn nodes(&self) -> Seq<(Seq<char>, NodeView)> {
        all_nodes_spec(self.graph@)
    }

    /// The edges of the flat graph, as position pairs in order of addition.
    pub open spec fn edges(&self) -> Seq<(usize, usize)> {
        pg_edges(self.pg)
    }

    /// The view agrees with its source graph.
    pub open spec fn wf(&self) -> bool {
        let nodes = self.nodes();
        &&& distinct_keys(nodes)
        &&& nodes.len() < index_limit()
        &&& pg_node_count(self.pg) == nodes.len()
        &&& pg_edges(self.pg) == flat_edges(nodes, collect_edges(self.graph@))
        &&& edges_within(pg_edges(self.pg), nodes.len())
        &&& idx_entries(self.id_to_idx) == position_entries(nodes)
        &&& str_views(self.idx_to_id@) == keys_of(nodes)
    }

    /// Flatten `graph`.  Edges whose endpoints are not nodes of the graph are
    /// skipped.  The node and edge counts must fit petgraph's `u32` indices.
    pub fn new(graph: &'a DepGraph) -> (v: Self)
        requires
            all_nodes_spec(graph@).len() < index_limit(),
            collect_edges(graph@).len() < index_limit(),
        ensures
            v.wf(),
            v.graph == graph,
    {
        let all_nodes = graph.all_nodes();
        let all_edges = graph.all_edges();
        let ghost nodes = node_views(node_entries(all_nodes));
        let ghost es = edge_views(all_edges@);
        let mut pg = pg_new();
        let mut id_to_idx = idx_map_new();
        let mut idx_to_id: Vec<String> = Vec::new();
        let n = node_map_len(&all_nodes);
        let mut i: usize = 0;
        assert(position_entries(nodes.take(0)) =~= Seq::<(Seq<char>, usize)>::empty());
        assert(str_views(idx_to_id@) =~= keys_of(nodes.take(0)));
        while i < n
            invariant
                i <= n == nodes.len() == node_entries(all_nodes).len(),
                nodes == node_views(node_entries(all_nodes)),
                nodes == all_nodes_spec(graph@),
                nodes.len() < index_limit(),
                pg_node_count(pg) == i,
                pg_edges(pg) == Seq::<(usize, usize)>::empty(),
                idx_entries(id_to_idx) == position_entries(nodes.take(i as int)),
                str_views(idx_to_id@) == keys_of(nodes.take(i as int)),
                forall|a: int, b: int| 0 <= a < i && 0 <= b < n && a != b ==> #[trigger] nodes[a].0 != #[trigger] nodes[b].0,
            decreases n - i,
        {
            let (k, _) = node_map_get_index(&all_nodes, i).unwrap();
            assert(k@ == nodes[i as int].0);
            assert forall|b: int| 0 <= b < n && b != i implies #[trigger] nodes[b].0 != k@ by {
                assert(nodes[b].0 == node_entries(all_nodes)[b].0);
            }
            let idx = pg_add_node(&mut pg);
            let ghost pe = position_entries(nodes.take(i as int));
            proof {
                lemma_find_key(pe, k@);
                if find_key(pe, k@) >= 0 {
                    let j = find_key(pe, k@);
                    assert(pe[j].0 == nodes[j].0);
                }
            }
            idx_map_insert(&mut id_to_idx, k.clone(), idx);
            let ghost before = idx_to_id@;
            idx_to_id.push(k.clone());
            i = i + 1;
            assert(position_entries(nodes.take(i as int)) =~= pe.push((k@, idx)));
            assert(str_views(idx_to_id@) =~= str_views(before).push(k@));
            assert(keys_of(nodes.take(i as int)) =~= keys_of(nodes.take(i - 1)).push(k@));
        }
        assert(nodes.take(n as int) =~= nodes);
        proof {
            lemma_flat_edges_within(nodes, es);
        }
        let mut j: usize = 0;
        assert(es.take(0) =~= Seq::<EdgeView>::empty());
        while j < all_edges.len()
            invariant
                j <= all_edges@.len() == es.len(),
                es == edge_views(all_edges@),
                es == collect_edges(graph@),
                es.len() < index_limit(),
                nodes == all_nodes_spec(graph@),
                nodes.len() < index_limit(),
                pg_node_count(pg) == nodes.len(),
                idx_entries(id_to_idx) == position_entries(nodes),
                pg_edges(pg) == flat_edges(nodes, es.take(j as int)),
            decreases all_edges@.len() - j,
        {
            let e = &all_edges[j];
            let from = idx_map_get(&id_to_idx, e.from.as_str());
            let to = idx_map_get(&id_to_idx, e.to.as_str());
            proof {
                lemma_position_lookup(nodes, e.from@);
                lemma_position_lookup(nodes, e.to@);
                lemma_find_key(nodes, e.from@);
                lemma_find_key(nodes, e.to@);
                lemma_flat_edges_within(nodes, es.take(j as int));
                assert(es.take(j + 1).drop_last() =~= es.take(j as int));
                assert(es.take(j + 1).last() == e@);
            }
            match (from, to) {
                (Some(a), Some(b)) => {
                    pg_add_edge(&mut pg, a, b);
                },
                _ => {},
            }
            j = j + 1;
        }
        assert(es.take(es.len() as int) =~= es);
        proof {
            lemma_flat_edges_within(nodes, es);
        }
        FlatGraphView { graph, pg, id_to_idx, idx_to_id }
    }
}


} // verus!

verus! {

/// Whether no edge leads into `v`.
pub open spec fn no_incoming(edges: Seq<(usize, usize)>, v: usize) -> bool {
    neighbor_seq(edges, v, false).len() == 0
}

/// The nodes among the first `n` with no incoming edge, in order.
pub open spec fn roots_upto(edges: Seq<(usize, usize)>, n: nat) -> Seq<usize>
    decreases n,
{
    if n == 0 {
        seq![]
    } else {
        roots_upto(edges, (n - 1) as nat) + (if no_incoming(edges, (n - 1) as usize) {
            seq![(n - 1) as usize]
        } else {
            seq![]
        })
    }
}

/// `s` and every node one edge away from a node of `s`.
pub open spec fn step(edges: Seq<(usize, usize)>, s: Set<usize>, outgoing: bool) -> Set<usize> {
    s.union(Set::new(|v: usize| exists|u: usize| s.contains(u) && #[trigger] linked(edges, u, v, outgoing)))
}

/// The nodes within `k` edges of `seeds`.
pub open spec fn reach(edges: Seq<(usize, usize)>, seeds: Set<usize>, outgoing: bool, k: nat) -> Set<usize>
    decreases k,
{
    if k == 0 {
        seeds
    } else {
        step(edges, reach(edges, seeds, outgoing, (k - 1) as nat), outgoing)
    }
}

/// What `bfs` returns: the nodes within `max_depth` edges of the seeds, or
/// within `n` edges (every node reachable at all) when there is no limit.
pub open spec fn bfs_spec(
    edges: Seq<(usize, usize)>,
    n: nat,
    seeds: Set<usize>,
    outgoing: bool,
    max_depth: Option<usize>,
) -> Set<usize> {
    match max_depth {
        Some(d) => reach(edges, seeds, outgoing, d as nat),
        None => reach(edges, seeds, outgoing, n),
    }
}

pub(crate) proof fn lemma_reach_fixed(edges: Seq<(usize, usize)>, seeds: Set<usize>, outgoing: bool, k: nat, m: nat)
    requires
        k <= m,
        step(edges, reach(edges, seeds, outgoing, k), outgoing) == reach(edges, seeds, outgoing, k),
    ensures
        reach(edges, seeds, outgoing, m) == reach(edges, seeds, outgoing, k),
    decreases m - k,
{
    if k < m {
        lemma_reach_fixed(edges, seeds, outgoing, k, (m - 1) as nat);
    }
}

impl<'a> FlatGraphView<'a> {
    /// All root nodes (no incoming edges), in position order.
    pub fn roots(&self) -> (r: Vec<usize>)
        requires
            self.wf(),
        ensures
            r@ == roots_upto(self.edges(), self.nodes().len()),
    {
        let n = crate::pg::pg_count(&self.pg);
        let mut r: Vec<usize> = Vec::new();
        let mut i: usize = 0;
        while i < n
            invariant
                self.wf(),
                i <= n == self.nodes().len(),
                r@ == roots_upto(self.edges(), i as nat),
            decreases n - i,
        {
            let nb = pg_neighbors(&self.pg, i, false);
            if nb.len() == 0 {
                r.push(i);
            }
            i = i + 1;
        }
        r
    }

    /// Breadth-first search from `seeds` along edges (`outgoing`) or against
    /// them, returning every visited node.  With `max_depth` of `Some(n)` only
    /// nodes within `n` edges of a seed are visited; the seeds themselves are
    /// always included.
    #[verifier::spinoff_prover]
    pub fn bfs(&self, seeds: &Vec<usize>, outgoing: bool, max_depth: Option<usize>) -> (r: HashSet<usize>)
        requires
            self.wf(),
            forall|i: int| 0 <= i < seeds@.len() ==> seeds@[i] < self.nodes().len(),
        ensures
            r@ == bfs_spec(self.edges(), self.nodes().len(), seeds@.to_set(), outgoing, max_depth),
    {
        broadcast use vstd::std_specs::hash::group_hash_axioms;
        let ghost edges = self.edges();
        let ghost n = self.nodes().len();
        let ghost seed_set = seeds@.to_set();
        let mut visited: HashSet<usize> = HashSet::new();
        let mut frontier: Vec<usize> = Vec::new();
        let mut s: usize = 0;
        while s < seeds.len()
            invariant
                s <= seeds@.len(),
                visited@ == seeds@.take(s as int).to_set(),
                forall|x: usize| visited@.contains(x) <==> frontier@.contains(x),
                forall|i: int| 0 <= i < seeds@.len() ==> seeds@[i] < n,
            decreases seeds@.len() - s,
        {
            let x = seeds[s];
            let ghost fr = frontier@;
            if visited.insert(x) {
                frontier.push(x);
                assert forall|y: usize| frontier@.contains(y) <==> fr.contains(y) || y == x by {
                    if fr.contains(y) {
                        let k = choose|k: int| 0 <= k < fr.len() && fr[k] == y;
                        assert(frontier@[k] == y);
                    }
                    if y == x {
                        assert(frontier@[fr.len() as int] == y);
                    }
                }
            }
            assert(seeds@.take(s + 1) =~= seeds@.take(s as int).push(x));
            proof {
                seeds@.take(s as int).lemma_push_to_set_commute(x);
            }
            s = s + 1;
        }
        assert(seeds@.take(seeds@.len() as int) =~= seeds@);
        let limit = match max_depth {
            Some(d) => d,
            None => crate::pg::pg_count(&self.pg),
        };
        let mut level: usize = 0;
        while level < limit && frontier.len() > 0
            invariant
                self.wf(),
                edges == self.edges(),
                n == self.nodes().len(),
                level <= limit,
                visited@ == reach(edges, seed_set, outgoing, level as nat),
                forall|x: usize| #[trigger] visited@.contains(x) ==> x < n,
                forall|i: int| 0 <= i < frontier@.len() ==> visited@.contains(#[trigger] frontier@[i]),
                forall|u: usize, v: usize|
                    visited@.contains(u) && !frontier@.contains(u) && #[trigger] linked(edges, u, v, outgoing)
                        ==> visited@.contains(v),
            decreases limit - level,
        {
            let ghost old_visited = visited@;
            let mut next: Vec<usize> = Vec::new();
            let mut fi: usize = 0;
            while fi < frontier.len()
                invariant
                    self.wf(),
                    edges == self.edges(),
                    n == self.nodes().len(),
                    fi <= frontier@.len(),
                    old_visited.subset_of(visited@),
                    forall|x: usize| #[trigger] visited@.contains(x) ==> x < n,
                    forall|i: int| 0 <= i < frontier@.len() ==> old_visited.contains(#[trigger] frontier@[i]),
                    forall|x: usize| visited@.contains(x) && !old_visited.contains(x) <==> #[trigger] next@.contains(x),
                    forall|v: usize| visited@.contains(v) && !old_visited.contains(v) ==> exists|u: usize|
                        old_visited.contains(u) && #[trigger] linked(edges, u, v, outgoing),
                    forall|i: int, v: usize| 0 <= i < fi && #[trigger] linked(edges, frontier@[i], v, outgoing) ==> visited@.contains(v),
                decreases frontier@.len() - fi,
            {
                let u = frontier[fi];
                let nbs = pg_neighbors(&self.pg, u, outgoing);
                proof {
                    lemma_neighbor_seq(edges, u, outgoing);
                }
                let mut ni: usize = 0;
                while ni < nbs.len()
                    invariant
                        self.wf(),
                        edges == self.edges(),
                        n == self.nodes().len(),
                        ni <= nbs@.len(),
                        nbs@ == neighbor_seq(edges, u, outgoing),
                        forall|v: usize| nbs@.contains(v) <==> linked(edges, u, v, outgoing),
                        old_visited.contains(u),
                        fi < frontier@.len(),
                        u == frontier@[fi as int],
                        old_visited.subset_of(visited@),
                        forall|x: usize| #[trigger] visited@.contains(x) ==> x < n,
                        forall|x: usize| visited@.contains(x) && !old_visited.contains(x) <==> #[trigger] next@.contains(x),
                        forall|v: usize| visited@.contains(v) && !old_visited.contains(v) ==> exists|w: usize|
                            old_visited.contains(w) && #[trigger] linked(edges, w, v, outgoing),
                        forall|i: int, v: usize| 0 <= i < fi && #[trigger] linked(edges, frontier@[i], v, outgoing) ==> visited@.contains(v),
                        forall|k: int| 0 <= k < ni ==> visited@.contains(#[trigger] nbs@[k]),
                    decreases nbs@.len() - ni,
                {
                    let v = nbs[ni];
                    assert(nbs@.contains(v));
                    assert(linked(edges, u, v, outgoing));
                    proof {
                        let lk = choose|i: int| 0 <= i < edges.len() && #[trigger] edges[i] == (if outgoing { (u, v) } else { (v, u) });
                        assert(edges[lk].0 < n && edges[lk].1 < n);
                    }
                    let ghost nx = next@;
                    let ghost vis0 = visited@;
                    assert(forall|x: usize| vis0.contains(x) && !old_visited.contains(x) <==> #[trigger] nx.contains(x));
                    let fresh = visited.insert(v);
                    if fresh {
                        next.push(v);
                        assert(next@[nx.len() as int] == v);
                        assert(next@.contains(v));
                        assert(!vis0.contains(v));
                        assert(visited@ == vis0.insert(v));
                        assert forall|y: usize| next@.contains(y) <==> nx.contains(y) || y == v by {
                            if nx.contains(y) {
                                let k = choose|k: int| 0 <= k < nx.len() && nx[k] == y;
                                assert(next@[k] == y);
                            }
                            if y == v {
                                assert(next@[nx.len() as int] == y);
                            }
                        }
                        assert forall|x: usize| visited@.contains(x) && !old_visited.contains(x) <==> #[trigger] next@.contains(x) by {
                            if x != v {
                                assert(visited@.contains(x) == vis0.contains(x));
                                assert(next@.contains(x) == nx.contains(x));
                                assert(vis0.contains(x) && !old_visited.contains(x) <==> nx.contains(x));
                            } else {
                                assert(next@.contains(v));
                                assert(visited@.contains(v));
                                assert(!old_visited.contains(v));
                            }
                        }
                    } else {
                        assert(vis0.contains(v));
                        assert(visited@ == vis0);
                    }
                    ni = ni + 1;
                }
                assert forall|v: usize| #[trigger] linked(edges, frontier@[fi as int], v, outgoing) implies visited@.contains(v) by {
                    assert(nbs@.contains(v));
                    let k = choose|k: int| 0 <= k < nbs@.len() && nbs@[k] == v;
                }
                fi = fi + 1;
            }
            proof {
                let st = step(edges, old_visited, outgoing);
                assert forall|v: usize| visited@.contains(v) <==> st.contains(v) by {
                    if st.contains(v) && !old_visited.contains(v) {
                        let u = choose|u: usize| old_visited.contains(u) && #[trigger] linked(edges, u, v, outgoing);
                        if frontier@.contains(u) {
                            let i = choose|i: int| 0 <= i < frontier@.len() && frontier@[i] == u;
                            assert(linked(edges, frontier@[i], v, outgoing));
                        }
                    }
                }
                assert(visited@ =~= st);
            }
            assert forall|i: int| 0 <= i < next@.len() implies visited@.contains(#[trigger] next@[i]) by {
                assert(next@.contains(next@[i]));
            }
            frontier = next;
            level = level + 1;
        }
        proof {
            let k = level as nat;
            if frontier@.len() == 0 {
                let st = step(edges, visited@, outgoing);
                assert forall|v: usize| st.contains(v) implies visited@.contains(v) by {
                    if !visited@.contains(v) {
                        let u = choose|u: usize| visited@.contains(u) && #[trigger] linked(edges, u, v, outgoing);
                        assert(!frontier@.contains(u));
                    }
                }
                assert(st =~= visited@);
                lemma_reach_fixed(edges, seed_set, outgoing, k, limit as nat);
            }
        }
        visited
    }
}

} // verus!

verus! {

/// The entries of `nodes` whose id is in `keep`, in order.
pub open spec fn filter_nodes(nodes: Seq<(Seq<char>, NodeView)>, keep: Set<Seq<char>>) -> Seq<(Seq<char>, NodeView)>
    decreases nodes.len(),
{
    if nodes.len() == 0 {
        seq![]
    } else {
        let rest = filter_nodes(nodes.drop_last(), keep);
        if keep.contains(nodes.last().0) {
            rest.push(nodes.last())
        } else {
            rest
        }
    }
}

/// The edges of `es` with both endpoints in `keep`, in order.
pub open spec fn filter_edges(es: Seq<EdgeView>, keep: Set<Seq<char>>) -> Seq<EdgeView>
    decreases es.len(),
{
    if es.len() == 0 {
        seq![]
    } else {
        let rest = filter_edges(es.drop_last(), keep);
        if keep.contains(es.last().from) && keep.contains(es.last().to) {
            rest.push(es.last())
        } else {
            rest
        }
    }
}

/// `g` restricted to the node ids in `keep`, level by level; a subgraph left
/// with no nodes and no subgraphs is dropped.
pub open spec fn filter_view(g: GraphView, keep: Set<Seq<char>>) -> GraphView
    decreases g, 0nat,
{
    GraphView {
        id: g.id,
        attrs: g.attrs,
        nodes: filter_nodes(g.nodes, keep),
        edges: filter_edges(g.edges, keep),
        subgraphs: filter_subgraphs(g.subgraphs, g.subgraphs.len(), keep),
    }
}

pub open spec fn filter_subgraphs(sgs: Seq<GraphView>, n: nat, keep: Set<Seq<char>>) -> Seq<GraphView>
    decreases sgs, n,
{
    if n == 0 || n > sgs.len() {
        seq![]
    } else {
        let rest = filter_subgraphs(sgs, (n - 1) as nat, keep);
        let f = filter_view(sgs[n - 1], keep);
        if f.nodes.len() > 0 || f.subgraphs.len() > 0 {
            rest.push(f)
        } else {
            rest
        }
    }
}

/// The ids of the nodes whose position is in `keep`.
pub open spec fn kept_ids(nodes: Seq<(Seq<char>, NodeView)>, keep: Set<usize>) -> Set<Seq<char>> {
    Set::new(|k: Seq<char>| find_key(nodes, k) >= 0 && keep.contains(find_key(nodes, k) as usize))
}

pub proof fn lemma_filter_nodes_from(nodes: Seq<(Seq<char>, NodeView)>, keep: Set<Seq<char>>)
    ensures
        forall|m: int| 0 <= m < filter_nodes(nodes, keep).len() ==> exists|j: int|
            0 <= j < nodes.len() && nodes[j] == #[trigger] filter_nodes(nodes, keep)[m],
        filter_nodes(nodes, keep).len() <= nodes.len(),
    decreases nodes.len(),
{
    if nodes.len() > 0 {
        let init = nodes.drop_last();
        lemma_filter_nodes_from(init, keep);
        let f = filter_nodes(nodes, keep);
        let r = filter_nodes(init, keep);
        assert forall|m: int| 0 <= m < f.len() implies exists|j: int| 0 <= j < nodes.len() && nodes[j] == #[trigger] f[m] by {
            if m < r.len() {
                assert(f[m] == r[m]);
                let j = choose|j: int| 0 <= j < init.len() && init[j] == #[trigger] r[m];
                assert(nodes[j] == f[m]);
            } else {
                assert(nodes[nodes.len() - 1] == f[m]);
            }
        }
    }
}

impl<'a> FlatGraphView<'a> {
    /// Whether node `id` is one of those whose position is in `keep`.
    pub fn keeps(&self, keep: &HashSet<usize>, id: &str) -> (b: bool)
        requires
            self.wf(),
        ensures
            b == kept_ids(self.nodes(), keep@).contains(id@),
    {
        broadcast use vstd::std_specs::hash::group_hash_axioms;
        proof {
            lemma_position_lookup(self.nodes(), id@);
        }
        match idx_map_get(&self.id_to_idx, id) {
            Some(i) => keep.contains(&i),
            None => false,
        }
    }

    /// The entries of `m` whose id is kept, in order.
    pub fn filter_node_map(&self, m: &IndexMap<String, NodeInfo>, keep: &HashSet<usize>) -> (r: IndexMap<String, NodeInfo>)
        requires
            self.wf(),
        ensures
            node_views(node_entries(r)) == filter_nodes(node_views(node_entries(*m)), kept_ids(self.nodes(), keep@)),
    {
        let ghost ks = kept_ids(self.nodes(), keep@);
        let n = node_map_len(m);
        let ghost src = node_views(node_entries(*m));
        let mut nodes = crate::maps::node_map_new();
        let mut i: usize = 0;
        assert(node_views(node_entries(nodes)) =~= filter_nodes(src.take(0), ks));
        while i < n
            invariant
                self.wf(),
                ks == kept_ids(self.nodes(), keep@),
                i <= n == src.len() == node_entries(*m).len(),
                src == node_views(node_entries(*m)),
                node_views(node_entries(nodes)) == filter_nodes(src.take(i as int), ks),
            decreases n - i,
        {
            let (k, v) = node_map_get_index(m, i).unwrap();
            assert(src.take(i + 1).drop_last() =~= src.take(i as int));
            assert(src.take(i + 1).last() == src[i as int]);
            if self.keeps(keep, k.as_str()) {
                let v2 = v.duplicate();
                proof {
                    crate::graph::lemma_node_views_insert(node_entries(nodes), k@, v2);
                    lemma_find_key(node_entries(nodes), k@);
                    lemma_filter_nodes_from(src.take(i as int), ks);
                    if find_key(node_entries(nodes), k@) >= 0 {
                        let q = find_key(node_entries(nodes), k@);
                        let f = filter_nodes(src.take(i as int), ks);
                        assert(f[q].0 == k@);
                        let j = choose|j: int| 0 <= j < src.take(i as int).len() && src.take(i as int)[j] == #[trigger] f[q];
                        assert(src[j].0 == node_entries(*m)[j].0);
                        assert(node_entries(*m)[j].0 != k@);
                    }
                }
                crate::maps::node_map_insert(&mut nodes, k.clone(), v2);
            }
            i = i + 1;
        }
        assert(src.take(n as int) =~= src);
        nodes
    }

    /// The edges of `es` with both endpoints kept, in order.
    pub fn filter_edge_vec(&self, es: &Vec<Edge>, keep: &HashSet<usize>) -> (r: Vec<Edge>)
        requires
            self.wf(),
        ensures
            edge_views(r@) == filter_edges(edge_views(es@), kept_ids(self.nodes(), keep@)),
    {
        let ghost ks = kept_ids(self.nodes(), keep@);
        let mut edges: Vec<Edge> = Vec::new();
        let mut j: usize = 0;
        assert(edge_views(edges@) =~= filter_edges(edge_views(es@.take(0)), ks));
        while j < es.len()
            invariant
                self.wf(),
                ks == kept_ids(self.nodes(), keep@),
                j <= es@.len(),
                edge_views(edges@) == filter_edges(edge_views(es@.take(j as int)), ks),
            decreases es@.len() - j,
        {
            let e = &es[j];
            assert(edge_views(es@.take(j + 1)).drop_last() =~= edge_views(es@.take(j as int)));
            assert(edge_views(es@.take(j + 1)).last() == e@);
            if self.keeps(keep, e.from.as_str()) && self.keeps(keep, e.to.as_str()) {
                let e2 = e.duplicate();
                let ghost before = edges@;
                edges.push(e2);
                assert(edge_views(edges@) =~= edge_views(before).push(e2@));
            }
            j = j + 1;
        }
        assert(es@.take(es@.len() as int) =~= es@);
        edges
    }

    fn filter_graph(&self, graph: &DepGraph, keep: &HashSet<usize>) -> (r: DepGraph)
        requires
            self.wf(),
        ensures
            r@ == filter_view(graph@, kept_ids(self.nodes(), keep@)),
        decreases graph,
    {
        let ghost ks = kept_ids(self.nodes(), keep@);
        let nodes = self.filter_node_map(&graph.nodes, keep);
        let edges = self.filter_edge_vec(&graph.edges, keep);
        let mut subgraphs: Vec<DepGraph> = Vec::new();
        let mut s: usize = 0;
        while s < graph.subgraphs.len()
            invariant
                self.wf(),
                ks == kept_ids(self.nodes(), keep@),
                s <= graph.subgraphs@.len(),
                graph@.subgraphs.len() == graph.subgraphs@.len(),
                Seq::new(subgraphs@.len(), |q: int| subgraphs@[q]@) == filter_subgraphs(graph@.subgraphs, s as nat, ks),
            decreases graph.subgraphs@.len() - s,
        {
            proof {
                crate::graph::lemma_graph_view_subgraph(*graph, s as int);
            }
            let f = self.filter_graph(&graph.subgraphs[s], keep);
            let ghost before = subgraphs@;
            if node_map_len(&f.nodes) > 0 || f.subgraphs.len() > 0 {
                proof {
                    assert(f@.nodes.len() == node_entries(f.nodes).len());
                    assert(f@.subgraphs.len() == f.subgraphs@.len());
                }
                subgraphs.push(f);
                assert(Seq::new(subgraphs@.len(), |q: int| subgraphs@[q]@) =~= Seq::new(before.len(), |q: int| before[q]@).push(f@));
            } else {
                proof {
                    assert(f@.nodes.len() == node_entries(f.nodes).len());
                    assert(f@.subgraphs.len() == f.subgraphs@.len());
                }
            }
            s = s + 1;
        }
        let id = match &graph.id {
            Some(x) => Some(x.clone()),
            None => None,
        };
        let r = DepGraph { id, attrs: crate::maps::str_map_clone(&graph.attrs), nodes, edges, subgraphs };
        assert forall|q: int| 0 <= q < r.subgraphs@.len() implies r@.subgraphs[q] == r.subgraphs@[q]@ by {
            crate::graph::lemma_graph_view_subgraph(r, q);
        }
        assert(r@.subgraphs =~= filter_subgraphs(graph@.subgraphs, graph@.subgraphs.len(), ks));
        r
    }

    /// The source graph restricted to the nodes whose position is in `keep`,
    /// with the edges between them.  The subgraph structure is kept; a
    /// subgraph left with no nodes and no subgraphs is dropped.
    pub fn filter(&self, keep: &HashSet<usize>) -> (r: DepGraph)
        requires
            self.wf(),
        ensures
            r@ == filter_view(self.graph@, kept_ids(self.nodes(), keep@)),
    {
        self.filter_graph(self.graph, keep)
    }
}

} // verus!

verus! {

/// Traversal never leaves the nodes: when the seeds and the edges are within
/// `0 .. n`, so is everything within `k` edges of the seeds.
pub proof fn lemma_reach_within(edges: Seq<(usize, usize)>, n: nat, seeds: Set<usize>, outgoing: bool, k: nat)
    requires
        edges_within(edges, n),
        forall|x: usize| #[trigger] seeds.contains(x) ==> x < n,
    ensures
        forall|x: usize| #[trigger] reach(edges, seeds, outgoing, k).contains(x) ==> x < n,
    decreases k,
{
    if k > 0 {
        lemma_reach_within(edges, n, seeds, outgoing, (k - 1) as nat);
        let prev = reach(edges, seeds, outgoing, (k - 1) as nat);
        assert forall|x: usize| #[trigger] reach(edges, seeds, outgoing, k).contains(x) implies x < n by {
            if !prev.contains(x) {
                let u = choose|u: usize| prev.contains(u) && #[trigger] linked(edges, u, x, outgoing);
                let i = choose|i: int| 0 <= i < edges.len() && #[trigger] edges[i] == (if outgoing { (u, x) } else { (x, u) });
                assert(edges[i].0 < n && edges[i].1 < n);
            }
        }
    }
}

} // verus!

verus! {

/// The seeds are within any number of edges of themselves.
pub proof fn lemma_seeds_reached(edges: Seq<(usize, usize)>, seeds: Set<usize>, outgoing: bool, k: nat)
    ensures
        seeds.subset_of(reach(edges, seeds, outgoing, k)),
    decreases k,
{
    if k > 0 {
        lemma_seeds_reached(edges, seeds, outgoing, (k - 1) as nat);
    }
}

} // verus!
