//! Trusted interface to `petgraph::graph::DiGraph`, the flat directed graph
//! that the graph algorithms traverse.  Verus sees such a graph only through
//! its node count (`pg_node_count`) and its edge list in insertion order
//! (`pg_edges`); node indices are handled as `usize`.
use petgraph::graph::{DiGraph, NodeIndex};
use petgraph::visit::IntoNeighbors;
use petgraph::Direction;
use vstd::prelude::*;

verus! {

#[verifier::external_type_specification]
#[verifier::external_body]
#[verifier::reject_recursive_types(N)]
#[verifier::reject_recursive_types(E)]
#[verifier::reject_recursive_types(Ty)]
#[verifier::reject_recursive_types(Ix)]
pub struct ExGraph<N, E, Ty, Ix>(petgraph::graph::Graph<N, E, Ty, Ix>);

#[verifier::external_type_specification]
#[verifier::external_body]
pub struct ExDirected(petgraph::Directed);

/// The number of nodes of a graph; its nodes are `0 .. pg_node_count(g)`.
pub uninterp spec fn pg_node_count(g: DiGraph<(), ()>) -> nat;

/// The edges of a graph, as (source, target) pairs in order of addition.
pub uninterp spec fn pg_edges(g: DiGraph<(), ()>) -> Seq<(usize, usize)>;

/// Indices of a `DiGraph` are `u32`; the largest one is reserved.
pub open spec fn index_limit() -> nat {
    0xffff_ffffnat
}

/// The neighbors of `a` along `edges`: targets of edges from `a` when
/// `outgoing`, else sources of edges into `a`; the most recently added edge
/// first.
pub open spec fn neighbor_seq(edges: Seq<(usize, usize)>, a: usize, outgoing: bool) -> Seq<usize>
    decreases edges.len(),
{
    if edges.len() == 0 {
        seq![]
    } else {
        let e = edges.last();
        let rest = neighbor_seq(edges.drop_last(), a, outgoing);
        if outgoing && e.0 == a {
            seq![e.1] + rest
        } else if !outgoing && e.1 == a {
            seq![e.0] + rest
        } else {
            rest
        }
    }
}

/// Whether some edge leads from `u` to `v` (`outgoing`) or from `v` to `u`.
pub open spec fn linked(edges: Seq<(usize, usize)>, u: usize, v: usize, outgoing: bool) -> bool {
    exists|i: int| 0 <= i < edges.len() && #[trigger] edges[i] == (if outgoing { (u, v) } else { (v, u) })
}

pub proof fn lemma_neighbor_seq(edges: Seq<(usize, usize)>, a: usize, outgoing: bool)
    ensures
        forall|v: usize| neighbor_seq(edges, a, outgoing).contains(v) <==> linked(edges, a, v, outgoing),
        neighbor_seq(edges, a, outgoing).len() <= edges.len(),
    decreases edges.len(),
{
    if edges.len() > 0 {
        let init = edges.drop_last();
        lemma_neighbor_seq(init, a, outgoing);
        let e = edges.last();
        let s = neighbor_seq(edges, a, outgoing);
        let r = neighbor_seq(init, a, outgoing);
        assert forall|v: usize| s.contains(v) <==> linked(edges, a, v, outgoing) by {
            let want = if outgoing { (a, v) } else { (v, a) };
            if linked(init, a, v, outgoing) {
                let i = choose|i: int| 0 <= i < init.len() && #[trigger] init[i] == want;
                assert(edges[i] == want);
                assert(r.contains(v));
                if (outgoing && e.0 == a) || (!outgoing && e.1 == a) {
                    let j = choose|j: int| 0 <= j < r.len() && r[j] == v;
                    assert(s[j + 1] == v);
                }
            }
            if linked(edges, a, v, outgoing) {
                let i = choose|i: int| 0 <= i < edges.len() && #[trigger] edges[i] == want;
                if i < init.len() {
                    assert(init[i] == want);
                } else {
                    assert(s[0] == v);
                }
            }
            if s.contains(v) {
                let j = choose|j: int| 0 <= j < s.len() && s[j] == v;
                if (outgoing && e.0 == a) || (!outgoing && e.1 == a) {
                    if j == 0 {
                        assert(edges[edges.len() - 1] == want);
                    } else {
                        assert(r[j - 1] == v);
                        assert(r.contains(v));
                        let i = choose|i: int| 0 <= i < init.len() && #[trigger] init[i] == want;
                        assert(edges[i] == want);
                    }
                } else {
                    assert(r.contains(v));
                    let i = choose|i: int| 0 <= i < init.len() && #[trigger] init[i] == want;
                    assert(edges[i] == want);
                }
            }
        }
    }
}

/// `DiGraph::new`: a graph with no nodes and no edges.
#[verifier::external_body]
pub fn pg_new() -> (g: DiGraph<(), ()>)
    ensures
        pg_node_count(g) == 0,
        pg_edges(g) == Seq::<(usize, usize)>::empty(),
{
    DiGraph::new()
}

/// `Graph::add_node`: the new node's index is the old node count.  It panics
/// once the `u32` index space is exhausted, hence the bound.
#[verifier::external_body]
pub fn pg_add_node(g: &mut DiGraph<(), ()>) -> (idx: usize)
    requires
        pg_node_count(*old(g)) < index_limit(),
    ensures
        idx == pg_node_count(*old(g)),
        pg_node_count(*final(g)) == pg_node_count(*old(g)) + 1,
        pg_edges(*final(g)) == pg_edges(*old(g)),
{
    g.add_node(()).index()
}

/// `Graph::add_edge`: appends the edge `a -> b`.  It panics when an endpoint
/// does not exist or the `u32` edge index space is exhausted.
#[verifier::external_body]
pub fn pg_add_edge(g: &mut DiGraph<(), ()>, a: usize, b: usize)
    requires
        a < pg_node_count(*old(g)),
        b < pg_node_count(*old(g)),
        pg_edges(*old(g)).len() < index_limit(),
    ensures
        pg_node_count(*final(g)) == pg_node_count(*old(g)),
        pg_edges(*final(g)) == pg_edges(*old(g)).push((a, b)),
{
    g.add_edge(NodeIndex::new(a), NodeIndex::new(b), ());
}

/// `Graph::node_count`.
#[verifier::external_body]
pub fn pg_count(g: &DiGraph<(), ()>) -> (n: usize)
    ensures
        n == pg_node_count(*g),
{
    g.node_count()
}

/// `Graph::neighbors_directed`, collected: for a directed graph the
/// documentation lists neighbors in reverse order of edge addition.
#[verifier::external_body]
pub fn pg_neighbors(g: &DiGraph<(), ()>, a: usize, outgoing: bool) -> (r: Vec<usize>)
    requires
        a < pg_node_count(*g),
    ensures
        r@ == neighbor_seq(pg_edges(*g), a, outgoing),
{
    let dir = if outgoing {
        Direction::Outgoing
    } else {
        Direction::Incoming
    };
    g.neighbors_directed(NodeIndex::new(a), dir).map(|n| n.index()).collect()
}

/// The strongly connected components that `petgraph::algo::tarjan_scc`
/// finds in the graph with `n` nodes and these edges, in the order it
/// returns them.
pub uninterp spec fn tarjan_sccs(n: nat, edges: Seq<(usize, usize)>) -> Seq<Seq<usize>>;

/// The relation "an edge leads from `x` to `y`".
pub open spec fn edge_rel(edges: Seq<(usize, usize)>) -> spec_fn(usize, usize) -> bool {
    |x: usize, y: usize| edges.contains((x, y))
}

/// Whether `v` lies in one of the lists.
pub open spec fn listed(sccs: Seq<Seq<usize>>, v: usize) -> bool {
    exists|i: int, j: int| 0 <= i < sccs.len() && 0 <= j < sccs[i].len() && #[trigger] sccs[i][j] == v
}

/// Whether `sccs` are the strongly connected components of the graph with
/// `n` nodes and these edges: each node lies in exactly one component, at
/// one place; two nodes of one component reach each other; two nodes of
/// different components do not.
#[verifier::opaque]
pub open spec fn are_sccs(n: nat, edges: Seq<(usize, usize)>, sccs: Seq<Seq<usize>>) -> bool {
    &&& forall|v: usize| v < n ==> #[trigger] listed(sccs, v)
    &&& forall|i1: int, j1: int, i2: int, j2: int|
        0 <= i1 < sccs.len() && 0 <= j1 < sccs[i1].len() && 0 <= i2 < sccs.len() && 0 <= j2 < sccs[i2].len()
            && #[trigger] sccs[i1][j1] == #[trigger] sccs[i2][j2] ==> i1 == i2 && j1 == j2
    &&& forall|i: int, j: int, k: int|
        0 <= i < sccs.len() && 0 <= j < sccs[i].len() && 0 <= k < sccs[i].len() ==> reaches(edge_rel(edges), n, #[trigger] sccs[i][j], #[trigger] sccs[i][k])
    &&& forall|i1: int, j1: int, i2: int, j2: int|
        0 <= i1 < sccs.len() && 0 <= j1 < sccs[i1].len() && 0 <= i2 < sccs.len() && 0 <= j2 < sccs[i2].len() && i1 != i2
            ==> !(reaches(edge_rel(edges), n, #[trigger] sccs[i1][j1], #[trigger] sccs[i2][j2]) && reaches(edge_rel(edges), n, sccs[i2][j2], sccs[i1][j1]))
}

/// `petgraph::algo::tarjan_scc`: the strongly connected components (as its
/// documentation defines its result), each a list of node ids of the graph.
#[verifier::external_body]
pub fn pg_tarjan_scc(g: &DiGraph<(), ()>) -> (r: Vec<Vec<usize>>)
    ensures
        r@.map_values(|c: Vec<usize>| c@) == tarjan_sccs(pg_node_count(*g), pg_edges(*g)),
        are_sccs(pg_node_count(*g), pg_edges(*g), r@.map_values(|c: Vec<usize>| c@)),
        forall|i: int, j: int| 0 <= i < r@.len() && 0 <= j < r@[i]@.len() ==> #[trigger] r@[i]@[j] < pg_node_count(*g),
{
    petgraph::algo::tarjan_scc(g).into_iter().map(|c| c.into_iter().map(|n| n.index()).collect()).collect()
}

} // verus!

verus! {

/// Neighbors are nodes of the graph when every edge joins nodes below `n`.
pub proof fn lemma_neighbors_below(edges: Seq<(usize, usize)>, n: nat, a: usize, outgoing: bool)
    requires
        forall|i: int| 0 <= i < edges.len() ==> (#[trigger] edges[i]).0 < n && edges[i].1 < n,
    ensures
        forall|k: int| 0 <= k < neighbor_seq(edges, a, outgoing).len() ==> #[trigger] neighbor_seq(edges, a, outgoing)[k] < n,
    decreases edges.len(),
{
    if edges.len() > 0 {
        let init = edges.drop_last();
        assert forall|i: int| 0 <= i < init.len() implies (#[trigger] init[i]).0 < n && init[i].1 < n by {
            assert(init[i] == edges[i]);
        }
        lemma_neighbors_below(init, n, a, outgoing);
        let e = edges.last();
        assert(e == edges[edges.len() - 1]);
        let s = neighbor_seq(edges, a, outgoing);
        let r = neighbor_seq(init, a, outgoing);
        assert forall|k: int| 0 <= k < s.len() implies #[trigger] s[k] < n by {
            if (outgoing && e.0 == a) || (!outgoing && e.1 == a) {
                if k > 0 {
                    assert(s[k] == r[k - 1]);
                }
            } else {
                assert(s[k] == r[k]);
            }
        }
    }
}

} // verus!

verus! {

/// Whether `order` lists each of the nodes `0 .. n` once, every edge's source
/// before its target.
pub open spec fn is_topo_order(order: Seq<usize>, n: nat, edges: Seq<(usize, usize)>) -> bool {
    &&& order.len() == n
    &&& order.no_duplicates()
    &&& forall|k: int| 0 <= k < order.len() ==> #[trigger] order[k] < n
    &&& forall|i: int|
        0 <= i < edges.len() ==> exists|a: int, b: int|
            0 <= a < b < order.len() && order[a] == (#[trigger] edges[i]).0 && order[b] == edges[i].1
}

/// Whether the graph with `n` nodes and these edges has a cycle: a path of
/// one edge or more from a node back to itself (a self loop counts).
pub open spec fn has_cycle(n: nat, edges: Seq<(usize, usize)>) -> bool {
    exists|p: Seq<usize>|
        {
            &&& p.len() >= 2
            &&& p[0] == p.last()
            &&& forall|k: int| 0 <= k < p.len() ==> #[trigger] p[k] < n
            &&& forall|k: int| 0 <= k < p.len() - 1 ==> #[trigger] linked(edges, p[k], p[k + 1], true)
        }
}

/// The order that `petgraph::algo::toposort` returns for the graph with `n`
/// nodes and these edges, or `None` when it reports a cycle.
pub uninterp spec fn topo_order(n: nat, edges: Seq<(usize, usize)>) -> Option<Seq<usize>>;

/// `petgraph::algo::toposort` (no reusable workspace): the nodes in
/// topological order, or `None` for a graph with a cycle.  The order lists
/// each node of the graph once, each before its successors, as the function's
/// documentation states; it reports a cycle exactly when the graph has one.
#[verifier::external_body]
pub fn pg_toposort(g: &DiGraph<(), ()>) -> (r: Option<Vec<usize>>)
    ensures
        match r {
            Some(v) => topo_order(pg_node_count(*g), pg_edges(*g)) == Some(v@),
            None => topo_order(pg_node_count(*g), pg_edges(*g)) is None,
        },
        r matches Some(v) ==> forall|k: int| 0 <= k < v@.len() ==> #[trigger] v@[k] < pg_node_count(*g),
        r matches Some(v) ==> is_topo_order(v@, pg_node_count(*g), pg_edges(*g)),
        r is None == has_cycle(pg_node_count(*g), pg_edges(*g)),
{
    match petgraph::algo::toposort(g, None) {
        Ok(order) => Some(order.into_iter().map(|n| n.index()).collect()),
        Err(_) => None,
    }
}

} // verus!

verus! {

/// A `petgraph::adj::List<(), u32>` (an unweighted adjacency list), held
/// privately: Verus refuses a declaration of that type, whose index parameter
/// carries an outside trait bound.
#[verifier::external_body]
pub struct TopoList {
    inner: petgraph::adj::List<(), u32>,
}

/// The successor lists of an adjacency list, by node, in stored order.
pub uninterp spec fn list_adj(l: TopoList) -> Seq<Seq<usize>>;

/// Whether a path leads from `a` to `b` (possibly of no edge) through nodes
/// below `n`, each step along `rel`.
pub open spec fn reaches(rel: spec_fn(usize, usize) -> bool, n: nat, a: usize, b: usize) -> bool {
    exists|p: Seq<usize>|
        {
            &&& p.len() >= 1
            &&& p[0] == a
            &&& p.last() == b
            &&& forall|k: int| 0 <= k < p.len() ==> #[trigger] p[k] < n
            &&& forall|k: int| 0 <= k < p.len() - 1 ==> rel(#[trigger] p[k], p[k + 1])
        }
}

/// Whether the edge `x -> y` of `rel` stays in the transitive reduction: no
/// other successor of `x` leads to `y`.
pub open spec fn reduces(rel: spec_fn(usize, usize) -> bool, n: nat, x: usize, y: usize) -> bool {
    &&& rel(x, y)
    &&& !exists|w: usize| w < n && w != y && #[trigger] rel(x, w) && reaches(rel, n, w, y)
}

/// The edge relation of an adjacency list.
pub open spec fn list_rel(adj: Seq<Seq<usize>>) -> spec_fn(usize, usize) -> bool {
    |x: usize, y: usize| x < adj.len() && adj[x as int].contains(y)
}

/// Whether each successor list is ascending and holds only later nodes below `n`.
pub open spec fn forward_sorted(adj: Seq<Seq<usize>>) -> bool {
    forall|x: int, k: int|
        0 <= x < adj.len() && 0 <= k < adj[x].len() ==> x < #[trigger] adj[x][k] < adj.len() && (k > 0 ==> adj[x][k - 1]
            <= adj[x][k])
}

/// `petgraph::algo::tred::dag_to_toposorted_adjacency_list` (the first part of
/// its result): the graph renumbered by rank in `order`. Node `x` of the list
/// is `order[x]`; its successors are stored ascending, as the source adds them.
#[verifier::external_body]
pub fn pg_toposorted_list(g: &DiGraph<(), ()>, order: &Vec<usize>) -> (r: TopoList)
    requires
        is_topo_order(order@, pg_node_count(*g), pg_edges(*g)),
    ensures
        list_adj(r).len() == order@.len(),
        forward_sorted(list_adj(r)),
        forall|x: usize, y: usize|
            x < order@.len() && y < order@.len() ==> (#[trigger] list_adj(r)[x as int].contains(y) <==> linked(
                pg_edges(*g),
                order@[x as int],
                order@[y as int],
                true,
            )),
{
    let sorted: Vec<NodeIndex> = order.iter().map(|&i| NodeIndex::new(i)).collect();
    TopoList { inner: petgraph::algo::tred::dag_to_toposorted_adjacency_list::<_, u32>(g, &sorted).0 }
}

/// `petgraph::algo::tred::dag_transitive_reduction_closure` (the reduction):
/// for a list numbered in topological order with ascending successor lists,
/// the edges of the transitive reduction.
#[verifier::external_body]
pub fn list_reduction(l: &TopoList) -> (r: TopoList)
    requires
        forward_sorted(list_adj(*l)),
    ensures
        list_adj(r).len() == list_adj(*l).len(),
        forall|x: int, k: int| 0 <= x < list_adj(r).len() && 0 <= k < list_adj(r)[x].len() ==> #[trigger] list_adj(r)[x][k] < list_adj(r).len(),
        forall|x: usize, y: usize|
            x < list_adj(r).len() ==> (#[trigger] list_adj(r)[x as int].contains(y) <==> reduces(
                list_rel(list_adj(*l)),
                list_adj(*l).len(),
                x,
                y,
            )),
{
    TopoList { inner: petgraph::algo::tred::dag_transitive_reduction_closure(&l.inner).0 }
}

/// `List::neighbors`: the successors of node `x`, in stored order.
#[verifier::external_body]
pub fn list_neighbors(l: &TopoList, x: usize) -> (r: Vec<usize>)
    requires
        x < list_adj(*l).len(),
    ensures
        r@ == list_adj(*l)[x as int],
{
    (&l.inner).neighbors(x as u32).map(|n| n as usize).collect()
}

} // verus!
