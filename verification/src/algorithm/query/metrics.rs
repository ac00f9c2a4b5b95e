//! Whole-graph metrics: sizes, degrees, depth, cycles, diamonds, components.
//! The two ratios that the command line also reports (mean fan-out and
//! density) are quotients of `edges` and `nodes`, computed by the caller.
use vstd::prelude::*;

use std::collections::HashSet;

use crate::algorithm::set_to_vec;
use crate::flat::{bfs_spec, edges_within, flat_edges, lemma_reach_within, FlatGraphView};
use crate::graph::{all_nodes_spec, collect_edges, DepGraph, GraphView};
use crate::pg::{
    index_limit, lemma_neighbors_below, neighbor_seq, pg_count, pg_edges, pg_neighbors, pg_node_count, pg_tarjan_scc,
    pg_toposort, tarjan_sccs, topo_order,
};

verus! {

broadcast use vstd::std_specs::hash::group_hash_axioms;

/// The number of weakly connected components that
/// `petgraph::algo::connected_components` counts in the graph with `n` nodes
/// and these edges.
pub uninterp spec fn weak_components(n: nat, edges: Seq<(usize, usize)>) -> nat;

/// `petgraph::algo::connected_components`.
#[verifier::external_body]
fn pg_components(g: &petgraph::graph::DiGraph<(), ()>) -> (r: usize)
    ensures
        r == weak_components(pg_node_count(*g), pg_edges(*g)),
{
    petgraph::algo::connected_components(g)
}

/// The metrics of a graph, over all its levels.
#[derive(Debug)]
pub struct GraphMetrics {
    pub nodes: usize,
    pub edges: usize,
    pub roots: usize,
    pub leaves: usize,
    /// The longest path, in edges; `None` for a graph with a cycle.
    pub max_depth: Option<usize>,
    pub max_fan_out: usize,
    pub max_fan_in: usize,
    /// The strongly connected components with two or more nodes.
    pub cycles: usize,
    /// The nodes with two parents that share an ancestor.
    pub diamonds: usize,
    pub components: usize,
}

/// The number of nodes of the flattened graph.
pub open spec fn flat_n(g: GraphView) -> nat {
    all_nodes_spec(g).len()
}

/// The edges of the flattened graph, between node positions.
pub open spec fn flat_es(g: GraphView) -> Seq<(usize, usize)> {
    flat_edges(all_nodes_spec(g), collect_edges(g))
}

/// The in- or out-degree of node `v`.
pub open spec fn degree(es: Seq<(usize, usize)>, v: usize, outgoing: bool) -> nat {
    neighbor_seq(es, v, outgoing).len()
}

/// How many of the nodes below `k` have no edge in the given direction.
pub open spec fn count_zero_degree(es: Seq<(usize, usize)>, k: nat, outgoing: bool) -> nat
    decreases k,
{
    if k == 0 {
        0
    } else {
        count_zero_degree(es, (k - 1) as nat, outgoing) + if degree(es, (k - 1) as usize, outgoing) == 0 { 1nat } else { 0nat }
    }
}

/// The largest degree among the nodes below `k` (0 when there are none).
pub open spec fn max_degree(es: Seq<(usize, usize)>, k: nat, outgoing: bool) -> nat
    decreases k,
{
    if k == 0 {
        0
    } else {
        let m = max_degree(es, (k - 1) as nat, outgoing);
        let d = degree(es, (k - 1) as usize, outgoing);
        if d > m {
            d
        } else {
            m
        }
    }
}

/// How many components have two or more nodes.
pub open spec fn long_components(sccs: Seq<Seq<usize>>) -> nat
    decreases sccs.len(),
{
    if sccs.len() == 0 {
        0
    } else {
        long_components(sccs.drop_last()) + if sccs.last().len() >= 2 { 1nat } else { 0nat }
    }
}

/// Relaxing the out-edges of one node whose distance is `du`: each target's
/// distance becomes at least `du + 1`; `m` tracks the largest such value.
pub open spec fn relax_node(d: Seq<nat>, m: nat, du: nat, nbrs: Seq<usize>) -> (Seq<nat>, nat)
    decreases nbrs.len(),
{
    if nbrs.len() == 0 {
        (d, m)
    } else {
        let (d1, m1) = relax_node(d, m, du, nbrs.drop_last());
        let w = nbrs.last();
        let nd = du + 1;
        (if nd > d1[w as int] { d1.update(w as int, nd) } else { d1 }, if nd > m1 { nd } else { m1 })
    }
}

/// The longest-path distances from the sources, and the largest one, after
/// relaxing the nodes of `order` (a topological order) in turn.
pub open spec fn relax(order: Seq<usize>, es: Seq<(usize, usize)>, n: nat) -> (Seq<nat>, nat)
    decreases order.len(),
{
    if order.len() == 0 {
        (Seq::new(n, |i: int| 0nat), 0)
    } else {
        let (d, m) = relax(order.drop_last(), es, n);
        let u = order.last();
        relax_node(d, m, d[u as int], neighbor_seq(es, u, true))
    }
}

/// The length of the longest path: none when the graph has a cycle.
pub open spec fn depth_spec(n: nat, es: Seq<(usize, usize)>) -> Option<nat> {
    if long_components(tarjan_sccs(n, es)) > 0 {
        None
    } else {
        match topo_order(n, es) {
            Some(o) => Some(relax(o, es, n).1),
            None => None,
        }
    }
}

/// The ancestors of `p`, itself included.
pub open spec fn ancestors(es: Seq<(usize, usize)>, n: nat, p: usize) -> Set<usize> {
    bfs_spec(es, n, set![p], false, None)
}

/// Whether node `v` closes a diamond: two of its parents (in the list of
/// its parents, so a parent listed twice counts) share an ancestor.
pub open spec fn diamond_at(es: Seq<(usize, usize)>, n: nat, v: usize) -> bool {
    let ps = neighbor_seq(es, v, false);
    ps.len() >= 2 && exists|i: int, j: int, a: usize|
        0 <= i < j < ps.len() && #[trigger] ancestors(es, n, ps[i]).contains(a) && #[trigger] ancestors(es, n, ps[j]).contains(a)
}

/// How many of the nodes below `k` close a diamond.
pub open spec fn count_diamonds_upto(es: Seq<(usize, usize)>, n: nat, k: nat) -> nat
    decreases k,
{
    if k == 0 {
        0
    } else {
        count_diamonds_upto(es, n, (k - 1) as nat) + if diamond_at(es, n, (k - 1) as usize) { 1nat } else { 0nat }
    }
}

/// Whether some parent of `v` shares an ancestor with an earlier parent.
fn closes_diamond(view: &FlatGraphView, v: usize) -> (b: bool)
    requires
        view.wf(),
        v < view.nodes().len(),
    ensures
        b == diamond_at(view.edges(), view.nodes().len(), v),
{
    let ghost es = view.edges();
    let ghost n = view.nodes().len();
    let n_exec = pg_count(&view.pg);
    let parents = pg_neighbors(&view.pg, v, false);
    proof {
        lemma_neighbors_below(es, n, v, false);
    }
    if parents.len() < 2 {
        return false;
    }
    let ghost ps = parents@;
    let mut seen: HashSet<usize> = HashSet::new();
    let mut i: usize = 0;
    while i < parents.len()
        invariant
            view.wf(),
            es == view.edges(),
            n == view.nodes().len(),
            n_exec == n,
            ps == parents@,
            ps == neighbor_seq(es, v, false),
            ps.len() >= 2,
            i <= ps.len(),
            forall|k: int| 0 <= k < ps.len() ==> #[trigger] ps[k] < n,
            forall|a: usize| seen@.contains(a) <==> (a < n && exists|q: int| 0 <= q < i && #[trigger] ancestors(es, n, ps[q]).contains(a)),
            forall|q: int, j: int, a: usize| 0 <= q < j < i && #[trigger] ancestors(es, n, ps[q]).contains(a) ==> !#[trigger] ancestors(es, n, ps[j]).contains(a),
        decreases ps.len() - i,
    {
        let mut seed: Vec<usize> = Vec::new();
        seed.push(parents[i]);
        let anc = view.bfs(&seed, false, None);
        proof {
            assert forall|x: usize| seed@.to_set().contains(x) == set![ps[i as int]].contains(x) by {
                if x == ps[i as int] {
                    assert(seed@[0] == x);
                }
            }
            assert(seed@.to_set() =~= set![ps[i as int]]);
            lemma_reach_within(es, n, set![ps[i as int]], false, n);
        }
        let list = set_to_vec(&anc, n_exec);
        let mut j: usize = 0;
        while j < list.len()
            invariant
                view.wf(),
                i < ps.len(),
                ps == neighbor_seq(es, v, false),
                ps.len() >= 2,
                es == view.edges(),
                n == view.nodes().len(),
                anc@ == ancestors(es, n, ps[i as int]),
                list@.to_set() == anc@.intersect(crate::algorithm::positions(n)),
                forall|k: int| 0 <= k < list@.len() ==> list@[k] < n,
                forall|x: int, y: int| 0 <= x < y < list@.len() ==> list@[x] < list@[y],
                j <= list.len(),
                forall|a: usize| seen@.contains(a) <==> (a < n && ((exists|q: int| 0 <= q < i && #[trigger] ancestors(es, n, ps[q]).contains(a)) || list@.take(j as int).contains(a))),
                forall|q: int, jj: int, a: usize| 0 <= q < jj < i && #[trigger] ancestors(es, n, ps[q]).contains(a) ==> !#[trigger] ancestors(es, n, ps[jj]).contains(a),
                forall|q: int, a: usize| 0 <= q < i && #[trigger] ancestors(es, n, ps[q]).contains(a) && #[trigger] list@.take(j as int).contains(a) ==> false,
            decreases list.len() - j,
        {
            let a = list[j];
            proof {
                assert(list@.to_set().contains(a));
                assert(anc@.contains(a));
            }
            if seen.contains(&a) {
                proof {
                    if !list@.take(j as int).contains(a) {
                        let q = choose|q: int| 0 <= q < i && #[trigger] ancestors(es, n, ps[q]).contains(a);
                        assert(ancestors(es, n, ps[q]).contains(a) && ancestors(es, n, ps[i as int]).contains(a));
                        assert(0 <= q < i < ps.len());
                        assert(diamond_at(es, n, v));
                    } else {
                        let x = choose|x: int| 0 <= x < j && #[trigger] list@.take(j as int)[x] == a;
                        assert(list@[x] == list@[j as int]);
                        assert(list@[x] < list@[j as int]);
                    }
                }
                return true;
            }
            let ghost seen_before = seen@;
            seen.insert(a);
            proof {
                assert(!(exists|q: int| 0 <= q < i && #[trigger] ancestors(es, n, ps[q]).contains(a)));
                assert forall|x: usize| list@.take(j + 1).contains(x) <==> list@.take(j as int).contains(x) || x == a by {
                    if list@.take(j + 1).contains(x) {
                        let y = choose|y: int| 0 <= y < j + 1 && #[trigger] list@.take(j + 1)[y] == x;
                        if y < j {
                            assert(list@.take(j as int)[y] == x);
                        }
                    }
                    if list@.take(j as int).contains(x) {
                        let y = choose|y: int| 0 <= y < j && #[trigger] list@.take(j as int)[y] == x;
                        assert(list@.take(j + 1)[y] == x);
                    }
                    if x == a {
                        assert(list@.take(j + 1)[j as int] == x);
                    }
                }
                assert forall|q: int, x: usize| 0 <= q < i && #[trigger] ancestors(es, n, ps[q]).contains(x) && #[trigger] list@.take(j + 1).contains(x) implies false by {
                    if x != a {
                        assert(list@.take(j as int).contains(x));
                    }
                }
            }
            j = j + 1;
        }
        proof {
            assert(list@.take(list.len() as int) =~= list@);
            assert forall|a: usize| seen@.contains(a) <==> (a < n && exists|q: int| 0 <= q < i + 1 && #[trigger] ancestors(es, n, ps[q]).contains(a)) by {
                if a < n && ancestors(es, n, ps[i as int]).contains(a) {
                    assert(anc@.intersect(crate::algorithm::positions(n)).contains(a));
                    assert(list@.to_set().contains(a));
                }
                if list@.contains(a) {
                    assert(list@.to_set().contains(a));
                    assert(ancestors(es, n, ps[i as int]).contains(a));
                }
            }
            assert forall|q: int, jj: int, a: usize| 0 <= q < jj < i + 1 && #[trigger] ancestors(es, n, ps[q]).contains(a) implies !#[trigger] ancestors(es, n, ps[jj]).contains(a) by {
                if jj == i && ancestors(es, n, ps[jj]).contains(a) {
                    lemma_reach_within(es, n, set![ps[i as int]], false, n);
                    assert(a < n);
                    assert(anc@.intersect(crate::algorithm::positions(n)).contains(a));
                    assert(list@.to_set().contains(a));
                }
            }
        }
        i = i + 1;
    }
    false
}

/// The metrics of the whole graph (all levels flattened; edges whose ends
/// are not nodes are left out).
pub fn metrics(graph: &DepGraph) -> (r: GraphMetrics)
    requires
        all_nodes_spec(graph@).len() < index_limit(),
        collect_edges(graph@).len() < index_limit(),
    ensures
        r.nodes == flat_n(graph@),
        r.edges == flat_es(graph@).len(),
        r.roots == count_zero_degree(flat_es(graph@), flat_n(graph@), false),
        r.leaves == count_zero_degree(flat_es(graph@), flat_n(graph@), true),
        r.max_fan_in == max_degree(flat_es(graph@), flat_n(graph@), false),
        r.max_fan_out == max_degree(flat_es(graph@), flat_n(graph@), true),
        r.cycles == long_components(tarjan_sccs(flat_n(graph@), flat_es(graph@))),
        match r.max_depth {
            Some(d) => depth_spec(flat_n(graph@), flat_es(graph@)) == Some(d as nat),
            None => depth_spec(flat_n(graph@), flat_es(graph@)) is None,
        },
        r.diamonds == count_diamonds_upto(flat_es(graph@), flat_n(graph@), flat_n(graph@)),
        r.components == weak_components(flat_n(graph@), flat_es(graph@)),
{
    let view = FlatGraphView::new(graph);
    let ghost es = view.edges();
    let ghost n = view.nodes().len();
    let node_count = pg_count(&view.pg);
    let edge_count = edge_total(&view);
    let mut roots: usize = 0;
    let mut leaves: usize = 0;
    let mut max_fan_in: usize = 0;
    let mut max_fan_out: usize = 0;
    let mut diamonds: usize = 0;
    let mut v: usize = 0;
    while v < node_count
        invariant
            view.wf(),
            es == view.edges(),
            n == view.nodes().len(),
            node_count == n,
            v <= n,
            roots == count_zero_degree(es, v as nat, false),
            leaves == count_zero_degree(es, v as nat, true),
            max_fan_in == max_degree(es, v as nat, false),
            max_fan_out == max_degree(es, v as nat, true),
            diamonds == count_diamonds_upto(es, n, v as nat),
            roots <= v && leaves <= v && diamonds <= v,
        decreases node_count - v,
    {
        let in_deg = pg_neighbors(&view.pg, v, false).len();
        let out_deg = pg_neighbors(&view.pg, v, true).len();
        if in_deg == 0 {
            roots = roots + 1;
        }
        if out_deg == 0 {
            leaves = leaves + 1;
        }
        if in_deg > max_fan_in {
            max_fan_in = in_deg;
        }
        if out_deg > max_fan_out {
            max_fan_out = out_deg;
        }
        if closes_diamond(&view, v) {
            diamonds = diamonds + 1;
        }
        v = v + 1;
    }
    let sccs = pg_tarjan_scc(&view.pg);
    let cycles = count_cycles(&sccs);
    let max_depth = if cycles > 0 {
        None
    } else {
        match pg_toposort(&view.pg) {
            Some(order) => Some(longest_path(&view, &order)),
            None => None,
        }
    };
    let components = pg_components(&view.pg);
    GraphMetrics {
        nodes: node_count,
        edges: edge_count,
        roots,
        leaves,
        max_depth,
        max_fan_out,
        max_fan_in,
        cycles,
        diamonds,
        components,
    }
}

/// How many of the strongly connected components have two or more nodes.
pub fn count_cycles(sccs: &Vec<Vec<usize>>) -> (r: usize)
    ensures
        r == long_components(sccs@.map_values(|c: Vec<usize>| c@)),
{
    let mut cycles: usize = 0;
    let mut k: usize = 0;
    assert(sccs@.map_values(|c: Vec<usize>| c@).take(0).len() == 0);
    while k < sccs.len()
        invariant
            k <= sccs.len(),
            cycles <= k,
            cycles == long_components(sccs@.map_values(|c: Vec<usize>| c@).take(k as int)),
        decreases sccs.len() - k,
    {
        proof {
            let s = sccs@.map_values(|c: Vec<usize>| c@);
            assert(s.take(k + 1).drop_last() =~= s.take(k as int));
            assert(s.take(k + 1).last() == sccs@[k as int]@);
        }
        if sccs[k].len() >= 2 {
            cycles = cycles + 1;
        }
        k = k + 1;
    }
    assert(sccs@.map_values(|c: Vec<usize>| c@).take(sccs.len() as int) =~= sccs@.map_values(|c: Vec<usize>| c@));
    cycles
}

/// The number of edges of the flattened graph.
fn edge_total(view: &FlatGraphView) -> (r: usize)
    requires
        view.wf(),
    ensures
        r == view.edges().len(),
{
    pg_edge_count(&view.pg)
}

/// `Graph::edge_count`.
#[verifier::external_body]
fn pg_edge_count(g: &petgraph::graph::DiGraph<(), ()>) -> (r: usize)
    ensures
        r == pg_edges(*g).len(),
{
    g.edge_count()
}

/// The largest longest-path distance after relaxing the nodes of `order`.
fn longest_path(view: &FlatGraphView, order: &Vec<usize>) -> (r: usize)
    requires
        view.wf(),
        forall|k: int| 0 <= k < order@.len() ==> #[trigger] order@[k] < view.nodes().len(),
    ensures
        r == relax(order@, view.edges(), view.nodes().len()).1,
{
    let ghost es = view.edges();
    let ghost n = view.nodes().len();
    let node_count = pg_count(&view.pg);
    let mut dist: Vec<usize> = Vec::new();
    let mut i: usize = 0;
    while i < node_count
        invariant
            i <= node_count == n,
            dist.len() == i,
            forall|q: int| 0 <= q < i ==> dist@[q] == 0,
        decreases node_count - i,
    {
        dist.push(0);
        i = i + 1;
    }
    let mut max_d: usize = 0;
    let mut k: usize = 0;
    assert(dist@.map_values(|x: usize| x as nat) =~= relax(order@.take(0), es, n).0);
    while k < order.len()
        invariant
            view.wf(),
            es == view.edges(),
            n == view.nodes().len(),
            n < index_limit(),
            k <= order.len(),
            forall|q: int| 0 <= q < order@.len() ==> #[trigger] order@[q] < n,
            dist.len() == n,
            forall|q: int| 0 <= q < n ==> #[trigger] dist@[q] <= k,
            max_d <= k,
            (dist@.map_values(|x: usize| x as nat), max_d as nat) == relax(order@.take(k as int), es, n),
        decreases order.len() - k,
    {
        let node = order[k];
        let d = dist[node];
        let nbrs = pg_neighbors(&view.pg, node, true);
        proof {
            lemma_neighbors_below(es, n, node, true);
            assert(order@.take(k + 1).drop_last() =~= order@.take(k as int));
            assert(order@.take(k + 1).last() == node);
        }
        let ghost d0 = dist@.map_values(|x: usize| x as nat);
        let ghost m0 = max_d as nat;
        let mut j: usize = 0;
        assert(nbrs@.take(0).len() == 0);
        while j < nbrs.len()
            invariant
                j <= nbrs.len(),
                dist.len() == n,
                n < index_limit(),
                k < order.len(),
                d <= k,
                forall|q: int| 0 <= q < nbrs@.len() ==> #[trigger] nbrs@[q] < n,
                forall|q: int| 0 <= q < n ==> #[trigger] dist@[q] <= k + 1,
                max_d <= k + 1,
                (dist@.map_values(|x: usize| x as nat), max_d as nat) == relax_node(d0, m0, d as nat, nbrs@.take(j as int)),
            decreases nbrs.len() - j,
        {
            let w = nbrs[j];
            let nd = d + 1;
            proof {
                assert(nbrs@.take(j + 1).drop_last() =~= nbrs@.take(j as int));
                assert(nbrs@.take(j + 1).last() == w);
            }
            let ghost before = dist@.map_values(|x: usize| x as nat);
            if nd > dist[w] {
                dist.set(w, nd);
                assert(dist@.map_values(|x: usize| x as nat) =~= before.update(w as int, nd as nat));
            }
            if nd > max_d {
                max_d = nd;
            }
            j = j + 1;
        }
        assert(nbrs@.take(nbrs.len() as int) =~= nbrs@);
        k = k + 1;
    }
    assert(order@.take(order.len() as int) =~= order@);
    max_d
}

/// Whether `a` is an ancestor of `p` (or `p` itself): `a` lies in every set
/// that holds `p` and, with any node, all its parents.
pub open spec fn is_ancestor(es: Seq<(usize, usize)>, a: usize, p: usize) -> bool {
    forall|s: Set<usize>|
        #![trigger crate::algorithm::query::nodes::closed_under(es, s, false), s.contains(a)]
        s.contains(p) && crate::algorithm::query::nodes::closed_under(es, s, false) ==> s.contains(a)
}

/// Whether two entries of the parent list of `v` (a parent listed twice
/// counts twice) have an ancestor in common.
pub open spec fn parents_share_ancestor(es: Seq<(usize, usize)>, v: usize) -> bool {
    let ps = neighbor_seq(es, v, false);
    exists|i: int, j: int, a: usize|
        0 <= i < j < ps.len() && #[trigger] is_ancestor(es, a, ps[i]) && #[trigger] is_ancestor(es, a, ps[j])
}

/// The nodes below `k` whose parents share an ancestor.
pub open spec fn sharing_nodes(es: Seq<(usize, usize)>, k: nat) -> Set<usize> {
    Set::new(|v: usize| v < k && parents_share_ancestor(es, v))
}

pub(crate) proof fn lemma_ancestors_are(es: Seq<(usize, usize)>, n: nat, p: usize, a: usize)
    requires
        n <= usize::MAX,
        p < n,
        edges_within(es, n),
    ensures
        ancestors(es, n, p).contains(a) == is_ancestor(es, a, p),
{
    let r = ancestors(es, n, p);
    crate::algorithm::query::nodes::lemma_reach_closed(es, n, p, false);
    crate::flat::lemma_seeds_reached(es, set![p], false, n);
    if r.contains(a) {
        assert forall|s: Set<usize>| s.contains(p) && crate::algorithm::query::nodes::closed_under(es, s, false) implies s.contains(a) by {
            crate::algorithm::query::nodes::lemma_reach_in_closed(es, set![p], false, n, s);
        }
    }
    if is_ancestor(es, a, p) {
        assert(r.contains(p));
        assert(crate::algorithm::query::nodes::closed_under(es, r, false));
        assert(r.contains(a));
    }
}

proof fn lemma_diamond_at_is(es: Seq<(usize, usize)>, n: nat, v: usize)
    requires
        n <= usize::MAX,
        edges_within(es, n),
    ensures
        diamond_at(es, n, v) == parents_share_ancestor(es, v),
{
    let ps = neighbor_seq(es, v, false);
    lemma_neighbors_below(es, n, v, false);
    if diamond_at(es, n, v) {
        let (i, j, a) = choose|i: int, j: int, a: usize|
            0 <= i < j < ps.len() && #[trigger] ancestors(es, n, ps[i]).contains(a) && #[trigger] ancestors(es, n, ps[j]).contains(a);
        lemma_ancestors_are(es, n, ps[i], a);
        lemma_ancestors_are(es, n, ps[j], a);
        assert(is_ancestor(es, a, ps[i]) && is_ancestor(es, a, ps[j]));
    }
    if parents_share_ancestor(es, v) {
        let (i, j, a) = choose|i: int, j: int, a: usize|
            0 <= i < j < ps.len() && #[trigger] is_ancestor(es, a, ps[i]) && #[trigger] is_ancestor(es, a, ps[j]);
        lemma_ancestors_are(es, n, ps[i], a);
        lemma_ancestors_are(es, n, ps[j], a);
        assert(ancestors(es, n, ps[i]).contains(a) && ancestors(es, n, ps[j]).contains(a));
    }
}

proof fn lemma_count_sharing(es: Seq<(usize, usize)>, n: nat, k: nat)
    requires
        n <= usize::MAX,
        k <= n,
        edges_within(es, n),
    ensures
        sharing_nodes(es, k).finite(),
        count_diamonds_upto(es, n, k) == sharing_nodes(es, k).len(),
    decreases k,
{
    if k == 0 {
        assert(sharing_nodes(es, 0) =~= Set::<usize>::empty());
    } else {
        let j = (k - 1) as nat;
        lemma_count_sharing(es, n, j);
        lemma_diamond_at_is(es, n, j as usize);
        let prev = sharing_nodes(es, j);
        if parents_share_ancestor(es, j as usize) {
            assert(sharing_nodes(es, k) =~= prev.insert(j as usize));
        } else {
            assert(sharing_nodes(es, k) =~= prev);
        }
    }
}

/// Law: the diamond count of the metrics is the number of nodes two of
/// whose parent entries have an ancestor in common (a node counting as its
/// own ancestor): a node with two parents that share no ancestor is no
/// diamond.
pub proof fn lemma_diamond_count(g: GraphView)
    requires
        flat_n(g) < index_limit(),
    ensures
        sharing_nodes(flat_es(g), flat_n(g)).finite(),
        count_diamonds_upto(flat_es(g), flat_n(g), flat_n(g)) == sharing_nodes(flat_es(g), flat_n(g)).len(),
{
    crate::flat::lemma_flat_edges_within(all_nodes_spec(g), collect_edges(g));
    lemma_count_sharing(flat_es(g), flat_n(g), flat_n(g));
}

} // verus!
