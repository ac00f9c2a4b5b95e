//! Cycles: strongly connected components with two or more nodes.
use std::collections::HashSet;
use vstd::pervasive::VecAdditionalExecFns;
use vstd::prelude::*;

use super::positions;
use crate::flat::{filter_edges, filter_nodes, flat_edges, kept_ids, FlatGraphView};
use crate::graph::{
    all_nodes_spec, collect_edges, edge_views, empty_graph_view, node_views, DepGraph, Edge, EdgeView, GraphView,
};
use crate::maps::{find_key, idx_map_get, node_entries, node_map_get_index, node_map_insert, node_map_len, node_map_new, str_map_new};
use crate::pg::{index_limit, pg_tarjan_scc, tarjan_sccs};
use crate::text::{decimal, push_decimal, string_from};

verus! {

/// Options of `cycles` (none).
#[derive(Clone, Debug, Default)]
pub struct CyclesArgs {}

/// The components with two or more nodes, as sets, in order.
pub open spec fn cycle_sets(sccs: Seq<Seq<usize>>) -> Seq<Set<usize>>
    decreases sccs.len(),
{
    if sccs.len() == 0 {
        seq![]
    } else {
        let rest = cycle_sets(sccs.drop_last());
        if sccs.last().len() >= 2 {
            rest.push(sccs.last().to_set())
        } else {
            rest
        }
    }
}

/// The last of the first `m` cycles that holds node `p`, if any.
pub open spec fn cycle_of(cs: Seq<Set<usize>>, m: nat, p: usize) -> Option<nat>
    decreases m,
{
    if m == 0 || m > cs.len() {
        None
    } else if cs[m - 1].contains(p) {
        Some((m - 1) as nat)
    } else {
        cycle_of(cs, (m - 1) as nat, p)
    }
}

/// The edges whose endpoints lie in two different cycles.
pub open spec fn cross_edges(nodes: Seq<(Seq<char>, crate::graph::NodeView)>, es: Seq<EdgeView>, cs: Seq<Set<usize>>) -> Seq<EdgeView>
    decreases es.len(),
{
    if es.len() == 0 {
        seq![]
    } else {
        let rest = cross_edges(nodes, es.drop_last(), cs);
        let e = es.last();
        let a = find_key(nodes, e.from);
        let b = find_key(nodes, e.to);
        if a >= 0 && b >= 0 && cycle_of(cs, cs.len(), a as usize) is Some && cycle_of(cs, cs.len(), b as usize) is Some
            && cycle_of(cs, cs.len(), a as usize) != cycle_of(cs, cs.len(), b as usize) {
            rest.push(e)
        } else {
            rest
        }
    }
}

pub open spec fn cycle_name(i: nat) -> Seq<char> {
    seq!['c', 'y', 'c', 'l', 'e', '_'] + decimal(i)
}

/// The subgraph of cycle `i`: its nodes and the edges among them.
pub open spec fn cycle_subgraph(g: GraphView, cs: Seq<Set<usize>>, i: int) -> GraphView {
    let nodes = all_nodes_spec(g);
    let ids = kept_ids(nodes, cs[i]);
    GraphView {
        id: Some(cycle_name(i as nat)),
        attrs: Seq::empty(),
        nodes: filter_nodes(nodes, ids),
        edges: filter_edges(collect_edges(g), ids),
        subgraphs: Seq::empty(),
    }
}

/// What `cycles` returns for `g`: the cycles of its strongly connected
/// components as `petgraph::algo::tarjan_scc` lists them.
pub open spec fn cycles_view(g: GraphView) -> GraphView {
    let nodes = all_nodes_spec(g);
    let edges = flat_edges(nodes, collect_edges(g));
    cycles_of_components(g, tarjan_sccs(nodes.len(), edges))
}

/// The cycles of `g` given its strongly connected components (lists of
/// positions in the flattened node list): one subgraph per component of two
/// or more nodes, and the edges between two different cycles at the top.
pub open spec fn cycles_of_components(g: GraphView, sccs: Seq<Seq<usize>>) -> GraphView {
    let nodes = all_nodes_spec(g);
    let cs = cycle_sets(sccs);
    if cs.len() == 0 {
        empty_graph_view()
    } else {
        GraphView {
            id: None,
            attrs: Seq::empty(),
            nodes: Seq::empty(),
            edges: cross_edges(nodes, collect_edges(g), cs),
            subgraphs: Seq::new(cs.len(), |i: int| cycle_subgraph(g, cs, i)),
        }
    }
}

/// The cycle of node `p` among the first `m`, as a `usize`.
pub open spec fn slot(cs: Seq<Set<usize>>, m: nat, p: usize) -> Option<usize> {
    match cycle_of(cs, m, p) {
        Some(i) => Some(i as usize),
        None => None,
    }
}

proof fn lemma_cycle_of_range(cs: Seq<Set<usize>>, m: nat, p: usize)
    ensures
        cycle_of(cs, m, p) matches Some(i) ==> i < m && i < cs.len(),
    decreases m,
{
    if m > 0 {
        lemma_cycle_of_range(cs, (m - 1) as nat, p);
    }
}

/// Find every cycle of the graph: each strongly connected component with two
/// or more nodes (self-loops are ignored) becomes a subgraph `cycle_<i>`
/// holding its nodes and the edges among them; edges between two different
/// cycles stay at the top level.  With no cycle the result is empty.
pub fn cycles(graph: &DepGraph, args: &CyclesArgs) -> (r: DepGraph)
    requires
        all_nodes_spec(graph@).len() < index_limit(),
        collect_edges(graph@).len() < index_limit(),
    ensures
        r@ == cycles_view(graph@),
{
    let view = FlatGraphView::new(graph);
    let sccs = pg_tarjan_scc(&view.pg);
    cycles_from_components(graph, &sccs)
}

/// The cycles of `graph` given its strongly connected components, each a
/// list of positions in the flattened node list (as
/// `petgraph::algo::tarjan_scc` returns them for the graph's flat view).
pub fn cycles_from_components(graph: &DepGraph, sccs: &Vec<Vec<usize>>) -> (r: DepGraph)
    requires
        all_nodes_spec(graph@).len() < index_limit(),
        collect_edges(graph@).len() < index_limit(),
    ensures
        r@ == cycles_of_components(graph@, sccs@.map_values(|c: Vec<usize>| c@)),
{
    let view = FlatGraphView::new(graph);
    let ghost nodes = view.nodes();
    let ghost sv = sccs@.map_values(|c: Vec<usize>| c@);
    let mut sets: Vec<HashSet<usize>> = Vec::new();
    let mut i: usize = 0;
    assert(sv.take(0) =~= Seq::<Seq<usize>>::empty());
    while i < sccs.len()
        invariant
            i <= sccs@.len() == sv.len(),
            sv == sccs@.map_values(|c: Vec<usize>| c@),
            sets@.map_values(|h: HashSet<usize>| h@) == cycle_sets(sv.take(i as int)),
        decreases sccs@.len() - i,
    {
        assert(sv.take(i + 1).drop_last() =~= sv.take(i as int));
        assert(sv.take(i + 1).last() == sccs@[i as int]@);
        if sccs[i].len() >= 2 {
            let h = super::vec_to_set(&sccs[i]);
            let ghost before = sets@;
            sets.push(h);
            assert(sets@.map_values(|h: HashSet<usize>| h@) =~= before.map_values(|h: HashSet<usize>| h@).push(h@));
        }
        i = i + 1;
    }
    assert(sv.take(sccs@.len() as int) =~= sv);
    let ghost cs = sets@.map_values(|h: HashSet<usize>| h@);
    assert(cs == cycle_sets(sv));
    if sets.len() == 0 {
        return DepGraph::default();
    }
    let all_nodes = graph.all_nodes();
    let all_edges = graph.all_edges();
    let n = node_map_len(&all_nodes);
    let mut subgraphs: Vec<DepGraph> = Vec::new();
    let mut c: usize = 0;
    while c < sets.len()
        invariant
            view.wf(),
            view.graph == graph,
            nodes == view.nodes(),
            node_views(node_entries(all_nodes)) == nodes,
            edge_views(all_edges@) == collect_edges(graph@),
            cs == sets@.map_values(|h: HashSet<usize>| h@),
            c <= sets@.len(),
            subgraphs@.len() == c,
            forall|k: int| 0 <= k < c ==> #[trigger] subgraphs@[k]@ == cycle_subgraph(graph@, cs, k),
        decreases sets@.len() - c,
    {
        let sub_nodes = view.filter_node_map(&all_nodes, &sets[c]);
        let sub_edges = view.filter_edge_vec(&all_edges, &sets[c]);
        let mut name = string_from(&['c', 'y', 'c', 'l', 'e', '_']);
        push_decimal(&mut name, c);
        assert(name@ =~= cycle_name(c as nat));
        let sg = DepGraph { id: Some(name), attrs: str_map_new(), nodes: sub_nodes, edges: sub_edges, subgraphs: Vec::new() };
        assert(sg@.subgraphs =~= Seq::<GraphView>::empty());
        assert(sg@ == cycle_subgraph(graph@, cs, c as int));
        subgraphs.push(sg);
        c = c + 1;
    }
    let mut scc_of: Vec<Option<usize>> = Vec::new();
    let mut p: usize = 0;
    while p < n
        invariant
            p <= n,
            scc_of@.len() == p,
            forall|k: int| 0 <= k < p ==> #[trigger] scc_of@[k] == None::<usize>,
        decreases n - p,
    {
        scc_of.push(None);
        p = p + 1;
    }
    let mut c: usize = 0;
    while c < sets.len()
        invariant
            c <= sets@.len(),
            cs == sets@.map_values(|h: HashSet<usize>| h@),
            scc_of@.len() == n,
            forall|k: int| 0 <= k < n ==> #[trigger] scc_of@[k] == slot(cs, c as nat, k as usize),
        decreases sets@.len() - c,
    {
        let mut q: usize = 0;
        while q < n
            invariant
                c < sets@.len(),
                cs == sets@.map_values(|h: HashSet<usize>| h@),
                q <= n,
                scc_of@.len() == n,
                forall|k: int| 0 <= k < q ==> #[trigger] scc_of@[k] == slot(cs, (c + 1) as nat, k as usize),
                forall|k: int| q <= k < n ==> #[trigger] scc_of@[k] == slot(cs, c as nat, k as usize),
            decreases n - q,
        {
            proof {
                lemma_cycle_of_range(cs, c as nat, q);
            }
            if sets[c].contains(&q) {
                scc_of.set(q, Some(c));
            }
            q = q + 1;
        }
        c = c + 1;
    }
    let mut cross: Vec<Edge> = Vec::new();
    let nsets = sets.len();
    assert(nsets == sets@.len());
    let mut e: usize = 0;
    assert(edge_views(all_edges@).take(0) =~= Seq::<EdgeView>::empty());
    while e < all_edges.len()
        invariant
            view.wf(),
            view.graph == graph,
            nodes == view.nodes(),
            n == nodes.len(),
            cs == sets@.map_values(|h: HashSet<usize>| h@),
            scc_of@.len() == n,
            forall|k: int| 0 <= k < n ==> #[trigger] scc_of@[k] == slot(cs, cs.len(), k as usize),
            cs.len() == sets@.len(),
            sets@.len() <= usize::MAX,
            e <= all_edges@.len(),
            edge_views(cross@) == cross_edges(nodes, edge_views(all_edges@).take(e as int), cs),
        decreases all_edges@.len() - e,
    {
        let ed = &all_edges[e];
        assert(edge_views(all_edges@).take(e + 1).drop_last() =~= edge_views(all_edges@).take(e as int));
        assert(edge_views(all_edges@).take(e + 1).last() == ed@);
        let ghost t = edge_views(all_edges@).take(e + 1);
        let ghost prev = cross_edges(nodes, edge_views(all_edges@).take(e as int), cs);
        let ghost fa = find_key(nodes, ed.from@);
        let ghost fb = find_key(nodes, ed.to@);
        let ghost cond = fa >= 0 && fb >= 0 && cycle_of(cs, cs.len(), fa as usize) is Some && cycle_of(cs, cs.len(), fb as usize) is Some
            && cycle_of(cs, cs.len(), fa as usize) != cycle_of(cs, cs.len(), fb as usize);
        assert(cross_edges(nodes, t, cs) == (if cond { prev.push(ed@) } else { prev }));
        let a = idx_map_get(&view.id_to_idx, ed.from.as_str());
        let b = idx_map_get(&view.id_to_idx, ed.to.as_str());
        proof {
            crate::flat::lemma_position_lookup(nodes, ed.from@);
            crate::flat::lemma_position_lookup(nodes, ed.to@);
            crate::maps::lemma_find_key(nodes, ed.from@);
            crate::maps::lemma_find_key(nodes, ed.to@);
        }
        match (a, b) {
            (Some(x), Some(y)) => {
                proof {
                    lemma_cycle_of_range(cs, cs.len(), x);
                    lemma_cycle_of_range(cs, cs.len(), y);
                    assert(x as int == find_key(nodes, ed.from@));
                    assert(y as int == find_key(nodes, ed.to@));
                }
                match (scc_of[x], scc_of[y]) {
                    (Some(sx), Some(sy)) => {
                        assert(scc_of@[x as int] == slot(cs, cs.len(), x));
                        assert(scc_of@[y as int] == slot(cs, cs.len(), y));
                        assert(cycle_of(cs, cs.len(), x) == Some(sx as nat));
                        assert(cycle_of(cs, cs.len(), y) == Some(sy as nat));
                        assert(cond == (sx != sy));
                        if sx != sy {
                            let d = ed.duplicate();
                            let ghost before = cross@;
                            cross.push(d);
                            assert(edge_views(cross@) =~= edge_views(before).push(d@));
                        }
                    },
                    _ => {},
                }
            },
            _ => {},
        }
        e = e + 1;
    }
    assert(edge_views(all_edges@).take(all_edges@.len() as int) =~= edge_views(all_edges@));
    let r = DepGraph { id: None, attrs: str_map_new(), nodes: node_map_new(), edges: cross, subgraphs };
    proof {
        assert forall|k: int| 0 <= k < cs.len() implies r@.subgraphs[k] == cycle_subgraph(graph@, cs, k) by {
            crate::graph::lemma_graph_view_subgraph(r, k);
        }
        assert(r@.subgraphs =~= Seq::new(cs.len(), |i: int| cycle_subgraph(graph@, cs, i)));
        assert(r@.nodes =~= Seq::<(Seq<char>, crate::graph::NodeView)>::empty());
    }
    r
}

} // verus!

verus! {

proof fn lemma_cycle_of_holds(cs: Seq<Set<usize>>, m: nat, p: usize)
    ensures
        cycle_of(cs, m, p) matches Some(i) ==> i < m && i < cs.len() && cs[i as int].contains(p),
        cycle_of(cs, m, p) is None && m <= cs.len() ==> forall|i: int| 0 <= i < m ==> !cs[i].contains(p),
    decreases m,
{
    if m > 0 {
        lemma_cycle_of_holds(cs, (m - 1) as nat, p);
    }
}

/// Whether `e` is an edge whose endpoints lie in two different cycles.
spec fn crosses(nodes: Seq<(Seq<char>, crate::graph::NodeView)>, cs: Seq<Set<usize>>, e: EdgeView) -> bool {
    let a = find_key(nodes, e.from);
    let b = find_key(nodes, e.to);
    a >= 0 && b >= 0 && cycle_of(cs, cs.len(), a as usize) is Some && cycle_of(cs, cs.len(), b as usize) is Some
        && cycle_of(cs, cs.len(), a as usize) != cycle_of(cs, cs.len(), b as usize)
}

proof fn lemma_cross_edges_cross(nodes: Seq<(Seq<char>, crate::graph::NodeView)>, es: Seq<EdgeView>, cs: Seq<Set<usize>>)
    ensures
        forall|t: int| 0 <= t < cross_edges(nodes, es, cs).len() ==> crosses(nodes, cs, #[trigger] cross_edges(nodes, es, cs)[t]),
    decreases es.len(),
{
    if es.len() > 0 {
        lemma_cross_edges_cross(nodes, es.drop_last(), cs);
        let r = cross_edges(nodes, es.drop_last(), cs);
        let c = cross_edges(nodes, es, cs);
        assert forall|t: int| 0 <= t < c.len() implies crosses(nodes, cs, #[trigger] c[t]) by {
            if t < r.len() {
                assert(c[t] == r[t]);
            }
        }
    }
}

proof fn lemma_filter_nodes_has(nodes: Seq<(Seq<char>, crate::graph::NodeView)>, keep: Set<Seq<char>>, j: int)
    requires
        0 <= j < nodes.len(),
        keep.contains(nodes[j].0),
    ensures
        crate::maps::has_key(filter_nodes(nodes, keep), nodes[j].0),
    decreases nodes.len(),
{
    let f = filter_nodes(nodes, keep);
    if j == nodes.len() - 1 {
        assert(f[f.len() - 1].0 == nodes[j].0);
    } else {
        lemma_filter_nodes_has(nodes.drop_last(), keep, j);
        let r = filter_nodes(nodes.drop_last(), keep);
        let k = choose|k: int| 0 <= k < r.len() && #[trigger] r[k].0 == nodes[j].0;
        assert(f[k] == r[k]);
    }
}

proof fn lemma_filter_nodes_kept(nodes: Seq<(Seq<char>, crate::graph::NodeView)>, keep: Set<Seq<char>>, k: Seq<char>)
    requires
        crate::maps::has_key(filter_nodes(nodes, keep), k),
    ensures
        keep.contains(k),
    decreases nodes.len(),
{
    if nodes.len() > 0 {
        let f = filter_nodes(nodes, keep);
        let r = filter_nodes(nodes.drop_last(), keep);
        let q = choose|q: int| 0 <= q < f.len() && #[trigger] f[q].0 == k;
        if q < r.len() {
            assert(f[q] == r[q]);
            lemma_filter_nodes_kept(nodes.drop_last(), keep, k);
        }
    }
}

/// Whether `e` runs from a node of subgraph `i` of `r` to a node of a
/// different subgraph `j`.
pub open spec fn joins_subgraphs(r: GraphView, e: EdgeView, i: int, j: int) -> bool {
    &&& 0 <= i < r.subgraphs.len()
    &&& 0 <= j < r.subgraphs.len()
    &&& i != j
    &&& crate::maps::has_key(r.subgraphs[i].nodes, e.from)
    &&& crate::maps::has_key(r.subgraphs[j].nodes, e.to)
}

/// Whether `e` runs between two different subgraphs of `r`.
pub open spec fn joins_two_subgraphs(r: GraphView, e: EdgeView) -> bool {
    exists|i: int, j: int| #[trigger] joins_subgraphs(r, e, i, j)
}

/// Law: every edge that the cycles result keeps at the top level runs
/// between two different cycle subgraphs: its source is a node of one, its
/// target a node of another.
pub proof fn lemma_top_edges_join_cycles(g: GraphView, sccs: Seq<Seq<usize>>)
    ensures
        forall|t: int|
            0 <= t < cycles_of_components(g, sccs).edges.len() ==> #[trigger] joins_two_subgraphs(
                cycles_of_components(g, sccs),
                cycles_of_components(g, sccs).edges[t],
            ),
{
    let r = cycles_of_components(g, sccs);
    let nodes = all_nodes_spec(g);
    let cs = cycle_sets(sccs);
    if cs.len() > 0 {
        lemma_cross_edges_cross(nodes, collect_edges(g), cs);
        assert forall|t: int| 0 <= t < r.edges.len() implies #[trigger] joins_two_subgraphs(r, r.edges[t]) by {
            let e = r.edges[t];
            assert(crosses(nodes, cs, e));
            let a = find_key(nodes, e.from);
            let b = find_key(nodes, e.to);
            crate::maps::lemma_find_key(nodes, e.from);
            crate::maps::lemma_find_key(nodes, e.to);
            lemma_cycle_of_holds(cs, cs.len(), a as usize);
            lemma_cycle_of_holds(cs, cs.len(), b as usize);
            let i = cycle_of(cs, cs.len(), a as usize)->0 as int;
            let j = cycle_of(cs, cs.len(), b as usize)->0 as int;
            assert(kept_ids(nodes, cs[i]).contains(e.from));
            assert(kept_ids(nodes, cs[j]).contains(e.to));
            lemma_filter_nodes_has(nodes, kept_ids(nodes, cs[i]), a);
            lemma_filter_nodes_has(nodes, kept_ids(nodes, cs[j]), b);
            assert(r.subgraphs[i] == cycle_subgraph(g, cs, i));
            assert(r.subgraphs[j] == cycle_subgraph(g, cs, j));
            assert(joins_subgraphs(r, e, i, j));
        }
    }
}

proof fn lemma_cross_edges_has(nodes: Seq<(Seq<char>, crate::graph::NodeView)>, es: Seq<EdgeView>, cs: Seq<Set<usize>>, t: int)
    requires
        0 <= t < es.len(),
        crosses(nodes, cs, es[t]),
    ensures
        cross_edges(nodes, es, cs).contains(es[t]),
    decreases es.len(),
{
    let c = cross_edges(nodes, es, cs);
    if t == es.len() - 1 {
        assert(c[c.len() - 1] == es[t]);
    } else {
        lemma_cross_edges_has(nodes, es.drop_last(), cs, t);
        let r = cross_edges(nodes, es.drop_last(), cs);
        let k = choose|k: int| 0 <= k < r.len() && r[k] == es[t];
        assert(c[k] == r[k]);
    }
}

/// Whether no position lies in two of the cycles.
pub open spec fn disjoint_cycles(cs: Seq<Set<usize>>) -> bool {
    forall|i: int, j: int, p: usize| 0 <= i < j < cs.len() && #[trigger] cs[i].contains(p) ==> !#[trigger] cs[j].contains(p)
}

/// Law: when no node lies in two components, every edge of the graph (at
/// any level) that runs from a node of one cycle subgraph to a node of a
/// different one is kept at the top level of the cycles result.
pub proof fn lemma_cross_edges_kept(g: GraphView, sccs: Seq<Seq<usize>>)
    requires
        disjoint_cycles(cycle_sets(sccs)),
    ensures
        forall|t: int|
            0 <= t < collect_edges(g).len() && #[trigger] joins_two_subgraphs(cycles_of_components(g, sccs), collect_edges(g)[t])
                ==> cycles_of_components(g, sccs).edges.contains(collect_edges(g)[t]),
{
    let r = cycles_of_components(g, sccs);
    let nodes = all_nodes_spec(g);
    let cs = cycle_sets(sccs);
    let es = collect_edges(g);
    assert forall|t: int| 0 <= t < es.len() && #[trigger] joins_two_subgraphs(r, es[t]) implies r.edges.contains(es[t]) by {
        let e = es[t];
        let (i, j) = choose|i: int, j: int| #[trigger] joins_subgraphs(r, e, i, j);
        assert(cs.len() > 0);
        assert(r.subgraphs[i] == cycle_subgraph(g, cs, i));
        assert(r.subgraphs[j] == cycle_subgraph(g, cs, j));
        lemma_filter_nodes_kept(nodes, kept_ids(nodes, cs[i]), e.from);
        lemma_filter_nodes_kept(nodes, kept_ids(nodes, cs[j]), e.to);
        let a = find_key(nodes, e.from);
        let b = find_key(nodes, e.to);
        assert(cs[i].contains(a as usize));
        assert(cs[j].contains(b as usize));
        lemma_cycle_of_holds(cs, cs.len(), a as usize);
        lemma_cycle_of_holds(cs, cs.len(), b as usize);
        let ia = cycle_of(cs, cs.len(), a as usize)->0 as int;
        let ib = cycle_of(cs, cs.len(), b as usize)->0 as int;
        if ia < i {
            assert(!cs[i].contains(a as usize));
        } else if i < ia {
            assert(!cs[ia].contains(a as usize));
        }
        if ib < j {
            assert(!cs[j].contains(b as usize));
        } else if j < ib {
            assert(!cs[ib].contains(b as usize));
        }
        assert(crosses(nodes, cs, e));
        lemma_cross_edges_has(nodes, es, cs, t);
    }
}

} // verus!
