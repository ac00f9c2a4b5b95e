//! Cutting edges that cross subgraph boundaries.
use vstd::prelude::*;

use indexmap::IndexMap;

use crate::graph::{
    all_nodes_spec, edge_views, lemma_graph_view_subgraph, lemma_node_views_insert, lemma_node_views_keys, node_views,
    DepGraph, Edge, EdgeView, GraphView, NodeInfo, NodeView,
};
use crate::maps::{
    find_key, has_key, insert_entry, lemma_find_key, node_entries, node_map_contains_key, node_map_get_index,
    node_map_insert, node_map_len, node_map_new,
};

verus! {

/// Options of `slice`.
#[derive(Clone, Debug, Default)]
pub struct SliceArgs {
    /// Remove nodes that are not inside any subgraph.
    pub drop_orphans: bool,
    /// Also slice within nested subgraphs recursively.
    pub recursive: bool,
}

} // verus!

verus! {

/// The group of node `id`: the position of the last of `subs` that has it
/// (at any depth).
pub open spec fn group_of(subs: Seq<GraphView>, id: Seq<char>) -> Option<int>
    decreases subs.len(),
{
    if subs.len() == 0 {
        None
    } else if has_key(all_nodes_spec(subs.last()), id) {
        Some(subs.len() - 1)
    } else {
        group_of(subs.drop_last(), id)
    }
}

/// Whether an edge stays: both ends in the same group, or (keeping
/// orphans) both ends in none.
pub open spec fn edge_allowed(e: EdgeView, subs: Seq<GraphView>, drop_orphans: bool) -> bool {
    match (group_of(subs, e.from), group_of(subs, e.to)) {
        (Some(f), Some(t)) => f == t,
        (None, None) => !drop_orphans,
        _ => false,
    }
}

/// The nodes that stay: all of them, or (dropping orphans) those in a group.
pub open spec fn kept_nodes(nodes: Seq<(Seq<char>, NodeView)>, subs: Seq<GraphView>, drop_orphans: bool) -> Seq<(Seq<char>, NodeView)>
    decreases nodes.len(),
{
    if nodes.len() == 0 {
        nodes
    } else {
        let prev = kept_nodes(nodes.drop_last(), subs, drop_orphans);
        if !drop_orphans || group_of(subs, nodes.last().0) is Some {
            prev.push(nodes.last())
        } else {
            prev
        }
    }
}

/// The edges that stay, in order.
pub open spec fn kept_edges(edges: Seq<EdgeView>, subs: Seq<GraphView>, drop_orphans: bool) -> Seq<EdgeView>
    decreases edges.len(),
{
    if edges.len() == 0 {
        edges
    } else {
        let prev = kept_edges(edges.drop_last(), subs, drop_orphans);
        if edge_allowed(edges.last(), subs, drop_orphans) {
            prev.push(edges.last())
        } else {
            prev
        }
    }
}

/// `g` with, at every level, the nodes and edges kept by the groups of `subs`.
pub open spec fn rebuilt(g: GraphView, subs: Seq<GraphView>, drop_orphans: bool) -> GraphView
    decreases g,
{
    GraphView {
        id: g.id,
        attrs: g.attrs,
        nodes: kept_nodes(g.nodes, subs, drop_orphans),
        edges: kept_edges(g.edges, subs, drop_orphans),
        subgraphs: Seq::new(
            g.subgraphs.len(),
            |i: int| if 0 <= i < g.subgraphs.len() { rebuilt(g.subgraphs[i], subs, drop_orphans) } else { arbitrary() },
        ),
    }
}

/// `g` sliced at every level by the groups of that level's own subgraphs.
pub open spec fn sliced_rec(g: GraphView, drop_orphans: bool) -> GraphView
    decreases g,
{
    if g.subgraphs.len() == 0 {
        g
    } else {
        GraphView {
            id: g.id,
            attrs: g.attrs,
            nodes: kept_nodes(g.nodes, g.subgraphs, drop_orphans),
            edges: kept_edges(g.edges, g.subgraphs, drop_orphans),
            subgraphs: Seq::new(
                g.subgraphs.len(),
                |i: int| if 0 <= i < g.subgraphs.len() { sliced_rec(g.subgraphs[i], drop_orphans) } else { arbitrary() },
            ),
        }
    }
}

/// The result of `slice`.
pub open spec fn sliced(g: GraphView, args: SliceArgs) -> GraphView {
    if args.recursive {
        sliced_rec(g, args.drop_orphans)
    } else {
        rebuilt(g, g.subgraphs, args.drop_orphans)
    }
}

/// The nodes of each subgraph (at any depth), one map per subgraph.
fn group_maps(graph: &DepGraph) -> (r: Vec<IndexMap<String, NodeInfo>>)
    ensures
        r.len() == graph@.subgraphs.len(),
        forall|m: int| 0 <= m < r.len() ==> node_views(node_entries(#[trigger] r@[m])) == all_nodes_spec(graph@.subgraphs[m]),
{
    proof {
        if graph.subgraphs@.len() > 0 {
            lemma_graph_view_subgraph(*graph, 0);
        }
    }
    let mut r: Vec<IndexMap<String, NodeInfo>> = Vec::new();
    let mut j: usize = 0;
    while j < graph.subgraphs.len()
        invariant
            j <= graph.subgraphs.len() == graph@.subgraphs.len(),
            r.len() == j,
            forall|m: int| 0 <= m < j ==> node_views(node_entries(#[trigger] r@[m])) == all_nodes_spec(graph@.subgraphs[m]),
        decreases graph.subgraphs.len() - j,
    {
        proof {
            lemma_graph_view_subgraph(*graph, j as int);
        }
        r.push(graph.subgraphs[j].all_nodes());
        j = j + 1;
    }
    r
}

/// The group of node `id`.
fn group_lookup(maps: &Vec<IndexMap<String, NodeInfo>>, id: &str, Ghost(subs): Ghost<Seq<GraphView>>) -> (r: Option<usize>)
    requires
        maps.len() == subs.len(),
        forall|m: int| 0 <= m < maps.len() ==> node_views(node_entries(#[trigger] maps@[m])) == all_nodes_spec(subs[m]),
    ensures
        match r {
            Some(i) => group_of(subs, id@) == Some(i as int),
            None => group_of(subs, id@) is None,
        },
{
    let mut i = maps.len();
    assert(subs.take(i as int) =~= subs);
    while i > 0
        invariant
            i <= maps.len() == subs.len(),
            forall|m: int| 0 <= m < maps.len() ==> node_views(node_entries(#[trigger] maps@[m])) == all_nodes_spec(subs[m]),
            group_of(subs, id@) == group_of(subs.take(i as int), id@),
        decreases i,
    {
        proof {
            lemma_node_views_keys(node_entries(maps@[i - 1]));
            assert(subs.take(i as int).drop_last() =~= subs.take(i - 1));
            assert(subs.take(i as int).last() == subs[i - 1]);
        }
        if node_map_contains_key(&maps[i - 1], id) {
            return Some(i - 1);
        }
        i = i - 1;
    }
    None
}

/// The nodes of a level that stay.
fn keep_nodes(m: &IndexMap<String, NodeInfo>, maps: &Vec<IndexMap<String, NodeInfo>>, drop_orphans: bool, Ghost(subs): Ghost<Seq<GraphView>>) -> (r: IndexMap<String, NodeInfo>)
    requires
        maps.len() == subs.len(),
        forall|q: int| 0 <= q < maps.len() ==> node_views(node_entries(#[trigger] maps@[q])) == all_nodes_spec(subs[q]),
    ensures
        node_views(node_entries(r)) == kept_nodes(node_views(node_entries(*m)), subs, drop_orphans),
{
    let ghost nv = node_views(node_entries(*m));
    let n = node_map_len(m);
    let mut kept = node_map_new();
    let mut i: usize = 0;
    assert(node_views(node_entries(kept)) =~= kept_nodes(nv.take(0), subs, drop_orphans));
    while i < n
        invariant
            i <= n == nv.len() == node_entries(*m).len(),
            nv == node_views(node_entries(*m)),
            maps.len() == subs.len(),
            forall|q: int| 0 <= q < maps.len() ==> node_views(node_entries(#[trigger] maps@[q])) == all_nodes_spec(subs[q]),
            node_views(node_entries(kept)) == kept_nodes(nv.take(i as int), subs, drop_orphans),
            forall|x: int| 0 <= x < node_entries(kept).len() ==> exists|y: int| 0 <= y < i && #[trigger] node_entries(kept)[x].0 == nv[y].0,
        decreases n - i,
    {
        let (k, info) = node_map_get_index(m, i).unwrap();
        proof {
            assert(nv[i as int] == (k@, info@));
            assert(nv.take(i + 1).drop_last() =~= nv.take(i as int));
        }
        let keep = !drop_orphans || group_lookup(maps, k.as_str(), Ghost(subs)).is_some();
        if keep {
            let info2 = info.duplicate();
            proof {
                lemma_node_views_insert(node_entries(kept), k@, info2);
                lemma_find_key(node_entries(kept), k@);
                if find_key(node_entries(kept), k@) >= 0 {
                    let x = find_key(node_entries(kept), k@);
                    let y = choose|y: int| 0 <= y < i && #[trigger] node_entries(kept)[x].0 == nv[y].0;
                    assert(node_entries(*m)[y].0 == nv[y].0);
                }
            }
            let ghost old_kept = node_entries(kept);
            node_map_insert(&mut kept, k.clone(), info2);
            proof {
                assert forall|x: int| 0 <= x < node_entries(kept).len() implies exists|y: int|
                    0 <= y < i + 1 && #[trigger] node_entries(kept)[x].0 == nv[y].0 by {
                    if x < old_kept.len() {
                        let y = choose|y: int| 0 <= y < i && #[trigger] old_kept[x].0 == nv[y].0;
                        assert(node_entries(kept)[x].0 == nv[y].0);
                    } else {
                        assert(node_entries(kept)[x].0 == nv[i as int].0);
                    }
                }
            }
        }
        i = i + 1;
    }
    assert(nv.take(n as int) =~= nv);
    kept
}

/// The edges of a level that stay.
fn keep_edges(edges: &Vec<Edge>, maps: &Vec<IndexMap<String, NodeInfo>>, drop_orphans: bool, Ghost(subs): Ghost<Seq<GraphView>>) -> (r: Vec<Edge>)
    requires
        maps.len() == subs.len(),
        forall|q: int| 0 <= q < maps.len() ==> node_views(node_entries(#[trigger] maps@[q])) == all_nodes_spec(subs[q]),
    ensures
        edge_views(r@) == kept_edges(edge_views(edges@), subs, drop_orphans),
{
    let ghost ev = edge_views(edges@);
    let mut out: Vec<Edge> = Vec::new();
    let mut i: usize = 0;
    assert(edge_views(out@) =~= kept_edges(ev.take(0), subs, drop_orphans));
    while i < edges.len()
        invariant
            i <= edges.len(),
            ev == edge_views(edges@),
            maps.len() == subs.len(),
            forall|q: int| 0 <= q < maps.len() ==> node_views(node_entries(#[trigger] maps@[q])) == all_nodes_spec(subs[q]),
            edge_views(out@) == kept_edges(ev.take(i as int), subs, drop_orphans),
        decreases edges.len() - i,
    {
        let e = &edges[i];
        proof {
            assert(ev.take(i + 1).drop_last() =~= ev.take(i as int));
            assert(ev.take(i + 1).last() == e@);
        }
        let f = group_lookup(maps, e.from.as_str(), Ghost(subs));
        let t = group_lookup(maps, e.to.as_str(), Ghost(subs));
        let allowed = match (f, t) {
            (Some(a), Some(b)) => a == b,
            (None, None) => !drop_orphans,
            _ => false,
        };
        if allowed {
            let ghost before = edge_views(out@);
            let d = e.duplicate();
            out.push(d);
            assert(edge_views(out@) =~= before.push(e@));
        }
        i = i + 1;
    }
    assert(ev.take(edges.len() as int) =~= ev);
    out
}

/// A copy of an optional string.
fn copy_opt(o: &Option<String>) -> (r: Option<String>)
    ensures
        crate::graph::opt_str(r) == crate::graph::opt_str(*o),
{
    match o {
        Some(s) => Some(s.clone()),
        None => None,
    }
}

/// `graph` with, at every level, the nodes and edges kept by the groups of `subs`.
fn rebuild(graph: &DepGraph, maps: &Vec<IndexMap<String, NodeInfo>>, drop_orphans: bool, Ghost(subs): Ghost<Seq<GraphView>>) -> (r: DepGraph)
    requires
        maps.len() == subs.len(),
        forall|q: int| 0 <= q < maps.len() ==> node_views(node_entries(#[trigger] maps@[q])) == all_nodes_spec(subs[q]),
    ensures
        r@ == rebuilt(graph@, subs, drop_orphans),
    decreases graph,
{
    let ghost g = graph@;
    let nodes = keep_nodes(&graph.nodes, maps, drop_orphans, Ghost(subs));
    let edges = keep_edges(&graph.edges, maps, drop_orphans, Ghost(subs));
    let mut subgraphs: Vec<DepGraph> = Vec::new();
    let mut j: usize = 0;
    while j < graph.subgraphs.len()
        invariant
            j <= graph.subgraphs.len(),
            g == graph@,
            maps.len() == subs.len(),
            forall|q: int| 0 <= q < maps.len() ==> node_views(node_entries(#[trigger] maps@[q])) == all_nodes_spec(subs[q]),
            subgraphs.len() == j,
            forall|m: int| 0 <= m < j ==> #[trigger] subgraphs@[m]@ == rebuilt(g.subgraphs[m], subs, drop_orphans),
        decreases graph.subgraphs.len() - j,
    {
        proof {
            lemma_graph_view_subgraph(*graph, j as int);
        }
        subgraphs.push(rebuild(&graph.subgraphs[j], maps, drop_orphans, Ghost(subs)));
        j = j + 1;
    }
    let r = DepGraph { id: copy_opt(&graph.id), attrs: crate::maps::str_map_clone(&graph.attrs), nodes, edges, subgraphs };
    proof {
        if graph.subgraphs@.len() > 0 {
            lemma_graph_view_subgraph(*graph, 0);
        }
        if r.subgraphs@.len() > 0 {
            lemma_graph_view_subgraph(r, 0);
        }
        assert forall|m: int| 0 <= m < r.subgraphs@.len() implies r@.subgraphs[m] == rebuilt(g, subs, drop_orphans).subgraphs[m] by {
            lemma_graph_view_subgraph(r, m);
        }
        assert(r@.subgraphs =~= rebuilt(g, subs, drop_orphans).subgraphs);
    }
    assert(r@ =~= rebuilt(g, subs, drop_orphans));
    r
}

/// `graph` sliced at every level by that level's own subgraphs.
fn slice_recursive(graph: &DepGraph, drop_orphans: bool) -> (r: DepGraph)
    ensures
        r@ == sliced_rec(graph@, drop_orphans),
    decreases graph,
{
    let ghost g = graph@;
    proof {
        if graph.subgraphs@.len() > 0 {
            lemma_graph_view_subgraph(*graph, 0);
        }
    }
    if graph.subgraphs.len() == 0 {
        return graph.duplicate();
    }
    let maps = group_maps(graph);
    let nodes = keep_nodes(&graph.nodes, &maps, drop_orphans, Ghost(g.subgraphs));
    let edges = keep_edges(&graph.edges, &maps, drop_orphans, Ghost(g.subgraphs));
    let mut subgraphs: Vec<DepGraph> = Vec::new();
    let mut j: usize = 0;
    while j < graph.subgraphs.len()
        invariant
            j <= graph.subgraphs.len(),
            g == graph@,
            subgraphs.len() == j,
            forall|m: int| 0 <= m < j ==> #[trigger] subgraphs@[m]@ == sliced_rec(g.subgraphs[m], drop_orphans),
        decreases graph.subgraphs.len() - j,
    {
        proof {
            lemma_graph_view_subgraph(*graph, j as int);
        }
        subgraphs.push(slice_recursive(&graph.subgraphs[j], drop_orphans));
        j = j + 1;
    }
    let r = DepGraph { id: copy_opt(&graph.id), attrs: crate::maps::str_map_clone(&graph.attrs), nodes, edges, subgraphs };
    proof {
        if r.subgraphs@.len() > 0 {
            lemma_graph_view_subgraph(r, 0);
        }
        assert forall|m: int| 0 <= m < r.subgraphs@.len() implies r@.subgraphs[m] == sliced_rec(g, drop_orphans).subgraphs[m] by {
            lemma_graph_view_subgraph(r, m);
        }
        assert(r@.subgraphs =~= sliced_rec(g, drop_orphans).subgraphs);
    }
    assert(r@ =~= sliced_rec(g, drop_orphans));
    r
}

/// Remove the edges that cross subgraph boundaries: an edge stays when both
/// ends lie in the same top-level subgraph (at any depth), or, unless orphans
/// are dropped, in none. Dropping orphans also removes the nodes outside
/// every subgraph. Recursive slicing applies the same at every level, each
/// level grouping by its own subgraphs.
pub fn slice(graph: &DepGraph, args: &SliceArgs) -> (r: DepGraph)
    ensures
        r@ == sliced(graph@, *args),
{
    if args.recursive {
        slice_recursive(graph, args.drop_orphans)
    } else {
        let maps = group_maps(graph);
        rebuild(graph, &maps, args.drop_orphans, Ghost(graph@.subgraphs))
    }
}

} // verus!
