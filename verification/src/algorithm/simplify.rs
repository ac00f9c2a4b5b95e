//! Transitive reduction: dropping the edges that other paths make redundant.
use indexmap::IndexMap;
use vstd::prelude::*;

use crate::algorithm::merge::graph_views;
use crate::flat::{flat_edges, FlatGraphView};
use crate::graph::{
    all_nodes_spec, collect_edges, edge_views, lemma_graph_view_subgraph, DepGraph, Edge, EdgeView,
    GraphView,
};
use crate::maps::{keys_of, pair_map_get, pair_map_insert, pair_map_new, pair_positions, str_map_clone, str_views};
use crate::pg::{
    index_limit, linked, list_adj, list_neighbors, list_reduction, list_rel, pg_edges, pg_node_count,
    pg_toposort, pg_toposorted_list, reduces, topo_order,
};

verus! {

/// Why a graph cannot be simplified.
#[derive(Clone, Copy, Debug, PartialEq, Eq, Structural)]
pub enum SimplifyError {
    /// The graph has a cycle; transitive reduction needs a DAG.
    Cycle,
}

impl SimplifyError {
    /// The error message.
    pub fn to_string(&self) -> (r: String)
        ensures
            r@ == "graph contains cycles; transitive reduction requires a DAG. Use `depfilter cycles` to identify them."@,
    {
        match self {
            SimplifyError::Cycle => "graph contains cycles; transitive reduction requires a DAG. Use `depfilter cycles` to identify them.".to_owned(),
        }
    }
}

/// The edges of the flat graph, renumbered by rank in `order`.
pub open spec fn ranked_rel(edges: Seq<(usize, usize)>, order: Seq<usize>) -> spec_fn(usize, usize) -> bool {
    |x: usize, y: usize| x < order.len() && y < order.len() && linked(edges, order[x as int], order[y as int], true)
}

/// The endpoint ids of the edges in the transitive reduction of the flat graph.
pub open spec fn kept_pairs(ids: Seq<Seq<char>>, order: Seq<usize>, edges: Seq<(usize, usize)>) -> Set<(Seq<char>, Seq<char>)> {
    Set::new(
        |p: (Seq<char>, Seq<char>)|
            exists|x: usize, y: usize|
                #![trigger reduces(ranked_rel(edges, order), order.len(), x, y)]
                x < order.len() && y < order.len() && reduces(ranked_rel(edges, order), order.len(), x, y) && p == (
                    ids[order[x as int] as int],
                    ids[order[y as int] as int],
                ),
    )
}

/// The edges of `es` whose endpoints are in `keep`, in order.
pub open spec fn edges_with(es: Seq<EdgeView>, keep: Set<(Seq<char>, Seq<char>)>) -> Seq<EdgeView>
    decreases es.len(),
{
    if es.len() == 0 {
        seq![]
    } else if keep.contains((es.last().from, es.last().to)) {
        edges_with(es.drop_last(), keep).push(es.last())
    } else {
        edges_with(es.drop_last(), keep)
    }
}

/// `g` with, at every level, only the edges whose endpoints are in `keep`.
pub open spec fn keep_edges(g: GraphView, keep: Set<(Seq<char>, Seq<char>)>) -> GraphView
    decreases g, 0nat,
{
    GraphView {
        edges: edges_with(g.edges, keep),
        subgraphs: keep_subs(g.subgraphs, g.subgraphs.len(), keep),
        ..g
    }
}

pub open spec fn keep_subs(sgs: Seq<GraphView>, n: nat, keep: Set<(Seq<char>, Seq<char>)>) -> Seq<GraphView>
    decreases sgs, n,
{
    if n == 0 || n > sgs.len() {
        seq![]
    } else {
        keep_subs(sgs, (n - 1) as nat, keep).push(keep_edges(sgs[n - 1], keep))
    }
}

/// The simplified graph, or `None` for a graph with a cycle.
pub open spec fn simplify_spec(g: GraphView) -> Option<GraphView> {
    let ns = all_nodes_spec(g);
    let es = flat_edges(ns, collect_edges(g));
    match topo_order(ns.len(), es) {
        None => None,
        Some(order) => Some(keep_edges(g, kept_pairs(keys_of(ns), order, es))),
    }
}

fn keep_graph(graph: &DepGraph, keep: &IndexMap<(String, String), usize>) -> (r: DepGraph)
    ensures
        r@ == keep_edges(graph@, pair_positions(*keep).dom()),
    decreases graph,
{
    let ghost k = pair_positions(*keep).dom();
    let ghost ev = edge_views(graph.edges@);
    let mut edges: Vec<Edge> = Vec::new();
    let mut i: usize = 0;
    assert(ev.take(0) =~= Seq::<EdgeView>::empty());
    assert(edge_views(edges@) =~= Seq::<EdgeView>::empty());
    while i < graph.edges.len()
        invariant
            i <= graph.edges@.len() == ev.len(),
            ev == edge_views(graph.edges@),
            k == pair_positions(*keep).dom(),
            edge_views(edges@) == edges_with(ev.take(i as int), k),
        decreases graph.edges@.len() - i,
    {
        let e = &graph.edges[i];
        assert(ev.take(i + 1).drop_last() =~= ev.take(i as int));
        assert(ev.take(i + 1).last() == e@);
        if pair_map_get(keep, e.from.as_str(), e.to.as_str()).is_some() {
            let ghost before = edge_views(edges@);
            edges.push(e.duplicate());
            assert(edge_views(edges@) =~= before.push(e@));
        }
        i = i + 1;
    }
    assert(ev.take(graph.edges@.len() as int) =~= ev);
    let mut subgraphs: Vec<DepGraph> = Vec::new();
    let mut j: usize = 0;
    while j < graph.subgraphs.len()
        invariant
            j <= graph.subgraphs@.len() == graph@.subgraphs.len(),
            k == pair_positions(*keep).dom(),
            graph_views(subgraphs@) == keep_subs(graph@.subgraphs, j as nat, k),
        decreases graph.subgraphs@.len() - j,
    {
        proof {
            lemma_graph_view_subgraph(*graph, j as int);
        }
        let sg = keep_graph(&graph.subgraphs[j], keep);
        let ghost before = graph_views(subgraphs@);
        subgraphs.push(sg);
        assert(graph_views(subgraphs@) =~= before.push(sg@));
        j = j + 1;
    }
    let id = match &graph.id {
        Some(s) => Some(s.clone()),
        None => None,
    };
    let nodes = crate::graph::copy_node_map(&graph.nodes);
    let r = DepGraph { id, attrs: str_map_clone(&graph.attrs), nodes, edges, subgraphs };
    assert(r@.subgraphs =~= graph_views(subgraphs@));
    r
}

/// Removes redundant edges by transitive reduction.
///
/// An edge `a -> c` is redundant when another path leads from `a` to `c`
/// (such as `a -> b -> c`); only the edges of the transitive reduction of the
/// flattened graph stay, at whatever level they stand. Edges with an endpoint
/// that is not a node are dropped too. Only a DAG can be simplified: a graph
/// with a cycle gives [`SimplifyError::Cycle`].
pub fn simplify(graph: &DepGraph) -> (r: Result<DepGraph, SimplifyError>)
    requires
        all_nodes_spec(graph@).len() < index_limit(),
        collect_edges(graph@).len() < index_limit(),
    ensures
        match simplify_spec(graph@) {
            None => r == Err::<DepGraph, SimplifyError>(SimplifyError::Cycle),
            Some(g) => r matches Ok(s) && s@ == g,
        },
{
    let view = FlatGraphView::new(graph);
    let ghost ns = view.nodes();
    let ghost es = view.edges();
    let ghost ids = keys_of(ns);
    let sorted = match pg_toposort(&view.pg) {
        Some(s) => s,
        None => {
            return Err(SimplifyError::Cycle);
        },
    };
    let ghost order = sorted@;
    let n = sorted.len();
    assert(str_views(view.idx_to_id@).len() == view.idx_to_id@.len());
    assert(ids.len() == ns.len());
    let adj = pg_toposorted_list(&view.pg, &sorted);
    let red = list_reduction(&adj);
    let ghost rel = ranked_rel(es, order);
    assert(list_rel(list_adj(adj)) =~= rel) by {
        assert forall|x: usize, y: usize| #[trigger] list_rel(list_adj(adj))(x, y) == rel(x, y) by {
            if x < n && y < n {
                assert(list_adj(adj)[x as int].contains(y) == linked(es, order[x as int], order[y as int], true));
            }
            if x < n && y >= n && list_adj(adj)[x as int].contains(y) {
                let kk = choose|kk: int| 0 <= kk < list_adj(adj)[x as int].len() && list_adj(adj)[x as int][kk] == y;
                assert(list_adj(adj)[x as int][kk] < list_adj(adj).len());
            }
        }
    }
    let mut keep = pair_map_new();
    let mut x: usize = 0;
    while x < n
        invariant
            x <= n == order.len() == list_adj(red).len(),
            order == sorted@,
            ids == str_views(view.idx_to_id@),
            ids.len() == n,
            forall|k: int| 0 <= k < order.len() ==> #[trigger] order[k] < n,
            forall|a: int, k: int| 0 <= a < list_adj(red).len() && 0 <= k < list_adj(red)[a].len() ==> #[trigger] list_adj(red)[a][k] < list_adj(red).len(),
            forall|p: (Seq<char>, Seq<char>)|
                #[trigger] pair_positions(keep).dom().contains(p) <==> exists|a: usize, b: usize|
                    #![trigger list_adj(red)[a as int].contains(b)]
                    a < x && list_adj(red)[a as int].contains(b) && p == (ids[order[a as int] as int], ids[order[b as int] as int]),
        decreases n - x,
    {
        let nb = list_neighbors(&red, x);
        let mut k: usize = 0;
        while k < nb.len()
            invariant
                k <= nb@.len(),
                x < n == order.len() == list_adj(red).len(),
                nb@ == list_adj(red)[x as int],
                order == sorted@,
                ids == str_views(view.idx_to_id@),
                ids.len() == n,
                forall|j: int| 0 <= j < order.len() ==> #[trigger] order[j] < n,
                forall|a: int, j: int| 0 <= a < list_adj(red).len() && 0 <= j < list_adj(red)[a].len() ==> #[trigger] list_adj(red)[a][j] < list_adj(red).len(),
                forall|p: (Seq<char>, Seq<char>)|
                    #[trigger] pair_positions(keep).dom().contains(p) <==> (exists|a: usize, b: usize|
                        #![trigger list_adj(red)[a as int].contains(b)]
                        a < x && list_adj(red)[a as int].contains(b) && p == (ids[order[a as int] as int], ids[order[b as int] as int]))
                        || (exists|j: int| 0 <= j < k && p == (ids[order[x as int] as int], ids[order[nb@[j] as int] as int])),
            decreases nb@.len() - k,
        {
            let y = nb[k];
            assert(y < n);
            let from = view.idx_to_id[sorted[x]].clone();
            let to = view.idx_to_id[sorted[y]].clone();
            let ghost pk = (from@, to@);
            assert(pk == (ids[order[x as int] as int], ids[order[y as int] as int]));
            let ghost old_dom = pair_positions(keep).dom();
            pair_map_insert(&mut keep, from, to, 0);
            assert forall|p: (Seq<char>, Seq<char>)|
                #[trigger] pair_positions(keep).dom().contains(p) <==> (exists|a: usize, b: usize|
                    #![trigger list_adj(red)[a as int].contains(b)]
                    a < x && list_adj(red)[a as int].contains(b) && p == (ids[order[a as int] as int], ids[order[b as int] as int]))
                    || (exists|j: int| 0 <= j < k + 1 && p == (ids[order[x as int] as int], ids[order[nb@[j] as int] as int])) by {
                if p == pk {
                    assert(0 <= k < k + 1 && p == (ids[order[x as int] as int], ids[order[nb@[k as int] as int] as int]));
                } else {
                    assert(old_dom.contains(p) == pair_positions(keep).dom().contains(p));
                    if exists|j: int| 0 <= j < k + 1 && p == (ids[order[x as int] as int], ids[order[nb@[j] as int] as int]) {
                        let j = choose|j: int| 0 <= j < k + 1 && p == (ids[order[x as int] as int], ids[order[nb@[j] as int] as int]);
                        assert(j < k);
                    }
                }
            }
            k = k + 1;
        }
        assert forall|p: (Seq<char>, Seq<char>)|
            #[trigger] pair_positions(keep).dom().contains(p) <==> exists|a: usize, b: usize|
                #![trigger list_adj(red)[a as int].contains(b)]
                a < x + 1 && list_adj(red)[a as int].contains(b) && p == (ids[order[a as int] as int], ids[order[b as int] as int]) by {
            if exists|j: int| 0 <= j < nb@.len() && p == (ids[order[x as int] as int], ids[order[nb@[j] as int] as int]) {
                let j = choose|j: int| 0 <= j < nb@.len() && p == (ids[order[x as int] as int], ids[order[nb@[j] as int] as int]);
                assert(list_adj(red)[x as int].contains(nb@[j]));
            }
            if exists|a: usize, b: usize| a < x + 1 && list_adj(red)[a as int].contains(b) && p == (ids[order[a as int] as int], ids[order[b as int] as int]) {
                let (a, b) = choose|a: usize, b: usize| a < x + 1 && list_adj(red)[a as int].contains(b) && p == (ids[order[a as int] as int], ids[order[b as int] as int]);
                if a == x {
                    let j = choose|j: int| 0 <= j < nb@.len() && nb@[j] == b;
                    assert(p == (ids[order[x as int] as int], ids[order[nb@[j] as int] as int]));
                }
            }
        }
        x = x + 1;
    }
    assert(pair_positions(keep).dom() =~= kept_pairs(ids, order, es)) by {
        assert forall|p: (Seq<char>, Seq<char>)| pair_positions(keep).dom().contains(p) == kept_pairs(ids, order, es).contains(p) by {
            if pair_positions(keep).dom().contains(p) {
                let (a, b) = choose|a: usize, b: usize| a < n && list_adj(red)[a as int].contains(b) && p == (ids[order[a as int] as int], ids[order[b as int] as int]);
                let j = choose|j: int| 0 <= j < list_adj(red)[a as int].len() && list_adj(red)[a as int][j] == b;
                assert(b < n);
                assert(reduces(rel, n as nat, a, b));
            }
            if kept_pairs(ids, order, es).contains(p) {
                let (a, b) = choose|a: usize, b: usize| a < n && b < n && reduces(rel, n as nat, a, b) && p == (ids[order[a as int] as int], ids[order[b as int] as int]);
                assert(list_adj(red)[a as int].contains(b));
            }
        }
    }
    Ok(keep_graph(graph, &keep))
}

} // verus!
