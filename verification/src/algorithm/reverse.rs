//! Reversing every edge.
use vstd::prelude::*;

use crate::graph::{
    copy_node_map, edge_views, lemma_graph_view_subgraph, DepGraph, Edge, EdgeView, GraphView,
};
use crate::maps::str_map_clone;

verus! {

/// An edge pointing the other way, with its label and attributes kept.
pub open spec fn flip(e: EdgeView) -> EdgeView {
    EdgeView { from: e.to, to: e.from, label: e.label, attrs: e.attrs }
}

/// `g` with every edge, at every subgraph level, reversed.
pub open spec fn reverse_view(g: GraphView) -> GraphView
    decreases g,
{
    GraphView {
        id: g.id,
        attrs: g.attrs,
        nodes: g.nodes,
        edges: g.edges.map_values(|e: EdgeView| flip(e)),
        subgraphs: Seq::new(
            g.subgraphs.len(),
            |i: int|
                if 0 <= i < g.subgraphs.len() {
                    reverse_view(g.subgraphs[i])
                } else {
                    arbitrary()
                },
        ),
    }
}

/// Reversing twice gives back the graph.
pub proof fn lemma_reverse_involution(g: GraphView)
    ensures
        reverse_view(reverse_view(g)) == g,
    decreases g,
{
    let r = reverse_view(reverse_view(g));
    assert(r.edges =~= g.edges);
    assert forall|i: int| 0 <= i < g.subgraphs.len() implies r.subgraphs[i] == g.subgraphs[i] by {
        lemma_reverse_involution(g.subgraphs[i]);
    }
    assert(r.subgraphs =~= g.subgraphs);
}

fn reverse_inner(graph: &DepGraph) -> (r: DepGraph)
    ensures
        r@ == reverse_view(graph@),
    decreases graph,
{
    let id = match &graph.id {
        Some(s) => Some(s.clone()),
        None => None,
    };
    let mut edges: Vec<Edge> = Vec::new();
    let mut i: usize = 0;
    while i < graph.edges.len()
        invariant
            i <= graph.edges@.len(),
            edge_views(edges@) == edge_views(graph.edges@.take(i as int)).map_values(|e: EdgeView| flip(e)),
        decreases graph.edges@.len() - i,
    {
        let e = &graph.edges[i];
        let f = e.duplicate();
        let flipped = Edge { from: f.to, to: f.from, label: f.label, attrs: f.attrs };
        let ghost before = edges@;
        edges.push(flipped);
        assert(edge_views(edges@) =~= edge_views(before).push(flip(e@)));
        assert(edge_views(graph.edges@.take(i + 1)) =~= edge_views(graph.edges@.take(i as int)).push(e@));
        i = i + 1;
        assert(edge_views(edges@) =~= edge_views(graph.edges@.take(i as int)).map_values(|e: EdgeView| flip(e)));
    }
    assert(graph.edges@.take(graph.edges@.len() as int) =~= graph.edges@);
    let mut subgraphs: Vec<DepGraph> = Vec::new();
    let mut j: usize = 0;
    while j < graph.subgraphs.len()
        invariant
            j <= graph.subgraphs@.len(),
            subgraphs@.len() == j,
            forall|k: int| 0 <= k < j ==> #[trigger] subgraphs@[k]@ == reverse_view(graph.subgraphs@[k]@),
        decreases graph.subgraphs@.len() - j,
    {
        subgraphs.push(reverse_inner(&graph.subgraphs[j]));
        j = j + 1;
    }
    let r = DepGraph { id, attrs: str_map_clone(&graph.attrs), nodes: copy_node_map(&graph.nodes), edges, subgraphs };
    assert forall|k: int| 0 <= k < graph.subgraphs@.len() implies r@.subgraphs[k] == reverse_view(graph@).subgraphs[k] by {
        lemma_graph_view_subgraph(r, k);
        lemma_graph_view_subgraph(*graph, k);
    }
    assert(r@.subgraphs =~= reverse_view(graph@).subgraphs);
    assert(r@.edges =~= reverse_view(graph@).edges);
    r
}

/// Reverse the direction of every edge in the graph, at every subgraph
/// level. Node data, edge labels and attributes, and the subgraph structure
/// are kept.
pub fn reverse(graph: &DepGraph) -> (r: DepGraph)
    ensures
        r@ == reverse_view(graph@),
{
    reverse_inner(graph)
}

} // verus!
